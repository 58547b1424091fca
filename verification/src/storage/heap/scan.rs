//! Sequential scan over the records of a heap file.
use vstd::prelude::*;

use crate::storage::access::iterator::{Record, TableIterator};
use crate::storage::buffer_pool::frame::PageId;
use crate::storage::heap::HeapFile;
use crate::storage::page::slotted_page::{slot_count, slot_len, slot_record, SlotId};

verus! {

/// The position (page, slot) of the first non-empty record at or after
/// slot `sid` of page `pid`, in page order then slot order.
pub open spec fn scan_next(pages: Seq<Seq<u8>>, pid: int, sid: int) -> Option<(int, int)>
    decreases pages.len() - pid, 65536 - sid,
{
    if pid < 0 || pid >= pages.len() || sid < 0 || sid > 65535 {
        None
    } else if sid >= slot_count(pages[pid]) {
        scan_next(pages, pid + 1, 0)
    } else if slot_len(pages[pid], sid) == 0 {
        scan_next(pages, pid, sid + 1)
    } else {
        Some((pid, sid))
    }
}

/// The non-empty records from slot `sid` of page `pid` on, in page order
/// then slot order.
pub open spec fn records_from(pages: Seq<Seq<u8>>, pid: int, sid: int) -> Seq<Seq<u8>>
    decreases pages.len() - pid, 65536 - sid,
{
    if pid < 0 || pid >= pages.len() || sid < 0 || sid > 65535 {
        Seq::empty()
    } else if sid >= slot_count(pages[pid]) {
        records_from(pages, pid + 1, 0)
    } else if slot_len(pages[pid], sid) == 0 {
        records_from(pages, pid, sid + 1)
    } else {
        seq![slot_record(pages[pid], sid)] + records_from(pages, pid, sid + 1)
    }
}

/// One scan step from (`pid`, `sid`) hands out the first of the records
/// still to come and moves to where the rest of them starts; when none is
/// left it finds nothing. So a scan from the start hands out, one per step,
/// exactly the non-empty records of the file in page order then slot order.
pub proof fn lemma_scan_step_takes_first(pages: Seq<Seq<u8>>, pid: int, sid: int)
    ensures
        match scan_next(pages, pid, sid) {
            Some(pos) => records_from(pages, pid, sid) == seq![slot_record(pages[pos.0], pos.1)] + records_from(
                pages,
                pos.0,
                pos.1 + 1,
            ),
            None => records_from(pages, pid, sid) == Seq::<Seq<u8>>::empty(),
        },
    decreases pages.len() - pid, 65536 - sid,
{
    if pid < 0 || pid >= pages.len() || sid < 0 || sid > 65535 {
    } else if sid >= slot_count(pages[pid]) {
        lemma_scan_step_takes_first(pages, pid + 1, 0);
    } else if slot_len(pages[pid], sid) == 0 {
        lemma_scan_step_takes_first(pages, pid, sid + 1);
    }
}

/// The position a scan reaches after `k` steps from (`pid`, `sid`), as
/// long as each step finds a record: just after the record it found.
pub open spec fn scan_position(pages: Seq<Seq<u8>>, pid: int, sid: int, k: nat) -> (int, int)
    decreases k,
{
    if k == 0 {
        (pid, sid)
    } else {
        let p = scan_position(pages, pid, sid, (k - 1) as nat);
        match scan_next(pages, p.0, p.1) {
            Some(q) => (q.0, q.1 + 1),
            None => p,
        }
    }
}

/// From the position reached after `k` steps, the records still to come
/// are those of `records_from` after its first `k`.
proof fn lemma_scan_position_rest(pages: Seq<Seq<u8>>, pid: int, sid: int, k: nat)
    requires
        k <= records_from(pages, pid, sid).len(),
    ensures
        ({
            let p = scan_position(pages, pid, sid, k);
            records_from(pages, p.0, p.1) == records_from(pages, pid, sid).subrange(k as int, records_from(pages, pid, sid).len() as int)
        }),
    decreases k,
{
    let all = records_from(pages, pid, sid);
    if k == 0 {
        assert(all.subrange(0, all.len() as int) =~= all);
    } else {
        lemma_scan_position_rest(pages, pid, sid, (k - 1) as nat);
        let p = scan_position(pages, pid, sid, (k - 1) as nat);
        lemma_scan_step_takes_first(pages, p.0, p.1);
        let rest = all.subrange(k - 1, all.len() as int);
        assert(rest.len() > 0);
        match scan_next(pages, p.0, p.1) {
            Some(q) => {
                let tail = records_from(pages, q.0, q.1 + 1);
                assert(rest == seq![slot_record(pages[q.0], q.1)] + tail);
                assert(tail =~= all.subrange(k as int, all.len() as int)) by {
                    assert forall|i: int| 0 <= i < tail.len() implies tail[i] == all[k + i] by {
                        assert(rest[i + 1] == tail[i]);
                    }
                }
            },
            None => {},
        }
    }
}

/// A scan from (`pid`, `sid`) hands out the records of `records_from`,
/// one per step and in that order, and after the last of them finds none.
pub proof fn lemma_scan_yields_records_in_order(pages: Seq<Seq<u8>>, pid: int, sid: int)
    ensures
        ({
            let all = records_from(pages, pid, sid);
            &&& forall|k: nat| #![trigger scan_position(pages, pid, sid, k)] k < all.len() ==> {
                let p = scan_position(pages, pid, sid, k);
                scan_next(pages, p.0, p.1) matches Some(q) && slot_record(pages[q.0], q.1) == all[k as int]
            }
            &&& ({
                let p = scan_position(pages, pid, sid, all.len());
                scan_next(pages, p.0, p.1) is None
            })
        }),
{
    let all = records_from(pages, pid, sid);
    assert forall|k: nat| #![trigger scan_position(pages, pid, sid, k)] k < all.len() implies {
        let p = scan_position(pages, pid, sid, k);
        scan_next(pages, p.0, p.1) matches Some(q) && slot_record(pages[q.0], q.1) == all[k as int]
    } by {
        lemma_scan_position_rest(pages, pid, sid, k);
        let p = scan_position(pages, pid, sid, k);
        lemma_scan_step_takes_first(pages, p.0, p.1);
        let rest = all.subrange(k as int, all.len() as int);
        assert(rest[0] == all[k as int]);
    }
    lemma_scan_position_rest(pages, pid, sid, all.len());
    let p = scan_position(pages, pid, sid, all.len());
    lemma_scan_step_takes_first(pages, p.0, p.1);
    let e = records_from(pages, p.0, p.1);
    assert(e.len() == 0);
    if let Some(q) = scan_next(pages, p.0, p.1) {
        assert((seq![slot_record(pages[q.0], q.1)] + records_from(pages, q.0, q.1 + 1)).len() > 0);
    }
}

/// Every non-empty record at or after position (`pid`, `sid`) is among
/// the records from there on.
pub proof fn lemma_records_from_contains(pages: Seq<Seq<u8>>, pid: int, sid: int, p: int, s: int)
    requires
        0 <= p < pages.len(),
        0 <= s < slot_count(pages[p]),
        slot_len(pages[p], s) > 0,
        0 <= pid,
        0 <= sid <= 65535,
        pid < p || (pid == p && sid <= s),
    ensures
        records_from(pages, pid, sid).contains(slot_record(pages[p], s)),
    decreases pages.len() - pid, 65536 - sid,
{
    let rec = slot_record(pages[p], s);
    if sid >= slot_count(pages[pid]) {
        lemma_records_from_contains(pages, pid + 1, 0, p, s);
    } else if slot_len(pages[pid], sid) == 0 {
        lemma_records_from_contains(pages, pid, sid + 1, p, s);
    } else if pid == p && sid == s {
        assert((seq![rec] + records_from(pages, pid, sid + 1))[0] == rec);
    } else {
        lemma_records_from_contains(pages, pid, sid + 1, p, s);
        let rest = records_from(pages, pid, sid + 1);
        let i = choose|i: int| 0 <= i < rest.len() && rest[i] == rec;
        assert((seq![slot_record(pages[pid], sid)] + rest)[i + 1] == rec);
    }
}

/// A step from position (`pid`, `sid`) never moves the page number past
/// what a `PageId` can hold.
pub open spec fn scan_stays_in_range(pages: Seq<Seq<u8>>, pid: int, sid: int) -> bool {
    pages.len() <= 65535 || match scan_next(pages, pid, sid) {
        Some(pos) => pos.0 <= 65535,
        None => false,
    }
}

proof fn lemma_scan_next_ahead(pages: Seq<Seq<u8>>, pid: int, sid: int)
    ensures
        scan_next(pages, pid, sid) matches Some(pos) ==> pos.0 >= pid,
    decreases pages.len() - pid, 65536 - sid,
{
    if pid < 0 || pid >= pages.len() || sid < 0 || sid > 65535 {
    } else if sid >= slot_count(pages[pid]) {
        lemma_scan_next_ahead(pages, pid + 1, 0);
    } else if slot_len(pages[pid], sid) == 0 {
        lemma_scan_next_ahead(pages, pid, sid + 1);
    }
}

pub struct HeapFileScan<'heap> {
    heap_file: &'heap HeapFile,
    page_id: PageId,
    slot_id: SlotId,
}

impl<'heap> HeapFileScan<'heap> {
    /// The heap file being scanned.
    pub closed spec fn heap(&self) -> HeapFile {
        *self.heap_file
    }

    /// The next position the scan looks at: (page, slot).
    pub closed spec fn position(&self) -> (int, int) {
        (self.page_id as int, self.slot_id as int)
    }

    pub fn new(heap_file: &'heap HeapFile) -> (scan: Self)
        ensures
            scan.heap() == *heap_file,
            scan.position() == (0int, 0int),
    {
        Self { heap_file, page_id: 0, slot_id: 0 }
    }
}

impl<'heap> TableIterator<'heap> for HeapFileScan<'heap> {
    open spec fn can_advance(&self) -> bool {
        &&& self.heap().wf()
        &&& scan_stays_in_range(self.heap().state().pages, self.position().0, self.position().1)
    }

    /// The next non-empty record, in page order then slot order.
    fn next(&mut self) -> (result: Option<Record<'heap>>)
        ensures
            final(self).heap() == old(self).heap(),
            ({
                let pages = old(self).heap().state().pages;
                let (pid, sid) = old(self).position();
                match scan_next(pages, pid, sid) {
                    Some(pos) => {
                        &&& result is Some
                        &&& result->0@ == slot_record(pages[pos.0], pos.1)
                        &&& final(self).position() == (pos.0, pos.1 + 1)
                    },
                    None => {
                        &&& result is None
                        &&& final(self).position() == if pid < pages.len() {
                            (pages.len() as int, 0int)
                        } else {
                            (pid, sid)
                        }
                    },
                }
            }),
    {
        let ghost pages = self.heap().state().pages;
        let ghost start = old(self).position();
        loop
            invariant
                self.heap() == old(self).heap(),
                self.heap().wf(),
                pages == self.heap().state().pages,
                scan_next(pages, self.position().0, self.position().1) == scan_next(pages, start.0, start.1),
                scan_stays_in_range(pages, self.position().0, self.position().1),
                start.0 < pages.len() ==> self.position().0 < pages.len() || self.position() == (pages.len() as int, 0int),
                start.0 >= pages.len() ==> self.position() == start,
                start == old(self).position(),
            decreases pages.len() - self.page_id, 65536 - self.slot_id,
        {
            let page_id = self.page_id as usize;
            let slot_id = self.slot_id;
            let total_pages = self.heap_file.page_count();
            if page_id >= total_pages {
                return None;
            }
            let page = match self.heap_file.get_page(page_id as PageId) {
                Ok(page) => page,
                Err(_) => return None,
            };
            proof {
                assert(self.heap().page_seq()[page_id as int].wf());
                assert(page.bytes() == pages[page_id as int]);
            }
            if slot_id >= page.get_slot_count() {
                proof {
                    lemma_scan_next_ahead(pages, page_id as int + 1, 0);
                }
                self.page_id += 1;
                self.slot_id = 0;
                continue;
            }
            proof {
                assert(crate::storage::page::slotted_page::slot_readable(page.bytes(), slot_id as int));
            }
            self.slot_id += 1;
            let data = page.get(slot_id);
            if data.len() == 0 {
                continue;
            }
            return Some(data);
        }
    }
}

} // verus!
