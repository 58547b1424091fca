//! An adapter that hands out owned copies of the records of a scan.
use vstd::prelude::*;

use crate::storage::access::iterator::TableIterator;
use crate::storage::heap::scan::{
    lemma_scan_yields_records_in_order, records_from, scan_next, scan_position, HeapFileScan,
};
use crate::storage::page::slotted_page::slot_record;

verus! {

pub struct OwnedAdapter<'heap> {
    inner: HeapFileScan<'heap>,
}

impl<'heap> OwnedAdapter<'heap> {
    /// The scan that the adapter copies records from.
    pub closed spec fn scan(&self) -> HeapFileScan<'heap> {
        self.inner
    }

    pub fn new(inner: HeapFileScan<'heap>) -> (adapter: Self)
        ensures
            adapter.scan() == inner,
    {
        Self { inner }
    }

    /// A copy of the next non-empty record of the scan.
    pub fn next(&mut self) -> (result: Option<Vec<u8>>)
        requires
            old(self).scan().can_advance(),
        ensures
            final(self).scan().heap() == old(self).scan().heap(),
            ({
                let pages = old(self).scan().heap().state().pages;
                let (pid, sid) = old(self).scan().position();
                match scan_next(pages, pid, sid) {
                    Some(pos) => {
                        &&& result is Some
                        &&& result->0@ == slot_record(pages[pos.0], pos.1)
                        &&& final(self).scan().position() == (pos.0, pos.1 + 1)
                    },
                    None => {
                        &&& result is None
                        &&& final(self).scan().position() == if pid < pages.len() {
                            (pages.len() as int, 0int)
                        } else {
                            (pid, sid)
                        }
                    },
                }
            }),
    {
        match self.inner.next() {
            Some(record) => Some(vstd::slice::slice_to_vec(record)),
            None => None,
        }
    }
}

/// An adapter over a scan that starts at (`pid`, `sid`) of `pages` hands
/// out, one per call of `next` and in order, copies of the non-empty
/// records from there on (`records_from`), and after the last of them
/// `None`: each call of `next` moves to the position after the record it
/// copied, as one scan step does.
pub proof fn lemma_owned_adapter_yields_copies(pages: Seq<Seq<u8>>, pid: int, sid: int)
    ensures
        ({
            let all = records_from(pages, pid, sid);
            &&& forall|k: nat| #![trigger scan_position(pages, pid, sid, k)] k < all.len() ==> {
                let p = scan_position(pages, pid, sid, k);
                scan_next(pages, p.0, p.1) matches Some(q) && slot_record(pages[q.0], q.1) == all[k as int]
            }
            &&& ({
                let p = scan_position(pages, pid, sid, all.len());
                scan_next(pages, p.0, p.1) is None
            })
        }),
{
    lemma_scan_yields_records_in_order(pages, pid, sid);
}

} // verus!
