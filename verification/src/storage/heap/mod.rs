//! A heap file: an unordered collection of slotted pages, with a free-space
//! map that points insertions to a page with room.
use vstd::prelude::*;

pub mod scan;

use std::collections::HashSet;

use crate::storage::access::owned::OwnedAdapter;
use crate::storage::buffer_pool::frame::PageId;
use crate::storage::heap::scan::{lemma_records_from_contains, records_from, HeapFileScan};
use crate::storage::fsm::tree::{
    bucket_of, first_qualifying, qualifies, reaches, subtree_pages, Bucket, FreeSpaceMap,
    FreeSpaceMapError,
};
use crate::storage::page::slotted_page::{
    empty_page_bytes, free_space, inserted_bytes, lemma_empty_page, lemma_insert, page_wf, slot_count, SlottedPage, SlottedPageError,
    MAX_AVAILABLE_SLOTTED_PAGE_SPACE, SLOT_SIZE,
};

verus! {

broadcast use vstd::std_specs::hash::group_hash_axioms;

#[derive(Debug, PartialEq, Eq, Structural)]
pub enum HeapFileError {
    InvalidPageId,
    FreeSpaceMapError(FreeSpaceMapError),
    HeapFileFull,
    SlottedPageError(SlottedPageError),
    NoPageFoundForInsertion,
    InsufficientPageSpace,
}

/// What a heap file holds: the bytes of each page, and the bucket the
/// free-space map records for each page number.
pub struct HeapState {
    pub pages: Seq<Seq<u8>>,
    pub buckets: Seq<Option<Bucket>>,
}

/// The state and result after inserting `r` into page `pid`: refused when
/// there is no such page or the record does not fit; otherwise the page
/// takes the record and the map records the page's new bucket (refused,
/// after the page took the record, when the map does not know the page).
pub open spec fn insert_page_outcome(st: HeapState, pid: int, r: Seq<u8>) -> (HeapState, Result<(), HeapFileError>) {
    if pid >= st.pages.len() {
        (st, Err(HeapFileError::InvalidPageId))
    } else if r.len() + SLOT_SIZE > free_space(st.pages[pid]) {
        (st, Err(HeapFileError::SlottedPageError(SlottedPageError::OutOfSpace)))
    } else {
        let np = inserted_bytes(st.pages[pid], r);
        let pages = st.pages.update(pid, np);
        if st.buckets[pid] is None {
            (HeapState { pages, buckets: st.buckets }, Err(HeapFileError::FreeSpaceMapError(FreeSpaceMapError::PageDoesNotExist)))
        } else {
            (
                HeapState { pages, buckets: st.buckets.update(pid, Some(bucket_of(free_space(np)) as Bucket)) },
                Ok(()),
            )
        }
    }
}

/// The state and result after adding a page: refused when the file is at
/// capacity; otherwise an empty page is appended and registered in the map
/// under the number of pages (as a `PageId`).
pub open spec fn create_page_outcome(st: HeapState, cap: int) -> (HeapState, Result<PageId, HeapFileError>) {
    if st.pages.len() >= cap {
        (st, Err(HeapFileError::HeapFileFull))
    } else {
        let pid = st.pages.len() as PageId;
        (
            HeapState {
                pages: st.pages.push(empty_page_bytes()),
                buckets: st.buckets.update(pid as int, Some(bucket_of(free_space(empty_page_bytes())) as Bucket)),
            },
            Ok(pid),
        )
    }
}

/// Page `x` exists and has fewer than `req` free bytes.
pub open spec fn too_full(st: HeapState, x: int, req: int) -> bool {
    0 <= x < st.pages.len() && free_space(st.pages[x]) < req
}

/// The first page of `s` whose recorded bucket reaches `b` and that is not
/// an existing page with fewer than `req` free bytes.
pub open spec fn first_fit(st: HeapState, s: Seq<int>, req: int, b: Bucket) -> Option<int>
    decreases s.len(),
{
    if s.len() == 0 {
        None
    } else if 0 <= s[0] < st.buckets.len() && reaches(st.buckets[s[0]], b) && !too_full(st, s[0], req) {
        Some(s[0])
    } else {
        first_fit(st, s.drop_first(), req, b)
    }
}

/// The state and result after inserting `r` anywhere. A record whose
/// length with its slot entry exceeds a page's usable space is refused.
/// Otherwise the pages are visited in the map's leaf order; the first whose
/// recorded bucket reaches the request's and that has room takes the
/// record. When there is none a new page is added and takes it.
pub open spec fn insert_outcome(st: HeapState, cap: int, r: Seq<u8>) -> (HeapState, Result<(), HeapFileError>) {
    let req = r.len() + SLOT_SIZE;
    if req > MAX_AVAILABLE_SLOTTED_PAGE_SPACE {
        (st, Err(HeapFileError::InsufficientPageSpace))
    } else {
        match first_fit(st, subtree_pages(cap, 0), req, bucket_of(req) as Bucket) {
            Some(x) => insert_page_outcome(st, x, r),
            None => {
                let (st1, created) = create_page_outcome(st, cap);
                match created {
                    Err(e) => (st1, Err(e)),
                    Ok(pid) => insert_page_outcome(st1, pid as int, r),
                }
            },
        }
    }
}

/// The map records, for each page, the bucket of its free space, and no
/// bucket for a page number past the last page.
pub open spec fn map_in_sync(st: HeapState) -> bool {
    &&& st.pages.len() <= st.buckets.len()
    &&& forall|p: int|
        0 <= p < st.buckets.len() ==> #[trigger] st.buckets[p] == if p < st.pages.len() {
            Some(bucket_of(free_space(st.pages[p])) as Bucket)
        } else {
            None
        }
}

/// The first page of `s` that exists and has at least `req` free bytes.
pub open spec fn first_with_room(st: HeapState, s: Seq<int>, req: int) -> Option<int>
    decreases s.len(),
{
    if s.len() == 0 {
        None
    } else if 0 <= s[0] < st.pages.len() && free_space(st.pages[s[0]]) >= req {
        Some(s[0])
    } else {
        first_with_room(st, s.drop_first(), req)
    }
}

/// With the map in step, the map's candidates that are not too full are
/// exactly the pages with room.
proof fn lemma_first_fit_is_first_with_room(st: HeapState, s: Seq<int>, req: int)
    requires
        map_in_sync(st),
        0 <= req,
        forall|p: int| 0 <= p < st.pages.len() ==> 0 <= #[trigger] free_space(st.pages[p]) < 65536,
    ensures
        first_fit(st, s, req, bucket_of(req) as Bucket) == first_with_room(st, s, req),
    decreases s.len(),
{
    if s.len() > 0 {
        lemma_first_fit_is_first_with_room(st, s.drop_first(), req);
        let x = s[0];
        if 0 <= x < st.buckets.len() {
            if x < st.pages.len() {
                let f = free_space(st.pages[x]);
                assert(st.buckets[x] == Some(bucket_of(f) as Bucket));
                if f >= req {
                    assert(f / 512 >= req / 512) by (nonlinear_arith)
                        requires f >= req, req >= 0;
                }
            } else {
                assert(st.buckets[x] is None);
            }
        }
    }
}

/// Inserting into one page keeps the map in step with the pages.
pub proof fn lemma_insert_page_keeps_map_in_sync(st: HeapState, page_id: PageId, r: Seq<u8>)
    requires
        map_in_sync(st),
    ensures
        map_in_sync(insert_page_outcome(st, page_id as int, r).0),
{
    lemma_insert_at_keeps_map_in_sync(st, page_id as int, r);
}

proof fn lemma_insert_at_keeps_map_in_sync(st: HeapState, pid: int, r: Seq<u8>)
    requires
        map_in_sync(st),
        0 <= pid,
    ensures
        map_in_sync(insert_page_outcome(st, pid, r).0),
{
    let st2 = insert_page_outcome(st, pid, r).0;
    if pid < st.pages.len() && r.len() + SLOT_SIZE <= free_space(st.pages[pid]) {
        assert(st.buckets[pid] is Some);
        assert forall|p: int| 0 <= p < st2.buckets.len() implies #[trigger] st2.buckets[p] == if p < st2.pages.len() {
            Some(bucket_of(free_space(st2.pages[p])) as Bucket)
        } else {
            None
        } by {
            assert(map_in_sync(st) && 0 <= p < st.buckets.len() ==> st.buckets[p] == if p < st.pages.len() {
                Some(bucket_of(free_space(st.pages[p])) as Bucket)
            } else {
                None
            });
        }
    }
}

/// Adding a page keeps the map in step with the pages, as long as the new
/// page's number fits a `PageId`.
pub proof fn lemma_create_page_keeps_map_in_sync(st: HeapState, cap: int)
    requires
        map_in_sync(st),
        st.buckets.len() == cap,
        st.pages.len() < 65536 || st.pages.len() >= cap,
    ensures
        map_in_sync(create_page_outcome(st, cap).0),
{
    if st.pages.len() < cap {
        let st2 = create_page_outcome(st, cap).0;
        let n = st.pages.len() as int;
        assert((n as PageId) as int == n);
        assert forall|p: int| 0 <= p < st2.buckets.len() implies #[trigger] st2.buckets[p] == if p < st2.pages.len() {
            Some(bucket_of(free_space(st2.pages[p])) as Bucket)
        } else {
            None
        } by {
            assert(0 <= p < st.buckets.len() ==> st.buckets[p] == if p < st.pages.len() {
                Some(bucket_of(free_space(st.pages[p])) as Bucket)
            } else {
                None
            });
            if p < n {
                assert(st2.pages[p] == st.pages[p]);
            }
        }
    }
}

/// Inserting a record anywhere keeps the map in step with the pages, as
/// long as a new page's number fits a `PageId`.
pub proof fn lemma_insert_keeps_map_in_sync(st: HeapState, cap: int, r: Seq<u8>)
    requires
        map_in_sync(st),
        st.buckets.len() == cap,
        st.pages.len() < 65536 || st.pages.len() >= cap,
    ensures
        map_in_sync(insert_outcome(st, cap, r).0),
{
    let req = r.len() + SLOT_SIZE;
    if req <= MAX_AVAILABLE_SLOTTED_PAGE_SPACE {
        match first_fit(st, subtree_pages(cap, 0), req, bucket_of(req) as Bucket) {
            Some(x) => {
                lemma_first_fit_in_range(st, subtree_pages(cap, 0), req, bucket_of(req) as Bucket);
                lemma_insert_at_keeps_map_in_sync(st, x, r);
            },
            None => {
                lemma_create_page_keeps_map_in_sync(st, cap);
                let (st1, created) = create_page_outcome(st, cap);
                if let Ok(pid) = created {
                    lemma_insert_page_keeps_map_in_sync(st1, pid, r);
                }
            },
        }
    }
}

/// With the map in step with well-formed pages, a record that fits a page
/// goes into the first page, in the map's leaf order, with room for it and
/// its slot, and into a new page when there is none; only a file at
/// capacity refuses it, and is then left as it was.
pub proof fn lemma_insert_finds_room(st: HeapState, cap: int, r: Seq<u8>)
    requires
        map_in_sync(st),
        st.buckets.len() == cap,
        st.pages.len() < 65536 || st.pages.len() >= cap,
        forall|p: int| 0 <= p < st.pages.len() ==> page_wf(#[trigger] st.pages[p]),
        r.len() + SLOT_SIZE <= MAX_AVAILABLE_SLOTTED_PAGE_SPACE,
    ensures
        ({
            let (st2, res) = insert_outcome(st, cap, r);
            match first_with_room(st, subtree_pages(cap, 0), r.len() + SLOT_SIZE) {
                Some(x) => res is Ok && st2.pages == st.pages.update(x, inserted_bytes(st.pages[x], r)),
                None => if st.pages.len() < cap {
                    res is Ok && st2.pages == st.pages.push(inserted_bytes(empty_page_bytes(), r))
                } else {
                    res == Err::<(), HeapFileError>(HeapFileError::HeapFileFull) && st2 == st
                },
            }
        }),
{
    let req = r.len() + SLOT_SIZE;
    let s = subtree_pages(cap, 0);
    assert forall|p: int| 0 <= p < st.pages.len() implies 0 <= #[trigger] free_space(st.pages[p]) < 65536 by {
        assert(page_wf(st.pages[p]));
    }
    lemma_first_fit_is_first_with_room(st, s, req);
    lemma_first_with_room_in_range(st, s, req);
    match first_with_room(st, s, req) {
        Some(x) => {
            assert(st.buckets[x] is Some);
        },
        None => {
            if st.pages.len() < cap {
                lemma_empty_page();
                let n = st.pages.len() as int;
                assert((n as PageId) as int == n);
                let (st1, created) = create_page_outcome(st, cap);
                assert(st1.pages[n] == empty_page_bytes());
                assert(st1.buckets[n] is Some);
                assert(st1.pages.update(n, inserted_bytes(empty_page_bytes(), r)) =~= st.pages.push(
                    inserted_bytes(empty_page_bytes(), r),
                ));
            }
        },
    }
}

/// What a heap file accepts, a scan of it hands out afterwards: with the
/// map in step with well-formed pages, a non-empty record that an insertion
/// accepts is among the records a scan from the start yields.
pub proof fn lemma_inserted_record_is_scanned(st: HeapState, cap: int, r: Seq<u8>)
    requires
        map_in_sync(st),
        st.buckets.len() == cap,
        st.pages.len() < 65536 || st.pages.len() >= cap,
        forall|p: int| 0 <= p < st.pages.len() ==> page_wf(#[trigger] st.pages[p]),
        r.len() > 0,
    ensures
        insert_outcome(st, cap, r).1 is Ok ==> records_from(insert_outcome(st, cap, r).0.pages, 0, 0).contains(r),
{
    let req = r.len() + SLOT_SIZE;
    if req <= MAX_AVAILABLE_SLOTTED_PAGE_SPACE {
        lemma_insert_finds_room(st, cap, r);
        let pages2 = insert_outcome(st, cap, r).0.pages;
        match first_with_room(st, subtree_pages(cap, 0), req) {
            Some(x) => {
                lemma_first_with_room_in_range(st, subtree_pages(cap, 0), req);
                assert(page_wf(st.pages[x]));
                lemma_insert(st.pages[x], r);
                let sc = slot_count(st.pages[x]);
                assert(pages2[x] == inserted_bytes(st.pages[x], r));
                lemma_records_from_contains(pages2, 0, 0, x, sc);
            },
            None => {
                if st.pages.len() < cap {
                    lemma_empty_page();
                    lemma_insert(empty_page_bytes(), r);
                    let n = st.pages.len() as int;
                    assert(pages2[n] == inserted_bytes(empty_page_bytes(), r));
                    lemma_records_from_contains(pages2, 0, 0, n, 0);
                }
            },
        }
    }
}

proof fn lemma_first_with_room_ascending(st: HeapState, j: int, n: int, req: int)
    requires
        0 <= j <= n,
        st.pages.len() <= n,
    ensures
        match first_with_room(st, Seq::new((n - j) as nat, |t: int| j + t), req) {
            Some(x) => j <= x < st.pages.len() && free_space(st.pages[x]) >= req && forall|y: int|
                j <= y < x ==> free_space(#[trigger] st.pages[y]) < req,
            None => forall|y: int| j <= y < st.pages.len() ==> free_space(#[trigger] st.pages[y]) < req,
        },
    decreases n - j,
{
    let s = Seq::new((n - j) as nat, |t: int| j + t);
    if j < n {
        assert(s.drop_first() =~= Seq::new((n - (j + 1)) as nat, |t: int| (j + 1) + t));
        lemma_first_with_room_ascending(st, j + 1, n, req);
    }
}

/// In a heap file whose capacity is a power of two, with the map in step
/// with well-formed pages, a record that fits a page goes into the lowest
/// numbered page with room for it and its slot; when no page has room, it
/// goes into a new page, or is refused when the file is full.
pub proof fn lemma_insert_uses_lowest_page(st: HeapState, h: nat, r: Seq<u8>)
    requires
        map_in_sync(st),
        st.buckets.len() == vstd::arithmetic::power2::pow2(h),
        st.pages.len() <= st.buckets.len(),
        st.pages.len() < 65536 || st.pages.len() >= st.buckets.len(),
        forall|p: int| 0 <= p < st.pages.len() ==> page_wf(#[trigger] st.pages[p]),
        r.len() + SLOT_SIZE <= MAX_AVAILABLE_SLOTTED_PAGE_SPACE,
    ensures
        ({
            let cap = st.buckets.len() as int;
            let req = r.len() + SLOT_SIZE;
            let (st2, res) = insert_outcome(st, cap, r);
            match first_with_room(st, subtree_pages(cap, 0), req) {
                Some(x) => {
                    &&& forall|y: int| 0 <= y < x ==> free_space(#[trigger] st.pages[y]) < req
                    &&& 0 <= x < st.pages.len() && free_space(st.pages[x]) >= req
                    &&& res is Ok && st2.pages == st.pages.update(x, inserted_bytes(st.pages[x], r))
                },
                None => {
                    &&& forall|y: int| 0 <= y < st.pages.len() ==> free_space(#[trigger] st.pages[y]) < req
                    &&& if st.pages.len() < cap {
                        res is Ok && st2.pages == st.pages.push(inserted_bytes(empty_page_bytes(), r))
                    } else {
                        res == Err::<(), HeapFileError>(HeapFileError::HeapFileFull) && st2 == st
                    }
                },
            }
        }),
{
    let cap = st.buckets.len() as int;
    let req = r.len() + SLOT_SIZE;
    crate::storage::fsm::tree::lemma_leaf_order_ascending(h);
    assert(Seq::new((cap - 0) as nat, |t: int| 0 + t) =~= Seq::new(vstd::arithmetic::power2::pow2(h), |p: int| p));
    lemma_first_with_room_ascending(st, 0, cap, req as int);
    lemma_insert_finds_room(st, cap, r);
}

proof fn lemma_first_fit_in_range(st: HeapState, s: Seq<int>, req: int, b: Bucket)
    requires
        map_in_sync(st),
    ensures
        first_fit(st, s, req, b) matches Some(x) ==> 0 <= x < st.pages.len(),
    decreases s.len(),
{
    if s.len() > 0 {
        lemma_first_fit_in_range(st, s.drop_first(), req, b);
        let x = s[0];
        if 0 <= x < st.buckets.len() && reaches(st.buckets[x], b) {
            assert(x < st.pages.len());
        }
    }
}

proof fn lemma_first_with_room_in_range(st: HeapState, s: Seq<int>, req: int)
    ensures
        first_with_room(st, s, req) matches Some(x) ==> 0 <= x < st.pages.len() && free_space(st.pages[x]) >= req,
    decreases s.len(),
{
    if s.len() > 0 {
        lemma_first_with_room_in_range(st, s.drop_first(), req);
    }
}

pub struct HeapFile {
    pages: Vec<SlottedPage>,
    fsm: FreeSpaceMap,
    capacity: usize,
}

proof fn lemma_first_qualifying_index(
    v: Seq<Option<Bucket>>,
    s: Seq<int>,
    req: Bucket,
    excluded: Set<PageId>,
)
    ensures
        first_qualifying(v, s, req, excluded) is Some ==> exists|i: int|
            0 <= i < s.len() && s[i] == first_qualifying(v, s, req, excluded)->0 && qualifies(
                v,
                s[i],
                req,
                excluded,
            ) && forall|j: int| 0 <= j < i ==> !#[trigger] qualifies(v, s[j], req, excluded),
    decreases s.len(),
{
    if s.len() > 0 && !qualifies(v, s[0], req, excluded) {
        lemma_first_qualifying_index(v, s.drop_first(), req, excluded);
        if first_qualifying(v, s, req, excluded) is Some {
            let i = choose|i: int|
                0 <= i < s.drop_first().len() && s.drop_first()[i] == first_qualifying(v, s, req, excluded)->0
                    && qualifies(v, s.drop_first()[i], req, excluded) && forall|j: int|
                    0 <= j < i ==> !#[trigger] qualifies(v, s.drop_first()[j], req, excluded);
            assert(s[i + 1] == s.drop_first()[i]);
            assert forall|j: int| 0 <= j < i + 1 implies !#[trigger] qualifies(v, s[j], req, excluded) by {
                if j > 0 {
                    assert(s[j] == s.drop_first()[j - 1]);
                }
            }
        }
    } else if s.len() > 0 {
        assert(s[0] == first_qualifying(v, s, req, excluded)->0);
    }
}

/// When every excluded page is too full, the map's answer with those
/// exclusions is the first fitting page, or there is none.
proof fn lemma_search_gives_fit(
    st: HeapState,
    s: Seq<int>,
    req: int,
    b: Bucket,
    excluded: Set<PageId>,
)
    requires
        forall|q: PageId| excluded.contains(q) ==> too_full(st, q as int, req),
        forall|x: int| 0 <= x < st.buckets.len() && #[trigger] st.buckets[x] is Some ==> x < 65536,
    ensures
        first_qualifying(st.buckets, s, b, excluded) is Some && !too_full(
            st,
            first_qualifying(st.buckets, s, b, excluded)->0,
            req,
        ) ==> first_fit(st, s, req, b) == first_qualifying(st.buckets, s, b, excluded),
        first_qualifying(st.buckets, s, b, excluded) is None ==> first_fit(st, s, req, b) is None,
    decreases s.len(),
{
    if s.len() > 0 {
        lemma_search_gives_fit(st, s.drop_first(), req, b, excluded);
        let x = s[0];
        if 0 <= x < st.buckets.len() && reaches(st.buckets[x], b) && excluded.contains(x as PageId) {
            assert(x < 65536);
            assert((x as PageId) as int == x);
        }
    }
}

/// A set of page numbers below `n` has at most `n` members.
proof fn lemma_pages_below_bound(ex: Set<PageId>, n: int)
    requires
        ex.finite(),
        0 <= n,
        forall|q: PageId| ex.contains(q) ==> (q as int) < n,
    ensures
        ex.len() <= n,
{
    let f = |q: PageId| q as int;
    let y = ex.map(f);
    assert(vstd::relations::injective_on(f, ex));
    vstd::set_lib::lemma_map_size(ex, y, f);
    vstd::set_lib::lemma_int_range(0, n);
    assert(y.subset_of(vstd::set_lib::set_int_range(0, n)));
    vstd::set_lib::lemma_len_subset(y, vstd::set_lib::set_int_range(0, n));
}

impl HeapFile {
    pub closed spec fn page_seq(&self) -> Seq<SlottedPage> {
        self.pages@
    }

    pub closed spec fn map(&self) -> FreeSpaceMap {
        self.fsm
    }

    pub closed spec fn cap(&self) -> int {
        self.capacity as int
    }

    /// The bytes of the pages, and the map's bucket for each page number.
    pub open spec fn state(&self) -> HeapState {
        HeapState {
            pages: Seq::new(self.page_seq().len(), |i: int| self.page_seq()[i].bytes()),
            buckets: self.map().view(),
        }
    }

    pub open spec fn wf(&self) -> bool {
        &&& self.map().wf()
        &&& self.map().cap() == self.cap()
        &&& self.page_seq().len() <= self.cap()
        &&& forall|i: int| 0 <= i < self.page_seq().len() ==> #[trigger] self.page_seq()[i].wf()
    }

    pub fn new(capacity: usize) -> (result: Result<Self, HeapFileError>)
        requires
            capacity * 2 <= usize::MAX,
        ensures
            result is Ok <==> capacity > 0,
            result is Err ==> result == Err::<Self, HeapFileError>(
                HeapFileError::FreeSpaceMapError(FreeSpaceMapError::InvalidArgument),
            ),
            result matches Ok(h) ==> {
                &&& h.wf()
                &&& h.cap() == capacity
                &&& h.state().pages == Seq::<Seq<u8>>::empty()
                &&& h.state().buckets == Seq::new(capacity as nat, |p: int| None::<Bucket>)
                &&& map_in_sync(h.state())
            },
    {
        let fsm = match FreeSpaceMap::new(capacity) {
            Ok(f) => f,
            Err(e) => return Err(HeapFileError::FreeSpaceMapError(e)),
        };
        let h = Self { pages: Vec::new(), fsm, capacity };
        assert(h.state().pages =~= Seq::<Seq<u8>>::empty());
        Ok(h)
    }

    pub fn create_page(&mut self) -> (result: Result<PageId, HeapFileError>)
        requires
            old(self).wf(),
        ensures
            final(self).wf(),
            final(self).cap() == old(self).cap(),
            (final(self).state(), result) == create_page_outcome(old(self).state(), old(self).cap()),
    {
        if self.pages.len() >= self.capacity {
            return Err(HeapFileError::HeapFileFull);
        }
        let page_id = self.pages.len() as PageId;
        let slotted_page = SlottedPage::new();
        let free_space = slotted_page.free_space();
        match self.fsm.register_page(page_id, free_space as usize) {
            Ok(_) => {},
            Err(e) => return Err(HeapFileError::FreeSpaceMapError(e)),
        }
        self.pages.push(slotted_page);
        assert(self.state().pages =~= old(self).state().pages.push(empty_page_bytes()));
        Ok(page_id)
    }

    /// Inserts `record` into page `page_id` and records the page's new
    /// free space in the map.
    pub fn insert_page(&mut self, page_id: PageId, record: &[u8]) -> (result: Result<(), HeapFileError>)
        requires
            old(self).wf(),
            record@.len() + SLOT_SIZE <= usize::MAX,
        ensures
            final(self).wf(),
            final(self).cap() == old(self).cap(),
            (final(self).state(), result) == insert_page_outcome(old(self).state(), page_id as int, record@),
    {
        if page_id as usize >= self.pages.len() {
            return Err(HeapFileError::InvalidPageId);
        }
        let ghost old_pages = self.pages@;
        proof {
            assert(self.page_seq()[page_id as int].wf());
        }
        match self.pages[page_id as usize].insert(record) {
            Ok(_) => {},
            Err(e) => {
                assert(self.state().pages =~= old(self).state().pages);
                assert forall|i: int| 0 <= i < self.page_seq().len() implies #[trigger] self.page_seq()[i].wf() by {
                    assert(self.page_seq()[i].bytes() == old(self).page_seq()[i].bytes());
                }
                return Err(HeapFileError::SlottedPageError(e));
            },
        }
        let free_space = self.pages[page_id as usize].free_space();
        proof {
            assert(self.state().pages =~= old(self).state().pages.update(
                page_id as int,
                inserted_bytes(old(self).state().pages[page_id as int], record@),
            ));
            assert forall|i: int| 0 <= i < self.page_seq().len() implies #[trigger] self.page_seq()[i].wf() by {
                if i != page_id {
                    assert(self.page_seq()[i] == old(self).page_seq()[i]);
                }
            }
        }
        match self.fsm.update_page(page_id, free_space as usize) {
            Ok(_) => {},
            Err(e) => return Err(HeapFileError::FreeSpaceMapError(e)),
        }
        Ok(())
    }

    /// Inserts `record` into the first page, in the map's leaf order, that
    /// has room for it, adding a page when none has. The map is asked at
    /// most `n + 1` times for a candidate, `n` the number of pages: each
    /// candidate turned down is an existing page that the following
    /// requests exclude.
    pub fn insert(&mut self, record: &[u8]) -> (result: Result<(), HeapFileError>)
        requires
            old(self).wf(),
            record@.len() + SLOT_SIZE <= usize::MAX,
        ensures
            final(self).wf(),
            final(self).cap() == old(self).cap(),
            (final(self).state(), result) == insert_outcome(old(self).state(), old(self).cap(), record@),
    {
        let req_space = record.len() + SLOT_SIZE;
        if req_space > MAX_AVAILABLE_SLOTTED_PAGE_SPACE {
            return Err(HeapFileError::InsufficientPageSpace);
        }
        let ghost st = self.state();
        let ghost cap = self.cap();
        let ghost s = subtree_pages(cap, 0);
        let ghost b = bucket_of(req_space as int) as Bucket;
        let ghost mut k: int = 0;
        let mut excluded_page_ids: HashSet<PageId> = HashSet::new();
        let ghost mut lookups: int = 0;
        proof {
            assert forall|x: int| 0 <= x < st.buckets.len() && #[trigger] st.buckets[x] is Some implies x < 65536 by {
                assert(crate::storage::fsm::tree::leaf_ok(self.map().tree(), cap, x));
            }
        }
        loop
            invariant
                self.wf(),
                *self == *old(self),
                st == self.state(),
                cap == self.cap(),
                s == subtree_pages(cap, 0),
                req_space == record@.len() + SLOT_SIZE,
                req_space <= MAX_AVAILABLE_SLOTTED_PAGE_SPACE,
                b == bucket_of(req_space as int) as Bucket,
                record@.len() + SLOT_SIZE <= usize::MAX,
                forall|x: int| 0 <= x < st.buckets.len() && #[trigger] st.buckets[x] is Some ==> x < 65536,
                forall|q: PageId| excluded_page_ids@.contains(q) ==> too_full(st, q as int, req_space as int),
                0 <= k <= s.len(),
                forall|j: int| 0 <= j < k ==> !#[trigger] qualifies(st.buckets, s[j], b, excluded_page_ids@),
                excluded_page_ids@.finite(),
                excluded_page_ids@.len() <= st.pages.len(),
                lookups == excluded_page_ids@.len(),
            decreases st.pages.len() - excluded_page_ids@.len(),
        {
            proof {
                lookups = lookups + 1;
                assert(lookups <= st.pages.len() + 1);
            }
            let found = match self.fsm.find_page_excluding(req_space, &excluded_page_ids) {
                Ok(found) => found,
                Err(e) => return Err(HeapFileError::FreeSpaceMapError(e)),
            };
            proof {
                lemma_search_gives_fit(st, s, req_space as int, b, excluded_page_ids@);
                lemma_first_qualifying_index(st.buckets, s, b, excluded_page_ids@);
            }
            match found {
                None => {
                    let page_id = match self.create_page() {
                        Ok(p) => p,
                        Err(e) => return Err(e),
                    };
                    return self.insert_page(page_id, record);
                },
                Some(page_id) => {
                    let free_space = match self.get_page(page_id) {
                        Ok(page) => page.free_space() as usize,
                        Err(e) => return Err(e),
                    };
                    if free_space >= req_space {
                        return self.insert_page(page_id, record);
                    }
                    let ghost old_ex = excluded_page_ids@;
                    let ghost mut i: int = 0;
                    proof {
                        i = choose|i: int|
                            0 <= i < s.len() && s[i] == page_id as int && qualifies(
                                st.buckets,
                                s[i],
                                b,
                                excluded_page_ids@,
                            ) && forall|j: int| 0 <= j < i ==> !#[trigger] qualifies(st.buckets, s[j], b, excluded_page_ids@);
                        k = i + 1;
                    }
                    excluded_page_ids.insert(page_id);
                    proof {
                        assert(lookups == old_ex.len() + 1);
                        assert(excluded_page_ids@ == old_ex.insert(page_id));
                        assert(!old_ex.contains(page_id));
                        assert forall|q: PageId| excluded_page_ids@.contains(q) implies (q as int) < st.pages.len() by {
                            if q != page_id {
                                assert(too_full(st, q as int, req_space as int));
                            }
                        }
                        lemma_pages_below_bound(excluded_page_ids@, st.pages.len() as int);
                        assert forall|j: int| 0 <= j < k implies !#[trigger] qualifies(st.buckets, s[j], b, excluded_page_ids@) by {
                            if j < i {
                                assert(!qualifies(st.buckets, s[j], b, old_ex));
                            } else {
                                assert(s[j] == page_id as int);
                            }
                        }
                    }
                },
            }
        }
    }

    pub fn get_page(&self, page_id: PageId) -> (result: Result<&SlottedPage, HeapFileError>)
        ensures
            page_id >= self.page_seq().len() ==> result == Err::<&SlottedPage, HeapFileError>(HeapFileError::InvalidPageId),
            page_id < self.page_seq().len() ==> (result matches Ok(p) && *p == self.page_seq()[page_id as int]),
    {
        if page_id as usize >= self.pages.len() {
            return Err(HeapFileError::InvalidPageId);
        }
        Ok(&self.pages[page_id as usize])
    }

    pub fn get_page_mut(&mut self, page_id: PageId) -> (result: Result<&mut SlottedPage, HeapFileError>)
        ensures
            final(self).map() == old(self).map(),
            final(self).cap() == old(self).cap(),
            match result {
                Ok(p) => {
                    &&& page_id < old(self).page_seq().len()
                    &&& *p == old(self).page_seq()[page_id as int]
                    &&& final(self).page_seq() == old(self).page_seq().update(page_id as int, *final(p))
                },
                Err(e) => {
                    &&& page_id >= old(self).page_seq().len()
                    &&& e == HeapFileError::InvalidPageId
                    &&& final(self).page_seq() == old(self).page_seq()
                },
            },
    {
        if page_id as usize >= self.pages.len() {
            return Err(HeapFileError::InvalidPageId);
        }
        Ok(&mut self.pages[page_id as usize])
    }

    pub fn scan(&self) -> (scan: HeapFileScan<'_>)
        ensures
            scan.heap() == *self,
            scan.position() == (0int, 0int),
    {
        HeapFileScan::new(self)
    }

    pub fn scan_owned(&self) -> (adapter: OwnedAdapter<'_>)
        ensures
            adapter.scan().heap() == *self,
            adapter.scan().position() == (0int, 0int),
    {
        OwnedAdapter::new(self.scan())
    }

    /// Number of pages in the file.
    pub fn page_count(&self) -> (n: usize)
        ensures
            n == self.page_seq().len(),
    {
        self.pages.len()
    }

    /// The file's free-space map.
    pub fn free_space_map(&self) -> (fsm: &FreeSpaceMap)
        ensures
            *fsm == self.map(),
    {
        &self.fsm
    }
}

} // verus!
