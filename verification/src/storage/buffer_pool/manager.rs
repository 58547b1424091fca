//! Buffer-pool management: which page lives in which frame, and the
//! decisions a fetch, a new page, a flush or a deletion takes.
//!
//! Disk transfers are not made here. An operation that needs one is split
//! in two: the first step decides, reserves the frame and says what to
//! transfer; the caller transfers and hands the outcome to the second step.
use vstd::prelude::*;

use crate::storage::buffer_pool::clock_replacer::{
    evictable, frame_views, lemma_victim_outcome_facts, victim_outcome, ClockReplacer, FrameId,
};
use crate::storage::buffer_pool::frame::{
    fresh_meta, pins_plus_one, unpinned_once, unpinned_times, zero_page, Frame, FrameError, FrameState,
    FrameView, MetaView, PageId,
};
use crate::storage::buffer_pool::free_frames::{FreeFrames, FreeFramesError};
use crate::storage::buffer_pool::metrics::{bump, BufferPoolMetrics};
use crate::storage::buffer_pool::page_table::{PageTable, PageTableError};
use crate::storage::PAGE_SIZE;

verus! {

#[verifier::external_type_specification]
#[verifier::external_body]
pub struct ExIoError(std::io::Error);

#[derive(Debug)]
pub enum BufferPoolError {
    LockPoisoned,
    NoFreeFrame,
    NoEvictableFrame,
    DiskError(std::io::Error),
    FrameError(FrameError),
    PageNotFound(PageId),
    PagePinned(PageId),
    NoPageIdAvailable,
    PageTableError(PageTableError),
    FreeFrameError(FreeFramesError),
    FrameReserved,
    FrameNotReserved,
}

/// A frame chosen for eviction and reserved: the page it held, whether
/// that page must be written back, and the bytes to write (zeros when
/// the page is clean).
pub struct Eviction {
    pub frame_id: FrameId,
    pub old_page_id: PageId,
    pub dirty: bool,
    pub old_data: Vec<u8>,
}

/// Where a fetch stands after looking the page up.
pub enum FetchLookup {
    /// The page is resident in this frame, now pinned.
    Hit(FrameId),
    /// The page's frame is reserved by another operation: wait and retry.
    Wait,
    /// The page is not resident.
    Miss,
}

/// The frame a fetch that missed will load the page into.
pub enum FrameClaim {
    /// A free frame, now reserved: read the page into it.
    LoadFree(FrameId),
    /// A victim, now reserved: write its old page back when dirty, then
    /// read the page into it.
    Evict(Eviction),
    /// No frame can be evicted while other operations hold reserved
    /// frames: wait and retry.
    Wait,
}

/// The first step of creating a page.
pub enum NewPageStep {
    /// The page exists, pinned in this frame.
    Ready(PageId, FrameId),
    /// A victim is reserved for the new page: write its old page back when
    /// dirty, then finish.
    Evict(Eviction, PageId),
}

/// A reserved frame whose page must be written to disk.
pub struct FlushWork {
    pub frame_id: FrameId,
    pub page_id: PageId,
    pub data: Vec<u8>,
}

/// What the pool holds: each frame, the page-to-frame map, the queue of
/// free frames, the CLOCK hand, the next page id to hand out and the
/// counters (fetches, hits, misses, evictions).
pub struct PoolState {
    pub frames: Seq<FrameView>,
    pub table: Map<PageId, FrameId>,
    pub free: Seq<FrameId>,
    pub hand: int,
    pub next_id: PageId,
    pub counts: (u64, u64, u64, u64),
}

/// The counters (fetches, hits, misses, evictions) after a lookup that
/// found the page: the hit counts unless the fetch already counted a miss.
pub open spec fn counted_hit(c: (u64, u64, u64, u64), miss_recorded: bool) -> (u64, u64, u64, u64) {
    if miss_recorded { c } else { (c.0, bump(c.1), c.2, c.3) }
}

/// The counters after a lookup that did not find the page: the miss counts
/// unless the fetch already counted one.
pub open spec fn counted_miss(c: (u64, u64, u64, u64), miss_recorded: bool) -> (u64, u64, u64, u64) {
    if miss_recorded { c } else { (c.0, c.1, bump(c.2), c.3) }
}

/// The counters after the lookups of one fetch, in order: `None` for a
/// lookup that had to wait, `Some(true)` for one that found the page (the
/// fetch ends there) and `Some(false)` for one that did not. Once a lookup
/// has missed, the later ones are made with `miss_recorded` set.
pub open spec fn lookup_counts(
    c: (u64, u64, u64, u64),
    steps: Seq<Option<bool>>,
    miss_recorded: bool,
) -> (u64, u64, u64, u64)
    decreases steps.len(),
{
    if steps.len() == 0 {
        c
    } else {
        match steps[0] {
            None => lookup_counts(c, steps.drop_first(), miss_recorded),
            Some(true) => counted_hit(c, miss_recorded),
            Some(false) => lookup_counts(counted_miss(c, miss_recorded), steps.drop_first(), true),
        }
    }
}

/// Lookups made after a counted miss count nothing.
proof fn lemma_recorded_lookups_count_nothing(c: (u64, u64, u64, u64), steps: Seq<Option<bool>>)
    ensures
        lookup_counts(c, steps, true) == c,
    decreases steps.len(),
{
    if steps.len() > 0 {
        lemma_recorded_lookups_count_nothing(c, steps.drop_first());
    }
}

/// Raising one of two wrapping counters raises their sum by one, modulo
/// 2^64.
proof fn lemma_bump_adds_one(a: u64, b: u64)
    ensures
        (bump(a) + b) % 0x1_0000_0000_0000_0000 == (a + b + 1) % 0x1_0000_0000_0000_0000,
        (b + bump(a)) % 0x1_0000_0000_0000_0000 == (b + a + 1) % 0x1_0000_0000_0000_0000,
{
    if a == u64::MAX {
        vstd::arithmetic::div_mod::lemma_mod_add_multiples_vanish(b as int, 0x1_0000_0000_0000_0000);
    }
}

/// Each fetch is counted once: `begin_fetch` raises the fetches by one,
/// and the lookups of the fetch, as long as one of them did not wait,
/// raise exactly one of hits and misses by one (the counters wrap at
/// 2^64); evictions are untouched. So when no fetch is under way, hits and
/// misses add up to the fetches.
pub proof fn lemma_fetch_counts_once(c: (u64, u64, u64, u64), steps: Seq<Option<bool>>)
    requires
        exists|i: int| 0 <= i < steps.len() && #[trigger] steps[i] is Some,
    ensures
        ({
            let after = lookup_counts((bump(c.0), c.1, c.2, c.3), steps, false);
            &&& after.0 == bump(c.0)
            &&& after.3 == c.3
            &&& (after.1 + after.2) % 0x1_0000_0000_0000_0000 == (c.1 + c.2 + 1) % 0x1_0000_0000_0000_0000
        }),
    decreases steps.len(),
{
    let c0 = (bump(c.0), c.1, c.2, c.3);
    assert(steps.len() > 0);
    match steps[0] {
        None => {
            let i = choose|i: int| 0 <= i < steps.len() && #[trigger] steps[i] is Some;
            assert(steps.drop_first()[i - 1] is Some);
            lemma_fetch_counts_once(c, steps.drop_first());
        },
        Some(true) => {
            lemma_bump_adds_one(c.1, c.2);
        },
        Some(false) => {
            lemma_recorded_lookups_count_nothing(counted_miss(c0, false), steps.drop_first());
            assert(lookup_counts(c0, steps, false) == counted_miss(c0, false));
            lemma_bump_adds_one(c.2, c.1);
        },
    }
}

/// The frame with its page pinned once more and referenced.
pub open spec fn pinned_and_referenced(f: FrameView) -> FrameView {
    match f.meta {
        Some(m) => f.with_meta(MetaView { pins: pins_plus_one(m.pins), referenced: true, ..m }),
        None => f,
    }
}

/// A frame just loaded with `data` for `page_id`, then pinned and referenced.
pub open spec fn loaded_and_pinned(data: Seq<u8>, page_id: PageId) -> FrameView {
    FrameView {
        data,
        meta: Some(MetaView { pins: 1, referenced: true, ..fresh_meta(page_id) }),
        state: FrameState::Resident,
    }
}

/// A new page in a frame: zeroed, pinned, referenced and dirty.
pub open spec fn new_page_frame(page_id: PageId) -> FrameView {
    FrameView {
        data: zero_page(),
        meta: Some(MetaView { pins: 1, referenced: true, dirty: true, ..fresh_meta(page_id) }),
        state: FrameState::Resident,
    }
}

/// The frame after `k` fetches of its page that hit.
pub open spec fn hit_times(f: FrameView, k: nat) -> FrameView
    decreases k,
{
    if k == 0 {
        f
    } else {
        pinned_and_referenced(hit_times(f, (k - 1) as nat))
    }
}

proof fn lemma_hit_times(f: FrameView, k: nat)
    requires
        f.meta matches Some(m) && m.pins as int + k <= 255,
    ensures
        hit_times(f, k).meta matches Some(m2) && m2.pins == f.meta->0.pins + k,
        hit_times(f, k).state == f.state,
    decreases k,
{
    if k > 0 {
        lemma_hit_times(f, (k - 1) as nat);
    }
}

proof fn lemma_unpins_count_down(g: FrameView, j: nat)
    requires
        g.meta matches Some(m) && j <= m.pins,
    ensures
        unpinned_times(g, j).meta matches Some(m2) && m2.pins == g.meta->0.pins - j,
        unpinned_times(g, j).state == g.state,
    decreases j,
{
    if j > 0 {
        lemma_unpins_count_down(g, (j - 1) as nat);
    }
}

/// A page that a new page or a load has put in a frame, pinned once, and
/// that `k - 1` later fetches have hit (`k` at most 255), is pinned `k`
/// times: it cannot be evicted after fewer than `k` unpins, and can after
/// exactly `k`.
pub proof fn lemma_evictable_after_k_unpins(f: FrameView, k: nat)
    requires
        f.meta matches Some(m) && m.pins == 1,
        f.state == FrameState::Resident,
        1 <= k <= 255,
    ensures
        hit_times(f, (k - 1) as nat).meta matches Some(m) && m.pins == k,
        forall|j: nat| j < k ==> !evictable(#[trigger] unpinned_times(hit_times(f, (k - 1) as nat), j)),
        evictable(unpinned_times(hit_times(f, (k - 1) as nat), k)),
{
    lemma_hit_times(f, (k - 1) as nat);
    let g = hit_times(f, (k - 1) as nat);
    assert forall|j: nat| j < k implies !evictable(#[trigger] unpinned_times(g, j)) by {
        lemma_unpins_count_down(g, j);
    }
    lemma_unpins_count_down(g, k);
}

/// The eviction record of victim `v` in frames `fs`.
pub open spec fn eviction_of(e: Eviction, fs: Seq<FrameView>, v: int) -> bool {
    &&& e.frame_id == v
    &&& fs[v].meta matches Some(m) && e.old_page_id == m.page_id
    &&& e.dirty == fs[v].is_dirty()
    &&& e.old_data@ == if e.dirty { fs[v].data } else { zero_page() }
}

/// `replace` of the page table succeeds: the old page maps to the frame
/// and the new page is not mapped.
pub open spec fn replace_ok(t: Map<PageId, FrameId>, old_id: PageId, new_id: PageId, f: FrameId) -> bool {
    t.contains_key(old_id) && t[old_id] == f && !t.contains_key(new_id)
}

/// The error `replace` of the page table gives when it fails.
pub open spec fn replace_error(t: Map<PageId, FrameId>, old_id: PageId, new_id: PageId, f: FrameId) -> PageTableError {
    if !t.contains_key(old_id) {
        PageTableError::OldPageMissing
    } else if t[old_id] != f {
        PageTableError::PoisonedMapping
    } else {
        PageTableError::PageAlreadyExist
    }
}

/// Some frame is reserved.
pub open spec fn any_reserved(fs: Seq<FrameView>) -> bool {
    exists|k: int| 0 <= k < fs.len() && (#[trigger] fs[k]).state == FrameState::Reserved
}

/// Frame `f` holds page `p`.
pub open spec fn holds_page(fs: Seq<FrameView>, f: int, p: PageId) -> bool {
    &&& 0 <= f < fs.len()
    &&& fs[f].meta matches Some(m) && m.page_id == p
}

/// Frame `f` is free and holds no page.
pub open spec fn empty_free_frame(fs: Seq<FrameView>, f: int) -> bool {
    &&& 0 <= f < fs.len()
    &&& fs[f].state == FrameState::Free
    &&& fs[f].meta is None
}

/// The page table and the frames agree: the frame of each mapped page
/// holds that page, and each frame in the free queue is free, holds no
/// page and is queued once.
pub open spec fn pool_consistent(st: PoolState) -> bool {
    &&& forall|p: PageId| #[trigger] st.table.contains_key(p) ==> holds_page(st.frames, st.table[p] as int, p)
    &&& forall|i: int| 0 <= i < st.free.len() ==> #[trigger] empty_free_frame(st.frames, st.free[i] as int)
    &&& st.free.no_duplicates()
}

/// `fs2` holds the same pages as `fs`, and every free frame of `fs` that
/// holds no page is unchanged.
pub open spec fn same_pages(fs: Seq<FrameView>, fs2: Seq<FrameView>) -> bool {
    &&& fs2.len() == fs.len()
    &&& forall|k: int| 0 <= k < fs.len() ==> match (#[trigger] fs[k]).meta {
        None => fs2[k].meta is None && (fs[k].state == FrameState::Free ==> fs2[k] == fs[k]),
        Some(m) => fs2[k].meta matches Some(m2) && m2.page_id == m.page_id,
    }
}

/// Changing frames that hold a page, without changing which page they
/// hold, keeps the page table and the frames in agreement.
proof fn lemma_same_pages_consistent(st: PoolState, st2: PoolState)
    requires
        pool_consistent(st),
        same_pages(st.frames, st2.frames),
        st2.table == st.table,
        st2.free == st.free,
    ensures
        pool_consistent(st2),
{
    assert forall|p: PageId| #[trigger] st2.table.contains_key(p) implies holds_page(st2.frames, st2.table[p] as int, p) by {
        assert(holds_page(st.frames, st.table[p] as int, p));
        let f = st.table[p] as int;
        assert(st2.frames[f].meta matches Some(m2) && m2.page_id == p);
    }
    assert forall|i: int| 0 <= i < st2.free.len() implies #[trigger] empty_free_frame(st2.frames, st2.free[i] as int) by {
        assert(empty_free_frame(st.frames, st.free[i] as int));
        let f = st.free[i] as int;
        assert(st2.frames[f] == st.frames[f]);
    }
}

/// Taking the first free frame out of the queue and giving it `fv`, with
/// `p` mapped to it when `fv` holds page `p`, keeps the agreement.
proof fn lemma_take_free_consistent(st: PoolState, st2: PoolState, fv: FrameView)
    requires
        pool_consistent(st),
        st.free.len() > 0,
        st2.frames == st.frames.update(st.free[0] as int, fv),
        st2.free == st.free.drop_first(),
        match fv.meta {
            None => st2.table == st.table,
            Some(m) => st2.table == st.table.insert(m.page_id, st.free[0]),
        },
    ensures
        pool_consistent(st2),
{
    let ff = st.free[0] as int;
    assert(empty_free_frame(st.frames, ff));
    assert forall|q: PageId| #[trigger] st2.table.contains_key(q) implies holds_page(st2.frames, st2.table[q] as int, q) by {
        if !(fv.meta matches Some(m) && m.page_id == q) {
            assert(holds_page(st.frames, st.table[q] as int, q));
        }
    }
    assert forall|i: int| 0 <= i < st2.free.len() implies #[trigger] empty_free_frame(st2.frames, st2.free[i] as int) by {
        assert(st2.free[i] == st.free[i + 1]);
        assert(empty_free_frame(st.frames, st.free[i + 1] as int));
        assert(st.free[i + 1] != st.free[0]);
    }
    assert(st2.free.no_duplicates()) by {
        assert forall|i: int, j: int| 0 <= i < st2.free.len() && 0 <= j < st2.free.len() && i != j implies st2.free[i] != st2.free[j] by {
            assert(st.free[i + 1] != st.free[j + 1]);
        }
    }
}

/// Dropping page `p` from its frame `f` (the table forgets `p`, the frame
/// is emptied and queued as free) keeps the agreement.
proof fn lemma_release_consistent(st: PoolState, st2: PoolState, p: PageId, f: FrameId)
    requires
        pool_consistent(st),
        holds_page(st.frames, f as int, p),
        st2.frames == st.frames.update(f as int, FrameView { data: zero_page(), meta: None, state: FrameState::Free }),
        st2.table == st.table.remove(p),
        st2.free == st.free.push(f),
    ensures
        pool_consistent(st2),
{
    assert forall|q: PageId| #[trigger] st2.table.contains_key(q) implies holds_page(st2.frames, st2.table[q] as int, q) by {
        assert(holds_page(st.frames, st.table[q] as int, q));
    }
    assert forall|i: int| 0 <= i < st2.free.len() implies #[trigger] empty_free_frame(st2.frames, st2.free[i] as int) by {
        if i < st.free.len() {
            assert(st2.free[i] == st.free[i]);
            assert(empty_free_frame(st.frames, st.free[i] as int));
        }
    }
    assert(st2.free.no_duplicates()) by {
        assert forall|i: int, j: int| 0 <= i < st2.free.len() && 0 <= j < st2.free.len() && i != j implies st2.free[i] != st2.free[j] by {
            if i < st.free.len() {
                assert(empty_free_frame(st.frames, st.free[i] as int));
            }
            if j < st.free.len() {
                assert(empty_free_frame(st.frames, st.free[j] as int));
            }
        }
    }
}

/// Moving frame `v` from page `old_id` to page `new_id`, when the table
/// maps `old_id` to `v` and does not map `new_id`, keeps the agreement.
proof fn lemma_move_consistent(st: PoolState, st2: PoolState, v: FrameId, old_id: PageId, new_id: PageId, fv: FrameView)
    requires
        pool_consistent(st),
        replace_ok(st.table, old_id, new_id, v),
        fv.meta matches Some(m) && m.page_id == new_id,
        st2.frames == st.frames.update(v as int, fv),
        st2.table == st.table.remove(old_id).insert(new_id, v),
        st2.free == st.free,
    ensures
        pool_consistent(st2),
{
    assert(holds_page(st.frames, v as int, old_id));
    assert forall|q: PageId| #[trigger] st2.table.contains_key(q) implies holds_page(st2.frames, st2.table[q] as int, q) by {
        if q != new_id {
            assert(holds_page(st.frames, st.table[q] as int, q));
        }
    }
    assert forall|i: int| 0 <= i < st2.free.len() implies #[trigger] empty_free_frame(st2.frames, st2.free[i] as int) by {
        assert(empty_free_frame(st.frames, st.free[i] as int));
    }
}

/// Loading page `p` into a reserved frame `f` that holds no page, and
/// mapping `p` to it, keeps the agreement.
proof fn lemma_load_consistent(st: PoolState, st2: PoolState, f: FrameId, p: PageId, fv: FrameView)
    requires
        pool_consistent(st),
        f < st.frames.len(),
        st.frames[f as int].state == FrameState::Reserved,
        st.frames[f as int].meta is None,
        fv.meta matches Some(m) && m.page_id == p,
        st2.frames == st.frames.update(f as int, fv),
        st2.table == st.table.insert(p, f),
        st2.free == st.free,
    ensures
        pool_consistent(st2),
{
    assert forall|q: PageId| #[trigger] st2.table.contains_key(q) implies holds_page(st2.frames, st2.table[q] as int, q) by {
        if q != p {
            assert(holds_page(st.frames, st.table[q] as int, q));
        }
    }
    assert forall|i: int| 0 <= i < st2.free.len() implies #[trigger] empty_free_frame(st2.frames, st2.free[i] as int) by {
        assert(empty_free_frame(st.frames, st.free[i] as int));
    }
}

/// Giving back a reserved frame `f` that holds no page, free, to the
/// queue keeps the agreement.
proof fn lemma_return_free_consistent(st: PoolState, st2: PoolState, f: FrameId)
    requires
        pool_consistent(st),
        f < st.frames.len(),
        st.frames[f as int].state == FrameState::Reserved,
        st.frames[f as int].meta is None,
        st2.frames == st.frames.update(f as int, st.frames[f as int].with_state(FrameState::Free)),
        st2.table == st.table,
        st2.free == st.free.push(f),
    ensures
        pool_consistent(st2),
{
    assert forall|q: PageId| #[trigger] st2.table.contains_key(q) implies holds_page(st2.frames, st2.table[q] as int, q) by {
        assert(holds_page(st.frames, st.table[q] as int, q));
    }
    assert forall|i: int| 0 <= i < st2.free.len() implies #[trigger] empty_free_frame(st2.frames, st2.free[i] as int) by {
        if i < st.free.len() {
            assert(st2.free[i] == st.free[i]);
            assert(empty_free_frame(st.frames, st.free[i] as int));
        }
    }
    assert(st2.free.no_duplicates()) by {
        assert forall|i: int, j: int| 0 <= i < st2.free.len() && 0 <= j < st2.free.len() && i != j implies st2.free[i] != st2.free[j] by {
            if i < st.free.len() {
                assert(empty_free_frame(st.frames, st.free[i] as int));
            }
            if j < st.free.len() {
                assert(empty_free_frame(st.frames, st.free[j] as int));
            }
        }
    }
}

pub struct BufferPoolManager {
    frames: Vec<Frame>,
    page_table: PageTable,
    clock_replacer: ClockReplacer,
    free_frames: FreeFrames,
    next_page_id: PageId,
    metrics: BufferPoolMetrics,
}

impl BufferPoolManager {
    pub closed spec fn state(&self) -> PoolState {
        PoolState {
            frames: frame_views(self.frames@),
            table: self.page_table.mapping(),
            free: self.free_frames.queue(),
            hand: self.clock_replacer.hand(),
            next_id: self.next_page_id,
            counts: self.metrics.counts(),
        }
    }

    /// Every frame number the pool keeps names one of its frames.
    pub open spec fn wf(&self) -> bool {
        let st = self.state();
        &&& st.frames.len() <= usize::MAX
        &&& st.frames.len() > 0 ==> 0 <= st.hand < st.frames.len()
        &&& forall|p: PageId| #[trigger] st.table.contains_key(p) ==> st.table[p] < st.frames.len()
        &&& forall|i: int| 0 <= i < st.free.len() ==> #[trigger] st.free[i] < st.frames.len()
    }

    /// A pool of `pool_size` free frames, with no page.
    pub fn new(pool_size: usize) -> (pool: Self)
        ensures
            pool.wf(),
            pool.state().frames == Seq::new(
                pool_size as nat,
                |i: int| FrameView { data: zero_page(), meta: None, state: FrameState::Free },
            ),
            pool.state().table == Map::<PageId, FrameId>::empty(),
            pool.state().free == Seq::new(pool_size as nat, |i: int| i as FrameId),
            pool.state().hand == 0,
            pool.state().next_id == 0,
            pool.state().counts == (0u64, 0u64, 0u64, 0u64),
            pool_consistent(pool.state()),
    {
        let mut frames: Vec<Frame> = Vec::new();
        let mut i: usize = 0;
        while i < pool_size
            invariant
                i <= pool_size,
                frames@.len() == i,
                frame_views(frames@) == Seq::new(
                    i as nat,
                    |k: int| FrameView { data: zero_page(), meta: None, state: FrameState::Free },
                ),
            decreases pool_size - i,
        {
            let ghost old_frames = frames@;
            let fr = Frame::new();
            frames.push(fr);
            i = i + 1;
            assert(frames@ == old_frames.push(fr));
            assert forall|k: int| 0 <= k < i implies frame_views(frames@)[k] == (FrameView { data: zero_page(), meta: None, state: FrameState::Free }) by {
                if k < i - 1 {
                    assert(frames@[k] == old_frames[k]);
                    assert(frame_views(old_frames)[k] == old_frames[k]@);
                }
            }
            assert(frame_views(frames@) =~= Seq::new(
                i as nat,
                |k: int| FrameView { data: zero_page(), meta: None, state: FrameState::Free },
            ));
        }
        let free_frames = match FreeFrames::initialize(pool_size) {
            Ok(f) => f,
            Err(_) => FreeFrames::new(),
        };
        Self {
            frames,
            page_table: PageTable::new(),
            clock_replacer: ClockReplacer::new(),
            free_frames,
            next_page_id: 0,
            metrics: BufferPoolMetrics::new(),
        }
    }

    pub fn metrics(&self) -> (m: &BufferPoolMetrics)
        ensures
            m.counts() == self.state().counts,
    {
        &self.metrics
    }

    /// Counts one fetch request.
    pub fn begin_fetch(&mut self)
        requires
            old(self).wf(),
        ensures
            final(self).wf(),
            pool_consistent(old(self).state()) ==> pool_consistent(final(self).state()),
            final(self).state() == (PoolState {
                counts: (bump(old(self).state().counts.0), old(self).state().counts.1, old(self).state().counts.2, old(self).state().counts.3),
                ..old(self).state()
            }),
    {
        self.metrics.record_fetch();
    }

    /// Looks the page up. A resident page whose frame is not reserved is a
    /// hit: the page is pinned and referenced. A page that is not resident
    /// is a miss. A fetch counts one of the two, once: the first lookup of
    /// a fetch (`miss_recorded` false) counts a hit or a miss, and a retry
    /// after a counted miss counts nothing more.
    pub fn fetch_lookup(&mut self, page_id: PageId, miss_recorded: bool) -> (result: Result<FetchLookup, BufferPoolError>)
        requires
            old(self).wf(),
        ensures
            final(self).wf(),
            pool_consistent(old(self).state()) ==> (result matches Ok(FetchLookup::Hit(h))
                ==> holds_page(final(self).state().frames, h as int, page_id)),
            pool_consistent(old(self).state()) ==> pool_consistent(final(self).state()),
            ({
                let st = old(self).state();
                let c = st.counts;
                if st.table.contains_key(page_id) {
                    let f = st.table[page_id] as int;
                    if st.frames[f].state == FrameState::Reserved {
                        result matches Ok(FetchLookup::Wait) && final(self).state() == st
                    } else if st.frames[f].meta is None {
                        result matches Err(BufferPoolError::FrameError(FrameError::PageNotFound))
                            && final(self).state() == (PoolState { counts: counted_hit(c, miss_recorded), ..st })
                    } else {
                        result matches Ok(FetchLookup::Hit(h)) && h == f && final(self).state() == (PoolState {
                            frames: st.frames.update(f, pinned_and_referenced(st.frames[f])),
                            counts: counted_hit(c, miss_recorded),
                            ..st
                        })
                    }
                } else {
                    result matches Ok(FetchLookup::Miss) && final(self).state() == (PoolState {
                        counts: counted_miss(c, miss_recorded),
                        ..st
                    })
                }
            }),
    {
        let found = match self.page_table.get_frame_id(page_id) {
            Ok(found) => found,
            Err(e) => return Err(BufferPoolError::PageTableError(e)),
        };
        if let Some(frame_id) = found {
            if self.frames[frame_id].is_reserved() {
                return Ok(FetchLookup::Wait);
            }
            if !miss_recorded {
                self.metrics.record_hit();
            }
            match self.frames[frame_id].pin() {
                Ok(()) => {},
                Err(e) => {
                    proof {
                        assert(frame_views(self.frames@) =~= old(self).state().frames);
                    }
                    return Err(BufferPoolError::FrameError(e));
                },
            }
            match self.frames[frame_id].mark_referenced() {
                Ok(()) => {},
                Err(e) => return Err(BufferPoolError::FrameError(e)),
            }
            proof {
                assert(frame_views(self.frames@) =~= old(self).state().frames.update(
                    frame_id as int,
                    pinned_and_referenced(old(self).state().frames[frame_id as int]),
                ));
                if pool_consistent(old(self).state()) {
                    lemma_same_pages_consistent(old(self).state(), self.state());
                }
            }
            return Ok(FetchLookup::Hit(frame_id));
        }
        if !miss_recorded {
            self.metrics.record_miss();
        }
        Ok(FetchLookup::Miss)
    }

    fn is_reserved_somewhere(&self) -> (b: bool)
        ensures
            b == any_reserved(self.state().frames),
    {
        let mut has_reserved_frame = false;
        let mut k: usize = 0;
        while k < self.frames.len() && !has_reserved_frame
            invariant
                k <= self.frames@.len(),
                has_reserved_frame == exists|j: int| 0 <= j < k && (#[trigger] frame_views(self.frames@)[j]).state == FrameState::Reserved,
            decreases self.frames@.len() - k,
        {
            assert(frame_views(self.frames@)[k as int] == self.frames@[k as int]@);
            if self.frames[k].is_reserved() {
                has_reserved_frame = true;
            }
            k = k + 1;
        }
        proof {
            if !has_reserved_frame {
                assert forall|j: int| 0 <= j < self.state().frames.len() implies (#[trigger] self.state().frames[j]).state != FrameState::Reserved by {
                    assert(!((frame_views(self.frames@)[j]).state == FrameState::Reserved));
                }
            }
        }
        has_reserved_frame
    }

    fn eviction_record(&self, victim: FrameId) -> (e: Result<Eviction, BufferPoolError>)
        requires
            victim < self.state().frames.len(),
        ensures
            match self.state().frames[victim as int].meta {
                None => e matches Err(BufferPoolError::FrameError(FrameError::PageNotFound)),
                Some(m) => e matches Ok(ev) && eviction_of(ev, self.state().frames, victim as int),
            },
    {
        let old_page_id = match self.frames[victim].get_page_id() {
            Ok(p) => p,
            Err(e) => return Err(BufferPoolError::FrameError(e)),
        };
        let dirty = self.frames[victim].is_dirty();
        let old_data = if dirty {
            vstd::slice::slice_to_vec(self.frames[victim].read_data())
        } else {
            let zeros = vec![0u8; PAGE_SIZE];
            assert(zeros@ =~= zero_page());
            zeros
        };
        Ok(Eviction { frame_id: victim, old_page_id, dirty, old_data })
    }

    /// After a miss: takes the first free frame, or else a CLOCK victim,
    /// and reserves it for loading the page.
    pub fn fetch_claim_frame(&mut self) -> (result: Result<FrameClaim, BufferPoolError>)
        requires
            old(self).wf(),
        ensures
            final(self).wf(),
            result matches Ok(FrameClaim::Evict(e)) ==> e.frame_id < old(self).state().frames.len()
                && !old(self).state().frames[e.frame_id as int].is_pinned()
                && old(self).state().frames[e.frame_id as int].state != FrameState::Reserved,
            pool_consistent(old(self).state()) ==> pool_consistent(final(self).state()),
            ({
                let st = old(self).state();
                if st.free.len() > 0 {
                    let ff = st.free[0] as int;
                    if st.frames[ff].state == FrameState::Reserved {
                        result matches Err(BufferPoolError::FrameError(FrameError::AlreadyReserved))
                            && final(self).state() == (PoolState { free: st.free.drop_first().push(st.free[0]), ..st })
                    } else {
                        result matches Ok(FrameClaim::LoadFree(x)) && x == ff && final(self).state() == (PoolState {
                            frames: st.frames.update(ff, st.frames[ff].with_state(FrameState::Reserved)),
                            free: st.free.drop_first(),
                            ..st
                        })
                    }
                } else {
                    let (fs, h, v) = victim_outcome(st.frames, st.hand);
                    match v {
                        None => {
                            &&& final(self).state() == (PoolState { frames: fs, hand: h, ..st })
                            &&& if any_reserved(fs) {
                                result matches Ok(FrameClaim::Wait)
                            } else {
                                result matches Err(BufferPoolError::NoEvictableFrame)
                            }
                        },
                        Some(x) => {
                            &&& final(self).state() == (PoolState {
                                frames: fs.update(x as int, fs[x as int].with_state(FrameState::Reserved)),
                                hand: h,
                                ..st
                            })
                            &&& if fs[x as int].meta is None {
                                result matches Err(BufferPoolError::FrameError(FrameError::PageNotFound))
                            } else {
                                result matches Ok(FrameClaim::Evict(e)) && eviction_of(e, fs, x as int)
                            }
                        },
                    }
                }
            }),
    {
        let free = match self.free_frames.get_frame() {
            Ok(free) => free,
            Err(e) => return Err(BufferPoolError::FreeFrameError(e)),
        };
        if let Some(free_frame) = free {
            match self.frames[free_frame].reserve() {
                Ok(()) => {},
                Err(err) => {
                    let _ = self.free_frames.add_frame(free_frame);
                    proof {
                        assert(frame_views(self.frames@) =~= old(self).state().frames);
                    }
                    return Err(BufferPoolError::FrameError(err));
                },
            }
            proof {
                assert(frame_views(self.frames@) =~= old(self).state().frames.update(
                    free_frame as int,
                    old(self).state().frames[free_frame as int].with_state(FrameState::Reserved),
                ));
                if pool_consistent(old(self).state()) {
                    assert(empty_free_frame(old(self).state().frames, old(self).state().free[0] as int));
                    lemma_take_free_consistent(
                        old(self).state(),
                        self.state(),
                        old(self).state().frames[free_frame as int].with_state(FrameState::Reserved),
                    );
                }
            }
            return Ok(FrameClaim::LoadFree(free_frame));
        }
        proof {
            lemma_victim_outcome_facts(old(self).state().frames, old(self).state().hand);
        }
        let victim = match self.clock_replacer.find_victim(&mut self.frames) {
            Ok(v) => v,
            Err(e) => return Err(e),
        };
        let victim = match victim {
            Some(victim) => victim,
            None => {
                if self.is_reserved_somewhere() {
                    return Ok(FrameClaim::Wait);
                }
                return Err(BufferPoolError::NoEvictableFrame);
            },
        };
        let ghost fs = frame_views(self.frames@);
        proof {
            let orig = old(self).state().frames;
            assert(fs[victim as int] == orig[victim as int] || fs[victim as int] == orig[victim as int].reference_cleared());
        }
        match self.frames[victim].reserve() {
            Ok(()) => {},
            Err(e) => return Err(BufferPoolError::FrameError(e)),
        }
        proof {
            assert(frame_views(self.frames@) =~= fs.update(victim as int, fs[victim as int].with_state(FrameState::Reserved)));
        }
        match self.eviction_record(victim) {
            Ok(e) => Ok(FrameClaim::Evict(e)),
            Err(e) => Err(e),
        }
    }

    /// Finishes loading a page read from disk into a reserved free frame:
    /// the frame takes the page, pinned and referenced, and the page table
    /// maps the page to it. Refused when `data` is not one page long; the
    /// frame is then free again and back in the free queue.
    pub fn finish_load_free(&mut self, frame_id: FrameId, page_id: PageId, data: &[u8]) -> (result: Result<FrameId, BufferPoolError>)
        requires
            old(self).wf(),
            frame_id < old(self).state().frames.len(),
        ensures
            final(self).wf(),
            pool_consistent(old(self).state()) && old(self).state().frames[frame_id as int].state == FrameState::Reserved
                && old(self).state().frames[frame_id as int].meta is None ==> pool_consistent(final(self).state()),
            ({
                let st = old(self).state();
                if data@.len() != PAGE_SIZE {
                    result matches Err(BufferPoolError::FrameError(FrameError::InvalidDataLength))
                        && final(self).state() == (PoolState {
                        frames: st.frames.update(frame_id as int, st.frames[frame_id as int].with_state(FrameState::Free)),
                        free: st.free.push(frame_id),
                        ..st
                    })
                } else {
                    result matches Ok(f) && f == frame_id && final(self).state() == (PoolState {
                        frames: st.frames.update(frame_id as int, loaded_and_pinned(data@, page_id)),
                        table: st.table.insert(page_id, frame_id),
                        ..st
                    })
                }
            }),
    {
        match self.frames[frame_id].load_page(page_id, data) {
            Ok(()) => {},
            Err(err) => {
                let _ = self.frames[frame_id].set_free();
                let _ = self.free_frames.add_frame(frame_id);
                proof {
                    assert(frame_views(self.frames@) =~= old(self).state().frames.update(
                        frame_id as int,
                        old(self).state().frames[frame_id as int].with_state(FrameState::Free),
                    ));
                    if pool_consistent(old(self).state()) && old(self).state().frames[frame_id as int].state == FrameState::Reserved
                        && old(self).state().frames[frame_id as int].meta is None {
                        lemma_return_free_consistent(old(self).state(), self.state(), frame_id);
                    }
                }
                return Err(BufferPoolError::FrameError(err));
            },
        }
        let _ = self.frames[frame_id].pin();
        let _ = self.frames[frame_id].mark_referenced();
        let _ = self.page_table.insert(page_id, frame_id);
        proof {
            assert(frame_views(self.frames@) =~= old(self).state().frames.update(frame_id as int, loaded_and_pinned(data@, page_id)));
            if pool_consistent(old(self).state()) && old(self).state().frames[frame_id as int].state == FrameState::Reserved
                && old(self).state().frames[frame_id as int].meta is None {
                lemma_load_consistent(old(self).state(), self.state(), frame_id, page_id, loaded_and_pinned(data@, page_id));
            }
        }
        Ok(frame_id)
    }

    /// Gives back a reserved free frame whose load failed: the frame is
    /// free again and back in the free queue.
    pub fn abort_load_free(&mut self, frame_id: FrameId)
        requires
            old(self).wf(),
            frame_id < old(self).state().frames.len(),
        ensures
            final(self).wf(),
            pool_consistent(old(self).state()) && old(self).state().frames[frame_id as int].state == FrameState::Reserved
                && old(self).state().frames[frame_id as int].meta is None ==> pool_consistent(final(self).state()),
            final(self).state() == (PoolState {
                frames: old(self).state().frames.update(
                    frame_id as int,
                    old(self).state().frames[frame_id as int].with_state(FrameState::Free),
                ),
                free: old(self).state().free.push(frame_id),
                ..old(self).state()
            }),
    {
        let _ = self.frames[frame_id].set_free();
        let _ = self.free_frames.add_frame(frame_id);
        proof {
            assert(frame_views(self.frames@) =~= old(self).state().frames.update(
                frame_id as int,
                old(self).state().frames[frame_id as int].with_state(FrameState::Free),
            ));
            if pool_consistent(old(self).state()) && old(self).state().frames[frame_id as int].state == FrameState::Reserved
                && old(self).state().frames[frame_id as int].meta is None {
                lemma_return_free_consistent(old(self).state(), self.state(), frame_id);
            }
        }
    }

    /// Finishes an eviction for a fetch: the victim takes the page read from
    /// disk, pinned and referenced, the page table moves the victim from its
    /// old page to the new one, and the eviction is counted. Refused when
    /// `data` is not one page long (the victim is resident again with its
    /// old page) or when the page table refuses the move (the victim keeps
    /// the new page).
    pub fn finish_evict(&mut self, victim: FrameId, old_page_id: PageId, page_id: PageId, data: &[u8]) -> (result: Result<FrameId, BufferPoolError>)
        requires
            old(self).wf(),
            victim < old(self).state().frames.len(),
        ensures
            final(self).wf(),
            pool_consistent(old(self).state()) && old(self).state().frames[victim as int].state == FrameState::Reserved
                && (data@.len() != PAGE_SIZE || replace_ok(old(self).state().table, old_page_id, page_id, victim))
                ==> pool_consistent(final(self).state()),
            ({
                let st = old(self).state();
                let c = st.counts;
                if data@.len() != PAGE_SIZE {
                    result matches Err(BufferPoolError::FrameError(FrameError::InvalidDataLength))
                        && final(self).state() == (PoolState {
                        frames: st.frames.update(victim as int, st.frames[victim as int].with_state(FrameState::Resident)),
                        ..st
                    })
                } else if !replace_ok(st.table, old_page_id, page_id, victim) {
                    result matches Err(BufferPoolError::PageTableError(e)) && e == replace_error(st.table, old_page_id, page_id, victim)
                        && final(self).state() == (PoolState {
                        frames: st.frames.update(victim as int, loaded_and_pinned(data@, page_id)),
                        ..st
                    })
                } else {
                    result matches Ok(f) && f == victim && final(self).state() == (PoolState {
                        frames: st.frames.update(victim as int, loaded_and_pinned(data@, page_id)),
                        table: st.table.remove(old_page_id).insert(page_id, victim),
                        counts: (c.0, c.1, c.2, bump(c.3)),
                        ..st
                    })
                }
            }),
    {
        match self.frames[victim].load_page(page_id, data) {
            Ok(()) => {},
            Err(err) => {
                let _ = self.frames[victim].set_resident();
                proof {
                    assert(frame_views(self.frames@) =~= old(self).state().frames.update(
                        victim as int,
                        old(self).state().frames[victim as int].with_state(FrameState::Resident),
                    ));
                    if pool_consistent(old(self).state()) && old(self).state().frames[victim as int].state == FrameState::Reserved {
                        lemma_same_pages_consistent(old(self).state(), self.state());
                    }
                }
                return Err(BufferPoolError::FrameError(err));
            },
        }
        let _ = self.frames[victim].pin();
        let _ = self.frames[victim].mark_referenced();
        proof {
            assert(frame_views(self.frames@) =~= old(self).state().frames.update(victim as int, loaded_and_pinned(data@, page_id)));
        }
        match self.page_table.replace(old_page_id, page_id, victim) {
            Ok(()) => {},
            Err(e) => return Err(BufferPoolError::PageTableError(e)),
        }
        self.metrics.record_eviction();
        proof {
            if pool_consistent(old(self).state()) {
                lemma_move_consistent(old(self).state(), self.state(), victim, old_page_id, page_id, loaded_and_pinned(data@, page_id));
            }
        }
        Ok(victim)
    }

    /// Gives back a reserved victim whose eviction failed: it is resident
    /// again with its old page.
    pub fn abort_evict(&mut self, victim: FrameId)
        requires
            old(self).wf(),
            victim < old(self).state().frames.len(),
        ensures
            final(self).wf(),
            pool_consistent(old(self).state()) && old(self).state().frames[victim as int].state == FrameState::Reserved
                ==> pool_consistent(final(self).state()),
            final(self).state() == (PoolState {
                frames: old(self).state().frames.update(
                    victim as int,
                    old(self).state().frames[victim as int].with_state(FrameState::Resident),
                ),
                ..old(self).state()
            }),
    {
        let _ = self.frames[victim].set_resident();
        proof {
            assert(frame_views(self.frames@) =~= old(self).state().frames.update(
                victim as int,
                old(self).state().frames[victim as int].with_state(FrameState::Resident),
            ));
            if pool_consistent(old(self).state()) && old(self).state().frames[victim as int].state == FrameState::Reserved {
                lemma_same_pages_consistent(old(self).state(), self.state());
            }
        }
    }

    /// Puts a new page in frame `frame_id`: zeroed, pinned, referenced and
    /// dirty.
    fn install_new_page(&mut self, frame_id: FrameId, page_id: PageId)
        requires
            old(self).wf(),
            frame_id < old(self).state().frames.len(),
        ensures
            final(self).wf(),
            final(self).state() == (PoolState {
                frames: old(self).state().frames.update(frame_id as int, new_page_frame(page_id)),
                ..old(self).state()
            }),
    {
        let zeros = [0u8; PAGE_SIZE];
        assert(zeros@ =~= zero_page());
        let _ = self.frames[frame_id].load_page(page_id, zeros.as_slice());
        let _ = self.frames[frame_id].pin();
        let _ = self.frames[frame_id].mark_referenced();
        let _ = self.frames[frame_id].mark_dirty();
        proof {
            assert(frame_views(self.frames@) =~= old(self).state().frames.update(frame_id as int, new_page_frame(page_id)));
        }
    }

    /// First step of creating a page under the next page id. Refused when
    /// the ids are used up. With a free frame the page is created at once:
    /// the first free frame takes it, the page table maps it and the next
    /// id moves on. Otherwise a CLOCK victim is reserved for it and
    /// returned with the id, for the caller to write its old page back
    /// when dirty and then finish.
    pub fn new_page_begin(&mut self) -> (result: Result<NewPageStep, BufferPoolError>)
        requires
            old(self).wf(),
        ensures
            final(self).wf(),
            result matches Ok(NewPageStep::Evict(e, p)) ==> e.frame_id < old(self).state().frames.len()
                && !old(self).state().frames[e.frame_id as int].is_pinned()
                && old(self).state().frames[e.frame_id as int].state != FrameState::Reserved,
            pool_consistent(old(self).state()) ==> pool_consistent(final(self).state()),
            ({
                let st = old(self).state();
                let id = st.next_id;
                if id >= u16::MAX {
                    result matches Err(BufferPoolError::NoPageIdAvailable) && final(self).state() == st
                } else if st.free.len() > 0 {
                    let ff = st.free[0];
                    result matches Ok(NewPageStep::Ready(p, f)) && p == id && f == ff
                        && final(self).state() == (PoolState {
                        frames: st.frames.update(ff as int, new_page_frame(id)),
                        table: st.table.insert(id, ff),
                        free: st.free.drop_first(),
                        next_id: (id + 1) as PageId,
                        ..st
                    })
                } else {
                    let (fs, h, v) = victim_outcome(st.frames, st.hand);
                    match v {
                        None => result matches Err(BufferPoolError::NoEvictableFrame)
                            && final(self).state() == (PoolState { frames: fs, hand: h, ..st }),
                        Some(x) => {
                            &&& final(self).state() == (PoolState {
                                frames: fs.update(x as int, fs[x as int].with_state(FrameState::Reserved)),
                                hand: h,
                                ..st
                            })
                            &&& if fs[x as int].meta is None {
                                result matches Err(BufferPoolError::FrameError(FrameError::PageNotFound))
                            } else {
                                result matches Ok(NewPageStep::Evict(e, p)) && p == id && eviction_of(e, fs, x as int)
                            }
                        },
                    }
                }
            }),
    {
        let new_page_id = self.next_page_id;
        if new_page_id >= u16::MAX {
            return Err(BufferPoolError::NoPageIdAvailable);
        }
        let free = match self.free_frames.get_frame() {
            Ok(free) => free,
            Err(e) => return Err(BufferPoolError::FreeFrameError(e)),
        };
        if let Some(frame_id) = free {
            self.install_new_page(frame_id, new_page_id);
            let _ = self.page_table.insert(new_page_id, frame_id);
            self.next_page_id = new_page_id + 1;
            proof {
                if pool_consistent(old(self).state()) {
                    lemma_take_free_consistent(old(self).state(), self.state(), new_page_frame(new_page_id));
                }
            }
            return Ok(NewPageStep::Ready(new_page_id, frame_id));
        }
        proof {
            lemma_victim_outcome_facts(old(self).state().frames, old(self).state().hand);
        }
        let victim = match self.clock_replacer.find_victim(&mut self.frames) {
            Ok(v) => v,
            Err(e) => return Err(e),
        };
        let victim = match victim {
            Some(victim) => victim,
            None => return Err(BufferPoolError::NoEvictableFrame),
        };
        let ghost fs = frame_views(self.frames@);
        proof {
            let orig = old(self).state().frames;
            assert(fs[victim as int] == orig[victim as int] || fs[victim as int] == orig[victim as int].reference_cleared());
        }
        match self.frames[victim].reserve() {
            Ok(()) => {},
            Err(e) => return Err(BufferPoolError::FrameError(e)),
        }
        proof {
            assert(frame_views(self.frames@) =~= fs.update(victim as int, fs[victim as int].with_state(FrameState::Reserved)));
        }
        match self.eviction_record(victim) {
            Ok(e) => Ok(NewPageStep::Evict(e, new_page_id)),
            Err(e) => Err(e),
        }
    }

    /// Second step of creating a page in a reserved victim, once its old
    /// page is written back: the victim takes the new page, zeroed, pinned,
    /// referenced and dirty, and the page table moves the victim from the
    /// old page to the new one; the next id then follows the new one.
    /// Refused when the page table refuses the move: the victim keeps the
    /// new page and the next id stays.
    pub fn new_page_finish(&mut self, victim: FrameId, old_page_id: PageId, new_page_id: PageId) -> (result: Result<(PageId, FrameId), BufferPoolError>)
        requires
            old(self).wf(),
            victim < old(self).state().frames.len(),
            new_page_id < u16::MAX,
        ensures
            final(self).wf(),
            pool_consistent(old(self).state()) && replace_ok(old(self).state().table, old_page_id, new_page_id, victim)
                ==> pool_consistent(final(self).state()),
            ({
                let st = old(self).state();
                let frames = st.frames.update(victim as int, new_page_frame(new_page_id));
                if !replace_ok(st.table, old_page_id, new_page_id, victim) {
                    result matches Err(BufferPoolError::PageTableError(e))
                        && e == replace_error(st.table, old_page_id, new_page_id, victim)
                        && final(self).state() == (PoolState { frames, ..st })
                } else {
                    result matches Ok((p, f)) && p == new_page_id && f == victim && final(self).state() == (PoolState {
                        frames,
                        table: st.table.remove(old_page_id).insert(new_page_id, victim),
                        next_id: (new_page_id + 1) as PageId,
                        ..st
                    })
                }
            }),
    {
        self.install_new_page(victim, new_page_id);
        match self.page_table.replace(old_page_id, new_page_id, victim) {
            Ok(()) => {},
            Err(e) => return Err(BufferPoolError::PageTableError(e)),
        }
        self.next_page_id = new_page_id + 1;
        proof {
            if pool_consistent(old(self).state()) {
                lemma_move_consistent(old(self).state(), self.state(), victim, old_page_id, new_page_id, new_page_frame(new_page_id));
            }
        }
        Ok((new_page_id, victim))
    }

    /// Removes one pin from a resident page. Refused when the page is not
    /// resident, its frame is reserved, or the page is not pinned.
    pub fn unpin_page(&mut self, page_id: PageId) -> (result: Result<(), BufferPoolError>)
        requires
            old(self).wf(),
        ensures
            final(self).wf(),
            pool_consistent(old(self).state()) ==> pool_consistent(final(self).state()),
            ({
                let st = old(self).state();
                if !st.table.contains_key(page_id) {
                    result matches Err(BufferPoolError::PageNotFound(p)) && p == page_id && final(self).state() == st
                } else {
                    let f = st.table[page_id] as int;
                    if st.frames[f].state == FrameState::Reserved {
                        result matches Err(BufferPoolError::FrameReserved) && final(self).state() == st
                    } else {
                        match st.frames[f].meta {
                            None => result matches Err(BufferPoolError::FrameError(FrameError::PageNotFound))
                                && final(self).state() == st,
                            Some(m) => if m.pins == 0 {
                                result matches Err(BufferPoolError::FrameError(FrameError::NotPinned))
                                    && final(self).state() == st
                            } else {
                                result is Ok && final(self).state() == (PoolState {
                                    frames: st.frames.update(f, unpinned_once(st.frames[f])),
                                    ..st
                                })
                            },
                        }
                    }
                }
            }),
    {
        let found = match self.page_table.get_frame_id(page_id) {
            Ok(found) => found,
            Err(e) => return Err(BufferPoolError::PageTableError(e)),
        };
        if let Some(frame_id) = found {
            if self.frames[frame_id].is_reserved() {
                return Err(BufferPoolError::FrameReserved);
            }
            let r = self.frames[frame_id].unpin();
            proof {
                let st = old(self).state();
                let f = frame_id as int;
                if r is Ok {
                    let m = st.frames[f].meta->0;
                    assert(frame_views(self.frames@) =~= st.frames.update(f, st.frames[f].with_meta(MetaView { pins: (m.pins - 1) as u8, ..m })));
                    if pool_consistent(st) {
                        lemma_same_pages_consistent(st, self.state());
                    }
                } else {
                    assert(frame_views(self.frames@) =~= st.frames);
                }
            }
            match r {
                Ok(()) => return Ok(()),
                Err(e) => return Err(BufferPoolError::FrameError(e)),
            }
        }
        Err(BufferPoolError::PageNotFound(page_id))
    }

    /// Marks a resident page dirty. Refused when the page is not resident
    /// or its frame is reserved.
    pub fn mark_dirty_page(&mut self, page_id: PageId) -> (result: Result<(), BufferPoolError>)
        requires
            old(self).wf(),
        ensures
            final(self).wf(),
            pool_consistent(old(self).state()) ==> pool_consistent(final(self).state()),
            ({
                let st = old(self).state();
                if !st.table.contains_key(page_id) {
                    result matches Err(BufferPoolError::PageNotFound(p)) && p == page_id && final(self).state() == st
                } else {
                    let f = st.table[page_id] as int;
                    if st.frames[f].state == FrameState::Reserved {
                        result matches Err(BufferPoolError::FrameReserved) && final(self).state() == st
                    } else {
                        match st.frames[f].meta {
                            None => result matches Err(BufferPoolError::FrameError(FrameError::PageNotFound))
                                && final(self).state() == st,
                            Some(m) => result is Ok && final(self).state() == (PoolState {
                                frames: st.frames.update(f, st.frames[f].with_meta(MetaView { dirty: true, ..m })),
                                ..st
                            }),
                        }
                    }
                }
            }),
    {
        let found = match self.page_table.get_frame_id(page_id) {
            Ok(found) => found,
            Err(e) => return Err(BufferPoolError::PageTableError(e)),
        };
        if let Some(frame_id) = found {
            if self.frames[frame_id].is_reserved() {
                return Err(BufferPoolError::FrameReserved);
            }
            let r = self.frames[frame_id].mark_dirty();
            proof {
                let st = old(self).state();
                let f = frame_id as int;
                if r is Ok {
                    let m = st.frames[f].meta->0;
                    assert(frame_views(self.frames@) =~= st.frames.update(f, st.frames[f].with_meta(MetaView { dirty: true, ..m })));
                    if pool_consistent(st) {
                        lemma_same_pages_consistent(st, self.state());
                    }
                } else {
                    assert(frame_views(self.frames@) =~= st.frames);
                }
            }
            match r {
                Ok(()) => return Ok(()),
                Err(e) => return Err(BufferPoolError::FrameError(e)),
            }
        }
        Err(BufferPoolError::PageNotFound(page_id))
    }

    /// The write-back a reserved frame needs: its page and bytes when the
    /// page is dirty, nothing when it is clean. Refused when the frame is
    /// not reserved.
    fn reserved_frame_work(&self, frame_id: FrameId) -> (result: Result<Option<FlushWork>, BufferPoolError>)
        requires
            frame_id < self.state().frames.len(),
        ensures
            ({
                let fv = self.state().frames[frame_id as int];
                if fv.state != FrameState::Reserved {
                    result matches Err(BufferPoolError::FrameNotReserved)
                } else if !fv.is_dirty() {
                    result matches Ok(None)
                } else {
                    result matches Ok(Some(w)) && w.frame_id == frame_id && w.page_id == fv.meta->0.page_id && w.data@ == fv.data
                }
            }),
    {
        if !self.frames[frame_id].is_reserved() {
            return Err(BufferPoolError::FrameNotReserved);
        }
        if self.frames[frame_id].is_dirty() {
            let page_id = match self.frames[frame_id].get_page_id() {
                Ok(p) => p,
                Err(e) => return Err(BufferPoolError::FrameError(e)),
            };
            let data = vstd::slice::slice_to_vec(self.frames[frame_id].read_data());
            return Ok(Some(FlushWork { frame_id, page_id, data }));
        }
        Ok(None)
    }

    /// First step of writing a resident page back: reserves its frame.
    /// A clean page needs no write: the frame is resident again and the
    /// result is `None`. A dirty page's bytes are returned for the caller to
    /// write. Refused when the page is not resident or its frame reserved.
    pub fn begin_flush(&mut self, page_id: PageId) -> (result: Result<Option<FlushWork>, BufferPoolError>)
        requires
            old(self).wf(),
        ensures
            final(self).wf(),
            pool_consistent(old(self).state()) ==> pool_consistent(final(self).state()),
            ({
                let st = old(self).state();
                if !st.table.contains_key(page_id) {
                    result matches Err(BufferPoolError::PageNotFound(p)) && p == page_id && final(self).state() == st
                } else {
                    let f = st.table[page_id] as int;
                    let fv = st.frames[f];
                    if fv.state == FrameState::Reserved {
                        result matches Err(BufferPoolError::FrameReserved) && final(self).state() == st
                    } else if fv.is_dirty() {
                        result matches Ok(Some(w)) && w.frame_id == f && w.page_id == fv.meta->0.page_id && w.data@ == fv.data
                            && final(self).state() == (PoolState {
                            frames: st.frames.update(f, fv.with_state(FrameState::Reserved)),
                            ..st
                        })
                    } else {
                        result matches Ok(None) && final(self).state() == (PoolState {
                            frames: st.frames.update(f, fv.with_state(FrameState::Resident)),
                            ..st
                        })
                    }
                }
            }),
    {
        let found = match self.page_table.get_frame_id(page_id) {
            Ok(found) => found,
            Err(e) => return Err(BufferPoolError::PageTableError(e)),
        };
        if let Some(frame_id) = found {
            if self.frames[frame_id].is_reserved() {
                return Err(BufferPoolError::FrameReserved);
            }
            match self.frames[frame_id].reserve() {
                Ok(()) => {},
                Err(e) => return Err(BufferPoolError::FrameError(e)),
            }
            let ghost st = old(self).state();
            let ghost f = frame_id as int;
            proof {
                assert(frame_views(self.frames@) =~= st.frames.update(f, st.frames[f].with_state(FrameState::Reserved)));
                if pool_consistent(st) {
                    assert(holds_page(st.frames, f, page_id));
                    lemma_same_pages_consistent(st, self.state());
                }
            }
            if self.frames[frame_id].is_dirty() {
                return self.reserved_frame_work(frame_id);
            }
            let _ = self.frames[frame_id].set_resident();
            proof {
                assert(frame_views(self.frames@) =~= st.frames.update(f, st.frames[f].with_state(FrameState::Resident)));
                if pool_consistent(st) {
                    assert(holds_page(st.frames, f, page_id));
                    lemma_same_pages_consistent(st, self.state());
                }
            }
            return Ok(None);
        }
        Err(BufferPoolError::PageNotFound(page_id))
    }

    /// Second step of writing a page back, given the outcome of the write.
    /// A failed write is returned as the error. After a good write the page
    /// is clean. Either way the frame is resident again.
    pub fn finish_flush(&mut self, frame_id: FrameId, written: Result<(), std::io::Error>) -> (result: Result<(), BufferPoolError>)
        requires
            old(self).wf(),
            frame_id < old(self).state().frames.len(),
        ensures
            final(self).wf(),
            pool_consistent(old(self).state()) && old(self).state().frames[frame_id as int].state == FrameState::Reserved
                ==> pool_consistent(final(self).state()),
            ({
                let st = old(self).state();
                let f = frame_id as int;
                let fv = st.frames[f];
                match written {
                    Err(e) => result matches Err(BufferPoolError::DiskError(x)) && x == e && final(self).state() == (PoolState {
                        frames: st.frames.update(f, fv.with_state(FrameState::Resident)),
                        ..st
                    }),
                    Ok(()) => match fv.meta {
                        None => result matches Err(BufferPoolError::FrameError(FrameError::PageNotFound))
                            && final(self).state() == (PoolState {
                            frames: st.frames.update(f, fv.with_state(FrameState::Resident)),
                            ..st
                        }),
                        Some(m) => result is Ok && final(self).state() == (PoolState {
                            frames: st.frames.update(f, fv.with_meta(MetaView { dirty: false, ..m }).with_state(FrameState::Resident)),
                            ..st
                        }),
                    },
                }
            }),
    {
        let ghost st = old(self).state();
        let ghost f = frame_id as int;
        if let Err(err) = written {
            let _ = self.frames[frame_id].set_resident();
            proof {
                assert(frame_views(self.frames@) =~= st.frames.update(f, st.frames[f].with_state(FrameState::Resident)));
                if pool_consistent(st) && st.frames[f].state == FrameState::Reserved {
                    lemma_same_pages_consistent(st, self.state());
                }
            }
            return Err(BufferPoolError::DiskError(err));
        }
        let r = self.frames[frame_id].clear_dirty();
        if let Err(err) = r {
            let _ = self.frames[frame_id].set_resident();
            proof {
                assert(frame_views(self.frames@) =~= st.frames.update(f, st.frames[f].with_state(FrameState::Resident)));
                if pool_consistent(st) && st.frames[f].state == FrameState::Reserved {
                    lemma_same_pages_consistent(st, self.state());
                }
            }
            return Err(BufferPoolError::FrameError(err));
        }
        let _ = self.frames[frame_id].set_resident();
        proof {
            let m = st.frames[f].meta->0;
            assert(frame_views(self.frames@) =~= st.frames.update(
                f,
                st.frames[f].with_meta(MetaView { dirty: false, ..m }).with_state(FrameState::Resident),
            ));
            if pool_consistent(st) && st.frames[f].state == FrameState::Reserved {
                lemma_same_pages_consistent(st, self.state());
            }
        }
        Ok(())
    }

    /// The pages the page table maps, each once.
    pub fn resident_page_ids(&self) -> (result: Result<Vec<PageId>, BufferPoolError>)
        ensures
            result matches Ok(ids) && ids@.to_set() == self.state().table.dom() && ids@.no_duplicates(),
    {
        match self.page_table.get_resident_ids() {
            Ok(ids) => Ok(ids),
            Err(e) => Err(BufferPoolError::PageTableError(e)),
        }
    }

    /// Drops page `page_id` from frame `frame_id`: the page table forgets
    /// it, the frame is cleared and goes back to the free queue.
    fn release_frame(&mut self, page_id: PageId, frame_id: FrameId)
        requires
            old(self).wf(),
            frame_id < old(self).state().frames.len(),
        ensures
            final(self).wf(),
            final(self).state() == (PoolState {
                frames: old(self).state().frames.update(
                    frame_id as int,
                    FrameView { data: zero_page(), meta: None, state: FrameState::Free },
                ),
                table: old(self).state().table.remove(page_id),
                free: old(self).state().free.push(frame_id),
                ..old(self).state()
            }),
    {
        let _ = self.page_table.remove_page(page_id);
        let _ = self.frames[frame_id].reset();
        let _ = self.free_frames.add_frame(frame_id);
        proof {
            assert(frame_views(self.frames@) =~= old(self).state().frames.update(
                frame_id as int,
                FrameView { data: zero_page(), meta: None, state: FrameState::Free },
            ));
        }
    }

    /// First step of deleting a resident page. Refused when the page is not
    /// resident, or is pinned, or its frame is reserved. A clean page is
    /// dropped at once: its frame is cleared and freed, and the result is
    /// `None`. A dirty page's frame is reserved and its bytes returned for
    /// the caller to write.
    pub fn begin_delete(&mut self, page_id: PageId) -> (result: Result<Option<FlushWork>, BufferPoolError>)
        requires
            old(self).wf(),
        ensures
            final(self).wf(),
            pool_consistent(old(self).state()) ==> pool_consistent(final(self).state()),
            ({
                let st = old(self).state();
                if !st.table.contains_key(page_id) {
                    result matches Err(BufferPoolError::PageNotFound(p)) && p == page_id && final(self).state() == st
                } else {
                    let f = st.table[page_id] as int;
                    let fv = st.frames[f];
                    if fv.is_pinned() || fv.state == FrameState::Reserved {
                        result matches Err(BufferPoolError::PagePinned(p)) && p == page_id && final(self).state() == st
                    } else if fv.is_dirty() {
                        result matches Ok(Some(w)) && w.frame_id == f && w.page_id == fv.meta->0.page_id && w.data@ == fv.data
                            && final(self).state() == (PoolState {
                            frames: st.frames.update(f, fv.with_state(FrameState::Reserved)),
                            ..st
                        })
                    } else {
                        result matches Ok(None) && final(self).state() == (PoolState {
                            frames: st.frames.update(f, FrameView { data: zero_page(), meta: None, state: FrameState::Free }),
                            table: st.table.remove(page_id),
                            free: st.free.push(st.table[page_id]),
                            ..st
                        })
                    }
                }
            }),
    {
        let found = match self.page_table.get_frame_id(page_id) {
            Ok(found) => found,
            Err(e) => return Err(BufferPoolError::PageTableError(e)),
        };
        if let Some(frame_id) = found {
            if !self.frames[frame_id].is_pinned() {
                if !self.frames[frame_id].is_reserved() {
                    match self.frames[frame_id].reserve() {
                        Ok(()) => {},
                        Err(e) => return Err(BufferPoolError::FrameError(e)),
                    }
                    let ghost st = old(self).state();
                    let ghost f = frame_id as int;
                    proof {
                        assert(frame_views(self.frames@) =~= st.frames.update(f, st.frames[f].with_state(FrameState::Reserved)));
                        if pool_consistent(st) {
                            assert(holds_page(st.frames, f, page_id));
                            lemma_same_pages_consistent(st, self.state());
                        }
                    }
                    if self.frames[frame_id].is_dirty() {
                        return self.reserved_frame_work(frame_id);
                    }
                    self.release_frame(page_id, frame_id);
                    proof {
                        assert(self.state().frames =~= st.frames.update(f, FrameView { data: zero_page(), meta: None, state: FrameState::Free }));
                        if pool_consistent(st) {
                            assert(holds_page(st.frames, f, page_id));
                            lemma_release_consistent(st, self.state(), page_id, frame_id);
                        }
                    }
                    return Ok(None);
                }
            }
            return Err(BufferPoolError::PagePinned(page_id));
        }
        Err(BufferPoolError::PageNotFound(page_id))
    }

    /// Second step of deleting a dirty page, given the outcome of its
    /// write-back. A failed write is returned as the error and the frame is
    /// resident again with the page. After a good write the page table
    /// forgets the page and the frame is cleared and freed.
    pub fn finish_delete(&mut self, page_id: PageId, frame_id: FrameId, written: Result<(), std::io::Error>) -> (result: Result<(), BufferPoolError>)
        requires
            old(self).wf(),
            frame_id < old(self).state().frames.len(),
        ensures
            final(self).wf(),
            pool_consistent(old(self).state()) && old(self).state().frames[frame_id as int].state == FrameState::Reserved
                && (old(self).state().frames[frame_id as int].meta matches Some(m) ==> m.page_id == page_id)
                ==> pool_consistent(final(self).state()),
            ({
                let st = old(self).state();
                let f = frame_id as int;
                let fv = st.frames[f];
                match written {
                    Err(e) => result matches Err(BufferPoolError::DiskError(x)) && x == e && final(self).state() == (PoolState {
                        frames: st.frames.update(f, fv.with_state(FrameState::Resident)),
                        ..st
                    }),
                    Ok(()) => if fv.meta is None {
                        result matches Err(BufferPoolError::FrameError(FrameError::PageNotFound))
                            && final(self).state() == (PoolState {
                            frames: st.frames.update(f, fv.with_state(FrameState::Resident)),
                            ..st
                        })
                    } else {
                        result is Ok && final(self).state() == (PoolState {
                            frames: st.frames.update(f, FrameView { data: zero_page(), meta: None, state: FrameState::Free }),
                            table: st.table.remove(page_id),
                            free: st.free.push(frame_id),
                            ..st
                        })
                    },
                }
            }),
    {
        let ghost st = old(self).state();
        let ghost f = frame_id as int;
        let result = self.finish_flush(frame_id, written);
        if let Err(err) = result {
            let _ = self.frames[frame_id].set_resident();
            proof {
                assert(frame_views(self.frames@) =~= st.frames.update(f, st.frames[f].with_state(FrameState::Resident)));
                if pool_consistent(st) && st.frames[f].state == FrameState::Reserved {
                    lemma_same_pages_consistent(st, self.state());
                }
            }
            return Err(err);
        }
        self.release_frame(page_id, frame_id);
        proof {
            assert(self.state().frames =~= st.frames.update(f, FrameView { data: zero_page(), meta: None, state: FrameState::Free }));
            if pool_consistent(st) && st.frames[f].state == FrameState::Reserved
                && (st.frames[f].meta matches Some(m) ==> m.page_id == page_id) {
                lemma_release_consistent(st, self.state(), page_id, frame_id);
            }
        }
        Ok(())
    }
}

} // verus!
