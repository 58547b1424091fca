//! CLOCK page replacement: a hand sweeps the frames in a circle, giving
//! each recently referenced page a second chance before choosing it.
use vstd::prelude::*;

use crate::storage::buffer_pool::frame::{Frame, FrameState, FrameView};
use crate::storage::buffer_pool::manager::BufferPoolError;

verus! {

pub type FrameId = usize;

/// The frame may be evicted: its page is not pinned and the frame is not
/// reserved.
pub open spec fn evictable(f: FrameView) -> bool {
    &&& !f.is_pinned()
    &&& f.state != FrameState::Reserved
}

/// The frame's page has its reference bit set.
pub open spec fn referenced(f: FrameView) -> bool {
    f.is_referenced()
}

/// What each frame holds.
pub open spec fn frame_views(fs: Seq<Frame>) -> Seq<FrameView> {
    fs.map_values(|f: Frame| f@)
}

/// The frame the hand reaches `j` steps after starting at `h`, in a circle
/// of `n` frames.
pub open spec fn clock_pos(h: int, n: int, j: int) -> int {
    if h + j < n {
        h + j
    } else {
        h + j - n
    }
}

/// The number of steps from `h` to frame `k`, in a circle of `n` frames.
pub open spec fn clock_rank(h: int, n: int, k: int) -> int {
    if k >= h {
        k - h
    } else {
        k + n - h
    }
}

/// The frame after `p` in a circle of `n` frames.
pub open spec fn clock_next(p: int, n: int) -> int {
    if p + 1 < n {
        p + 1
    } else {
        0
    }
}

/// The first number of steps `>= j` from `h` that reaches an evictable
/// frame (whose reference bit is clear, when `need_clear`).
pub open spec fn first_step(fs: Seq<FrameView>, h: int, j: int, need_clear: bool) -> Option<int>
    decreases fs.len() - j,
{
    if j < 0 || j >= fs.len() {
        None
    } else if evictable(fs[clock_pos(h, fs.len() as int, j)]) && (!need_clear || !referenced(
        fs[clock_pos(h, fs.len() as int, j)],
    )) {
        Some(j)
    } else {
        first_step(fs, h, j + 1, need_clear)
    }
}

/// The frames, hand and choice after one search for a victim from hand `h`.
/// The hand sweeps from `h`: each evictable frame whose reference bit is
/// set loses it, and the first evictable frame whose bit is clear is the
/// victim. When a whole turn finds only referenced evictable frames, all
/// of them have lost their bit, and a second turn takes the first of them.
/// With no evictable frame there is no victim and nothing changes. The hand
/// stops just after the victim.
pub open spec fn victim_outcome(fs: Seq<FrameView>, h: int) -> (Seq<FrameView>, int, Option<FrameId>) {
    let n = fs.len() as int;
    if n == 0 {
        (fs, h, None)
    } else {
        match first_step(fs, h, 0, true) {
            Some(j) => (
                Seq::new(
                    fs.len(),
                    |k: int|
                        if evictable(fs[k]) && clock_rank(h, n, k) < j {
                            fs[k].reference_cleared()
                        } else {
                            fs[k]
                        },
                ),
                clock_next(clock_pos(h, n, j), n),
                Some(clock_pos(h, n, j) as FrameId),
            ),
            None => match first_step(fs, h, 0, false) {
                Some(j) => (
                    Seq::new(
                        fs.len(),
                        |k: int|
                            if evictable(fs[k]) {
                                fs[k].reference_cleared()
                            } else {
                                fs[k]
                            },
                    ),
                    clock_next(clock_pos(h, n, j), n),
                    Some(clock_pos(h, n, j) as FrameId),
                ),
                None => (fs, h, None),
            },
        }
    }
}

proof fn lemma_first_step_at(fs: Seq<FrameView>, h: int, need_clear: bool, j: int, s: int)
    requires
        0 <= j <= s < fs.len(),
        forall|i: int| j <= i < s ==> !(evictable(#[trigger] fs[clock_pos(h, fs.len() as int, i)]) && (!need_clear
            || !referenced(fs[clock_pos(h, fs.len() as int, i)]))),
        evictable(fs[clock_pos(h, fs.len() as int, s)]),
        !need_clear || !referenced(fs[clock_pos(h, fs.len() as int, s)]),
    ensures
        first_step(fs, h, j, need_clear) == Some(s),
    decreases s - j,
{
    if j < s {
        lemma_first_step_at(fs, h, need_clear, j + 1, s);
        assert(!(evictable(fs[clock_pos(h, fs.len() as int, j)]) && (!need_clear || !referenced(
            fs[clock_pos(h, fs.len() as int, j)],
        ))));
    }
}

proof fn lemma_first_step_none(fs: Seq<FrameView>, h: int, need_clear: bool, j: int)
    requires
        0 <= j <= fs.len(),
        forall|i: int| j <= i < fs.len() ==> !(evictable(#[trigger] fs[clock_pos(h, fs.len() as int, i)]) && (
        !need_clear || !referenced(fs[clock_pos(h, fs.len() as int, i)]))),
    ensures
        first_step(fs, h, j, need_clear) is None,
    decreases fs.len() - j,
{
    if j < fs.len() {
        lemma_first_step_none(fs, h, need_clear, j + 1);
        assert(!(evictable(fs[clock_pos(h, fs.len() as int, j)]) && (!need_clear || !referenced(
            fs[clock_pos(h, fs.len() as int, j)],
        ))));
    }
}

proof fn lemma_first_step_found(fs: Seq<FrameView>, h: int, need_clear: bool, j: int)
    requires
        0 <= j,
    ensures
        first_step(fs, h, j, need_clear) matches Some(s) ==> j <= s < fs.len() && evictable(
            fs[clock_pos(h, fs.len() as int, s)],
        ) && (!need_clear || !referenced(fs[clock_pos(h, fs.len() as int, s)])),
    decreases fs.len() - j,
{
    if j < fs.len() {
        lemma_first_step_found(fs, h, need_clear, j + 1);
    }
}

pub struct ClockReplacer {
    clock_hand: usize,
}

impl ClockReplacer {
    /// The frame the hand points at.
    pub closed spec fn hand(&self) -> int {
        self.clock_hand as int
    }

    pub fn new() -> (r: Self)
        ensures
            r.hand() == 0,
    {
        Self { clock_hand: 0 }
    }

    /// Searches `frames` for a frame to evict, sweeping from the hand.
    pub fn find_victim(&mut self, frames: &mut Vec<Frame>) -> (result: Result<Option<FrameId>, BufferPoolError>)
        requires
            old(frames)@.len() == 0 || old(self).hand() < old(frames)@.len(),
        ensures
            ({
                let (fs, h, v) = victim_outcome(frame_views(old(frames)@), old(self).hand());
                &&& frame_views(final(frames)@) == fs
                &&& final(self).hand() == h
                &&& result matches Ok(r) && r == v
            }),
    {
        let len = frames.len();
        if len == 0 {
            return Ok(None);
        }
        let ghost n = len as int;
        let ghost orig = frame_views(frames@);
        let ghost h0 = self.hand();
        let ghost mut pass: int = 0;
        let ghost mut start = frame_views(frames@);
        loop
            invariant
                len == frames@.len(),
                n == len,
                orig.len() == n,
                start.len() == n,
                n > 0,
                0 <= h0 < n,
                self.hand() == h0,
                orig == frame_views(old(frames)@),
                h0 == old(self).hand(),
                0 <= pass <= 1,
                frame_views(frames@) == start,
                pass == 0 ==> start == orig,
                pass == 1 ==> start == Seq::new(
                    orig.len(),
                    |k: int| if evictable(orig[k]) { orig[k].reference_cleared() } else { orig[k] },
                ),
                pass == 1 ==> first_step(orig, h0, 0, true) is None,
                pass == 1 ==> first_step(orig, h0, 0, false) is Some,
            decreases 1 - pass,
        {
            let mut scanned: usize = 0;
            let mut found_unpinned = false;
            while scanned < len
                invariant
                    len == frames@.len(),
                    n == len,
                    orig.len() == n,
                    start.len() == n,
                    n > 0,
                    0 <= h0 < n,
                    orig == frame_views(old(frames)@),
                    h0 == old(self).hand(),
                    0 <= pass <= 1,
                    scanned <= len,
                    self.hand() == clock_pos(h0, n, scanned as int),
                    pass == 0 ==> start == orig,
                    pass == 1 ==> start == Seq::new(
                        orig.len(),
                        |k: int| if evictable(orig[k]) { orig[k].reference_cleared() } else { orig[k] },
                    ),
                    pass == 1 ==> first_step(orig, h0, 0, true) is None,
                    pass == 1 ==> first_step(orig, h0, 0, false) is Some,
                    frame_views(frames@) == Seq::new(
                        start.len(),
                        |k: int|
                            if evictable(start[k]) && clock_rank(h0, n, k) < scanned {
                                start[k].reference_cleared()
                            } else {
                                start[k]
                            },
                    ),
                    forall|j: int|
                        0 <= j < scanned ==> (evictable(#[trigger] orig[clock_pos(h0, n, j)]) ==> referenced(
                            orig[clock_pos(h0, n, j)],
                        )),
                    pass == 1 ==> forall|j: int| 0 <= j < scanned ==> !evictable(#[trigger] orig[clock_pos(h0, n, j)]),
                    found_unpinned <==> exists|j: int| 0 <= j < scanned && evictable(#[trigger] orig[clock_pos(h0, n, j)]),
                decreases len - scanned,
            {
                let id = self.clock_hand;
                proof {
                    assert(id == clock_pos(h0, n, scanned as int));
                    assert(clock_rank(h0, n, id as int) == scanned);
                    assert(frame_views(frames@)[id as int] == start[id as int]);
                    assert(evictable(start[id as int]) == evictable(orig[id as int]));
                    assert(pass == 1 && evictable(orig[id as int]) ==> !referenced(start[id as int]));
                    assert forall|k: int| 0 <= k < n implies clock_pos(h0, n, clock_rank(h0, n, k)) == k by {}
                }
                                let ghost before = frame_views(frames@);
                if frames[id].is_pinned() {
                    self.advance_hand(len);
                } else {
                    if frames[id].is_reserved() {
                        self.advance_hand(len);
                    } else {
                        found_unpinned = true;
                        if frames[id].is_referenced() {
                            let _ = frames[id].mark_unreferenced();
                            self.advance_hand(len);
                        } else {
                            self.advance_hand(len);
                            proof {
                                if pass == 0 {
                                    lemma_first_step_at(orig, h0, true, 0, scanned as int);
                                    assert(first_step(orig, h0, 0, true) == Some(scanned as int));
                                    assert(frame_views(frames@) =~= victim_outcome(orig, h0).0);
                                } else {
                                    lemma_first_step_at(orig, h0, false, 0, scanned as int);
                                    assert(first_step(orig, h0, 0, false) == Some(scanned as int));
                                    assert forall|k: int| 0 <= k < n implies frame_views(frames@)[k] == victim_outcome(orig, h0).0[k] by {
                                        if clock_rank(h0, n, k) < scanned {
                                            assert(!evictable(orig[clock_pos(h0, n, clock_rank(h0, n, k))]));
                                        }
                                    }
                                    assert(frame_views(frames@) =~= victim_outcome(orig, h0).0);
                                }
                            }
                            return Ok(Some(id));
                        }
                    }
                }
                proof {
                    let target = Seq::new(
                        start.len(),
                        |k: int|
                            if evictable(start[k]) && clock_rank(h0, n, k) < scanned + 1 {
                                start[k].reference_cleared()
                            } else {
                                start[k]
                            },
                    );
                    assert forall|k: int| 0 <= k < n implies frame_views(frames@)[k] == target[k] by {
                        if k != id {
                            assert(frame_views(frames@)[k] == before[k]);
                            assert(clock_rank(h0, n, k) != scanned);
                        } else {
                            assert(before[k] == start[k]);
                        }
                    }
                    assert(frame_views(frames@) =~= target);
                }
                scanned += 1;
            }
            proof {
                assert forall|k: int| 0 <= k < n implies clock_pos(h0, n, clock_rank(h0, n, k)) == k by {}
            }
            if !found_unpinned {
                proof {
                    if pass == 1 {
                        lemma_first_step_found(orig, h0, false, 0);
                        let s = first_step(orig, h0, 0, false)->0;
                        assert(!evictable(orig[clock_pos(h0, n, s)]));
                    }
                    assert forall|i: int| 0 <= i < n implies !evictable(#[trigger] orig[clock_pos(h0, n, i)]) by {}
                    lemma_first_step_none(orig, h0, true, 0);
                    lemma_first_step_none(orig, h0, false, 0);
                    assert(frame_views(frames@) =~= orig);
                }
                return Ok(None);
            }
            proof {
                if pass == 1 {
                    let j = choose|j: int| 0 <= j < scanned && evictable(#[trigger] orig[clock_pos(h0, n, j)]);
                    assert(false);
                }
                let j = choose|j: int| 0 <= j < scanned && evictable(#[trigger] orig[clock_pos(h0, n, j)]);
                lemma_first_step_none(orig, h0, true, 0);
                assert(first_step(orig, h0, 0, false) is Some) by {
                    lemma_first_step_some_exists(orig, h0, j);
                }
                start = frame_views(frames@);
                pass = 1;
                assert(start =~= Seq::new(
                    orig.len(),
                    |k: int| if evictable(orig[k]) { orig[k].reference_cleared() } else { orig[k] },
                ));
            }
        }
    }

    fn advance_hand(&mut self, len: usize)
        requires
            len > 0,
            old(self).hand() < len,
        ensures
            final(self).hand() == clock_next(old(self).hand(), len as int),
    {
        proof {
            if self.clock_hand + 1 < len {
                vstd::arithmetic::div_mod::lemma_small_mod((self.clock_hand + 1) as nat, len as nat);
            } else {
                vstd::arithmetic::div_mod::lemma_mod_self_0(len as int);
            }
        }
        self.clock_hand = (self.clock_hand + 1) % len;
    }

    pub fn clock_hand(&self) -> (h: usize)
        ensures
            h == self.hand(),
    {
        self.clock_hand
    }
}

proof fn lemma_first_step_some_exists(fs: Seq<FrameView>, h: int, j: int)
    requires
        0 <= j < fs.len(),
        evictable(fs[clock_pos(h, fs.len() as int, j)]),
    ensures
        first_step(fs, h, 0, false) is Some,
{
    lemma_first_step_from(fs, h, 0, j);
}

proof fn lemma_first_step_from(fs: Seq<FrameView>, h: int, i: int, j: int)
    requires
        0 <= i <= j < fs.len(),
        evictable(fs[clock_pos(h, fs.len() as int, j)]),
    ensures
        first_step(fs, h, i, false) is Some,
    decreases j - i,
{
    if i < j {
        lemma_first_step_from(fs, h, i + 1, j);
    }
}

/// What a search for a victim keeps: the number of frames, a hand inside
/// the circle, and every frame except for cleared reference bits; the
/// victim, when there is one, is an evictable frame of the circle, and
/// there is none only when no frame is evictable.
pub proof fn lemma_victim_outcome_facts(fs: Seq<FrameView>, h: int)
    requires
        fs.len() > 0 ==> 0 <= h < fs.len(),
        fs.len() <= usize::MAX,
    ensures
        ({
            let (fs2, h2, v) = victim_outcome(fs, h);
            &&& fs2.len() == fs.len()
            &&& fs.len() > 0 ==> 0 <= h2 < fs.len()
            &&& forall|k: int| 0 <= k < fs.len() ==> #[trigger] fs2[k] == fs[k] || fs2[k] == fs[k].reference_cleared()
            &&& v matches Some(x) ==> x < fs.len() && evictable(fs[x as int])
            &&& v is None <==> forall|k: int| 0 <= k < fs.len() ==> !evictable(#[trigger] fs[k])
        }),
{
    let n = fs.len() as int;
    if n > 0 {
        assert forall|k: int| 0 <= k < n && evictable(#[trigger] fs[k]) implies first_step(fs, h, 0, false) is Some by {
            let j = clock_rank(h, n, k);
            assert(clock_pos(h, n, j) == k);
            lemma_first_step_some_exists(fs, h, j);
        }
        lemma_first_step_found(fs, h, true, 0);
        lemma_first_step_found(fs, h, false, 0);
        let (fs2, h2, v) = victim_outcome(fs, h);
        match first_step(fs, h, 0, true) {
            Some(j) => {
                assert(0 <= clock_pos(h, n, j) < n);
            },
            None => match first_step(fs, h, 0, false) {
                Some(j) => {
                    assert(0 <= clock_pos(h, n, j) < n);
                },
                None => {},
            },
        }
    }
}

/// A search for the first step with `j`, before it finds one, passes only
/// frames it does not take; with none found, it takes no frame at all.
proof fn lemma_first_step_min(fs: Seq<FrameView>, h: int, need_clear: bool, j: int)
    requires
        0 <= j,
    ensures
        first_step(fs, h, j, need_clear) matches Some(s) ==> forall|i: int|
            j <= i < s ==> !(evictable(#[trigger] fs[clock_pos(h, fs.len() as int, i)]) && (!need_clear
                || !referenced(fs[clock_pos(h, fs.len() as int, i)]))),
        first_step(fs, h, j, need_clear) is None ==> forall|i: int|
            j <= i < fs.len() ==> !(evictable(#[trigger] fs[clock_pos(h, fs.len() as int, i)]) && (!need_clear
                || !referenced(fs[clock_pos(h, fs.len() as int, i)]))),
    decreases fs.len() - j,
{
    if j < fs.len() {
        lemma_first_step_min(fs, h, need_clear, j + 1);
    }
}

/// The CLOCK choice, in terms of the frames and the hand before the search
/// (`n` frames, hand `h`; the rank of a frame is the number of steps from
/// `h` to it in the circle):
/// - with no evictable frame (pinned or reserved frames are not
///   evictable) there is no victim, and neither the frames nor the hand
///   change;
/// - when some evictable frame has its reference bit clear, the victim is
///   the one of lowest rank: every evictable frame of lower rank had its
///   bit set, and only those lose it, every other frame staying as it
///   was;
/// - when every evictable frame has its bit set, all of them lose it and
///   the victim is the evictable frame of lowest rank (its second chance
///   is used up);
/// - the hand then stops just after the victim.
pub proof fn lemma_victim_is_first_from_hand(fs: Seq<FrameView>, h: int)
    requires
        0 < fs.len() <= usize::MAX,
        0 <= h < fs.len(),
    ensures
        ({
            let n = fs.len() as int;
            let (fs2, h2, v) = victim_outcome(fs, h);
            &&& fs2.len() == n
            &&& v is None ==> fs2 == fs && h2 == h && forall|k: int| 0 <= k < n ==> !evictable(#[trigger] fs[k])
            &&& v matches Some(x) ==> {
                &&& 0 <= x < n
                &&& evictable(fs[x as int])
                &&& h2 == clock_next(x as int, n)
                &&& forall|k: int|
                    0 <= k < n && evictable(#[trigger] fs[k]) && !referenced(fs[k]) ==> clock_rank(h, n, x as int)
                        <= clock_rank(h, n, k)
                &&& (exists|k: int| 0 <= k < n && evictable(#[trigger] fs[k]) && !referenced(fs[k])) ==> {
                    &&& !referenced(fs[x as int])
                    &&& forall|k: int|
                        0 <= k < n ==> #[trigger] fs2[k] == if evictable(fs[k]) && clock_rank(h, n, k) < clock_rank(
                            h,
                            n,
                            x as int,
                        ) {
                            fs[k].reference_cleared()
                        } else {
                            fs[k]
                        }
                }
                &&& (forall|k: int| 0 <= k < n && evictable(#[trigger] fs[k]) ==> referenced(fs[k])) ==> {
                    &&& forall|k: int| 0 <= k < n && evictable(#[trigger] fs[k]) ==> clock_rank(h, n, x as int) <= clock_rank(h, n, k)
                    &&& forall|k: int|
                        0 <= k < n ==> #[trigger] fs2[k] == if evictable(fs[k]) {
                            fs[k].reference_cleared()
                        } else {
                            fs[k]
                        }
                }
            }
        }),
{
    let n = fs.len() as int;
    lemma_victim_outcome_facts(fs, h);
    lemma_first_step_found(fs, h, true, 0);
    lemma_first_step_found(fs, h, false, 0);
    lemma_first_step_min(fs, h, true, 0);
    lemma_first_step_min(fs, h, false, 0);
    let (fs2, h2, v) = victim_outcome(fs, h);
    assert forall|k: int| 0 <= k < n implies clock_pos(h, n, #[trigger] clock_rank(h, n, k)) == k && 0 <= clock_rank(h, n, k) < n by {}
    match first_step(fs, h, 0, true) {
        Some(j) => {
            let x = clock_pos(h, n, j);
            assert(clock_rank(h, n, x) == j);
            assert forall|k: int|
                0 <= k < n && evictable(#[trigger] fs[k]) && !referenced(fs[k]) implies clock_rank(h, n, x) <= clock_rank(h, n, k) by {
                let r = clock_rank(h, n, k);
                assert(clock_pos(h, n, r) == k);
                if r < j {
                    assert(!(evictable(fs[clock_pos(h, n, r)]) && !referenced(fs[clock_pos(h, n, r)])));
                }
            }
        },
        None => {
            assert forall|k: int| 0 <= k < n && evictable(#[trigger] fs[k]) implies referenced(fs[k]) by {
                let r = clock_rank(h, n, k);
                assert(clock_pos(h, n, r) == k);
                assert(!(evictable(fs[clock_pos(h, n, r)]) && !referenced(fs[clock_pos(h, n, r)])));
            }
            match first_step(fs, h, 0, false) {
                Some(j) => {
                    let x = clock_pos(h, n, j);
                    assert(clock_rank(h, n, x) == j);
                    assert forall|k: int| 0 <= k < n && evictable(#[trigger] fs[k]) implies clock_rank(h, n, x) <= clock_rank(h, n, k) by {
                        let r = clock_rank(h, n, k);
                        assert(clock_pos(h, n, r) == k);
                        if r < j {
                            assert(!evictable(fs[clock_pos(h, n, r)]));
                        }
                    }
                },
                None => {},
            }
        },
    }
}

impl Default for ClockReplacer {
    fn default() -> (r: Self)
        ensures
            r.hand() == 0,
    {
        Self::new()
    }
}

} // verus!
