//! Free-space map: a complete binary tree over page buckets, stored in an
//! array. The leaves hold each registered page's free-space bucket; every
//! inner node holds the larger bucket of its two children, so a search can
//! skip every subtree whose maximum is too small.
use vstd::prelude::*;

use std::collections::HashSet;

use crate::storage::buffer_pool::frame::PageId;
use vstd::arithmetic::power2::{lemma_pow2_adds, lemma_pow2_pos, lemma_pow2_unfold, pow2};

verus! {

broadcast use vstd::std_specs::hash::group_hash_axioms;

pub type Bucket = u8;

pub const BUCKET_COUNT: usize = 8;

/// One node of the tree. A leaf carries the page it stands for once that
/// page is registered; an inner node carries no page.
#[derive(Debug, Clone, Copy, PartialEq, Eq, Structural)]
pub struct Node {
    pub max_bucket: Option<Bucket>,
    pub page_id: Option<PageId>,
}

#[derive(Debug, PartialEq, Eq, Structural)]
pub enum FreeSpaceMapError {
    InvalidArgument,
    InvalidFreeSpace,
    InvalidPageId,
    PageDoesNotExist,
}

pub struct FreeSpaceMap {
    nodes: Vec<Node>,
    capacity: usize,
}

/// `a <= b` in the order of `Option`, where `None` is below every bucket.
pub open spec fn opt_le(a: Option<Bucket>, b: Option<Bucket>) -> bool {
    match a {
        None => true,
        Some(x) => match b {
            None => false,
            Some(y) => x <= y,
        },
    }
}

/// The larger of two optional buckets.
pub open spec fn opt_max(a: Option<Bucket>, b: Option<Bucket>) -> Option<Bucket> {
    if opt_le(a, b) {
        b
    } else {
        a
    }
}

/// A node's bucket is at least `req`.
pub open spec fn reaches(b: Option<Bucket>, req: Bucket) -> bool {
    match b {
        Some(x) => x >= req,
        None => false,
    }
}

/// The bucket of `free_space` bytes: one bucket per 512 bytes.
pub open spec fn bucket_of(free_space: int) -> int {
    free_space / 512
}

/// An inner node holds the larger bucket of its children and no page.
pub open spec fn inner_ok(t: Seq<Node>, i: int) -> bool {
    &&& t[i].max_bucket == opt_max(t[2 * i + 1].max_bucket, t[2 * i + 2].max_bucket)
    &&& t[i].page_id is None
}

/// The leaf of page `p` carries `p` exactly when it carries a bucket, and
/// that bucket is one of the eight.
pub open spec fn leaf_ok(t: Seq<Node>, cap: int, p: int) -> bool {
    let n = t[cap - 1 + p];
    &&& (n.page_id is Some <==> n.max_bucket is Some)
    &&& (n.page_id matches Some(q) ==> q == p)
    &&& (n.max_bucket matches Some(b) ==> b < BUCKET_COUNT)
}

/// The tree is an array of `2 * cap - 1` nodes whose last `cap` nodes are
/// the leaves of pages `0 .. cap`.
pub open spec fn tree_wf(t: Seq<Node>, cap: int) -> bool {
    &&& cap >= 1
    &&& t.len() == 2 * cap - 1
    &&& forall|i: int| 0 <= i < cap - 1 ==> #[trigger] inner_ok(t, i)
    &&& forall|p: int| 0 <= p < cap ==> #[trigger] leaf_ok(t, cap, p)
}

/// The pages whose leaves lie under node `i`, left subtree first.
pub open spec fn subtree_pages(cap: int, i: int) -> Seq<int>
    decreases 2 * cap - i,
{
    if i < 0 {
        Seq::empty()
    } else if i >= cap - 1 {
        seq![i - (cap - 1)]
    } else {
        subtree_pages(cap, 2 * i + 1) + subtree_pages(cap, 2 * i + 2)
    }
}

/// Page `p` has a bucket of at least `req` and is not excluded.
pub open spec fn qualifies(v: Seq<Option<Bucket>>, p: int, req: Bucket, excluded: Set<PageId>) -> bool {
    &&& 0 <= p < v.len()
    &&& reaches(v[p], req)
    &&& !excluded.contains(p as PageId)
}

/// The first page of `s` that qualifies.
pub open spec fn first_qualifying(
    v: Seq<Option<Bucket>>,
    s: Seq<int>,
    req: Bucket,
    excluded: Set<PageId>,
) -> Option<int>
    decreases s.len(),
{
    if s.len() == 0 {
        None
    } else if qualifies(v, s[0], req, excluded) {
        Some(s[0])
    } else {
        first_qualifying(v, s.drop_first(), req, excluded)
    }
}

/// A page id as a number.
pub open spec fn page_num(r: Option<PageId>) -> Option<int> {
    match r {
        Some(p) => Some(p as int),
        None => None,
    }
}

/// Node `a` lies on the path from node `x` up to the root.
pub open spec fn on_path(a: int, x: int) -> bool
    decreases x,
{
    if x == a {
        true
    } else if x <= 0 {
        false
    } else {
        on_path(a, (x - 1) / 2)
    }
}

proof fn lemma_on_path_le(a: int, x: int)
    requires
        on_path(a, x),
        x >= 0,
    ensures
        a <= x,
    decreases x,
{
    if x != a && x > 0 {
        lemma_on_path_le(a, (x - 1) / 2);
    }
}

proof fn lemma_first_qualifying_append(
    v: Seq<Option<Bucket>>,
    a: Seq<int>,
    b: Seq<int>,
    req: Bucket,
    excluded: Set<PageId>,
)
    ensures
        first_qualifying(v, a + b, req, excluded) == if first_qualifying(v, a, req, excluded) is Some {
            first_qualifying(v, a, req, excluded)
        } else {
            first_qualifying(v, b, req, excluded)
        },
    decreases a.len(),
{
    if a.len() > 0 {
        assert((a + b).drop_first() =~= a.drop_first() + b);
        lemma_first_qualifying_append(v, a.drop_first(), b, req, excluded);
    } else {
        assert(a + b =~= b);
    }
}

proof fn lemma_first_qualifying_none(
    v: Seq<Option<Bucket>>,
    s: Seq<int>,
    req: Bucket,
    excluded: Set<PageId>,
)
    requires
        forall|k: int| 0 <= k < s.len() ==> !reaches(v[s[k]], req),
    ensures
        first_qualifying(v, s, req, excluded) is None,
    decreases s.len(),
{
    if s.len() > 0 {
        assert(!reaches(v[s[0]], req));
        lemma_first_qualifying_none(v, s.drop_first(), req, excluded);
    }
}

proof fn lemma_first_qualifying_some(
    v: Seq<Option<Bucket>>,
    s: Seq<int>,
    req: Bucket,
    k: int,
)
    requires
        0 <= k < s.len(),
        qualifies(v, s[k], req, Set::empty()),
    ensures
        first_qualifying(v, s, req, Set::empty()) is Some,
    decreases s.len(),
{
    if !qualifies(v, s[0], req, Set::empty()) {
        assert(s.drop_first()[k - 1] == s[k]);
        lemma_first_qualifying_some(v, s.drop_first(), req, k - 1);
    }
}

/// Facts about the subtree of node `i` in a well-formed tree: it covers
/// leaves of pages in range, none of whose buckets exceeds the node's, and
/// when the node carries a bucket some leaf below carries the same one.
proof fn lemma_subtree(t: Seq<Node>, cap: int, i: int)
    requires
        tree_wf(t, cap),
        0 <= i < 2 * cap - 1,
    ensures
        forall|k: int|
            0 <= k < subtree_pages(cap, i).len() ==> 0 <= #[trigger] subtree_pages(cap, i)[k] < cap,
        forall|k: int|
            0 <= k < subtree_pages(cap, i).len() ==> opt_le(
                t[cap - 1 + #[trigger] subtree_pages(cap, i)[k]].max_bucket,
                t[i].max_bucket,
            ),
        t[i].max_bucket is Some ==> exists|k: int|
            0 <= k < subtree_pages(cap, i).len() && t[cap - 1 + #[trigger] subtree_pages(cap, i)[k]].max_bucket
                == t[i].max_bucket,
    decreases 2 * cap - i,
{
    if i >= cap - 1 {
        let s = subtree_pages(cap, i);
        assert(s =~= seq![i - (cap - 1)]);
        if t[i].max_bucket is Some {
            assert(t[cap - 1 + s[0]].max_bucket == t[i].max_bucket);
        }
    } else {
        let l = 2 * i + 1;
        let r = 2 * i + 2;
        lemma_subtree(t, cap, l);
        lemma_subtree(t, cap, r);
        assert(inner_ok(t, i));
        let sl = subtree_pages(cap, l);
        let sr = subtree_pages(cap, r);
        let s = subtree_pages(cap, i);
        assert(s == sl + sr);
        assert forall|k: int| 0 <= k < s.len() implies 0 <= #[trigger] s[k] < cap && opt_le(
            t[cap - 1 + s[k]].max_bucket,
            t[i].max_bucket,
        ) by {
            if k < sl.len() {
                assert(s[k] == sl[k]);
            } else {
                assert(s[k] == sr[k - sl.len()]);
            }
        }
        if t[i].max_bucket is Some {
            if t[i].max_bucket == t[l].max_bucket {
                let k = choose|k: int|
                    0 <= k < sl.len() && t[cap - 1 + #[trigger] sl[k]].max_bucket == t[l].max_bucket;
                assert(s[k] == sl[k]);
            } else {
                let k = choose|k: int|
                    0 <= k < sr.len() && t[cap - 1 + #[trigger] sr[k]].max_bucket == t[r].max_bucket;
                assert(s[k + sl.len()] == sr[k]);
            }
        }
    }
}

/// Every page `0 .. cap` has its leaf under the root.
proof fn lemma_page_under_root(cap: int, p: int)
    requires
        cap >= 1,
        0 <= p < cap,
    ensures
        subtree_pages(cap, 0).contains(p),
{
    let leaf = cap - 1 + p;
    assert(subtree_pages(cap, leaf) =~= seq![p]);
    assert(subtree_pages(cap, leaf)[0] == p);
    lemma_contained_upwards(cap, p, leaf);
}

proof fn lemma_contained_upwards(cap: int, p: int, c: int)
    requires
        cap >= 1,
        0 <= c < 2 * cap - 1,
        subtree_pages(cap, c).contains(p),
    ensures
        subtree_pages(cap, 0).contains(p),
    decreases c,
{
    if c > 0 {
        let a = (c - 1) / 2;
        assert(a < cap - 1);
        let sl = subtree_pages(cap, 2 * a + 1);
        let sr = subtree_pages(cap, 2 * a + 2);
        assert(subtree_pages(cap, a) == sl + sr);
        let k = choose|k: int| 0 <= k < subtree_pages(cap, c).len() && subtree_pages(cap, c)[k] == p;
        if c == 2 * a + 1 {
            assert((sl + sr)[k] == p);
        } else {
            assert((sl + sr)[k + sl.len()] == p);
        }
        lemma_contained_upwards(cap, p, a);
    }
}

proof fn lemma_first_qualifying_facts(
    v: Seq<Option<Bucket>>,
    s: Seq<int>,
    req: Bucket,
    excluded: Set<PageId>,
)
    ensures
        first_qualifying(v, s, req, excluded) matches Some(p) ==> qualifies(v, p, req, excluded)
            && s.contains(p),
        first_qualifying(v, s, req, excluded) is None ==> forall|k: int|
            0 <= k < s.len() ==> !qualifies(v, #[trigger] s[k], req, excluded),
    decreases s.len(),
{
    if s.len() > 0 {
        lemma_first_qualifying_facts(v, s.drop_first(), req, excluded);
        if first_qualifying(v, s, req, excluded) is None {
            assert forall|k: int| 0 <= k < s.len() implies !qualifies(v, #[trigger] s[k], req, excluded) by {
                if k > 0 {
                    assert(s[k] == s.drop_first()[k - 1]);
                }
            }
        }
        if first_qualifying(v, s, req, excluded) is Some {
            let p = first_qualifying(v, s, req, excluded)->0;
            if !qualifies(v, s[0], req, excluded) {
                let k = choose|k: int| 0 <= k < s.drop_first().len() && s.drop_first()[k] == p;
                assert(s[k + 1] == p);
            } else {
                assert(s[0] == p);
            }
        }
    }
}


/// A recording call on the map: `register_page` when `.0` holds, else
/// `update_page`, for page `.1` with `.2` bytes free.
pub open spec fn call_succeeds(v: Seq<Option<Bucket>>, call: (bool, PageId, usize)) -> bool {
    &&& call.1 < v.len()
    &&& call.2 < 4096
    &&& (call.0 || v[call.1 as int] is Some)
}

/// The buckets after one recording call: a call that succeeds sets the
/// page's bucket, one that fails changes nothing.
pub open spec fn after_call(v: Seq<Option<Bucket>>, call: (bool, PageId, usize)) -> Seq<Option<Bucket>> {
    if call_succeeds(v, call) {
        v.update(call.1 as int, Some(bucket_of(call.2 as int) as Bucket))
    } else {
        v
    }
}

/// The buckets after a sequence of recording calls, in order.
pub open spec fn after_calls(v: Seq<Option<Bucket>>, calls: Seq<(bool, PageId, usize)>) -> Seq<Option<Bucket>>
    decreases calls.len(),
{
    if calls.len() == 0 {
        v
    } else {
        after_call(after_calls(v, calls.drop_last()), calls.last())
    }
}

/// The bucket of the free space given by the last call on page `p` that
/// succeeded (a registration, or an update of a page registered before),
/// in a map of `cap` pages; `None` when none did.
pub open spec fn last_recorded(cap: int, calls: Seq<(bool, PageId, usize)>, p: int) -> Option<Bucket>
    decreases calls.len(),
{
    if calls.len() == 0 {
        None
    } else {
        let c = calls.last();
        let earlier = last_recorded(cap, calls.drop_last(), p);
        if c.1 == p && p < cap && c.2 < 4096 && (c.0 || earlier is Some) {
            Some(bucket_of(c.2 as int) as Bucket)
        } else {
            earlier
        }
    }
}

/// Starting from a new map of `cap` pages, after any sequence of
/// registrations and updates, the bucket the map holds for a page is the
/// bucket of the last call on that page that succeeded, and none when no
/// call on it succeeded.
pub proof fn lemma_leaf_bucket_is_last_recorded(cap: nat, calls: Seq<(bool, PageId, usize)>, p: int)
    requires
        0 <= p < cap,
    ensures
        after_calls(Seq::new(cap, |q: int| None::<Bucket>), calls).len() == cap,
        after_calls(Seq::new(cap, |q: int| None::<Bucket>), calls)[p] == last_recorded(cap as int, calls, p),
    decreases calls.len(),
{
    if calls.len() > 0 {
        lemma_leaf_bucket_is_last_recorded(cap, calls.drop_last(), p);
        let c = calls.last();
        if c.1 != p && (c.1 as int) < cap {
            lemma_leaf_bucket_is_last_recorded(cap, calls.drop_last(), c.1 as int);
        }
    }
}

/// The leaves under node `i`, at depth `d` of a tree over `2^h` pages, are
/// the pages `(i - (2^d - 1)) * 2^(h - d)` onwards, in increasing order.
proof fn lemma_subtree_ascending(h: nat, d: nat, i: int)
    requires
        d <= h,
        pow2(d) - 1 <= i < pow2(d + 1) - 1,
    ensures
        subtree_pages(pow2(h) as int, i) == Seq::new(
            pow2((h - d) as nat),
            |t: int| (i - (pow2(d) - 1)) * pow2((h - d) as nat) + t,
        ),
    decreases h - d,
{
    let cap = pow2(h) as int;
    let w = pow2((h - d) as nat) as int;
    let r = i - (pow2(d) - 1);
    lemma_pow2_unfold(d + 1);
    if d == h {
        assert(w == 1) by {
            vstd::arithmetic::power2::lemma2_to64();
        }
        assert(subtree_pages(cap, i) =~= Seq::new(pow2((h - d) as nat), |t: int| r * w + t));
    } else {
        let w2 = pow2((h - d - 1) as nat) as int;
        lemma_pow2_unfold((h - d) as nat);
        assert(w == 2 * w2);
        lemma_pow2_adds(d + 1, (h - d - 1) as nat);
        lemma_pow2_pos((h - d - 1) as nat);
        assert(pow2(h) >= pow2(d + 1)) by (nonlinear_arith)
            requires
                pow2(h) == pow2(d + 1) * pow2((h - d - 1) as nat),
                pow2((h - d - 1) as nat) > 0,
        ;
        lemma_pow2_unfold(d + 2);
        lemma_subtree_ascending(h, d + 1, 2 * i + 1);
        lemma_subtree_ascending(h, d + 1, 2 * i + 2);
        assert((h - (d + 1)) as nat == (h - d - 1) as nat);
        let left = subtree_pages(cap, 2 * i + 1);
        let right = subtree_pages(cap, 2 * i + 2);
        assert(left == Seq::new(w2 as nat, |t: int| (2 * r) * w2 + t));
        assert(right == Seq::new(w2 as nat, |t: int| (2 * r + 1) * w2 + t));
        assert((2 * r) * w2 == r * w) by (nonlinear_arith)
            requires
                w == 2 * w2,
        ;
        assert((2 * r + 1) * w2 == r * w + w2) by (nonlinear_arith)
            requires
                w == 2 * w2,
        ;
        assert(subtree_pages(cap, i) == left + right);
        assert(left + right =~= Seq::new(w as nat, |t: int| r * w + t));
    }
}

/// In a map over a power of two of pages, the tree's left-to-right leaf
/// order is the order of the page numbers.
pub proof fn lemma_leaf_order_ascending(h: nat)
    ensures
        subtree_pages(pow2(h) as int, 0) == Seq::new(pow2(h), |p: int| p),
{
    lemma_pow2_unfold(1);
    vstd::arithmetic::power2::lemma2_to64();
    lemma_subtree_ascending(h, 0, 0);
    assert(Seq::new(pow2(h), |t: int| (0 - (pow2(0) - 1)) * pow2((h - 0) as nat) + t) =~= Seq::new(pow2(h), |p: int| p));
}

/// A search finds a page exactly when some page has a bucket reaching the
/// request and is not excluded, and the page it finds is such a page.
pub proof fn lemma_search_sound_and_complete(fsm: FreeSpaceMap, req: Bucket, excluded: Set<PageId>)
    requires
        fsm.wf(),
    ensures
        fsm.search(req, excluded) matches Some(p) ==> qualifies(fsm.view(), p, req, excluded),
        fsm.search(req, excluded) is None <==> forall|p: int|
            0 <= p < fsm.cap() ==> !#[trigger] qualifies(fsm.view(), p, req, excluded),
{
    let s = subtree_pages(fsm.cap(), 0);
    lemma_first_qualifying_facts(fsm.view(), s, req, excluded);
    if fsm.search(req, excluded) is None {
        assert forall|p: int| 0 <= p < fsm.cap() implies !#[trigger] qualifies(fsm.view(), p, req, excluded) by {
            lemma_page_under_root(fsm.cap(), p);
            let k = choose|k: int| 0 <= k < s.len() && s[k] == p;
        }
    }
}

/// The root holds the largest bucket of all pages: no page's bucket is
/// above it, and when it holds a bucket some page holds that bucket.
pub proof fn lemma_root_is_largest(fsm: FreeSpaceMap)
    requires
        fsm.wf(),
    ensures
        forall|p: int| 0 <= p < fsm.cap() ==> opt_le(#[trigger] fsm.view()[p], fsm.tree()[0].max_bucket),
        fsm.tree()[0].max_bucket is Some ==> exists|p: int|
            0 <= p < fsm.cap() && #[trigger] fsm.view()[p] == fsm.tree()[0].max_bucket,
{
    let t = fsm.tree();
    let cap = fsm.cap();
    let s = subtree_pages(cap, 0);
    lemma_subtree(t, cap, 0);
    assert forall|p: int| 0 <= p < cap implies opt_le(#[trigger] fsm.view()[p], t[0].max_bucket) by {
        lemma_page_under_root(cap, p);
        let k = choose|k: int| 0 <= k < s.len() && s[k] == p;
        assert(opt_le(t[cap - 1 + s[k]].max_bucket, t[0].max_bucket));
    }
    if t[0].max_bucket is Some {
        let k = choose|k: int| 0 <= k < s.len() && t[cap - 1 + #[trigger] s[k]].max_bucket == t[0].max_bucket;
        assert(fsm.view()[s[k]] == t[0].max_bucket);
    }
}

fn bucket_reaches(b: Option<Bucket>, req: Bucket) -> (r: bool)
    ensures
        r == reaches(b, req),
{
    match b {
        Some(x) => x >= req,
        None => false,
    }
}

fn bucket_gt(a: Option<Bucket>, b: Option<Bucket>) -> (r: bool)
    ensures
        r == !opt_le(a, b),
{
    match a {
        None => false,
        Some(x) => match b {
            None => true,
            Some(y) => x > y,
        },
    }
}

impl FreeSpaceMap {
    /// The nodes of the tree, root first.
    pub closed spec fn tree(&self) -> Seq<Node> {
        self.nodes@
    }

    /// The number of pages the map can hold.
    pub closed spec fn cap(&self) -> int {
        self.capacity as int
    }

    pub open spec fn wf(&self) -> bool {
        &&& tree_wf(self.tree(), self.cap())
        &&& 2 * self.cap() <= usize::MAX
    }

    /// The bucket recorded for each page `0 .. cap`, `None` for a page
    /// that is not registered.
    pub open spec fn view(&self) -> Seq<Option<Bucket>> {
        Seq::new(self.cap() as nat, |p: int| self.tree()[self.cap() - 1 + p].max_bucket)
    }

    /// The page a search for bucket `req` returns: the first page, in the
    /// tree's left-to-right leaf order, whose bucket reaches `req` and that
    /// is not excluded.
    pub open spec fn search(&self, req: Bucket, excluded: Set<PageId>) -> Option<int> {
        first_qualifying(self.view(), subtree_pages(self.cap(), 0), req, excluded)
    }

    pub fn new(capacity: usize) -> (result: Result<Self, FreeSpaceMapError>)
        requires
            capacity * 2 <= usize::MAX,
        ensures
            result is Ok <==> capacity > 0,
            result is Err ==> result == Err::<Self, FreeSpaceMapError>(FreeSpaceMapError::InvalidArgument),
            result matches Ok(f) ==> {
                &&& f.wf()
                &&& f.cap() == capacity
                &&& f.view() == Seq::new(capacity as nat, |p: int| None::<Bucket>)
                &&& forall|i: int| 0 <= i < f.tree().len() ==> #[trigger] f.tree()[i] == (Node { max_bucket: None, page_id: None })
            },
    {
        if capacity <= 0 {
            return Err(FreeSpaceMapError::InvalidArgument);
        }
        let total_nodes = 2 * capacity - 1;
        let mut nodes: Vec<Node> = Vec::new();
        while nodes.len() < total_nodes
            invariant
                total_nodes == 2 * capacity - 1,
                nodes@.len() <= total_nodes,
                forall|i: int| 0 <= i < nodes@.len() ==> #[trigger] nodes@[i] == (Node { max_bucket: None, page_id: None }),
            decreases total_nodes - nodes@.len(),
        {
            nodes.push(Node { max_bucket: None, page_id: None });
        }
        let fsm = Self { nodes, capacity };
        assert(fsm.view() =~= Seq::new(capacity as nat, |p: int| None::<Bucket>));
        Ok(fsm)
    }

    pub fn get_bucket_id(&self, free_space: usize) -> (result: Result<Bucket, FreeSpaceMapError>)
        ensures
            result is Ok <==> free_space < 4096,
            result matches Ok(b) ==> b == bucket_of(free_space as int),
            result is Err ==> result == Err::<Bucket, FreeSpaceMapError>(FreeSpaceMapError::InvalidFreeSpace),
    {
        if free_space < 512 {
            Ok(0)
        } else if free_space < 1024 {
            Ok(1)
        } else if free_space < 1536 {
            Ok(2)
        } else if free_space < 2048 {
            Ok(3)
        } else if free_space < 2560 {
            Ok(4)
        } else if free_space < 3072 {
            Ok(5)
        } else if free_space < 3584 {
            Ok(6)
        } else if free_space < 4096 {
            Ok(7)
        } else {
            Err(FreeSpaceMapError::InvalidFreeSpace)
        }
    }

    fn recompute_ancestors(&mut self, internal_node: usize)
        requires
            old(self).cap() >= 1,
            old(self).tree().len() == 2 * old(self).cap() - 1,
            2 * old(self).cap() <= usize::MAX,
            internal_node < old(self).cap() - 1,
            forall|i: int|
                0 <= i < old(self).cap() - 1 && !on_path(i, internal_node as int) ==> #[trigger] inner_ok(
                    old(self).tree(),
                    i,
                ),
            forall|i: int| 0 <= i < old(self).cap() - 1 ==> (#[trigger] old(self).tree()[i]).page_id is None,
            forall|p: int| 0 <= p < old(self).cap() ==> #[trigger] leaf_ok(old(self).tree(), old(self).cap(), p),
        ensures
            final(self).wf(),
            final(self).cap() == old(self).cap(),
            forall|k: int|
                old(self).cap() - 1 <= k < 2 * old(self).cap() - 1 ==> #[trigger] final(self).tree()[k]
                    == old(self).tree()[k],
        decreases internal_node,
    {
        if internal_node > self.capacity - 1 {
            return;
        }
        let ghost t = self.tree();
        let left = self.nodes[2 * internal_node + 1].max_bucket;
        let right = self.nodes[2 * internal_node + 2].max_bucket;
        if bucket_gt(left, right) {
            self.nodes[internal_node].max_bucket = left;
        } else {
            self.nodes[internal_node].max_bucket = right;
        }
        let ghost t1 = self.tree();
        assert(t1 == t.update(internal_node as int, t1[internal_node as int]));
        assert(inner_ok(t1, internal_node as int));
        if internal_node != 0 {
            let parent = (internal_node - 1) / 2;
            assert forall|i: int|
                0 <= i < self.cap() - 1 && !on_path(i, parent as int) implies #[trigger] inner_ok(
                self.tree(),
                i,
            ) by {
                if i != internal_node {
                    assert(!on_path(i, internal_node as int));
                    assert(inner_ok(t, i));
                    assert(on_path(parent as int, parent as int));
                }
            }
            assert forall|p: int| 0 <= p < self.cap() implies #[trigger] leaf_ok(self.tree(), self.cap(), p) by {
                assert(leaf_ok(t, self.cap(), p));
            }
            self.recompute_ancestors(parent);
        } else {
            assert forall|i: int| 0 <= i < self.cap() - 1 implies #[trigger] inner_ok(self.tree(), i) by {
                if i != 0 {
                    assert(!on_path(i, 0));
                    assert(inner_ok(t, i));
                }
            }
            assert forall|p: int| 0 <= p < self.cap() implies #[trigger] leaf_ok(self.tree(), self.cap(), p) by {
                assert(leaf_ok(t, self.cap(), p));
            }
        }
    }

    /// Sets the leaf of `page_id` to `node` and restores the maxima above it.
    fn set_leaf(&mut self, page_id: PageId, bucket: Bucket)
        requires
            old(self).wf(),
            page_id < old(self).cap(),
            bucket < BUCKET_COUNT,
        ensures
            final(self).wf(),
            final(self).cap() == old(self).cap(),
            final(self).view() == old(self).view().update(page_id as int, Some(bucket)),
            final(self).tree()[final(self).cap() - 1 + page_id] == (Node { max_bucket: Some(bucket), page_id: Some(page_id) }),
    {
        let ghost t = self.tree();
        let ghost cap = self.cap();
        let leaf_index = self.capacity - 1 + page_id as usize;
        self.nodes[leaf_index].max_bucket = Some(bucket);
        self.nodes[leaf_index].page_id = Some(page_id);
        let ghost t1 = self.tree();
        assert(t1 == t.update(leaf_index as int, Node { max_bucket: Some(bucket), page_id: Some(page_id) }));
        assert forall|p: int| 0 <= p < cap implies #[trigger] leaf_ok(t1, cap, p) by {
            if p != page_id {
                assert(leaf_ok(t, cap, p));
            }
        }
        if leaf_index != 0 {
            let parent = (leaf_index - 1) / 2;
            assert forall|i: int| 0 <= i < cap - 1 && !on_path(i, parent as int) implies #[trigger] inner_ok(t1, i) by {
                assert(inner_ok(t, i));
                assert(on_path(parent as int, parent as int));
            }
            assert forall|i: int| 0 <= i < cap - 1 implies (#[trigger] t1[i]).page_id is None by {
                assert(inner_ok(t, i));
            }
            self.recompute_ancestors(parent);
        }
        assert(self.view() =~= old(self).view().update(page_id as int, Some(bucket)));
    }

    /// Records the free space of `page_id`, registering the page.
    pub fn register_page(&mut self, page_id: PageId, free_space: usize) -> (result: Result<
        Bucket,
        FreeSpaceMapError,
    >)
        requires
            old(self).wf(),
        ensures
            final(self).wf(),
            final(self).cap() == old(self).cap(),
            final(self).view() == after_call(old(self).view(), (true, page_id, free_space)),
            page_id >= old(self).cap() ==> result == Err::<Bucket, FreeSpaceMapError>(
                FreeSpaceMapError::InvalidPageId,
            ),
            page_id < old(self).cap() && free_space >= 4096 ==> result == Err::<
                Bucket,
                FreeSpaceMapError,
            >(FreeSpaceMapError::InvalidFreeSpace),
            result is Err ==> *final(self) == *old(self),
            page_id < old(self).cap() && free_space < 4096 ==> {
                &&& result == Ok::<Bucket, FreeSpaceMapError>(bucket_of(free_space as int) as Bucket)
                &&& final(self).view() == old(self).view().update(
                    page_id as int,
                    Some(bucket_of(free_space as int) as Bucket),
                )
            },
    {
        if page_id as usize >= self.capacity {
            return Err(FreeSpaceMapError::InvalidPageId);
        }
        let req_bucket = match self.get_bucket_id(free_space) {
            Ok(b) => b,
            Err(e) => return Err(e),
        };
        self.set_leaf(page_id, req_bucket);
        Ok(req_bucket)
    }

    /// Records new free space of a registered page.
    pub fn update_page(&mut self, page_id: PageId, free_space: usize) -> (result: Result<
        Bucket,
        FreeSpaceMapError,
    >)
        requires
            old(self).wf(),
        ensures
            final(self).wf(),
            final(self).cap() == old(self).cap(),
            final(self).view() == after_call(old(self).view(), (false, page_id, free_space)),
            page_id >= old(self).cap() ==> result == Err::<Bucket, FreeSpaceMapError>(
                FreeSpaceMapError::InvalidPageId,
            ),
            page_id < old(self).cap() && free_space >= 4096 ==> result == Err::<
                Bucket,
                FreeSpaceMapError,
            >(FreeSpaceMapError::InvalidFreeSpace),
            page_id < old(self).cap() && free_space < 4096 && old(self).view()[page_id as int] is None
                ==> result == Err::<Bucket, FreeSpaceMapError>(FreeSpaceMapError::PageDoesNotExist),
            result is Err ==> *final(self) == *old(self),
            page_id < old(self).cap() && free_space < 4096 && old(self).view()[page_id as int] is Some
                ==> {
                &&& result == Ok::<Bucket, FreeSpaceMapError>(bucket_of(free_space as int) as Bucket)
                &&& final(self).view() == old(self).view().update(
                    page_id as int,
                    Some(bucket_of(free_space as int) as Bucket),
                )
            },
    {
        if page_id as usize >= self.capacity {
            return Err(FreeSpaceMapError::InvalidPageId);
        }
        let new_bucket = match self.get_bucket_id(free_space) {
            Ok(b) => b,
            Err(e) => return Err(e),
        };
        let leaf_index = self.capacity - 1 + page_id as usize;
        proof {
            assert(leaf_ok(self.tree(), self.cap(), page_id as int));
        }
        let registered = match self.nodes[leaf_index].page_id {
            Some(p) => p == page_id,
            None => false,
        };
        if !registered {
            return Err(FreeSpaceMapError::PageDoesNotExist);
        }
        self.set_leaf(page_id, new_bucket);
        Ok(new_bucket)
    }

    fn find_leaf(&self, req_bucket: Bucket, node: usize) -> (result: Option<PageId>)
        requires
            self.wf(),
            node < 2 * self.cap() - 1,
        ensures
            page_num(result) == first_qualifying(
                self.view(),
                subtree_pages(self.cap(), node as int),
                req_bucket,
                Set::empty(),
            ),
        decreases 2 * self.cap() - node,
    {
        let ghost v = self.view();
        let ghost cap = self.cap();
        if node >= self.capacity - 1 {
            let ghost s = subtree_pages(cap, node as int);
            proof {
                assert(s =~= seq![node - (cap - 1)]);
                assert(s.drop_first() =~= Seq::<int>::empty());
                assert(leaf_ok(self.tree(), cap, node - (cap - 1)));
                assert(v[node - (cap - 1)] == self.tree()[node as int].max_bucket);
                assert(first_qualifying(v, s.drop_first(), req_bucket, Set::empty()) is None);
            }
            let bucket = match self.nodes[node].max_bucket {
                Some(b) => b,
                None => return None,
            };
            if bucket >= req_bucket {
                return self.nodes[node].page_id;
            }
            return None;
        }
        let left = 2 * node + 1;
        let right = 2 * node + 2;
        let ghost sl = subtree_pages(cap, left as int);
        let ghost sr = subtree_pages(cap, right as int);
        proof {
            assert(subtree_pages(cap, node as int) == sl + sr);
            lemma_first_qualifying_append(v, sl, sr, req_bucket, Set::empty());
            lemma_subtree(self.tree(), cap, left as int);
            lemma_subtree(self.tree(), cap, right as int);
        }
        if bucket_reaches(self.nodes[left].max_bucket, req_bucket) {
            proof {
                let k = choose|k: int|
                    0 <= k < sl.len() && self.tree()[cap - 1 + #[trigger] sl[k]].max_bucket
                        == self.tree()[left as int].max_bucket;
                assert(v[sl[k]] == self.tree()[cap - 1 + sl[k]].max_bucket);
                lemma_first_qualifying_some(v, sl, req_bucket, k);
            }
            return self.find_leaf(req_bucket, left);
        }
        proof {
            assert forall|k: int| 0 <= k < sl.len() implies !reaches(v[sl[k]], req_bucket) by {
                assert(v[sl[k]] == self.tree()[cap - 1 + sl[k]].max_bucket);
                assert(opt_le(self.tree()[cap - 1 + sl[k]].max_bucket, self.tree()[left as int].max_bucket));
            }
            lemma_first_qualifying_none(v, sl, req_bucket, Set::empty());
        }
        if bucket_reaches(self.nodes[right].max_bucket, req_bucket) {
            return self.find_leaf(req_bucket, right);
        }
        proof {
            assert forall|k: int| 0 <= k < sr.len() implies !reaches(v[sr[k]], req_bucket) by {
                assert(v[sr[k]] == self.tree()[cap - 1 + sr[k]].max_bucket);
                assert(opt_le(self.tree()[cap - 1 + sr[k]].max_bucket, self.tree()[right as int].max_bucket));
            }
            lemma_first_qualifying_none(v, sr, req_bucket, Set::empty());
        }
        None
    }

    fn find_page_recursive(
        &self,
        node_index: usize,
        required_bucket: Bucket,
        excluded_page_ids: &HashSet<PageId>,
    ) -> (result: Result<Option<PageId>, FreeSpaceMapError>)
        requires
            self.wf(),
            node_index < 2 * self.cap() - 1,
        ensures
            result matches Ok(r) && page_num(r) == first_qualifying(
                self.view(),
                subtree_pages(self.cap(), node_index as int),
                required_bucket,
                excluded_page_ids@,
            ),
        decreases 2 * self.cap() - node_index,
    {
        let ghost v = self.view();
        let ghost cap = self.cap();
        let ghost excl = excluded_page_ids@;
        let ghost s = subtree_pages(cap, node_index as int);
        let node = &self.nodes[node_index];
        if !bucket_reaches(node.max_bucket, required_bucket) {
            proof {
                lemma_subtree(self.tree(), cap, node_index as int);
                assert forall|k: int| 0 <= k < s.len() implies !reaches(v[s[k]], required_bucket) by {
                    assert(v[s[k]] == self.tree()[cap - 1 + s[k]].max_bucket);
                }
                lemma_first_qualifying_none(v, s, required_bucket, excl);
            }
            return Ok(None);
        }
        if node_index >= self.capacity - 1 {
            proof {
                assert(s =~= seq![node_index - (cap - 1)]);
                assert(s.drop_first() =~= Seq::<int>::empty());
                assert(leaf_ok(self.tree(), cap, node_index - (cap - 1)));
                assert(v[node_index - (cap - 1)] == self.tree()[node_index as int].max_bucket);
                assert(first_qualifying(v, s.drop_first(), required_bucket, excl) is None);
            }
            let page_id = match node.page_id {
                Some(p) => p,
                None => return Ok(None),
            };
            if excluded_page_ids.contains(&page_id) {
                return Ok(None);
            }
            return Ok(Some(page_id));
        }
        let left = 2 * node_index + 1;
        let right = 2 * node_index + 2;
        proof {
            assert(s == subtree_pages(cap, left as int) + subtree_pages(cap, right as int));
            lemma_first_qualifying_append(
                v,
                subtree_pages(cap, left as int),
                subtree_pages(cap, right as int),
                required_bucket,
                excl,
            );
        }
        if left < self.nodes.len() {
            match self.find_page_recursive(left, required_bucket, excluded_page_ids) {
                Ok(Some(page_id)) => return Ok(Some(page_id)),
                Ok(None) => {},
                Err(e) => return Err(e),
            }
        }
        if right < self.nodes.len() {
            match self.find_page_recursive(right, required_bucket, excluded_page_ids) {
                Ok(Some(page_id)) => return Ok(Some(page_id)),
                Ok(None) => {},
                Err(e) => return Err(e),
            }
        }
        Ok(None)
    }

    /// The first page, in leaf order, whose bucket reaches that of
    /// `required_space` and that is not excluded.
    pub fn find_page_excluding(&self, required_space: usize, excluded_page_ids: &HashSet<PageId>) -> (result:
        Result<Option<PageId>, FreeSpaceMapError>)
        requires
            self.wf(),
        ensures
            result is Err <==> required_space >= 4096,
            result is Err ==> result == Err::<Option<PageId>, FreeSpaceMapError>(
                FreeSpaceMapError::InvalidFreeSpace,
            ),
            result matches Ok(r) ==> page_num(r) == self.search(
                bucket_of(required_space as int) as Bucket,
                excluded_page_ids@,
            ),
    {
        let required_bucket = match self.get_bucket_id(required_space) {
            Ok(b) => b,
            Err(e) => return Err(e),
        };
        if self.nodes.len() == 0 {
            return Ok(None);
        }
        self.find_page_recursive(0, required_bucket, excluded_page_ids)
    }

    /// The first page, in leaf order, whose bucket reaches that of
    /// `required_space`.
    pub fn find_page(&self, required_space: usize) -> (result: Result<Option<PageId>, FreeSpaceMapError>)
        requires
            self.wf(),
        ensures
            result is Err <==> required_space >= 4096,
            result is Err ==> result == Err::<Option<PageId>, FreeSpaceMapError>(
                FreeSpaceMapError::InvalidFreeSpace,
            ),
            result matches Ok(r) ==> page_num(r) == self.search(
                bucket_of(required_space as int) as Bucket,
                Set::empty(),
            ),
    {
        let excluded_page_ids: HashSet<PageId> = HashSet::new();
        proof {
            assert(excluded_page_ids@ =~= Set::<PageId>::empty());
        }
        self.find_page_excluding(required_space, &excluded_page_ids)
    }

    pub fn get_leaf_bucket(&self, page_id: PageId) -> (result: Result<Option<Bucket>, FreeSpaceMapError>)
        requires
            self.wf(),
        ensures
            page_id >= self.cap() ==> result == Err::<Option<Bucket>, FreeSpaceMapError>(
                FreeSpaceMapError::InvalidPageId,
            ),
            page_id < self.cap() ==> result == Ok::<Option<Bucket>, FreeSpaceMapError>(
                self.view()[page_id as int],
            ),
    {
        if page_id as usize >= self.capacity {
            return Err(FreeSpaceMapError::InvalidPageId);
        }
        let leaf_index = self.capacity - 1 + page_id as usize;
        if let Some(bucket) = self.nodes[leaf_index].max_bucket {
            return Ok(Some(bucket));
        }
        Ok(None)
    }

    pub fn get_len(&self) -> (n: usize)
        ensures
            n == self.tree().len(),
    {
        self.nodes.len()
    }

    pub fn get_capacity(&self) -> (c: usize)
        ensures
            c == self.cap(),
    {
        self.capacity
    }

    pub fn get_root(&self) -> (root: &Node)
        requires
            self.wf(),
        ensures
            *root == self.tree()[0],
    {
        &self.nodes[0]
    }

    /// The node at position `index` of the tree (root first).
    pub fn get_node(&self, index: usize) -> (node: &Node)
        requires
            index < self.tree().len(),
        ensures
            *node == self.tree()[index as int],
    {
        &self.nodes[index]
    }
}

} // verus!
