//! `SublatticeSplit`: the schedule that picks which window of basis columns
//! is reduced at each step of the recursive heuristic.
//!
//! The split is purely structural: a binary tree of depth about `log2 n`.
//! A Phase-2 node runs `left -> right -> all`; a Phase-3 node alternates
//! between a window straddling its pivot and its two halves. Nodes are
//! shared between parents (the `all` child of a Phase-2 node reuses the
//! `all` children of its halves, the `mid` child of a Phase-3 node reuses
//! grandchildren), so the nodes live in an arena, [`SplitArena`], and refer
//! to each other by index. Every child index is smaller than its parent's
//! index, which makes the node graph acyclic.

use vstd::prelude::*;

verus! {

/// One sublattice window, half-open `[start, end)`.
pub type Sublattice = (usize, usize);

/// Handle of a split node: its index in the [`SplitArena`].
pub type SplitRc = usize;

#[derive(Clone, Copy, Debug)]
pub enum SplitKind {
    Phase2 { k: usize, left: Option<usize>, right: Option<usize>, all: usize },
    Phase3 { k: usize, left: Option<usize>, right: Option<usize>, mid: Option<usize> },
}

#[derive(Clone, Copy, Debug)]
pub struct Split {
    pub n: usize,
    pub iter: usize,
    pub kind: SplitKind,
}

/// The nodes of one or more split trees.
pub struct SplitArena {
    pub nodes: Vec<Split>,
}

// ---------------------------------------------------------------------------
// Specification of the node graph
// ---------------------------------------------------------------------------

/// Pivot `k` of a node.
pub open spec fn kind_k(kind: SplitKind) -> usize {
    match kind {
        SplitKind::Phase2 { k, .. } => k,
        SplitKind::Phase3 { k, .. } => k,
    }
}

pub open spec fn is_phase2(kind: SplitKind) -> bool {
    kind is Phase2
}

pub open spec fn is_phase3(kind: SplitKind) -> bool {
    kind is Phase3
}

/// Left child of a Phase-3 node (`None` for other nodes).
pub open spec fn p3_left(kind: SplitKind) -> Option<usize> {
    match kind {
        SplitKind::Phase3 { left, .. } => left,
        _ => None,
    }
}

/// Right child of a Phase-3 node (`None` for other nodes).
pub open spec fn p3_right(kind: SplitKind) -> Option<usize> {
    match kind {
        SplitKind::Phase3 { right, .. } => right,
        _ => None,
    }
}

/// Right child of an optional Phase-3 node (`None` when it is absent).
pub open spec fn opt_p3_right(nodes: Seq<Split>, c: Option<usize>) -> Option<usize> {
    match c {
        Some(x) => p3_right(nodes[x as int].kind),
        None => None,
    }
}

/// Left child of an optional Phase-3 node (`None` when it is absent).
pub open spec fn opt_p3_left(nodes: Seq<Split>, c: Option<usize>) -> Option<usize> {
    match c {
        Some(x) => p3_left(nodes[x as int].kind),
        None => None,
    }
}

/// Size of an optional child; an absent child counts as size 1.
pub open spec fn opt_n(nodes: Seq<Split>, c: Option<usize>) -> int {
    match c {
        Some(x) => nodes[x as int].n as int,
        None => 1,
    }
}

/// Pivot of an optional Phase-3 child; an absent child has pivot 0.
pub open spec fn opt_k(nodes: Seq<Split>, c: Option<usize>) -> int {
    match c {
        Some(x) => kind_k(nodes[x as int].kind) as int,
        None => 0,
    }
}

/// Optional child `c` of node `i` points to an earlier node of kind `p2`.
pub open spec fn child_ok(nodes: Seq<Split>, i: int, c: Option<usize>, phase2: bool) -> bool {
    c matches Some(x) ==> {
        &&& x < i
        &&& if phase2 { is_phase2(nodes[x as int].kind) } else { is_phase3(nodes[x as int].kind) }
    }
}

/// Structural well-formedness of node `i`.
pub open spec fn node_wf(nodes: Seq<Split>, i: int) -> bool {
    let s = nodes[i];
    match s.kind {
        SplitKind::Phase2 { k, left, right, all } => {
            &&& all < i
            &&& is_phase3(nodes[all as int].kind)
            &&& child_ok(nodes, i, left, true)
            &&& child_ok(nodes, i, right, true)
            &&& k <= s.n
            &&& left matches Some(l) ==> nodes[l as int].n == k
            &&& right matches Some(r) ==> nodes[r as int].n + k == s.n
            &&& s.n > 1 ==> left is Some && right is Some && nodes[all as int].n == s.n
            &&& s.n == 3 ==> k == 2
        },
        SplitKind::Phase3 { k, left, right, mid } => {
            &&& child_ok(nodes, i, left, false)
            &&& child_ok(nodes, i, right, false)
            &&& child_ok(nodes, i, mid, false)
            &&& k <= s.n
            &&& left matches Some(l) ==> nodes[l as int].n == k
            &&& right matches Some(r) ==> nodes[r as int].n + k == s.n
            &&& (s.n != 3 && mid is Some) ==> {
                &&& left is Some
                &&& right is Some
                &&& nodes[mid.unwrap() as int].n == opt_n(
                    nodes,
                    p3_right(nodes[left.unwrap() as int].kind),
                ) + opt_n(nodes, p3_left(nodes[right.unwrap() as int].kind))
            }
        },
    }
}

pub open spec fn nodes_wf(nodes: Seq<Split>) -> bool {
    forall|i: int| 0 <= i < nodes.len() ==> #[trigger] node_wf(nodes, i)
}

impl SplitArena {
    /// An arena with no nodes.
    pub fn new() -> (r: SplitArena)
        ensures
            r.wf(),
            r.nodes@.len() == 0,
    {
        SplitArena { nodes: Vec::new() }
    }

    pub open spec fn wf(&self) -> bool {
        nodes_wf(self.nodes@)
    }

    /// `id` names a node of this arena.
    pub open spec fn has(&self, id: usize) -> bool {
        id < self.nodes@.len()
    }
}

/// Pivot of a Phase-2 node of size `n >= 2`.
pub open spec fn spec_next_smaller(n: int) -> int {
    if n == 3 {
        2
    } else {
        n / 2
    }
}

/// Pivot of a fresh Phase-3 node of size `n`.
pub open spec fn spec_p3_k(n: int) -> int {
    if n == 3 {
        2
    } else {
        n / 2
    }
}

/// The windows that node `id` hands out in its current iteration.
pub open spec fn spec_sublattices(nodes: Seq<Split>, id: int) -> Seq<Sublattice> {
    let s = nodes[id];
    let n = s.n;
    let iter = s.iter;
    match s.kind {
        SplitKind::Phase2 { k, .. } => {
            if n == 3 {
                if iter == 0 {
                    seq![(0usize, k)]
                } else {
                    seq![(0usize, n)]
                }
            } else if iter == 0 {
                seq![(0usize, k)]
            } else if iter == 1 {
                seq![(k, n)]
            } else {
                seq![(0usize, n)]
            }
        },
        SplitKind::Phase3 { k, left, right, .. } => {
            if n != 3 {
                if iter % 2 == 0 {
                    seq![(opt_k(nodes, left) as usize, (k + opt_k(nodes, right)) as usize)]
                } else {
                    seq![(0usize, k), (k, n)]
                }
            } else if iter % 2 == 0 {
                seq![(0usize, 2usize)]
            } else {
                seq![(1usize, 3usize)]
            }
        },
    }
}

/// The child that handles window `i` of node `id`; `None` where there is
/// no such child.
pub open spec fn spec_child_split(nodes: Seq<Split>, id: int, i: int) -> Option<usize> {
    let s = nodes[id];
    let iter = s.iter;
    match s.kind {
        SplitKind::Phase2 { left, right, all, .. } => {
            if i != 0 {
                None
            } else if s.n == 3 {
                if iter == 0 {
                    left
                } else {
                    Some(all)
                }
            } else if iter == 0 {
                left
            } else if iter == 1 {
                right
            } else {
                Some(all)
            }
        },
        SplitKind::Phase3 { k, left, right, mid } => {
            if s.n == 3 {
                if i != 0 {
                    None
                } else if k == 2 {
                    if iter % 2 == 0 {
                        left
                    } else {
                        mid
                    }
                } else if iter % 2 == 0 {
                    mid
                } else {
                    right
                }
            } else if i < 0 || i >= 2 {
                None
            } else if iter % 2 == 0 {
                mid
            } else if i == 0 {
                left
            } else {
                right
            }
        },
    }
}

/// Whether node `id` has finished its schedule.
pub open spec fn spec_stopping_point(s: Split) -> bool {
    match s.kind {
        SplitKind::Phase2 { .. } => if s.n == 3 {
            s.iter > 1
        } else {
            s.iter > 2
        },
        SplitKind::Phase3 { .. } => s.iter % 2 == 0,
    }
}



/// The (up to three) children of a node: `left`, `right` and `all`/`mid`.
pub open spec fn children(kind: SplitKind) -> (Option<usize>, Option<usize>, Option<usize>) {
    match kind {
        SplitKind::Phase2 { left, right, all, .. } => (left, right, Some(all)),
        SplitKind::Phase3 { left, right, mid, .. } => (left, right, mid),
    }
}

/// `c` is a child that points to an earlier node and reaches `to`.
pub open spec fn via(nodes: Seq<Split>, from: int, c: Option<usize>, to: int) -> bool
    decreases from, 0int,
{
    match c {
        Some(x) => x < from && reaches(nodes, x as int, to),
        None => false,
    }
}

/// Node `to` lies in the subgraph below node `from` (`from` included).
pub open spec fn reaches(nodes: Seq<Split>, from: int, to: int) -> bool
    decreases from, 1int,
{
    if from < 0 || from >= nodes.len() {
        false
    } else if from == to {
        true
    } else {
        let (a, b, c) = children(nodes[from].kind);
        via(nodes, from, a, to) || via(nodes, from, b, to) || via(nodes, from, c, to)
    }
}

/// Nodes that [`Split::advance_sublattices`] resets: those below the left or
/// right child of a Phase-3 node.
pub open spec fn advance_resets(nodes: Seq<Split>, id: int, j: int) -> bool {
    match nodes[id].kind {
        SplitKind::Phase3 { left, right, .. } => via(nodes, id, left, j) || via(nodes, id, right, j),
        SplitKind::Phase2 { .. } => false,
    }
}

/// `b` differs from `a` at most in the iteration counters.
pub open spec fn same_shape(a: Seq<Split>, b: Seq<Split>) -> bool {
    &&& a.len() == b.len()
    &&& forall|j: int|
        #![trigger b[j]]
        #![trigger a[j]]
        0 <= j < a.len() ==> b[j].n == a[j].n && b[j].kind == a[j].kind
}

pub proof fn lemma_reaches_same_shape(a: Seq<Split>, b: Seq<Split>, from: int, to: int)
    requires
        same_shape(a, b),
    ensures
        reaches(a, from, to) == reaches(b, from, to),
    decreases from,
{
    if 0 <= from < a.len() && from != to {
        assert(b[from].kind == a[from].kind);
        let (x, y, z) = children(a[from].kind);
        if let Some(c) = x {
            if c < from {
                lemma_reaches_same_shape(a, b, c as int, to);
            }
        }
        if let Some(c) = y {
            if c < from {
                lemma_reaches_same_shape(a, b, c as int, to);
            }
        }
        if let Some(c) = z {
            if c < from {
                lemma_reaches_same_shape(a, b, c as int, to);
            }
        }
    }
}

pub proof fn lemma_reaches_below(nodes: Seq<Split>, from: int, to: int)
    requires
        reaches(nodes, from, to),
    ensures
        0 <= to <= from,
    decreases from,
{
    if from != to {
        let (x, y, z) = children(nodes[from].kind);
        if via(nodes, from, x, to) {
            lemma_reaches_below(nodes, x.unwrap() as int, to);
        } else if via(nodes, from, y, to) {
            lemma_reaches_below(nodes, y.unwrap() as int, to);
        } else {
            lemma_reaches_below(nodes, z.unwrap() as int, to);
        }
    }
}

pub proof fn lemma_wf_same_shape(a: Seq<Split>, b: Seq<Split>)
    requires
        same_shape(a, b),
        nodes_wf(a),
    ensures
        nodes_wf(b),
{
    assert forall|i: int| 0 <= i < b.len() implies #[trigger] node_wf(b, i) by {
        assert(node_wf(a, i));
        let _ = b[i];
        match a[i].kind {
            SplitKind::Phase2 { k, left, right, all } => {
                let _ = b[all as int];
                if let Some(l) = left {
                    let _ = b[l as int];
                }
                if let Some(r) = right {
                    let _ = b[r as int];
                }
            },
            SplitKind::Phase3 { k, left, right, mid } => {
                if let Some(l) = left {
                    let _ = b[l as int];
                    assert(node_wf(a, l as int));
                    if let Some(d) = p3_right(a[l as int].kind) {
                        let _ = b[d as int];
                    }
                }
                if let Some(r) = right {
                    let _ = b[r as int];
                    assert(node_wf(a, r as int));
                    if let Some(d) = p3_left(a[r as int].kind) {
                        let _ = b[d as int];
                    }
                }
                if let Some(m) = mid {
                    let _ = b[m as int];
                }
            },
        }
    }
}


/// `b` extends `a`: `a`'s nodes stay as they are and new nodes start at
/// iteration 0.
pub open spec fn grows(a: Seq<Split>, b: Seq<Split>) -> bool {
    &&& a.len() < b.len()
    &&& forall|j: int| 0 <= j < a.len() ==> #[trigger] b[j] == a[j]
    &&& forall|j: int| a.len() <= j < b.len() ==> #[trigger] b[j].iter == 0
}

/// `a` is a prefix of `b`.
pub open spec fn prefix(a: Seq<Split>, b: Seq<Split>) -> bool {
    &&& a.len() <= b.len()
    &&& forall|j: int| 0 <= j < a.len() ==> #[trigger] b[j] == a[j]
}

/// The `all` child of a Phase-2 node.
pub open spec fn p2_all(kind: SplitKind) -> usize {
    match kind {
        SplitKind::Phase2 { all, .. } => all,
        _ => 0,
    }
}

/// The children that a Phase-3 node built over children `l` and `r` gives
/// its `mid` child: the inner grandchildren (right child of `l`, left child
/// of `r`), except at total size 3, where the child of size 2 is replaced by
/// its inner child and the other one is kept.
pub open spec fn mid_children(nodes: Seq<Split>, l: Option<usize>, r: Option<usize>) -> (Option<usize>, Option<usize>) {
    let k = opt_n(nodes, l);
    if k + opt_n(nodes, r) == 3 {
        if k == 2 {
            (opt_p3_right(nodes, l), r)
        } else {
            (l, opt_p3_left(nodes, r))
        }
    } else {
        (opt_p3_right(nodes, l), opt_p3_left(nodes, r))
    }
}

/// An optional child is absent or an index into `nodes`.
pub open spec fn opt_in(nodes: Seq<Split>, c: Option<usize>) -> bool {
    c matches Some(x) ==> x < nodes.len()
}

/// Node `id` is the Phase-3 node built over children `l` and `r`, all the
/// way down: pivot `k` the size of `l`, children `l` and `r`, size the sum
/// of theirs, and a `mid` child exactly when the size is 3 or both inner
/// grandchildren exist, itself built in the same way over
/// [`mid_children`].
pub open spec fn p3_from_children(nodes: Seq<Split>, id: int, l: Option<usize>, r: Option<usize>) -> bool
    decreases opt_idx(l) + opt_idx(r),
{
    let k = opt_n(nodes, l);
    let n = k + opt_n(nodes, r);
    let ml = mid_children(nodes, l, r).0;
    let mr = mid_children(nodes, l, r).1;
    &&& 0 <= id < nodes.len()
    &&& opt_in(nodes, l)
    &&& opt_in(nodes, r)
    &&& nodes[id].n == n
    &&& nodes[id].kind matches SplitKind::Phase3 { k: kk, left, right, mid }
    &&& kk == k
    &&& left == l
    &&& right == r
    &&& (mid is Some) == (n == 3 || (ml is Some && mr is Some))
    &&& mid matches Some(m) ==> {
        &&& opt_idx(ml) + opt_idx(mr) < opt_idx(l) + opt_idx(r)
        &&& p3_from_children(nodes, m as int, ml, mr)
    }
}

pub proof fn lemma_p3_from_children_prefix(a: Seq<Split>, b: Seq<Split>, id: int, l: Option<usize>, r: Option<usize>)
    requires
        prefix(a, b),
        p3_from_children(a, id, l, r),
    ensures
        p3_from_children(b, id, l, r),
    decreases opt_idx(l) + opt_idx(r),
{
    assert(b[id] == a[id]);
    if let Some(x) = l {
        assert(b[x as int] == a[x as int]);
    }
    if let Some(x) = r {
        assert(b[x as int] == a[x as int]);
    }
    assert(mid_children(b, l, r) == mid_children(a, l, r));
    if let SplitKind::Phase3 { mid, .. } = a[id].kind {
        if let Some(m) = mid {
            let ml = mid_children(a, l, r).0;
            let mr = mid_children(a, l, r).1;
            lemma_p3_from_children_prefix(a, b, m as int, ml, mr);
        }
    }
}

/// Node `id` is the root of a fresh Phase-3 tree of size `n`: pivot
/// `spec_p3_k(n)`, and for `n >= 2` left and right subtrees of sizes `k` and
/// `n - k` built the same way, plus a `mid` child whose children are shared:
/// the right child of `left`, and the left child of `right` (for `n == 3`,
/// `right` itself, and `mid` has size 2).
pub open spec fn p3_spine(nodes: Seq<Split>, id: int, n: nat) -> bool
    decreases n,
{
    &&& 0 <= id < nodes.len()
    &&& nodes[id].n == n
    &&& match nodes[id].kind {
        SplitKind::Phase3 { k, left, right, mid } => {
            &&& k == spec_p3_k(n as int)
            &&& if n >= 2 {
                &&& left is Some
                &&& right is Some
                &&& mid is Some
                &&& p3_spine(nodes, left.unwrap() as int, k as nat)
                &&& p3_spine(nodes, right.unwrap() as int, (n - k) as nat)
                &&& 0 <= mid.unwrap() < nodes.len()
                &&& nodes[mid.unwrap() as int].kind matches SplitKind::Phase3 { left: ml, right: mr, .. }
                &&& ml == p3_right(nodes[left.unwrap() as int].kind)
                &&& mr == (if n == 3 { right } else { p3_left(nodes[right.unwrap() as int].kind) })
                &&& ml matches Some(x) ==> x < nodes.len()
                &&& mr matches Some(x) ==> x < nodes.len()
                &&& nodes[mid.unwrap() as int].n == opt_n(nodes, ml) + opt_n(nodes, mr)
                &&& n == 3 ==> nodes[mid.unwrap() as int].n == 2
                &&& p3_from_children(
                    nodes,
                    mid.unwrap() as int,
                    p3_right(nodes[left.unwrap() as int].kind),
                    if n == 3 { right } else { p3_left(nodes[right.unwrap() as int].kind) },
                )
            } else {
                left is None && right is None && mid is None
            }
        },
        _ => false,
    }
}

/// Node `id` is the root of a fresh Phase-2 tree of size `n`: pivot
/// `spec_next_smaller(n)`, Phase-2 subtrees for both halves, and an `all`
/// child whose children are the `all` children of the halves.
pub open spec fn p2_spine(nodes: Seq<Split>, id: int, n: nat) -> bool
    decreases n,
{
    &&& 0 <= id < nodes.len()
    &&& nodes[id].n == n
    &&& match nodes[id].kind {
        SplitKind::Phase2 { k, left, right, all } => {
            &&& 0 <= all < nodes.len()
            &&& nodes[all as int].n == (if n == 0 { 1 } else { n })
            &&& if n > 1 {
                &&& k == spec_next_smaller(n as int)
                &&& left is Some
                &&& right is Some
                &&& p2_spine(nodes, left.unwrap() as int, k as nat)
                &&& p2_spine(nodes, right.unwrap() as int, (n - k) as nat)
                &&& nodes[all as int].kind matches SplitKind::Phase3 { k: ka, left: la, right: ra, .. }
                &&& ka == k
                &&& la == Some(p2_all(nodes[left.unwrap() as int].kind))
                &&& ra == Some(p2_all(nodes[right.unwrap() as int].kind))
                &&& p3_from_children(
                    nodes,
                    all as int,
                    Some(p2_all(nodes[left.unwrap() as int].kind)),
                    Some(p2_all(nodes[right.unwrap() as int].kind)),
                )
            } else {
                &&& k == n
                &&& left is None
                &&& right is None
                &&& p3_spine(nodes, all as int, 1)
            }
        },
        _ => false,
    }
}

pub proof fn lemma_p3_spine_prefix(a: Seq<Split>, b: Seq<Split>, id: int, n: nat)
    requires
        prefix(a, b),
        p3_spine(a, id, n),
    ensures
        p3_spine(b, id, n),
    decreases n,
{
    assert(b[id] == a[id]);
    if n >= 2 {
        let k = kind_k(a[id].kind);
        reveal_with_fuel(p3_spine, 2);
        if let SplitKind::Phase3 { left, right, mid, .. } = a[id].kind {
            let m = mid.unwrap() as int;
            assert(b[m] == a[m]);
            assert(b[left.unwrap() as int] == a[left.unwrap() as int]);
            assert(b[right.unwrap() as int] == a[right.unwrap() as int]);
            if let SplitKind::Phase3 { left: ml, right: mr, .. } = a[m].kind {
                if let Some(x) = ml {
                    assert(b[x as int] == a[x as int]);
                }
                if let Some(x) = mr {
                    assert(b[x as int] == a[x as int]);
                }
                lemma_p3_from_children_prefix(a, b, m, ml, mr);
            }
        }
        lemma_p3_spine_prefix(a, b, p3_left(a[id].kind).unwrap() as int, k as nat);
        lemma_p3_spine_prefix(a, b, p3_right(a[id].kind).unwrap() as int, (n - k) as nat);
    }
}

pub proof fn lemma_p2_spine_prefix(a: Seq<Split>, b: Seq<Split>, id: int, n: nat)
    requires
        prefix(a, b),
        p2_spine(a, id, n),
    ensures
        p2_spine(b, id, n),
    decreases n,
{
    assert(b[id] == a[id]);
    match a[id].kind {
        SplitKind::Phase2 { k, left, right, all } => {
            assert(b[all as int] == a[all as int]);
            if n > 1 {
                reveal_with_fuel(p2_spine, 2);
                assert(b[left.unwrap() as int] == a[left.unwrap() as int]);
                assert(b[right.unwrap() as int] == a[right.unwrap() as int]);
                lemma_p2_spine_prefix(a, b, left.unwrap() as int, k as nat);
                lemma_p2_spine_prefix(a, b, right.unwrap() as int, (n - k) as nat);
                lemma_p3_from_children_prefix(
                    a,
                    b,
                    all as int,
                    Some(p2_all(a[left.unwrap() as int].kind)),
                    Some(p2_all(a[right.unwrap() as int].kind)),
                );
            } else {
                lemma_p3_spine_prefix(a, b, all as int, 1);
            }
        },
        _ => {},
    }
}

/// Appending nodes keeps the earlier nodes well formed.
pub proof fn lemma_wf_prefix(a: Seq<Split>, b: Seq<Split>)
    requires
        prefix(a, b),
        nodes_wf(a),
    ensures
        forall|i: int| 0 <= i < a.len() ==> #[trigger] node_wf(b, i),
{
    assert forall|i: int| 0 <= i < a.len() implies #[trigger] node_wf(b, i) by {
        assert(node_wf(a, i));
        assert(b[i] == a[i]);
        match a[i].kind {
            SplitKind::Phase2 { k, left, right, all } => {
                assert(b[all as int] == a[all as int]);
                if let Some(l) = left {
                    assert(b[l as int] == a[l as int]);
                }
                if let Some(r) = right {
                    assert(b[r as int] == a[r as int]);
                }
            },
            SplitKind::Phase3 { k, left, right, mid } => {
                if let Some(l) = left {
                    assert(b[l as int] == a[l as int]);
                    assert(node_wf(a, l as int));
                    if let Some(d) = p3_right(a[l as int].kind) {
                        assert(b[d as int] == a[d as int]);
                    }
                }
                if let Some(r) = right {
                    assert(b[r as int] == a[r as int]);
                    assert(node_wf(a, r as int));
                    if let Some(d) = p3_left(a[r as int].kind) {
                        assert(b[d as int] == a[d as int]);
                    }
                }
                if let Some(m) = mid {
                    assert(b[m as int] == a[m as int]);
                }
            },
        }
    }
}

/// Index measure of an optional child, used for termination.
pub open spec fn opt_idx(c: Option<usize>) -> int {
    match c {
        Some(x) => x + 1,
        None => 0,
    }
}

/// A Phase-2 node runs its schedule `left -> right -> all` (for `n == 3`:
/// `left -> all`) and then stops.
pub proof fn lemma_phase2_schedule(s: Split)
    requires
        s.kind is Phase2,
        s.n >= 2,
    ensures
        ({
            let k = kind_k(s.kind);
            let at = |t: usize| Split { n: s.n, iter: t, kind: s.kind };
            if s.n == 3 {
                &&& spec_sublattices(seq![at(0)], 0) == seq![(0usize, k)]
                &&& spec_sublattices(seq![at(1)], 0) == seq![(0usize, s.n)]
                &&& (spec_stopping_point(s) <==> s.iter >= 2)
            } else {
                &&& spec_sublattices(seq![at(0)], 0) == seq![(0usize, k)]
                &&& spec_sublattices(seq![at(1)], 0) == seq![(k, s.n)]
                &&& spec_sublattices(seq![at(2)], 0) == seq![(0usize, s.n)]
                &&& (spec_stopping_point(s) <==> s.iter >= 3)
            }
        }),
{
}

/// Descending from a Phase-2 node of size at least 2: the child that handles
/// a window has exactly the window's size.
pub proof fn lemma_phase2_child_matches_window(nodes: Seq<Split>, id: int)
    requires
        nodes_wf(nodes),
        0 <= id < nodes.len(),
        nodes[id].kind is Phase2,
        nodes[id].n >= 2,
    ensures
        spec_child_split(nodes, id, 0) is Some,
        ({
            let w = spec_sublattices(nodes, id)[0];
            let c = spec_child_split(nodes, id, 0).unwrap();
            nodes[c as int].n == w.1 - w.0
        }),
{
    assert(node_wf(nodes, id));
}

/// In the odd rounds of a Phase-3 node (`n != 3`) the two windows tile
/// `[0, n)` and each child has its window's size.
pub proof fn lemma_phase3_halves(nodes: Seq<Split>, id: int, i: int)
    requires
        nodes_wf(nodes),
        0 <= id < nodes.len(),
        nodes[id].kind is Phase3,
        nodes[id].n != 3,
        nodes[id].iter % 2 == 1,
        0 <= i < 2,
        spec_child_split(nodes, id, i) is Some,
    ensures
        spec_sublattices(nodes, id).len() == 2,
        spec_sublattices(nodes, id)[0].0 == 0,
        spec_sublattices(nodes, id)[0].1 == spec_sublattices(nodes, id)[1].0,
        spec_sublattices(nodes, id)[1].1 == nodes[id].n,
        ({
            let w = spec_sublattices(nodes, id)[i];
            let c = spec_child_split(nodes, id, i).unwrap();
            nodes[c as int].n == w.1 - w.0
        }),
{
    assert(node_wf(nodes, id));
}

/// In the even rounds of a Phase-3 node (`n != 3`) the window straddling the
/// pivot is handled by the `mid` child, whose size is the window's size when
/// the inner grandchildren it is built from are present.
pub proof fn lemma_phase3_mid_matches_window(nodes: Seq<Split>, id: int)
    requires
        nodes_wf(nodes),
        0 <= id < nodes.len(),
        nodes[id].n != 3,
        nodes[id].iter % 2 == 0,
        nodes[id].kind matches SplitKind::Phase3 { left, right, mid, .. } && {
            &&& left is Some
            &&& right is Some
            &&& mid is Some
            &&& p3_right(nodes[left.unwrap() as int].kind) is Some
            &&& p3_left(nodes[right.unwrap() as int].kind) is Some
        },
    ensures
        spec_child_split(nodes, id, 0) is Some,
        ({
            let w = spec_sublattices(nodes, id)[0];
            let c = spec_child_split(nodes, id, 0).unwrap();
            nodes[c as int].n == w.1 - w.0
        }),
{
    assert(node_wf(nodes, id));
    let l = p3_left(nodes[id].kind).unwrap() as int;
    let r = p3_right(nodes[id].kind).unwrap() as int;
    assert(node_wf(nodes, l));
    assert(node_wf(nodes, r));
}

/// The schedule of a node, by kind and iteration:
/// - a Phase-3 node stops exactly at its even iterations; a Phase-2 node
///   stops once it has handed out its windows (after 2 iterations at size
///   3, after 3 otherwise);
/// - a Phase-3 node of size 3 hands out `[0, 2)` at even iterations and
///   `[1, 3)` at odd ones; with pivot 2 its left child (of size 2) takes the
///   even window and its `mid` child the odd one, with pivot 1 its `mid`
///   child takes the even window and its right child (of size 2) the odd
///   one;
/// - a Phase-3 node of another size hands out, at even iterations, the one
///   window `[left.k, k + right.k)` that straddles its pivot, taken by its
///   `mid` child, and at odd iterations its two halves `[0, k)` and `[k, n)`,
///   taken by its left child (of size `k`) and its right child (of size
///   `n - k`);
/// - a Phase-2 node hands out `[0, k)` to its left child (of size `k`), then
///   `[k, n)` to its right child (of size `n - k`, skipped at size 3), then
///   `[0, n)` to its `all` child (of size `n` when `n > 1`).
pub proof fn lemma_schedule_laws(nodes: Seq<Split>, id: int)
    requires
        nodes_wf(nodes),
        0 <= id < nodes.len(),
    ensures
        ({
            let s = nodes[id];
            let n = s.n as int;
            let it = s.iter as int;
            let sub = spec_sublattices(nodes, id);
            match s.kind {
                SplitKind::Phase3 { k, left, right, mid } => {
                    &&& spec_stopping_point(s) <==> it % 2 == 0
                    &&& n == 3 && it % 2 == 0 ==> sub.len() == 1 && sub[0] == (0usize, 2usize)
                    &&& n == 3 && it % 2 == 1 ==> sub.len() == 1 && sub[0] == (1usize, 3usize)
                    &&& n == 3 && k == 2 && it % 2 == 0 ==> spec_child_split(nodes, id, 0) == left && (left is Some
                        ==> nodes[left.unwrap() as int].n == 2)
                    &&& n == 3 && k == 2 && it % 2 == 1 ==> spec_child_split(nodes, id, 0) == mid
                    &&& n == 3 && k != 2 && it % 2 == 0 ==> spec_child_split(nodes, id, 0) == mid
                    &&& n == 3 && k != 2 && it % 2 == 1 ==> spec_child_split(nodes, id, 0) == right
                    &&& n == 3 && k == 1 && it % 2 == 1 ==> (right is Some ==> nodes[right.unwrap() as int].n == 2)
                    &&& n != 3 && it % 2 == 0 ==> sub.len() == 1 && sub[0] == (opt_k(nodes, left) as usize, (k
                        + opt_k(nodes, right)) as usize) && spec_child_split(nodes, id, 0) == mid
                    &&& n != 3 && it % 2 == 1 ==> {
                        &&& sub.len() == 2
                        &&& sub[0] == (0usize, k)
                        &&& sub[1] == (k, s.n)
                        &&& spec_child_split(nodes, id, 0) == left
                        &&& spec_child_split(nodes, id, 1) == right
                        &&& left matches Some(l) ==> nodes[l as int].n == k
                        &&& right matches Some(r) ==> nodes[r as int].n == n - k
                    }
                },
                SplitKind::Phase2 { k, left, right, all } => {
                    &&& spec_stopping_point(s) <==> (if n == 3 { it >= 2 } else { it >= 3 })
                    &&& sub.len() == 1
                    &&& it == 0 ==> sub[0] == (0usize, k) && spec_child_split(nodes, id, 0) == left && (left
                        matches Some(l) ==> nodes[l as int].n == k)
                    &&& n != 3 && it == 1 ==> sub[0] == (k, s.n) && spec_child_split(nodes, id, 0) == right && (
                    right matches Some(r) ==> nodes[r as int].n == n - k)
                    &&& (it >= 2 || (n == 3 && it == 1)) ==> sub[0] == (0usize, s.n) && spec_child_split(nodes, id, 0)
                        == Some(all) && (n > 1 ==> nodes[all as int].n == n)
                },
            }
        }),
{
    assert(node_wf(nodes, id));
}

/// One step of a Phase-3 node flips it between stopping and going on, and
/// at size 3 moves it between its two windows.
pub proof fn lemma_phase3_alternates(nodes: Seq<Split>, id: int)
    requires
        0 <= id < nodes.len(),
        is_phase3(nodes[id].kind),
        nodes[id].iter < usize::MAX,
    ensures
        ({
            let s = nodes[id];
            let next = nodes.update(id, Split { iter: (s.iter + 1) as usize, ..s });
            &&& spec_stopping_point(next[id]) != spec_stopping_point(s)
            &&& s.n == 3 ==> spec_sublattices(next, id) != spec_sublattices(nodes, id)
            &&& s.n == 3 ==> spec_sublattices(next, id)[0].0 + spec_sublattices(nodes, id)[0].0 == 1
        }),
{
    let s = nodes[id];
    let next = nodes.update(id, Split { iter: (s.iter + 1) as usize, ..s });
    assert(next[id].iter == s.iter + 1);
    if s.n == 3 {
        assert(spec_sublattices(next, id)[0] != spec_sublattices(nodes, id)[0]);
    }
}

impl Split {
    /// Whether node `id` has exhausted its schedule.
    pub fn stopping_point(arena: &SplitArena, id: SplitRc) -> (r: bool)
        requires
            arena.has(id),
        ensures
            r == spec_stopping_point(arena.nodes@[id as int]),
    {
        let s = arena.nodes[id];
        match s.kind {
            SplitKind::Phase2 { .. } => {
                if s.n == 3 {
                    s.iter > 1
                } else {
                    s.iter > 2
                }
            },
            SplitKind::Phase3 { .. } => s.iter % 2 == 0,
        }
    }

    /// The windows to reduce in the current iteration of node `id`: one
    /// window for a Phase-2 node, one or two for a Phase-3 node.
    pub fn get_sublattices(arena: &SplitArena, id: SplitRc) -> (r: Vec<Sublattice>)
        requires
            arena.wf(),
            arena.has(id),
        ensures
            r@ == spec_sublattices(arena.nodes@, id as int),
            forall|w: int|
                0 <= w < r@.len() ==> #[trigger] r@[w].0 <= r@[w].1 <= arena.nodes@[id as int].n,
    {
        let ghost nodes = arena.nodes@;
        assert(node_wf(nodes, id as int));
        let s = arena.nodes[id];
        let n = s.n;
        let iter = s.iter;
        match s.kind {
            SplitKind::Phase2 { k, .. } => {
                let r = if n == 3 {
                    if iter == 0 {
                        vec![(0, k)]
                    } else {
                        vec![(0, n)]
                    }
                } else if iter == 0 {
                    vec![(0, k)]
                } else if iter == 1 {
                    vec![(k, n)]
                } else {
                    vec![(0, n)]
                };
                assert(r@ =~= spec_sublattices(nodes, id as int));
                r
            },
            SplitKind::Phase3 { k, left, right, .. } => {
                let r = if n != 3 {
                    if iter % 2 == 0 {
                        let left_k = match left {
                            Some(l) => {
                                assert(node_wf(nodes, l as int));
                                match arena.nodes[l].kind {
                                    SplitKind::Phase3 { k, .. } => k,
                                    SplitKind::Phase2 { k, .. } => k,
                                }
                            },
                            None => 0,
                        };
                        let right_k = match right {
                            Some(r) => {
                                assert(node_wf(nodes, r as int));
                                match arena.nodes[r].kind {
                                    SplitKind::Phase3 { k, .. } => k,
                                    SplitKind::Phase2 { k, .. } => k,
                                }
                            },
                            None => 0,
                        };
                        vec![(left_k, k + right_k)]
                    } else {
                        vec![(0, k), (k, n)]
                    }
                } else if iter % 2 == 0 {
                    vec![(0, 2)]
                } else {
                    vec![(1, 3)]
                };
                assert(r@ =~= spec_sublattices(nodes, id as int));
                r
            },
        }
    }

    /// The child node that handles window `i` of node `id`.
    pub fn get_child_split(arena: &SplitArena, id: SplitRc, i: usize) -> (r: SplitRc)
        requires
            arena.wf(),
            arena.has(id),
            spec_child_split(arena.nodes@, id as int, i as int) is Some,
        ensures
            Some(r) == spec_child_split(arena.nodes@, id as int, i as int),
            r < id,
    {
        let ghost nodes = arena.nodes@;
        assert(node_wf(nodes, id as int));
        let s = arena.nodes[id];
        let iter = s.iter;
        match s.kind {
            SplitKind::Phase2 { left, right, all, .. } => {
                if s.n == 3 {
                    if iter == 0 {
                        left.unwrap()
                    } else {
                        all
                    }
                } else if iter == 0 {
                    left.unwrap()
                } else if iter == 1 {
                    right.unwrap()
                } else {
                    all
                }
            },
            SplitKind::Phase3 { k, left, right, mid } => {
                if s.n == 3 {
                    if k == 2 {
                        if iter % 2 == 0 {
                            left.unwrap()
                        } else {
                            mid.unwrap()
                        }
                    } else if iter % 2 == 0 {
                        mid.unwrap()
                    } else {
                        right.unwrap()
                    }
                } else {
                    if iter % 2 == 0 {
                        mid.unwrap()
                    } else if i == 0 {
                        left.unwrap()
                    } else {
                        right.unwrap()
                    }
                }
            },
        }
    }

    /// Put node `id` and every node below it back to iteration 0.
    pub fn reset(arena: &mut SplitArena, id: SplitRc)
        requires
            old(arena).wf(),
            old(arena).has(id),
        ensures
            final(arena).wf(),
            same_shape(old(arena).nodes@, final(arena).nodes@),
            forall|j: int|
                0 <= j < old(arena).nodes@.len() ==> #[trigger] final(arena).nodes@[j].iter == if reaches(
                    old(arena).nodes@,
                    id as int,
                    j,
                ) {
                    0
                } else {
                    old(arena).nodes@[j].iter
                },
        decreases id,
    {
        let ghost n0 = arena.nodes@;
        assert(node_wf(n0, id as int));
        let s = arena.nodes[id];
        arena.nodes.set(id, Split { n: s.n, iter: 0, kind: s.kind });
        proof {
            lemma_wf_same_shape(n0, arena.nodes@);
        }
        let (a, b, c) = match s.kind {
            SplitKind::Phase2 { left, right, all, .. } => (left, right, Some(all)),
            SplitKind::Phase3 { left, right, mid, .. } => (left, right, mid),
        };
        let ghost n1 = arena.nodes@;
        if let Some(x) = a {
            Split::reset(arena, x);
            proof {
                lemma_reaches_same_shape(n0, n1, x as int, 0);
            }
        }
        let ghost n2 = arena.nodes@;
        if let Some(x) = b {
            Split::reset(arena, x);
        }
        let ghost n3 = arena.nodes@;
        if let Some(x) = c {
            Split::reset(arena, x);
        }
        proof {
            assert forall|j: int| 0 <= j < n0.len() implies #[trigger] arena.nodes@[j].iter == if reaches(
                n0,
                id as int,
                j,
            ) {
                0
            } else {
                n0[j].iter
            } by {
                if let Some(x) = a {
                    lemma_reaches_same_shape(n0, n1, x as int, j);
                }
                if let Some(x) = b {
                    lemma_reaches_same_shape(n0, n2, x as int, j);
                }
                if let Some(x) = c {
                    lemma_reaches_same_shape(n0, n3, x as int, j);
                }
            }
        }
    }

    /// Move node `id` to its next iteration. A Phase-3 node first resets its
    /// left and right children, which are visited afresh in every round.
    pub fn advance_sublattices(arena: &mut SplitArena, id: SplitRc)
        requires
            old(arena).wf(),
            old(arena).has(id),
            old(arena).nodes@[id as int].iter < usize::MAX,
        ensures
            final(arena).wf(),
            same_shape(old(arena).nodes@, final(arena).nodes@),
            forall|j: int|
                0 <= j < old(arena).nodes@.len() ==> #[trigger] final(arena).nodes@[j].iter == if j
                    == id {
                    (old(arena).nodes@[j].iter + 1) as usize
                } else if advance_resets(old(arena).nodes@, id as int, j) {
                    0
                } else {
                    old(arena).nodes@[j].iter
                },
    {
        let ghost n0 = arena.nodes@;
        assert(node_wf(n0, id as int));
        let s = arena.nodes[id];
        match s.kind {
            SplitKind::Phase2 { .. } => {},
            SplitKind::Phase3 { left, right, .. } => {
                if let Some(l) = left {
                    Split::reset(arena, l);
                }
                let ghost n1 = arena.nodes@;
                if let Some(r) = right {
                    Split::reset(arena, r);
                }
                proof {
                    assert forall|j: int| 0 <= j < n0.len() implies #[trigger] arena.nodes@[j].iter
                        == if advance_resets(n0, id as int, j) {
                        0
                    } else {
                        n0[j].iter
                    } by {
                        if let Some(r) = right {
                            lemma_reaches_same_shape(n0, n1, r as int, j);
                        }
                    }
                }
            },
        }
        let ghost n2 = arena.nodes@;
        proof {
            if let Some(l) = p3_left(n0[id as int].kind) {
                if reaches(n0, l as int, id as int) {
                    lemma_reaches_below(n0, l as int, id as int);
                }
            }
            if let Some(r) = p3_right(n0[id as int].kind) {
                if reaches(n0, r as int, id as int) {
                    lemma_reaches_below(n0, r as int, id as int);
                }
            }
        }
        let s2 = arena.nodes[id];
        arena.nodes.set(id, Split { n: s2.n, iter: s2.iter + 1, kind: s2.kind });
        proof {
            lemma_wf_same_shape(n2, arena.nodes@);
        }
    }

    /// Append node `s`; the caller has checked that it is well formed.
    fn push_node(arena: &mut SplitArena, s: Split) -> (r: SplitRc)
        requires
            old(arena).wf(),
            node_wf(old(arena).nodes@.push(s), old(arena).nodes@.len() as int),
            s.iter == 0,
        ensures
            final(arena).wf(),
            final(arena).nodes@ == old(arena).nodes@.push(s),
            r == old(arena).nodes@.len(),
    {
        let ghost a = arena.nodes@;
        let r = arena.nodes.len();
        arena.nodes.push(s);
        proof {
            lemma_wf_prefix(a, arena.nodes@);
        }
        r
    }

    /// Build a fresh Phase-2 split for a lattice of rank `n`.
    pub fn new_phase2(arena: &mut SplitArena, n: usize) -> (r: SplitRc)
        requires
            old(arena).wf(),
        ensures
            final(arena).wf(),
            grows(old(arena).nodes@, final(arena).nodes@),
            r == final(arena).nodes@.len() - 1,
            p2_spine(final(arena).nodes@, r as int, n as nat),
        decreases n,
    {
        let ghost a0 = arena.nodes@;
        if n > 1 {
            let k = next_smaller(n);
            let left = Split::new_phase2(arena, k);
            let ghost a1 = arena.nodes@;
            let right = Split::new_phase2(arena, n - k);
            let ghost a2 = arena.nodes@;
            proof {
                lemma_p2_spine_prefix(a1, a2, left as int, k as nat);
            }
            let l_all = match arena.nodes[left].kind {
                SplitKind::Phase2 { all, .. } => all,
                SplitKind::Phase3 { .. } => 0,
            };
            let r_all = match arena.nodes[right].kind {
                SplitKind::Phase2 { all, .. } => all,
                SplitKind::Phase3 { .. } => 0,
            };
            proof {
                assert(node_wf(a2, left as int));
                assert(node_wf(a2, right as int));
            }
            let all = Split::new_phase3_from_children(arena, Some(l_all), Some(r_all));
            let ghost a3 = arena.nodes@;
            proof {
                lemma_p2_spine_prefix(a2, a3, left as int, k as nat);
                lemma_p2_spine_prefix(a2, a3, right as int, (n - k) as nat);
                assert(a3[left as int] == a2[left as int]);
                assert(a3[right as int] == a2[right as int]);
            }
            let s = Split {
                n,
                iter: 0,
                kind: SplitKind::Phase2 { k, left: Some(left), right: Some(right), all },
            };
            proof {
                let b = a3.push(s);
                assert(b[left as int] == a3[left as int]);
                assert(b[right as int] == a3[right as int]);
                assert(b[all as int] == a3[all as int]);
                assert(node_wf(b, a3.len() as int));
            }
            let r = Split::push_node(arena, s);
            proof {
                let b = arena.nodes@;
                lemma_p2_spine_prefix(a3, b, left as int, k as nat);
                lemma_p2_spine_prefix(a3, b, right as int, (n - k) as nat);
                lemma_p3_from_children_prefix(a3, b, all as int, Some(l_all), Some(r_all));
                assert(b[left as int] == a3[left as int]);
                assert(b[right as int] == a3[right as int]);
                assert(b[all as int] == a3[all as int]);
                assert(b[r as int] == s);
            }
            r
        } else {
            let all = Split::new_phase3(arena, 1);
            let ghost a1 = arena.nodes@;
            let s = Split { n, iter: 0, kind: SplitKind::Phase2 { k: n, left: None, right: None, all } };
            proof {
                let b = a1.push(s);
                assert(b[all as int] == a1[all as int]);
                assert(node_wf(b, a1.len() as int));
            }
            let r = Split::push_node(arena, s);
            proof {
                lemma_p3_spine_prefix(a1, arena.nodes@, all as int, 1);
                assert(arena.nodes@[all as int] == a1[all as int]);
            }
            r
        }
    }

    /// Build a fresh Phase-3 split of size `n` with pivot `n / 2`.
    pub fn new_phase3(arena: &mut SplitArena, n: usize) -> (r: SplitRc)
        requires
            old(arena).wf(),
        ensures
            final(arena).wf(),
            grows(old(arena).nodes@, final(arena).nodes@),
            r == final(arena).nodes@.len() - 1,
            p3_spine(final(arena).nodes@, r as int, n as nat),
    {
        Split::new_phase3_with_k(arena, n, n / 2)
    }

    fn new_phase3_with_k(arena: &mut SplitArena, n: usize, k: usize) -> (r: SplitRc)
        requires
            old(arena).wf(),
            k == n / 2,
        ensures
            final(arena).wf(),
            grows(old(arena).nodes@, final(arena).nodes@),
            r == final(arena).nodes@.len() - 1,
            p3_spine(final(arena).nodes@, r as int, n as nat),
        decreases n,
    {
        let ghost a0 = arena.nodes@;
        if n == 3 {
            let k: usize = 2;
            let left = Split::new_phase3_with_k(arena, 2, 1);
            let ghost a1 = arena.nodes@;
            let right = Split::new_phase3_with_k(arena, 1, 0);
            let ghost a2 = arena.nodes@;
            proof {
                lemma_p3_spine_prefix(a1, a2, left as int, 2);
                assert(a2[left as int] == a1[left as int]);
                assert(node_wf(a2, left as int));
            }
            let l_r = match arena.nodes[left].kind {
                SplitKind::Phase3 { right, .. } => right,
                SplitKind::Phase2 { .. } => None,
            };
            proof {
                if let Some(x) = l_r {
                    assert(node_wf(a2, x as int));
                }
            }
            let mid = Split::new_phase3_from_children(arena, l_r, Some(right));
            let ghost a3 = arena.nodes@;
            proof {
                lemma_p3_spine_prefix(a2, a3, left as int, 2);
                lemma_p3_spine_prefix(a2, a3, right as int, 1);
                assert(a3[left as int] == a2[left as int]);
                assert(a3[right as int] == a2[right as int]);
            }
            let s = Split {
                n,
                iter: 0,
                kind: SplitKind::Phase3 { k, left: Some(left), right: Some(right), mid: Some(mid) },
            };
            proof {
                let b = a3.push(s);
                assert(b[left as int] == a3[left as int]);
                assert(b[right as int] == a3[right as int]);
                assert(b[mid as int] == a3[mid as int]);
                assert(node_wf(b, a3.len() as int));
            }
            let r = Split::push_node(arena, s);
            proof {
                lemma_p3_spine_prefix(a3, arena.nodes@, left as int, 2);
                lemma_p3_spine_prefix(a3, arena.nodes@, right as int, 1);
                lemma_p3_from_children_prefix(a3, arena.nodes@, mid as int, l_r, Some(right));
                assert(arena.nodes@[left as int] == a3[left as int]);
                assert(arena.nodes@[r as int] == s);
            }
            r
        } else if n >= 2 {
            let left = Split::new_phase3_with_k(arena, k, k / 2);
            let ghost a1 = arena.nodes@;
            let right = Split::new_phase3_with_k(arena, n - k, (n - k) / 2);
            let ghost a2 = arena.nodes@;
            proof {
                lemma_p3_spine_prefix(a1, a2, left as int, k as nat);
                assert(a2[left as int] == a1[left as int]);
                assert(node_wf(a2, left as int));
                assert(node_wf(a2, right as int));
            }
            let l_r = match arena.nodes[left].kind {
                SplitKind::Phase3 { right, .. } => right,
                SplitKind::Phase2 { .. } => None,
            };
            let r_l = match arena.nodes[right].kind {
                SplitKind::Phase3 { left, .. } => left,
                SplitKind::Phase2 { .. } => None,
            };
            let mid = Split::new_phase3_from_children(arena, l_r, r_l);
            let ghost a3 = arena.nodes@;
            proof {
                lemma_p3_spine_prefix(a2, a3, left as int, k as nat);
                lemma_p3_spine_prefix(a2, a3, right as int, (n - k) as nat);
                assert(a3[left as int] == a2[left as int]);
                assert(a3[right as int] == a2[right as int]);
                if let Some(x) = l_r {
                    assert(a3[x as int] == a2[x as int]);
                }
                if let Some(x) = r_l {
                    assert(a3[x as int] == a2[x as int]);
                }
            }
            let s = Split {
                n,
                iter: 0,
                kind: SplitKind::Phase3 { k, left: Some(left), right: Some(right), mid: Some(mid) },
            };
            proof {
                let b = a3.push(s);
                assert(b[left as int] == a3[left as int]);
                assert(b[right as int] == a3[right as int]);
                assert(b[mid as int] == a3[mid as int]);
                if let Some(x) = l_r {
                    assert(b[x as int] == a3[x as int]);
                }
                if let Some(x) = r_l {
                    assert(b[x as int] == a3[x as int]);
                }
                assert(node_wf(b, a3.len() as int));
            }
            let r = Split::push_node(arena, s);
            proof {
                lemma_p3_spine_prefix(a3, arena.nodes@, left as int, k as nat);
                lemma_p3_spine_prefix(a3, arena.nodes@, right as int, (n - k) as nat);
                lemma_p3_from_children_prefix(a3, arena.nodes@, mid as int, l_r, r_l);
                assert(arena.nodes@[left as int] == a3[left as int]);
                assert(arena.nodes@[right as int] == a3[right as int]);
                assert(arena.nodes@[r as int] == s);
            }
            r
        } else {
            let s = Split {
                n,
                iter: 0,
                kind: SplitKind::Phase3 { k: n / 2, left: None, right: None, mid: None },
            };
            proof {
                assert(node_wf(arena.nodes@.push(s), arena.nodes@.len() as int));
            }
            let r = Split::push_node(arena, s);
            proof {
                assert(arena.nodes@[r as int] == s);
            }
            r
        }
    }

    /// Phase-3 node whose left and right children are `l` and `r` (an absent
    /// child counts as size 1); its `mid` child is built from the inner
    /// grandchildren.
    fn new_phase3_from_children(arena: &mut SplitArena, l: Option<SplitRc>, r: Option<SplitRc>) -> (res: SplitRc)
        requires
            old(arena).wf(),
            l matches Some(x) ==> x < old(arena).nodes@.len() && is_phase3(old(arena).nodes@[x as int].kind),
            r matches Some(x) ==> x < old(arena).nodes@.len() && is_phase3(old(arena).nodes@[x as int].kind),
            opt_n(old(arena).nodes@, l) + opt_n(old(arena).nodes@, r) <= usize::MAX,
        ensures
            final(arena).wf(),
            grows(old(arena).nodes@, final(arena).nodes@),
            res == final(arena).nodes@.len() - 1,
            final(arena).nodes@[res as int].n == opt_n(old(arena).nodes@, l) + opt_n(old(arena).nodes@, r),
            final(arena).nodes@[res as int].kind matches SplitKind::Phase3 { k, left, right, mid } && {
                &&& k == opt_n(old(arena).nodes@, l)
                &&& left == l
                &&& right == r
                &&& (mid is Some) == (final(arena).nodes@[res as int].n == 3 || (
                    p3_right(old(arena).nodes@[l.unwrap() as int].kind) is Some && p3_left(
                    old(arena).nodes@[r.unwrap() as int].kind) is Some && l is Some && r is Some))
                &&& mid matches Some(m) ==> final(arena).nodes@[m as int].kind matches SplitKind::Phase3 {
                    left: ml,
                    right: mr,
                    ..
                } && if final(arena).nodes@[res as int].n != 3 {
                    ml == opt_p3_right(old(arena).nodes@, l) && mr == opt_p3_left(old(arena).nodes@, r)
                } else if k == 2 {
                    ml == opt_p3_right(old(arena).nodes@, l) && mr == r
                } else {
                    ml == l && mr == opt_p3_left(old(arena).nodes@, r)
                }
            },
            p3_from_children(final(arena).nodes@, res as int, l, r),
        decreases opt_idx(l) + opt_idx(r),
    {
        let ghost a0 = arena.nodes@;
        let l_n = match l {
            Some(x) => arena.nodes[x].n,
            None => 1,
        };
        let r_n = match r {
            Some(x) => arena.nodes[x].n,
            None => 1,
        };
        let k = l_n;
        let n = k + r_n;
        proof {
            if let Some(x) = l {
                assert(node_wf(a0, x as int));
            }
            if let Some(x) = r {
                assert(node_wf(a0, x as int));
            }
        }
        let l_r = match l {
            Some(x) => match arena.nodes[x].kind {
                SplitKind::Phase3 { right, .. } => right,
                SplitKind::Phase2 { .. } => None,
            },
            None => None,
        };
        let r_l = match r {
            Some(x) => match arena.nodes[x].kind {
                SplitKind::Phase3 { left, .. } => left,
                SplitKind::Phase2 { .. } => None,
            },
            None => None,
        };
        let mid = if n == 3 {
            if l_n == 2 {
                Some(Split::new_phase3_from_children(arena, l_r, r))
            } else {
                Some(Split::new_phase3_from_children(arena, l, r_l))
            }
        } else {
            if l_r.is_some() && r_l.is_some() {
                Some(Split::new_phase3_from_children(arena, l_r, r_l))
            } else {
                None
            }
        };
        let ghost a1 = arena.nodes@;
        proof {
            if let Some(x) = l {
                assert(a1[x as int] == a0[x as int]);
            }
            if let Some(x) = r {
                assert(a1[x as int] == a0[x as int]);
            }
            if let Some(x) = l_r {
                assert(a1[x as int] == a0[x as int]);
            }
            if let Some(x) = r_l {
                assert(a1[x as int] == a0[x as int]);
            }
        }
        let s = Split { n, iter: 0, kind: SplitKind::Phase3 { k, left: l, right: r, mid } };
        proof {
            let b = a1.push(s);
            if let Some(x) = l {
                assert(b[x as int] == a1[x as int]);
            }
            if let Some(x) = r {
                assert(b[x as int] == a1[x as int]);
            }
            if let Some(x) = l_r {
                assert(b[x as int] == a1[x as int]);
            }
            if let Some(x) = r_l {
                assert(b[x as int] == a1[x as int]);
            }
            if let Some(x) = mid {
                assert(b[x as int] == a1[x as int]);
            }
            assert(node_wf(b, a1.len() as int));
        }
        let res = Split::push_node(arena, s);
        proof {
            let b = arena.nodes@;
            assert(b[res as int] == s);
            if let Some(x) = l {
                assert(b[x as int] == a0[x as int]);
            }
            if let Some(x) = r {
                assert(b[x as int] == a0[x as int]);
            }
            assert(mid_children(b, l, r) == mid_children(a0, l, r));
            if let Some(m) = mid {
                let ml = mid_children(a0, l, r).0;
                let mr = mid_children(a0, l, r).1;
                assert(p3_from_children(a1, m as int, ml, mr));
                lemma_p3_from_children_prefix(a1, b, m as int, ml, mr);
            }
        }
        res
    }
}

/// Pivot of a Phase-2 node of size `n >= 2`.
fn next_smaller(n: usize) -> (r: usize)
    requires
        n >= 2,
    ensures
        r == spec_next_smaller(n as int),
{
    if n == 3 {
        2
    } else {
        n / 2
    }
}

} // verus!
