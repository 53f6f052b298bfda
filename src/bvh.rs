//! A bounding volume hierarchy over scene primitives, stored as an arena of
//! nodes addressed by index.
//!
//! Primitives are known here by their position in the scene list and, for
//! each axis, by an order key of the minimum of their bounding box on that
//! axis: keys compare as the box minima do. Construction sorts the primitives
//! of a range by the key of one axis, which a policy of the caller's picks at
//! each split (the longest axis of the range's box, or one at random), and
//! halves the range at its midpoint.

use crate::hittable::{has_hit_in, key_of_hit, lemma_nearest_unique, nearest_result, prim_model, scene_order};
use crate::random::random_below;
use crate::vec3::Dimension;
use vstd::prelude::*;
use vstd::seq_lib::*;

verus! {

/// One child of a node: a primitive of the scene, or another node of the arena.
#[derive(Copy, Clone, Debug, PartialEq, Eq, Structural)]
pub enum BvhChild {
    /// The primitive at this position of the scene list.
    Primitive(usize),
    /// The node at this position of the arena.
    Node(usize),
}

/// A node of the hierarchy: exactly two children. A node over a single
/// primitive holds it as both children.
#[derive(Copy, Clone, Debug, PartialEq, Eq, Structural)]
pub struct BVHNode {
    /// The left child.
    pub left: BvhChild,
    /// The right child.
    pub right: BvhChild,
}

/// The order key of primitive `p` on axis `a`.
pub open spec fn key_of(keys: Seq<[i32; 3]>, p: usize, a: int) -> i32 {
    keys[p as int]@[a]
}

/// A child refers to a primitive of the scene, or to a node stored before `i`.
pub open spec fn child_ok(c: BvhChild, i: int, n_prims: nat) -> bool {
    match c {
        BvhChild::Primitive(p) => p < n_prims,
        BvhChild::Node(j) => j < i,
    }
}

/// Every node refers to primitives of the scene and to earlier nodes only.
pub open spec fn nodes_wf(nodes: Seq<BVHNode>, n_prims: nat) -> bool {
    forall|i: int|
        #![trigger nodes[i]]
        0 <= i < nodes.len() ==> child_ok(nodes[i].left, i, n_prims) && child_ok(
            nodes[i].right,
            i,
            n_prims,
        )
}

/// Every node refers to earlier nodes only.
pub open spec fn nodes_linked(nodes: Seq<BVHNode>) -> bool {
    forall|i: int|
        #![trigger nodes[i]]
        0 <= i < nodes.len() ==> (nodes[i].left matches BvhChild::Node(j) ==> j < i) && (
        nodes[i].right matches BvhChild::Node(j) ==> j < i)
}

/// The primitives under a child of a node.
pub open spec fn child_leaves(nodes: Seq<BVHNode>, c: BvhChild) -> Seq<usize> {
    match c {
        BvhChild::Primitive(p) => seq![p],
        BvhChild::Node(j) => node_leaves(nodes, j as int),
    }
}

/// The box test `boxf` is faithful to the hit model `hits` over the nodes of
/// `nodes`: it rejects a node only when no primitive under it is met inside
/// the window, and otherwise narrows the window to one that still holds every
/// such hit.
pub open spec fn box_model<FB: Fn(usize, i32, i32) -> Option<(i32, i32)>>(
    boxf: FB,
    nodes: Seq<BVHNode>,
    hits: spec_fn(usize) -> Set<int>,
) -> bool {
    forall|i: usize, lo: i32, hi: i32, r: Option<(i32, i32)>|
        #[trigger] boxf.ensures((i, lo, hi), r) ==> match r {
            None => forall|u: int|
                !has_hit_in(hits, node_leaves(nodes, i as int), lo as int, hi as int, u),
            Some((blo, bhi)) => lo <= blo && bhi <= hi && forall|u: int|
                has_hit_in(hits, node_leaves(nodes, i as int), lo as int, hi as int, u) ==> blo
                    < u < bhi,
        }
}

/// A primitive list split in two is met where one of its parts is met.
proof fn lemma_hit_concat(
    hits: spec_fn(usize) -> Set<int>,
    a: Seq<usize>,
    b: Seq<usize>,
    lo: int,
    hi: int,
    u: int,
)
    ensures
        has_hit_in(hits, a + b, lo, hi, u) <==> (has_hit_in(hits, a, lo, hi, u) || has_hit_in(
            hits,
            b,
            lo,
            hi,
            u,
        )),
{
    let ab = a + b;
    if has_hit_in(hits, ab, lo, hi, u) {
        let k = choose|k: int| 0 <= k < ab.len() && #[trigger] hits(ab[k]).contains(u);
        if k < a.len() {
            assert(ab[k] == a[k]);
        } else {
            assert(ab[k] == b[k - a.len()]);
        }
    }
    if has_hit_in(hits, a, lo, hi, u) {
        let k = choose|k: int| 0 <= k < a.len() && #[trigger] hits(a[k]).contains(u);
        assert(ab[k] == a[k]);
    }
    if has_hit_in(hits, b, lo, hi, u) {
        let k = choose|k: int| 0 <= k < b.len() && #[trigger] hits(b[k]).contains(u);
        assert(ab[k + a.len()] == b[k]);
    }
}

/// The primitives under node `i`, left to right; a node that holds one
/// primitive as both children counts it once.
pub open spec fn node_leaves(nodes: Seq<BVHNode>, i: int) -> Seq<usize>
    decreases i,
{
    if 0 <= i < nodes.len() {
        let n = nodes[i];
        let l = match n.left {
            BvhChild::Primitive(p) => seq![p],
            BvhChild::Node(j) => if j < i {
                node_leaves(nodes, j as int)
            } else {
                seq![]
            },
        };
        let r = match n.right {
            BvhChild::Primitive(p) => seq![p],
            BvhChild::Node(j) => if j < i {
                node_leaves(nodes, j as int)
            } else {
                seq![]
            },
        };
        if n.left == n.right {
            l
        } else {
            l + r
        }
    } else {
        seq![]
    }
}

/// Every primitive of `xs` precedes every primitive of `ys` on axis `a`.
pub open spec fn all_before(keys: Seq<[i32; 3]>, xs: Seq<usize>, ys: Seq<usize>, a: int) -> bool {
    forall|x: int, y: int|
        0 <= x < xs.len() && 0 <= y < ys.len() ==> key_of(keys, xs[x], a) <= key_of(keys, ys[y], a)
}

/// A node with two subtrees splits its primitives along one of the axes
/// that `axes` admits: all those on the left precede all those on the right.
pub open spec fn split_ordered(
    nodes: Seq<BVHNode>,
    keys: Seq<[i32; 3]>,
    axes: spec_fn(int) -> bool,
    i: int,
) -> bool {
    (nodes[i].left is Node && nodes[i].right is Node) ==> exists|a: int|
        0 <= a < 3 && axes(a) && #[trigger] all_before(
            keys,
            node_leaves(nodes, nodes[i].left->Node_0 as int),
            node_leaves(nodes, nodes[i].right->Node_0 as int),
            a,
        )
}

/// Every node of the arena splits its primitives along an axis that `axes` admits.
pub open spec fn all_split_ordered(
    nodes: Seq<BVHNode>,
    keys: Seq<[i32; 3]>,
    axes: spec_fn(int) -> bool,
) -> bool {
    forall|i: int| 0 <= i < nodes.len() ==> #[trigger] split_ordered(nodes, keys, axes, i)
}

/// Every axis.
pub open spec fn any_axis() -> spec_fn(int) -> bool {
    |a: int| true
}

/// The axes that the policy `split_axis` returns for some range.
pub open spec fn policy_axes<FA: Fn(&Vec<usize>, usize, usize) -> Dimension>(
    split_axis: FA,
) -> spec_fn(int) -> bool {
    |a: int|
        exists|o: &Vec<usize>, lo: usize, hi: usize, d: Dimension|
            #[trigger] split_axis.ensures((o, lo, hi), d) && d.spec_index() == a
}

/// Node `i` is shaped as construction leaves it: a node over one or two
/// primitives holds them directly, and a node over more holds two subtrees,
/// the left one over half of its primitives, rounded down.
pub open spec fn split_at_midpoint(nodes: Seq<BVHNode>, i: int) -> bool {
    let k = node_leaves(nodes, i).len();
    match (nodes[i].left, nodes[i].right) {
        (BvhChild::Primitive(_), BvhChild::Primitive(_)) => true,
        (BvhChild::Node(l), BvhChild::Node(_)) => k > 2 && node_leaves(nodes, l as int).len() == k
            / 2,
        _ => false,
    }
}

/// Every node of the arena is shaped as construction leaves it.
pub open spec fn all_split_at_midpoint(nodes: Seq<BVHNode>) -> bool {
    forall|i: int| 0 <= i < nodes.len() ==> #[trigger] split_at_midpoint(nodes, i)
}

/// `s` is sorted by the keys of axis `a` between `lo` and `hi`.
pub open spec fn sorted_by_key(s: Seq<usize>, keys: Seq<[i32; 3]>, a: int, lo: int, hi: int) -> bool {
    forall|x: int, y: int|
        lo <= x < y < hi ==> key_of(keys, s[x], a) <= key_of(keys, s[y], a)
}

/// All entries of `s` name primitives of a scene of `n` primitives.
pub open spec fn entries_below(s: Seq<usize>, n: nat) -> bool {
    forall|k: int| 0 <= k < s.len() ==> s[k] < n
}

/// The nearest hit of a node from those of its two children: the right child
/// is searched only up to the left child's hit, and its hit, if any, wins.
proof fn lemma_combine_children(
    hits: spec_fn(usize) -> Set<int>,
    l: Seq<usize>,
    r: Seq<usize>,
    lo: int,
    hi: int,
    a: Option<int>,
    b: Option<int>,
)
    requires
        nearest_result(hits, l, lo, hi, a),
        nearest_result(
            hits,
            r,
            lo,
            match a {
                Some(t) => t,
                None => hi,
            },
            b,
        ),
    ensures
        nearest_result(
            hits,
            l + r,
            lo,
            hi,
            match b {
                Some(t) => Some(t),
                None => a,
            },
        ),
        l == r ==> nearest_result(
            hits,
            l,
            lo,
            hi,
            match b {
                Some(t) => Some(t),
                None => a,
            },
        ),
{
    let t1 = match a {
        Some(t) => t,
        None => hi,
    };
    assert forall|u: int| #[trigger] has_hit_in(hits, l + r, lo, hi, u) <==> (has_hit_in(
        hits,
        l,
        lo,
        hi,
        u,
    ) || has_hit_in(hits, r, lo, hi, u)) by {
        lemma_hit_concat(hits, l, r, lo, hi, u);
    }
    // A hit of the right part below `t1` is a hit of the right part in the narrowed window.
    assert forall|u: int| has_hit_in(hits, r, lo, hi, u) && u < t1 implies has_hit_in(
        hits,
        r,
        lo,
        t1,
        u,
    ) by {}
    assert forall|u: int| has_hit_in(hits, r, lo, t1, u) implies has_hit_in(hits, r, lo, hi, u) by {
        if a is Some {
            assert(has_hit_in(hits, l, lo, hi, t1));
        }
    }
    if l == r {
        if a is Some {
            assert(has_hit_in(hits, l, lo, hi, t1));
            assert(b is None) by {
                match b {
                    Some(tb) => {
                        assert(has_hit_in(hits, r, lo, t1, tb));
                        assert(has_hit_in(hits, l, lo, hi, tb));
                    },
                    None => {},
                }
            }
        } else {
            assert(b is None) by {
                match b {
                    Some(tb) => {
                        assert(has_hit_in(hits, r, lo, t1, tb));
                    },
                    None => {},
                }
            }
        }
    }
    match b {
        Some(tb) => {
            assert(has_hit_in(hits, r, lo, hi, tb));
            assert forall|u: int| has_hit_in(hits, l + r, lo, hi, u) implies tb <= u by {
                if has_hit_in(hits, l, lo, hi, u) {
                    assert(t1 <= u);
                } else {
                    if u < t1 {
                        assert(has_hit_in(hits, r, lo, t1, u));
                    }
                }
            }
        },
        None => {
            match a {
                Some(ta) => {
                    assert forall|u: int| has_hit_in(hits, l + r, lo, hi, u) implies ta <= u by {
                        if !has_hit_in(hits, l, lo, hi, u) && u < ta {
                            assert(has_hit_in(hits, r, lo, t1, u));
                        }
                    }
                },
                None => {
                    assert forall|u: int| !has_hit_in(hits, l + r, lo, hi, u) by {
                        if has_hit_in(hits, r, lo, hi, u) {
                            assert(has_hit_in(hits, r, lo, t1, u));
                        }
                    }
                },
            }
        },
    }
}

/// A window that holds every hit of a list inside a wider window gives the
/// same nearest hit.
proof fn lemma_widen_window(
    hits: spec_fn(usize) -> Set<int>,
    s: Seq<usize>,
    lo: int,
    hi: int,
    blo: int,
    bhi: int,
    x: Option<int>,
)
    requires
        lo <= blo,
        bhi <= hi,
        forall|u: int| has_hit_in(hits, s, lo, hi, u) ==> blo < u < bhi,
        nearest_result(hits, s, blo, bhi, x),
    ensures
        nearest_result(hits, s, lo, hi, x),
{
    assert forall|u: int| has_hit_in(hits, s, lo, hi, u) implies has_hit_in(hits, s, blo, bhi, u) by {}
    assert forall|u: int| has_hit_in(hits, s, blo, bhi, u) implies has_hit_in(hits, s, lo, hi, u) by {}
}

/// A split along an admitted axis is a split along some axis.
proof fn lemma_any_axis(nodes: Seq<BVHNode>, keys: Seq<[i32; 3]>, axes: spec_fn(int) -> bool)
    requires
        all_split_ordered(nodes, keys, axes),
    ensures
        all_split_ordered(nodes, keys, any_axis()),
{
    assert forall|i: int| 0 <= i < nodes.len() implies #[trigger] split_ordered(
        nodes,
        keys,
        any_axis(),
        i,
    ) by {
        assert(split_ordered(nodes, keys, axes, i));
    }
}

/// Swapping two entries keeps the multiset of a sequence.
proof fn lemma_swap_multiset(s: Seq<usize>, i: int, j: int)
    requires
        0 <= i < s.len(),
        0 <= j < s.len(),
    ensures
        s.update(i, s[j]).update(j, s[i]).to_multiset() =~= s.to_multiset(),
{
    broadcast use vstd::seq_lib::group_to_multiset_ensures;

    let t = s.update(i, s[j]);
    assert(t[j] == s[j]) by {
        if i != j {
        }
    }
}

/// Swapping two entries inside `[lo, hi)` keeps the multiset of that range.
proof fn lemma_swap_range_multiset(s: Seq<usize>, lo: int, hi: int, i: int, j: int)
    requires
        0 <= lo <= i < hi <= s.len(),
        lo <= j < hi,
    ensures
        s.update(i, s[j]).update(j, s[i]).subrange(lo, hi).to_multiset() =~= s.subrange(
            lo,
            hi,
        ).to_multiset(),
{
    let sub = s.subrange(lo, hi);
    lemma_swap_multiset(sub, i - lo, j - lo);
    assert(s.update(i, s[j]).update(j, s[i]).subrange(lo, hi) =~= sub.update(i - lo, sub[j - lo]).update(
        j - lo,
        sub[i - lo],
    ));
}

/// Swaps entries `i` and `j` of `v`.
fn swap_entries(v: &mut Vec<usize>, i: usize, j: usize)
    requires
        i < old(v).len(),
        j < old(v).len(),
    ensures
        final(v)@ == old(v)@.update(i as int, old(v)@[j as int]).update(j as int, old(v)@[i as int]),
{
    let a = v[i];
    let b = v[j];
    v.set(i, b);
    v.set(j, a);
}

/// Sorts `order[lo..hi]` by the keys of `axis`, leaving the rest of `order`
/// as it is.
fn sort_range(order: &mut Vec<usize>, keys: &Vec<[i32; 3]>, axis: usize, lo: usize, hi: usize)
    requires
        lo <= hi <= old(order).len(),
        axis < 3,
        entries_below(old(order)@, keys@.len()),
    ensures
        final(order)@.len() == old(order)@.len(),
        entries_below(final(order)@, keys@.len()),
        forall|k: int|
            0 <= k < final(order)@.len() && !(lo <= k < hi) ==> final(order)@[k] == old(order)@[k],
        final(order)@.subrange(lo as int, hi as int).to_multiset() =~= old(order)@.subrange(
            lo as int,
            hi as int,
        ).to_multiset(),
        sorted_by_key(final(order)@, keys@, axis as int, lo as int, hi as int),
{
    if hi - lo < 2 {
        return;
    }
    let ghost k = keys@;
    let ghost a = axis as int;
    let mut i: usize = lo + 1;
    while i < hi
        invariant
            lo < i <= hi,
            hi <= order@.len(),
            axis < 3,
            k == keys@,
            a == axis as int,
            order@.len() == old(order)@.len(),
            entries_below(order@, keys@.len()),
            forall|m: int| 0 <= m < order@.len() && !(lo <= m < hi) ==> order@[m] == old(order)@[m],
            order@.subrange(lo as int, hi as int).to_multiset() =~= old(order)@.subrange(
                lo as int,
                hi as int,
            ).to_multiset(),
            sorted_by_key(order@, k, a, lo as int, i as int),
        decreases hi - i,
    {
        let mut j: usize = i;
        while j > lo && keys[order[j - 1]][axis] > keys[order[j]][axis]
            invariant
                lo <= j <= i < hi,
                hi <= order@.len(),
                axis < 3,
                k == keys@,
                a == axis as int,
                order@.len() == old(order)@.len(),
                entries_below(order@, keys@.len()),
                forall|m: int|
                    0 <= m < order@.len() && !(lo <= m < hi) ==> order@[m] == old(order)@[m],
                order@.subrange(lo as int, hi as int).to_multiset() =~= old(order)@.subrange(
                    lo as int,
                    hi as int,
                ).to_multiset(),
                forall|x: int, y: int|
                    lo <= x < y <= i && x != j && y != j ==> key_of(k, order@[x], a) <= key_of(
                        k,
                        order@[y],
                        a,
                    ),
                forall|y: int|
                    j < y <= i ==> key_of(k, order@[j as int], a) <= key_of(k, order@[y], a),
            decreases j,
        {
            proof {
                lemma_swap_range_multiset(order@, lo as int, hi as int, j - 1, j as int);
            }
            swap_entries(order, j - 1, j);
            j = j - 1;
        }
        assert(sorted_by_key(order@, k, a, lo as int, i + 1)) by {
            assert forall|x: int, y: int| lo <= x < y < i + 1 implies key_of(
                k,
                order@[x],
                a,
            ) <= key_of(k, order@[y], a) by {
                if y == j && x < j - 1 {
                    assert(key_of(k, order@[x], a) <= key_of(k, order@[j - 1], a));
                }
            }
        }
        i = i + 1;
    }
}

/// Nodes that a longer arena keeps as they were have the same primitives under them.
proof fn lemma_leaves_stable(nodes: Seq<BVHNode>, ext: Seq<BVHNode>, i: int)
    requires
        nodes.len() <= ext.len(),
        ext.subrange(0, nodes.len() as int) == nodes,
        0 <= i < nodes.len(),
    ensures
        node_leaves(ext, i) == node_leaves(nodes, i),
    decreases i,
{
    assert(ext[i] == nodes[i]);
    match nodes[i].left {
        BvhChild::Node(j) => if j < i {
            lemma_leaves_stable(nodes, ext, j as int);
        },
        _ => {},
    }
    match nodes[i].right {
        BvhChild::Node(j) => if j < i {
            lemma_leaves_stable(nodes, ext, j as int);
        },
        _ => {},
    }
}

/// Appending nodes keeps the arena well formed and split along axes where
/// the new nodes are.
proof fn lemma_extend_keeps(
    nodes: Seq<BVHNode>,
    ext: Seq<BVHNode>,
    keys: Seq<[i32; 3]>,
    axes: spec_fn(int) -> bool,
)
    requires
        nodes.len() <= ext.len(),
        ext.subrange(0, nodes.len() as int) == nodes,
        nodes_wf(nodes, keys.len()),
    ensures
        forall|i: int|
            0 <= i < nodes.len() ==> (split_ordered(ext, keys, axes, i) <==> split_ordered(nodes, keys, axes, i)),
        forall|i: int|
            0 <= i < nodes.len() ==> (split_at_midpoint(ext, i) <==> split_at_midpoint(nodes, i)),
{
    assert forall|i: int| 0 <= i < nodes.len() implies (split_ordered(ext, keys, axes, i) <==> split_ordered(
        nodes,
        keys,
        axes,
        i,
    )) by {
        assert(ext[i] == nodes[i]);
        assert(child_ok(nodes[i].left, i, keys.len()));
        assert(child_ok(nodes[i].right, i, keys.len()));
        match (nodes[i].left, nodes[i].right) {
            (BvhChild::Node(l), BvhChild::Node(r)) => {
                lemma_leaves_stable(nodes, ext, l as int);
                lemma_leaves_stable(nodes, ext, r as int);
            },
            _ => {},
        }
    }
    assert forall|i: int| 0 <= i < nodes.len() implies (split_at_midpoint(ext, i) <==> split_at_midpoint(
        nodes,
        i,
    )) by {
        assert(ext[i] == nodes[i]);
        assert(child_ok(nodes[i].left, i, keys.len()));
        lemma_leaves_stable(nodes, ext, i);
        match nodes[i].left {
            BvhChild::Node(l) => {
                lemma_leaves_stable(nodes, ext, l as int);
            },
            _ => {},
        }
    }
}

/// After sorting a range on an axis and permuting each half of it within
/// itself, every primitive of the left half precedes every one of the right.
proof fn lemma_halves_ordered(
    keys: Seq<[i32; 3]>,
    sorted: Seq<usize>,
    lefts: Seq<usize>,
    rights: Seq<usize>,
    lo: int,
    mid: int,
    hi: int,
    a: int,
)
    requires
        0 <= lo <= mid <= hi <= sorted.len(),
        sorted_by_key(sorted, keys, a, lo, hi),
        lefts.to_multiset() == sorted.subrange(lo, mid).to_multiset(),
        rights.to_multiset() == sorted.subrange(mid, hi).to_multiset(),
    ensures
        all_before(keys, lefts, rights, a),
{
    broadcast use vstd::seq_lib::group_to_multiset_ensures;

    assert forall|x: int, y: int| 0 <= x < lefts.len() && 0 <= y < rights.len() implies key_of(
        keys,
        lefts[x],
        a,
    ) <= key_of(keys, rights[y], a) by {
        let sl = sorted.subrange(lo, mid);
        let sr = sorted.subrange(mid, hi);
        assert(lefts.contains(lefts[x]));
        assert(rights.contains(rights[y]));
        assert(sl.to_multiset().count(lefts[x]) > 0);
        assert(sr.to_multiset().count(rights[y]) > 0);
        let xi = choose|xi: int| 0 <= xi < sl.len() && sl[xi] == lefts[x];
        let yi = choose|yi: int| 0 <= yi < sr.len() && sr[yi] == rights[y];
        assert(sorted[lo + xi] == lefts[x]);
        assert(sorted[mid + yi] == rights[y]);
    }
}

/// Two sequences with the same multiset: if one has no duplicates, neither
/// has the other.
proof fn lemma_same_multiset_no_duplicates(a: Seq<usize>, b: Seq<usize>)
    requires
        a.to_multiset() == b.to_multiset(),
        a.no_duplicates(),
    ensures
        b.no_duplicates(),
{
    a.lemma_multiset_has_no_duplicates();
    b.lemma_multiset_has_no_duplicates_conv();
}

/// Joining two subtrees built over the halves of a sorted range under a new
/// node keeps the arena well formed and shaped, and the new node holds the
/// whole range.
proof fn lemma_join(
    keys: Seq<[i32; 3]>,
    nodes1: Seq<BVHNode>,
    nodes2: Seq<BVHNode>,
    ext: Seq<BVHNode>,
    order2: Seq<usize>,
    sorted: Seq<usize>,
    lo: int,
    mid: int,
    hi: int,
    l: usize,
    r: usize,
    a: int,
    axes: spec_fn(int) -> bool,
)
    requires
        axes(a),
        0 <= lo < mid < hi <= order2.len(),
        hi - lo > 2,
        mid - lo == (hi - lo) / 2,
        0 <= a < 3,
        nodes1.len() <= nodes2.len(),
        nodes2.subrange(0, nodes1.len() as int) == nodes1,
        ext == nodes2.push(BVHNode { left: BvhChild::Node(l), right: BvhChild::Node(r) }),
        l < nodes1.len() <= r < nodes2.len(),
        nodes_wf(nodes1, keys.len()),
        nodes_wf(nodes2, keys.len()),
        all_split_ordered(nodes2, keys, axes),
        all_split_at_midpoint(nodes2),
        node_leaves(nodes1, l as int) == order2.subrange(lo, mid),
        node_leaves(nodes2, r as int) == order2.subrange(mid, hi),
        sorted.len() == order2.len(),
        sorted_by_key(sorted, keys, a, lo, hi),
        order2.subrange(lo, mid).to_multiset() == sorted.subrange(lo, mid).to_multiset(),
        order2.subrange(mid, hi).to_multiset() == sorted.subrange(mid, hi).to_multiset(),
    ensures
        ext.subrange(0, nodes2.len() as int) == nodes2,
        nodes_wf(ext, keys.len()),
        all_split_ordered(ext, keys, axes),
        all_split_at_midpoint(ext),
        node_leaves(ext, nodes2.len() as int) == order2.subrange(lo, hi),
        order2.subrange(lo, hi).to_multiset() =~= sorted.subrange(lo, hi).to_multiset(),
{
    let root = nodes2.len() as int;
    let lefts = order2.subrange(lo, mid);
    let rights = order2.subrange(mid, hi);
    assert(ext.subrange(0, nodes2.len() as int) =~= nodes2);
    lemma_join_leaves(nodes1, nodes2, ext, l, r, lefts, rights);
    assert forall|i: int| 0 <= i < ext.len() implies child_ok(ext[i].left, i, keys.len())
        && child_ok(ext[i].right, i, keys.len()) by {
        if i < root {
            assert(ext[i] == nodes2[i]);
        }
    }
    lemma_join_split(keys, nodes2, ext, sorted, lefts, rights, lo, mid, hi, l, r, a, axes);
    lemma_join_multiset(order2, sorted, lo, mid, hi);
}

/// The new node over two subtrees holds the primitives of both, left first.
proof fn lemma_join_leaves(
    nodes1: Seq<BVHNode>,
    nodes2: Seq<BVHNode>,
    ext: Seq<BVHNode>,
    l: usize,
    r: usize,
    lefts: Seq<usize>,
    rights: Seq<usize>,
)
    requires
        nodes1.len() <= nodes2.len(),
        nodes2.subrange(0, nodes1.len() as int) == nodes1,
        ext == nodes2.push(BVHNode { left: BvhChild::Node(l), right: BvhChild::Node(r) }),
        l < nodes1.len() <= r < nodes2.len(),
        node_leaves(nodes1, l as int) == lefts,
        node_leaves(nodes2, r as int) == rights,
    ensures
        node_leaves(ext, l as int) == lefts,
        node_leaves(ext, r as int) == rights,
        node_leaves(ext, nodes2.len() as int) == lefts + rights,
{
    assert(ext.subrange(0, nodes2.len() as int) =~= nodes2);
    lemma_leaves_stable(nodes1, nodes2, l as int);
    lemma_leaves_stable(nodes2, ext, l as int);
    lemma_leaves_stable(nodes2, ext, r as int);
    assert(ext[nodes2.len() as int].left != ext[nodes2.len() as int].right);
}

/// The new node splits its primitives along the sorting axis and at the
/// midpoint, and the older nodes keep doing so.
proof fn lemma_join_split(
    keys: Seq<[i32; 3]>,
    nodes2: Seq<BVHNode>,
    ext: Seq<BVHNode>,
    sorted: Seq<usize>,
    lefts: Seq<usize>,
    rights: Seq<usize>,
    lo: int,
    mid: int,
    hi: int,
    l: usize,
    r: usize,
    a: int,
    axes: spec_fn(int) -> bool,
)
    requires
        axes(a),
        0 <= lo < mid < hi <= sorted.len(),
        hi - lo > 2,
        mid - lo == (hi - lo) / 2,
        0 <= a < 3,
        ext.subrange(0, nodes2.len() as int) == nodes2,
        ext == nodes2.push(BVHNode { left: BvhChild::Node(l), right: BvhChild::Node(r) }),
        nodes_wf(nodes2, keys.len()),
        all_split_ordered(nodes2, keys, axes),
        all_split_at_midpoint(nodes2),
        lefts.len() == mid - lo,
        rights.len() == hi - mid,
        node_leaves(ext, l as int) == lefts,
        node_leaves(ext, r as int) == rights,
        node_leaves(ext, nodes2.len() as int) == lefts + rights,
        sorted_by_key(sorted, keys, a, lo, hi),
        lefts.to_multiset() == sorted.subrange(lo, mid).to_multiset(),
        rights.to_multiset() == sorted.subrange(mid, hi).to_multiset(),
    ensures
        all_split_ordered(ext, keys, axes),
        all_split_at_midpoint(ext),
{
    let root = nodes2.len() as int;
    lemma_extend_keeps(nodes2, ext, keys, axes);
    lemma_halves_ordered(keys, sorted, lefts, rights, lo, mid, hi, a);
    assert(ext[root].left->Node_0 == l);
    assert(ext[root].right->Node_0 == r);
    assert(split_ordered(ext, keys, axes, root));
    assert(split_at_midpoint(ext, root));
    assert forall|i: int| 0 <= i < ext.len() implies split_ordered(ext, keys, axes, i) by {
        if i < root {
            assert(split_ordered(nodes2, keys, axes, i));
        }
    }
    assert forall|i: int| 0 <= i < ext.len() implies split_at_midpoint(ext, i) by {
        if i < root {
            assert(split_at_midpoint(nodes2, i));
        }
    }
}

/// The two halves of a range together have the multiset of the whole range.
proof fn lemma_join_multiset(order2: Seq<usize>, sorted: Seq<usize>, lo: int, mid: int, hi: int)
    requires
        0 <= lo <= mid <= hi <= order2.len(),
        hi <= sorted.len(),
        order2.subrange(lo, mid).to_multiset() == sorted.subrange(lo, mid).to_multiset(),
        order2.subrange(mid, hi).to_multiset() == sorted.subrange(mid, hi).to_multiset(),
    ensures
        order2.subrange(lo, hi).to_multiset() =~= sorted.subrange(lo, hi).to_multiset(),
{
    assert(order2.subrange(lo, hi) =~= order2.subrange(lo, mid) + order2.subrange(mid, hi));
    assert(sorted.subrange(lo, hi) =~= sorted.subrange(lo, mid) + sorted.subrange(mid, hi));
    lemma_multiset_commutative(order2.subrange(lo, mid), order2.subrange(mid, hi));
    lemma_multiset_commutative(sorted.subrange(lo, mid), sorted.subrange(mid, hi));
}

/// Builds the subtree over `order[lo..hi]`, appending its nodes to `nodes`,
/// and returns the position of its root. The range is permuted in place.
fn build_range<FA: Fn(&Vec<usize>, usize, usize) -> Dimension>(
    nodes: &mut Vec<BVHNode>,
    order: &mut Vec<usize>,
    keys: &Vec<[i32; 3]>,
    split_axis: &FA,
    lo: usize,
    hi: usize,
) -> (r: usize)
    requires
        lo < hi <= old(order).len(),
        forall|o: &Vec<usize>, a: usize, b: usize| #[trigger] split_axis.requires((o, a, b)),
        entries_below(old(order)@, keys@.len()),
        old(order)@.subrange(lo as int, hi as int).no_duplicates(),
        nodes_wf(old(nodes)@, keys@.len()),
        all_split_ordered(old(nodes)@, keys@, policy_axes(*split_axis)),
        all_split_at_midpoint(old(nodes)@),
    ensures
        old(nodes)@.len() <= r,
        r + 1 == final(nodes)@.len(),
        final(nodes)@.subrange(0, old(nodes)@.len() as int) == old(nodes)@,
        nodes_wf(final(nodes)@, keys@.len()),
        all_split_ordered(final(nodes)@, keys@, policy_axes(*split_axis)),
        all_split_at_midpoint(final(nodes)@),
        final(order)@.len() == old(order)@.len(),
        entries_below(final(order)@, keys@.len()),
        forall|k: int|
            0 <= k < final(order)@.len() && !(lo <= k < hi) ==> final(order)@[k] == old(order)@[k],
        final(order)@.subrange(lo as int, hi as int).to_multiset() =~= old(order)@.subrange(
            lo as int,
            hi as int,
        ).to_multiset(),
        node_leaves(final(nodes)@, r as int) == final(order)@.subrange(lo as int, hi as int),
    decreases hi - lo, 1nat,
{
    let ghost nodes0 = nodes@;
    if hi - lo == 1 {
        let p = order[lo];
        let r = nodes.len();
        nodes.push(BVHNode { left: BvhChild::Primitive(p), right: BvhChild::Primitive(p) });
        proof {
            assert(nodes@.subrange(0, nodes0.len() as int) =~= nodes0);
            lemma_extend_keeps(nodes0, nodes@, keys@, policy_axes(*split_axis));
            assert(order@.subrange(lo as int, hi as int) =~= seq![p]);
        }
        r
    } else if hi - lo == 2 {
        let p = order[lo];
        let q = order[lo + 1];
        let r = nodes.len();
        proof {
            assert(order@.subrange(lo as int, hi as int)[0] == p);
            assert(order@.subrange(lo as int, hi as int)[1] == q);
        }
        nodes.push(BVHNode { left: BvhChild::Primitive(p), right: BvhChild::Primitive(q) });
        proof {
            assert(nodes@.subrange(0, nodes0.len() as int) =~= nodes0);
            lemma_extend_keeps(nodes0, nodes@, keys@, policy_axes(*split_axis));
            assert(order@.subrange(lo as int, hi as int) =~= seq![p] + seq![q]);
        }
        r
    } else {
        build_split(nodes, order, keys, split_axis, lo, hi)
    }
}

/// Builds the subtree over a range of more than two primitives: sorts it on
/// the axis that `split_axis` picks for it, builds the two halves and joins
/// them under a new node.
fn build_split<FA: Fn(&Vec<usize>, usize, usize) -> Dimension>(
    nodes: &mut Vec<BVHNode>,
    order: &mut Vec<usize>,
    keys: &Vec<[i32; 3]>,
    split_axis: &FA,
    lo: usize,
    hi: usize,
) -> (r: usize)
    requires
        lo + 2 < hi <= old(order).len(),
        forall|o: &Vec<usize>, a: usize, b: usize| #[trigger] split_axis.requires((o, a, b)),
        entries_below(old(order)@, keys@.len()),
        old(order)@.subrange(lo as int, hi as int).no_duplicates(),
        nodes_wf(old(nodes)@, keys@.len()),
        all_split_ordered(old(nodes)@, keys@, policy_axes(*split_axis)),
        all_split_at_midpoint(old(nodes)@),
    ensures
        old(nodes)@.len() <= r,
        r + 1 == final(nodes)@.len(),
        final(nodes)@.subrange(0, old(nodes)@.len() as int) == old(nodes)@,
        nodes_wf(final(nodes)@, keys@.len()),
        all_split_ordered(final(nodes)@, keys@, policy_axes(*split_axis)),
        all_split_at_midpoint(final(nodes)@),
        final(order)@.len() == old(order)@.len(),
        entries_below(final(order)@, keys@.len()),
        forall|k: int|
            0 <= k < final(order)@.len() && !(lo <= k < hi) ==> final(order)@[k] == old(order)@[k],
        final(order)@.subrange(lo as int, hi as int).to_multiset() =~= old(order)@.subrange(
            lo as int,
            hi as int,
        ).to_multiset(),
        node_leaves(final(nodes)@, r as int) == final(order)@.subrange(lo as int, hi as int),
    decreases hi - lo, 0nat,
{
    let ghost nodes0 = nodes@;
    let ghost order0 = order@;
    let d = split_axis(order, lo, hi);
    let axis = d.index();
    proof {
        assert(policy_axes(*split_axis)(axis as int));
    }
    sort_range(order, keys, axis, lo, hi);
    let ghost sorted = order@;
    let mid = lo + (hi - lo) / 2;
    proof {
        lemma_same_multiset_no_duplicates(
            order0.subrange(lo as int, hi as int),
            sorted.subrange(lo as int, hi as int),
        );
        assert(sorted.subrange(lo as int, mid as int) =~= sorted.subrange(
            lo as int,
            hi as int,
        ).subrange(0, mid - lo));
        assert(sorted.subrange(mid as int, hi as int) =~= sorted.subrange(
            lo as int,
            hi as int,
        ).subrange(mid - lo, hi - lo));
    }
    let l = build_range(nodes, order, keys, split_axis, lo, mid);
    let ghost nodes1 = nodes@;
    let ghost order1 = order@;
    proof {
        assert(order1.subrange(mid as int, hi as int) =~= sorted.subrange(mid as int, hi as int));
    }
    let r = build_range(nodes, order, keys, split_axis, mid, hi);
    let ghost nodes2 = nodes@;
    let ghost order2 = order@;
    let root = nodes.len();
    nodes.push(BVHNode { left: BvhChild::Node(l), right: BvhChild::Node(r) });
    proof {
        assert(nodes2.subrange(0, nodes1.len() as int) =~= nodes1);
        assert(nodes@ == nodes2.push(BVHNode { left: BvhChild::Node(l), right: BvhChild::Node(r) }));
        assert(order2.subrange(lo as int, mid as int) =~= order1.subrange(lo as int, mid as int));
        lemma_join(keys@, nodes1, nodes2, nodes@, order2, sorted, lo as int, mid as int, hi as int, l, r, axis as int, policy_axes(*split_axis));
        assert(nodes@.subrange(0, nodes0.len() as int) =~= nodes0);
        assert(nodes2.subrange(0, nodes0.len() as int) =~= nodes0);
    }
    root
}

/// A bounding volume hierarchy: an arena of nodes whose root is the last one.
#[derive(Debug)]
pub struct Bvh {
    nodes: Vec<BVHNode>,
}

impl View for Bvh {
    type V = Seq<BVHNode>;

    closed spec fn view(&self) -> Seq<BVHNode> {
        self.nodes@
    }
}

impl Bvh {
    /// The position of the root node.
    pub open spec fn spec_root(&self) -> int {
        self@.len() - 1
    }

    /// The primitives of the hierarchy, left to right.
    pub open spec fn leaves(&self) -> Seq<usize> {
        node_leaves(self@, self.spec_root())
    }

    /// The hierarchy is a well-formed tree over a scene of `n` primitives: a
    /// root, children that name primitives of the scene or earlier nodes,
    /// and every primitive of the scene under the root exactly once.
    pub open spec fn wf(&self, n: nat) -> bool {
        &&& self@.len() > 0
        &&& nodes_wf(self@, n)
        &&& self.leaves().to_multiset() == scene_order(n).to_multiset()
    }

    /// Builds the hierarchy over a scene of `keys.len()` primitives, where
    /// `keys[p][a]` is the order key of the box minimum of primitive `p` on
    /// axis `a`. At each split the primitives of the range `order[lo..hi]`
    /// are sorted on the axis `split_axis(order, lo, hi)` and halved; a range
    /// of two primitives becomes one node over both, a range of one a node
    /// that holds it twice.
    pub fn with_split_axis<FA: Fn(&Vec<usize>, usize, usize) -> Dimension>(keys: &Vec<[i32; 3]>, split_axis: &FA) -> (r: Bvh)
        requires
            keys@.len() > 0,
            forall|o: &Vec<usize>, a: usize, b: usize| #[trigger] split_axis.requires((o, a, b)),
        ensures
            r.wf(keys@.len()),
            r.linked(),
            all_split_ordered(r@, keys@, policy_axes(*split_axis)),
            all_split_at_midpoint(r@),
    {
        let n = keys.len();
        let mut order: Vec<usize> = Vec::new();
        let mut i: usize = 0;
        while i < n
            invariant
                i <= n,
                n == keys@.len(),
                order@ == scene_order(i as nat),
            decreases n - i,
        {
            order.push(i);
            i = i + 1;
            proof {
                assert(order@ =~= scene_order(i as nat));
            }
        }
        let ghost order0 = order@;
        proof {
            assert(order0.subrange(0, n as int) =~= order0);
            assert(order0.no_duplicates());
        }
        let mut nodes: Vec<BVHNode> = Vec::new();
        build_range(&mut nodes, &mut order, keys, split_axis, 0, n);
        proof {
            assert(order@.subrange(0, n as int) =~= order@);
        }
        Bvh { nodes }
    }

    /// Builds the hierarchy as [Bvh::with_split_axis] does, splitting each
    /// range on an axis drawn uniformly at random.
    pub fn new(keys: &Vec<[i32; 3]>) -> (r: Bvh)
        requires
            keys@.len() > 0,
        ensures
            r.wf(keys@.len()),
            r.linked(),
            all_split_ordered(r@, keys@, any_axis()),
            all_split_at_midpoint(r@),
    {
        let random_axis = |_order: &Vec<usize>, _lo: usize, _hi: usize| -> Dimension
            { Dimension::from_index(random_below(3)) };
        let r = Bvh::with_split_axis(keys, &random_axis);
        proof {
            lemma_any_axis(r@, keys@, policy_axes(random_axis));
        }
        r
    }

    /// Every node of the hierarchy refers to earlier nodes only.
    pub open spec fn linked(&self) -> bool {
        nodes_linked(self@)
    }

    /// The nearest hit among the primitives under node `i` inside `(lo, hi)`.
    fn hit_node<H, FB: Fn(usize, i32, i32) -> Option<(i32, i32)>, FP: Fn(usize, i32, i32) -> Option<(i32, H)>>(
        &self,
        i: usize,
        boxf: &FB,
        prim: &FP,
        lo: i32,
        hi: i32,
    ) -> (r: Option<(i32, H)>)
        requires
            i < self@.len(),
            nodes_linked(self@),
            forall|j: usize, l: i32, h: i32| #[trigger] boxf.requires((j, l, h)),
            forall|p: usize, l: i32, h: i32| #[trigger] prim.requires((p, l, h)),
        ensures
            forall|hits: spec_fn(usize) -> Set<int>|
                #[trigger] prim_model(*prim, hits) && #[trigger] box_model(*boxf, self@, hits)
                    ==> nearest_result(
                    hits,
                    node_leaves(self@, i as int),
                    lo as int,
                    hi as int,
                    key_of_hit(r),
                ),
            r matches Some(x) ==> exists|p: usize, l: i32, h: i32|
                #[trigger] prim.ensures((p, l, h), Some(x)),
        decreases i,
    {
        let window = boxf(i, lo, hi);
        match window {
            None => None,
            Some((blo, bhi)) => {
                let n = self.nodes[i];
                proof {
                    assert(self@[i as int] == n);
                }
                let hl = match n.left {
                    BvhChild::Primitive(p) => {
                        let found = prim(p, blo, bhi);
                        proof {
                            if found is Some {
                                assert(prim.ensures((p, blo, bhi), Some(found->Some_0)));
                            }
                        }
                        found
                    },
                    BvhChild::Node(j) => self.hit_node(j, boxf, prim, blo, bhi),
                };
                let t1 = match &hl {
                    Some(x) => x.0,
                    None => bhi,
                };
                let hr = match n.right {
                    BvhChild::Primitive(p) => {
                        let found = prim(p, blo, t1);
                        proof {
                            if found is Some {
                                assert(prim.ensures((p, blo, t1), Some(found->Some_0)));
                            }
                        }
                        found
                    },
                    BvhChild::Node(j) => self.hit_node(j, boxf, prim, blo, t1),
                };
                let ghost a = key_of_hit(hl);
                let ghost b = key_of_hit(hr);
                let r = match hr {
                    Some(x) => Some(x),
                    None => hl,
                };
                proof {
                    assert forall|hits: spec_fn(usize) -> Set<int>|
                        #[trigger] prim_model(*prim, hits) && #[trigger] box_model(
                            *boxf,
                            self@,
                            hits,
                        ) implies nearest_result(
                        hits,
                        node_leaves(self@, i as int),
                        lo as int,
                        hi as int,
                        key_of_hit(r),
                    ) by {
                        let ls = child_leaves(self@, n.left);
                        let rs = child_leaves(self@, n.right);
                        assert(nearest_result(hits, ls, blo as int, bhi as int, a));
                        assert(nearest_result(hits, rs, blo as int, t1 as int, b));
                        lemma_combine_children(hits, ls, rs, blo as int, bhi as int, a, b);
                        let all = node_leaves(self@, i as int);
                        assert(all == if n.left == n.right {
                            ls
                        } else {
                            ls + rs
                        });
                        assert(key_of_hit(r) == match b {
                            Some(t) => Some(t),
                            None => a,
                        });
                        lemma_widen_window(
                            hits,
                            all,
                            lo as int,
                            hi as int,
                            blo as int,
                            bhi as int,
                            key_of_hit(r),
                        );
                    }
                }
                r
            },
        }
    }

    /// The nearest hit among the primitives of the hierarchy inside the open
    /// window `(lo, hi)`. A node's box test `boxf` is made first; when it
    /// passes, the left child is searched over the narrowed window, then the
    /// right child over that window cut at the left child's hit, whose own hit,
    /// if any, is the nearer. `prim` tests one primitive.
    pub fn hit<H, FB: Fn(usize, i32, i32) -> Option<(i32, i32)>, FP: Fn(usize, i32, i32) -> Option<(i32, H)>>(
        &self,
        boxf: &FB,
        prim: &FP,
        lo: i32,
        hi: i32,
    ) -> (r: Option<(i32, H)>)
        requires
            self@.len() > 0,
            self.linked(),
            forall|j: usize, l: i32, h: i32| #[trigger] boxf.requires((j, l, h)),
            forall|p: usize, l: i32, h: i32| #[trigger] prim.requires((p, l, h)),
        ensures
            forall|hits: spec_fn(usize) -> Set<int>|
                #[trigger] prim_model(*prim, hits) && #[trigger] box_model(*boxf, self@, hits)
                    ==> nearest_result(hits, self.leaves(), lo as int, hi as int, key_of_hit(r)),
            r matches Some(x) ==> exists|p: usize, l: i32, h: i32|
                #[trigger] prim.ensures((p, l, h), Some(x)),
    {
        self.hit_node(self.nodes.len() - 1, boxf, prim, lo, hi)
    }

    /// The nodes of the hierarchy; the root is the last.
    pub fn nodes(&self) -> (r: &Vec<BVHNode>)
        ensures
            r@ == self@,
    {
        &self.nodes
    }

    /// The position of the root node.
    pub fn root(&self) -> (r: usize)
        requires
            self@.len() > 0,
        ensures
            r == self.spec_root(),
    {
        self.nodes.len() - 1
    }
}

/// Nearest-hit equivalence: for every hit model that the hit tests are
/// faithful to and every window, the nearest hit that a hierarchy built over a
/// scene of `n` primitives reports is the one that scanning the scene list
/// primitive by primitive reports.
pub proof fn lemma_bvh_matches_scan(
    bvh: &Bvh,
    n: nat,
    hits: spec_fn(usize) -> Set<int>,
    lo: int,
    hi: int,
    from_bvh: Option<int>,
    from_scan: Option<int>,
)
    requires
        bvh.wf(n),
        nearest_result(hits, bvh.leaves(), lo, hi, from_bvh),
        nearest_result(hits, scene_order(n), lo, hi, from_scan),
    ensures
        from_bvh == from_scan,
{
    broadcast use vstd::seq_lib::group_to_multiset_ensures;

    let a = bvh.leaves();
    let b = scene_order(n);
    assert forall|x: usize| a.to_set().contains(x) <==> b.to_set().contains(x) by {
        assert(a.to_multiset().count(x) == b.to_multiset().count(x));
    }
    assert(a.to_set() =~= b.to_set());
    lemma_nearest_unique(hits, a, b, lo, hi, from_bvh, from_scan);
}

} // verus!
