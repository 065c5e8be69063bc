//! Facts that hold across calls: what one arena makes of another's handles,
//! what removal and reinsertion do to old handles, and what growing the tree
//! upward keeps.

use vstd::prelude::*;
use crate::node::{Node, NodeId, NodeIdError, lemma_without_all_kept};
use crate::tree::{Tree, fresh_handle, inserted_under, post_order, post_order_all, removed_cascading, removed_orphaning, root_set};

verus! {

/// A handle minted by one arena is refused by an arena with another stamp as
/// belonging elsewhere, whatever slot it names; no handle of that arena
/// equals it, even one with the same slot index.
pub proof fn lemma_handle_isolation<T>(a: Tree<T>, b: Tree<T>, h: NodeId)
    requires
        a.stamp() != b.stamp(),
        h.tree_id == a.stamp(),
    ensures
        b.in_bounds(h),
        b.check(h) == Err::<(), NodeIdError>(NodeIdError::InvalidNodeIdForTree),
        !b.is_valid(h),
        forall|g: NodeId| g.tree_id == b.stamp() ==> g != h,
{
}

/// After a node is removed, by either kind of removal, and a new one is
/// inserted, under a parent or as the root, the new handle is valid and
/// gives the new value, while the removed handle differs from it and is
/// refused as stale, even where the new node took over the removed slot.
pub proof fn lemma_slot_reuse<T>(
    t0: Tree<T>,
    t1: Tree<T>,
    t2: Tree<T>,
    x: NodeId,
    removed: Result<Node<T>, NodeIdError>,
    v: T,
    p: NodeId,
    c: NodeId,
)
    requires
        t0.wf(),
        t0.is_valid(x),
        removed_orphaning(t0, t1, x, removed) || removed_cascading(t0, t1, x, removed),
        t1.wf(),
        inserted_under(t1, t2, v, p, Ok(c)) || root_set(t1, t2, v, c),
    ensures
        c != x,
        t2.is_valid(c),
        t2.node_at(c.index as int).value() == v,
        t2.check(x) == Err::<(), NodeIdError>(NodeIdError::NodeIdNoLongerValid),
{
    assert(x == t0.id_at(x.index as int));
    assert(t0.minted().contains(x));
    assert(t1.minted() == t0.minted());
    assert(fresh_handle(t1, t2, c));
    assert(t1.check(x) is Err);
}

/// In a well-formed arena every child of a live node is a valid handle whose
/// node names that node as its parent. Every operation keeps the arena
/// well-formed, so this holds after any sequence of them.
pub proof fn lemma_links_bidirectional<T>(t: Tree<T>)
    requires
        t.wf(),
    ensures
        forall|i: int, k: int|
            t.live(i) && 0 <= k < t.node_at(i).child_links().len() ==> {
                let c = #[trigger] t.node_at(i).child_links()[k];
                t.is_valid(c) && t.node_at(c.index as int).parent_link() == Some(t.id_at(i))
            },
{
}

/// Cascading removal takes out the node and every node below it, and
/// nothing else: the slots that go are exactly those of the node's subtree,
/// so a node with `n` descendants takes `n + 1` nodes with it. Each node that
/// goes is the target or a child of a node that goes, no handle of a node
/// that went is valid afterwards, and the node handed back lists no
/// children.
pub proof fn lemma_cascading_complete<T>(t0: Tree<T>, t1: Tree<T>, x: NodeId, r: Result<Node<T>, NodeIdError>)
    requires
        t0.wf(),
        t0.is_valid(x),
        removed_cascading(t0, t1, x, r),
    ensures
        r is Ok,
        r.unwrap().child_links().len() == 0,
        t0.removed_in(&t1, x.index as int),
        forall|j: int, k: int| #![trigger t0.removed_in(&t1, j), t0.node_at(j).child_links()[k]]
            t0.removed_in(&t1, j) && 0 <= k < t0.node_at(j).child_links().len()
            ==> t0.removed_in(&t1, t0.node_at(j).child_links()[k].index as int),
        forall|j: int| #[trigger] t0.removed_in(&t1, j) ==> j == x.index
            || exists|p: int| t0.removed_in(&t1, p)
                && #[trigger] t0.node_at(p).child_links().contains(t0.id_at(j)),
        forall|j: int| #[trigger] t0.removed_in(&t1, j)
            ==> t1.check(t0.id_at(j)) == Err::<(), NodeIdError>(NodeIdError::NodeIdNoLongerValid),
        forall|j: int| #[trigger] t1.live(j) ==> t0.live(j),
        forall|j: int| #[trigger] t0.removed_in(&t1, j) <==> in_subtree(t0, x.index as int, j),
{
    lemma_cascading_exact(t0, t1, x, r);
    assert forall|j: int, k: int| #![trigger t0.removed_in(&t1, j), t0.node_at(j).child_links()[k]]
        t0.removed_in(&t1, j) && 0 <= k < t0.node_at(j).child_links().len()
        implies t0.removed_in(&t1, t0.node_at(j).child_links()[k].index as int) by {
        let c = t0.node_at(j).child_links()[k];
        assert(t0.live(c.index as int));
    }
    assert forall|j: int| #[trigger] t0.removed_in(&t1, j)
        implies t1.check(t0.id_at(j)) == Err::<(), NodeIdError>(NodeIdError::NodeIdNoLongerValid) by {
        assert(t0.id_at(j).index as int == j);
    }
}

/// After orphaning removal the removed handle is stale, and each child of
/// the removed node is still valid by its own handle, with its value and
/// children as before and the removed handle as its parent.
pub proof fn lemma_orphans_kept<T>(t0: Tree<T>, t1: Tree<T>, x: NodeId, r: Result<Node<T>, NodeIdError>)
    requires
        t0.wf(),
        t0.is_valid(x),
        removed_orphaning(t0, t1, x, r),
    ensures
        r is Ok,
        r.unwrap().child_links() == t0.node_at(x.index as int).child_links(),
        t1.check(x) == Err::<(), NodeIdError>(NodeIdError::NodeIdNoLongerValid),
        forall|k: int| 0 <= k < r.unwrap().child_links().len() ==> {
            let c = #[trigger] r.unwrap().child_links()[k];
            &&& t1.is_valid(c)
            &&& t1.node_at(c.index as int).value() == t0.node_at(c.index as int).value()
            &&& t1.node_at(c.index as int).child_links() == t0.node_at(c.index as int).child_links()
            &&& t1.node_at(c.index as int).parent_link() == Some(x)
        },
{
    let xi = x.index as int;
    assert(x == t0.id_at(xi));
    assert forall|k: int| 0 <= k < r.unwrap().child_links().len() implies {
        let c = #[trigger] r.unwrap().child_links()[k];
        &&& t1.is_valid(c)
        &&& t1.node_at(c.index as int).value() == t0.node_at(c.index as int).value()
        &&& t1.node_at(c.index as int).child_links() == t0.node_at(c.index as int).child_links()
        &&& t1.node_at(c.index as int).parent_link() == Some(x)
    } by {
        let c = t0.node_at(xi).child_links()[k];
        let ci = c.index as int;
        assert(t0.live(ci));
        assert(ci != xi);
        assert(t1.live(ci));
        let s = t0.node_at(ci).child_links();
        assert forall|m: int| 0 <= m < s.len() implies #[trigger] s[m] != x by {
            assert(t0.depth_of(s[m].index as int) == t0.depth_of(ci) + 1);
        }
        lemma_without_all_kept(s, x);
    }
}

/// Where every node live in `a` is live in `b` with the same children, the
/// post-order of a live node is the same in both.
proof fn lemma_post_order_frame<T>(a: Tree<T>, b: Tree<T>, h: NodeId, fuel: nat)
    requires
        a.links_consistent(),
        a.stamp() == b.stamp(),
        a.is_valid(h),
        forall|i: int| #[trigger] a.live(i) ==> b.live(i) && b.gens()[i] == a.gens()[i]
            && b.node_at(i).child_links() == a.node_at(i).child_links(),
    ensures
        post_order(b, h, fuel) == post_order(a, h, fuel),
    decreases fuel, 0nat, 0nat,
{
    if fuel > 0 {
        let cs = a.node_at(h.index as int).child_links();
        assert forall|k: int| 0 <= k < cs.len() implies a.is_valid(#[trigger] cs[k]) by {}
        lemma_post_order_all_frame(a, b, cs, (fuel - 1) as nat);
    }
}

proof fn lemma_post_order_all_frame<T>(a: Tree<T>, b: Tree<T>, hs: Seq<NodeId>, fuel: nat)
    requires
        a.links_consistent(),
        a.stamp() == b.stamp(),
        forall|k: int| 0 <= k < hs.len() ==> a.is_valid(#[trigger] hs[k]),
        forall|i: int| #[trigger] a.live(i) ==> b.live(i) && b.gens()[i] == a.gens()[i]
            && b.node_at(i).child_links() == a.node_at(i).child_links(),
    ensures
        post_order_all(b, hs, fuel) == post_order_all(a, hs, fuel),
    decreases fuel, 1nat, hs.len(),
{
    if hs.len() > 0 {
        let d = hs.drop_last();
        assert forall|k: int| 0 <= k < d.len() implies a.is_valid(#[trigger] d[k]) by {
            assert(d[k] == hs[k]);
        }
        lemma_post_order_all_frame(a, b, d, fuel);
        lemma_post_order_frame(a, b, hs.last(), fuel);
    }
}

/// Calling `set_root` on a tree that has a root makes the new node the root
/// with the previous root as its only child. The previous root keeps its
/// value and children, every other slot stays as it was, and the post-order
/// below the previous root is unchanged.
pub proof fn lemma_set_root_grows<T>(t0: Tree<T>, t1: Tree<T>, v: T, r: NodeId)
    requires
        t0.wf(),
        t0.root_link() is Some,
        root_set(t0, t1, v, r),
    ensures
        ({
            let prev = t0.root_link().unwrap();
            &&& t1.root_link() == Some(r)
            &&& r != prev
            &&& t1.is_valid(r)
            &&& t1.node_at(r.index as int).value() == v
            &&& t1.node_at(r.index as int).child_links() == seq![prev]
            &&& t1.is_valid(prev)
            &&& t1.node_at(prev.index as int).parent_link() == Some(r)
            &&& t1.node_at(prev.index as int).value() == t0.node_at(prev.index as int).value()
            &&& t1.node_at(prev.index as int).child_links() == t0.node_at(prev.index as int).child_links()
            &&& forall|i: int| 0 <= i < t0.slots().len() && i != r.index && i != prev.index
                ==> #[trigger] t1.slots()[i] == t0.slots()[i]
            &&& forall|fuel: nat| #[trigger] post_order(t1, prev, fuel) == post_order(t0, prev, fuel)
        }),
{
    let prev = t0.root_link().unwrap();
    let pi = prev.index as int;
    assert forall|i: int| #[trigger] t0.live(i) implies t1.live(i) && t1.gens()[i] == t0.gens()[i]
        && t1.node_at(i).child_links() == t0.node_at(i).child_links() by {
        if i != pi {
            assert(i != r.index);
            assert(t1.slots()[i] == t0.slots()[i]);
        }
    }
    assert forall|fuel: nat| #[trigger] post_order(t1, prev, fuel) == post_order(t0, prev, fuel) by {
        lemma_post_order_frame(t0, t1, prev, fuel);
    }
}

/// How many of the first `n` slots hold a node deeper than `d`.
pub open spec fn deeper_count<T>(t: Tree<T>, d: int, n: nat) -> nat
    decreases n,
{
    if n == 0 {
        0
    } else {
        deeper_count(t, d, (n - 1) as nat) + if t.live(n - 1) && t.depth_of(n - 1) > d {
            1nat
        } else {
            0nat
        }
    }
}

/// How many levels a walk down from the node behind `h` can take at most.
pub open spec fn height_bound<T>(t: Tree<T>, h: NodeId) -> nat {
    deeper_count(t, t.depth_of(h.index as int), t.slots().len()) + 1
}

proof fn lemma_deeper_count_le<T>(t: Tree<T>, d: int, n: nat, h: int)
    requires
        0 <= h < n,
        t.live(h),
        t.depth_of(h) <= d,
    ensures
        deeper_count(t, d, n) + 1 <= n,
    decreases n,
{
    if h < n - 1 {
        lemma_deeper_count_le(t, d, (n - 1) as nat, h);
    } else {
        lemma_deeper_count_bounded(t, d, (n - 1) as nat);
    }
}

proof fn lemma_deeper_count_bounded<T>(t: Tree<T>, d: int, n: nat)
    ensures
        deeper_count(t, d, n) <= n,
    decreases n,
{
    if n > 0 {
        lemma_deeper_count_bounded(t, d, (n - 1) as nat);
    }
}

proof fn lemma_deeper_count_mono<T>(t: Tree<T>, d1: int, d2: int, n: nat)
    requires
        d1 <= d2,
    ensures
        deeper_count(t, d2, n) <= deeper_count(t, d1, n),
    decreases n,
{
    if n > 0 {
        lemma_deeper_count_mono(t, d1, d2, (n - 1) as nat);
    }
}

/// A live slot deeper than `d1` but not than `d2` counts for `d1` only.
proof fn lemma_deeper_count_strict<T>(t: Tree<T>, d1: int, d2: int, n: nat, c: int)
    requires
        0 <= c < n,
        t.live(c),
        d1 < t.depth_of(c) <= d2,
    ensures
        deeper_count(t, d2, n) + 1 <= deeper_count(t, d1, n),
    decreases n,
{
    if c == n - 1 {
        lemma_deeper_count_mono(t, d1, d2, (n - 1) as nat);
    } else {
        lemma_deeper_count_strict(t, d1, d2, (n - 1) as nat, c);
    }
}

/// A child can be walked down from at least one level less than its parent.
proof fn lemma_child_height<T>(t: Tree<T>, h: NodeId, k: int)
    requires
        t.links_consistent(),
        t.is_valid(h),
        0 <= k < t.node_at(h.index as int).child_links().len(),
    ensures
        t.is_valid(t.node_at(h.index as int).child_links()[k]),
        height_bound(t, t.node_at(h.index as int).child_links()[k]) + 1 <= height_bound(t, h),
{
    let c = t.node_at(h.index as int).child_links()[k];
    lemma_deeper_count_strict(
        t,
        t.depth_of(h.index as int),
        t.depth_of(c.index as int),
        t.slots().len(),
        c.index as int,
    );
}

proof fn lemma_post_order_stable<T>(t: Tree<T>, h: NodeId, f: nat, g: nat)
    requires
        t.links_consistent(),
        t.is_valid(h),
        f >= height_bound(t, h),
        g >= height_bound(t, h),
    ensures
        post_order(t, h, f) == post_order(t, h, g),
    decreases f, 0nat, 0nat,
{
    let cs = t.node_at(h.index as int).child_links();
    let b = (height_bound(t, h) - 1) as nat;
    assert forall|k: int| 0 <= k < cs.len() implies t.is_valid(#[trigger] cs[k]) && height_bound(t, cs[k]) <= b by {
        lemma_child_height(t, h, k);
    }
    lemma_post_order_all_stable(t, cs, (f - 1) as nat, (g - 1) as nat, b);
}

proof fn lemma_post_order_all_stable<T>(t: Tree<T>, hs: Seq<NodeId>, f: nat, g: nat, b: nat)
    requires
        t.links_consistent(),
        forall|k: int| 0 <= k < hs.len() ==> t.is_valid(#[trigger] hs[k]) && height_bound(t, hs[k]) <= b,
        f >= b,
        g >= b,
    ensures
        post_order_all(t, hs, f) == post_order_all(t, hs, g),
    decreases f, 1nat, hs.len(),
{
    if hs.len() > 0 {
        let d = hs.drop_last();
        assert forall|k: int| 0 <= k < d.len() implies t.is_valid(#[trigger] d[k]) && height_bound(t, d[k]) <= b by {
            assert(d[k] == hs[k]);
        }
        lemma_post_order_all_stable(t, d, f, g, b);
        lemma_post_order_stable(t, hs.last(), f, g);
    }
}

/// Each child lies one level below its parent, so no walk down a
/// well-formed arena takes as many steps as it has slots: the post-order
/// computed with the slot count as the limit is the whole post-order, and
/// any larger limit gives the same.
pub proof fn lemma_post_order_complete<T>(t: Tree<T>, h: NodeId, fuel: nat)
    requires
        t.wf(),
        t.is_valid(h),
        fuel >= t.slots().len(),
    ensures
        post_order(t, h, fuel) == post_order(t, h, t.slots().len()),
{
    lemma_deeper_count_le(t, t.depth_of(h.index as int), t.slots().len(), h.index as int);
    lemma_post_order_stable(t, h, fuel, t.slots().len());
}

/// Slot `j` lies `d` levels below slot `x` along children.
pub open spec fn below<T>(t: Tree<T>, x: int, j: int, d: nat) -> bool
    decreases d,
{
    if d == 0 {
        j == x
    } else {
        t.live(j) && exists|p: int|
            below(t, x, p, (d - 1) as nat) && t.live(p) && #[trigger] t.node_at(p).child_links().contains(t.id_at(j))
    }
}

/// Slot `j` is slot `x` or lies somewhere below it.
pub open spec fn in_subtree<T>(t: Tree<T>, x: int, j: int) -> bool {
    exists|d: nat| #[trigger] below(t, x, j, d)
}

/// How many of the first `n` slots hold a node shallower than `d`.
pub open spec fn shallower_count<T>(t: Tree<T>, d: int, n: nat) -> nat
    decreases n,
{
    if n == 0 {
        0
    } else {
        shallower_count(t, d, (n - 1) as nat) + if t.live(n - 1) && t.depth_of(n - 1) < d {
            1nat
        } else {
            0nat
        }
    }
}

proof fn lemma_shallower_count_mono<T>(t: Tree<T>, d1: int, d2: int, n: nat)
    requires
        d1 <= d2,
    ensures
        shallower_count(t, d1, n) <= shallower_count(t, d2, n),
    decreases n,
{
    if n > 0 {
        lemma_shallower_count_mono(t, d1, d2, (n - 1) as nat);
    }
}

/// A live slot at depth `d1` counts for any greater depth, not for `d1`.
proof fn lemma_shallower_count_strict<T>(t: Tree<T>, d1: int, d2: int, n: nat, c: int)
    requires
        0 <= c < n,
        t.live(c),
        t.depth_of(c) == d1,
        d1 < d2,
    ensures
        shallower_count(t, d1, n) + 1 <= shallower_count(t, d2, n),
    decreases n,
{
    if c == n - 1 {
        lemma_shallower_count_mono(t, d1, d2, (n - 1) as nat);
    } else {
        lemma_shallower_count_strict(t, d1, d2, (n - 1) as nat, c);
    }
}

/// Every slot of the subtree of `x` went in a cascading removal of `x`.
proof fn lemma_subtree_removed<T>(t0: Tree<T>, t1: Tree<T>, x: NodeId, r: Result<Node<T>, NodeIdError>, j: int, d: nat)
    requires
        t0.wf(),
        t0.is_valid(x),
        removed_cascading(t0, t1, x, r),
        below(t0, x.index as int, j, d),
    ensures
        t0.removed_in(&t1, j),
    decreases d,
{
    if d > 0 {
        let p = choose|p: int|
            below(t0, x.index as int, p, (d - 1) as nat) && t0.live(p)
                && #[trigger] t0.node_at(p).child_links().contains(t0.id_at(j));
        lemma_subtree_removed(t0, t1, x, r, p, (d - 1) as nat);
        let k = choose|k: int| 0 <= k < t0.node_at(p).child_links().len()
            && t0.node_at(p).child_links()[k] == t0.id_at(j);
        assert(t0.node_at(p).child_links()[k].index as int == j);
    }
}

/// Every slot that went in a cascading removal of `x` lies in its subtree;
/// the depth of the slot bounds how far up the search goes.
proof fn lemma_removed_in_subtree<T>(t0: Tree<T>, t1: Tree<T>, x: NodeId, r: Result<Node<T>, NodeIdError>, j: int) -> (d: nat)
    requires
        t0.wf(),
        t0.is_valid(x),
        removed_cascading(t0, t1, x, r),
        t0.removed_in(&t1, j),
    ensures
        below(t0, x.index as int, j, d),
    decreases shallower_count(t0, t0.depth_of(j), t0.slots().len()),
{
    if j == x.index as int {
        0
    } else {
        let p = choose|p: int| t0.removed_in(&t1, p)
            && #[trigger] t0.node_at(p).child_links().contains(t0.id_at(j));
        let k = choose|k: int| 0 <= k < t0.node_at(p).child_links().len()
            && t0.node_at(p).child_links()[k] == t0.id_at(j);
        assert(t0.node_at(p).child_links()[k].index as int == j);
        lemma_shallower_count_strict(t0, t0.depth_of(p), t0.depth_of(j), t0.slots().len(), p);
        let e = lemma_removed_in_subtree(t0, t1, x, r, p);
        assert(below(t0, x.index as int, j, e + 1));
        e + 1
    }
}

/// A cascading removal of `x` takes out exactly the slots of its subtree.
proof fn lemma_cascading_exact<T>(t0: Tree<T>, t1: Tree<T>, x: NodeId, r: Result<Node<T>, NodeIdError>)
    requires
        t0.wf(),
        t0.is_valid(x),
        removed_cascading(t0, t1, x, r),
    ensures
        forall|j: int| #[trigger] t0.removed_in(&t1, j) <==> in_subtree(t0, x.index as int, j),
{
    assert forall|j: int| #[trigger] t0.removed_in(&t1, j) <==> in_subtree(t0, x.index as int, j) by {
        if t0.removed_in(&t1, j) {
            let d = lemma_removed_in_subtree(t0, t1, x, r, j);
            assert(below(t0, x.index as int, j, d));
        }
        if in_subtree(t0, x.index as int, j) {
            let d = choose|d: nat| #[trigger] below(t0, x.index as int, j, d);
            lemma_subtree_removed(t0, t1, x, r, j, d);
        }
    }
}

} // verus!
