use std::collections::hash_map::RandomState;
use std::hash::BuildHasher;
use vstd::prelude::*;
use crate::laws::lemma_post_order_complete;
use crate::node::{Node, NodeId, NodeIdError, lemma_without_all_kept, lemma_without_no_duplicates, lemma_without_subset, without};

verus! {

/// Relies on std's `RandomState::new`: a hasher builder seeded with keys of
/// its own.
#[verifier::external_body]
fn fresh_random_state() -> (r: RandomState) {
    RandomState::new()
}

/// Relies on std's `BuildHasher::hash_one` for `RandomState`: the hash of `()`
/// under the builder's keys. Nothing is known of the value.
#[verifier::external_body]
fn hash_of_unit(s: &RandomState) -> (r: u64) {
    s.hash_one(())
}

/// Relies on std's `Vec::capacity`: how many elements fit before the vector
/// reallocates, never fewer than it holds.
#[verifier::external_body]
fn vec_capacity<A>(v: &Vec<A>) -> (r: usize)
    ensures
        r >= v@.len(),
{
    v.capacity()
}

/// A stamp for a new arena: the hash of `()` under freshly seeded keys.
/// Two arenas get different stamps with overwhelming likelihood, but nothing
/// rules out a collision, so no contract promises distinct stamps; what is
/// proved is that a handle whose stamp differs from an arena's is refused
/// there.
fn new_stamp() -> u64 {
    let s = fresh_random_state();
    hash_of_unit(&s)
}

/// How many slots of `s` hold a node.
spec fn live_count<T>(s: Seq<Option<Node<T>>>) -> nat
    decreases s.len(),
{
    if s.len() == 0 {
        0
    } else {
        live_count(s.drop_last()) + if s.last() is Some { 1nat } else { 0nat }
    }
}

/// Emptying a full slot takes one from the count.
proof fn lemma_live_count_clear<T>(s: Seq<Option<Node<T>>>, i: int)
    requires
        0 <= i < s.len(),
        s[i] is Some,
    ensures
        live_count(s.update(i, None)) + 1 == live_count(s),
    decreases s.len(),
{
    let u = s.update(i, None);
    if i == s.len() - 1 {
        assert(u.drop_last() =~= s.drop_last());
    } else {
        assert(u.drop_last() =~= s.drop_last().update(i, None));
        lemma_live_count_clear(s.drop_last(), i);
    }
}

/// The post-order of the node behind `h`, walking at most `fuel` levels
/// down: the post-orders of its children in order, then `h`.
pub open spec fn post_order<T>(t: Tree<T>, h: NodeId, fuel: nat) -> Seq<NodeId>
    decreases fuel, 0nat, 0nat,
{
    if fuel == 0 || !t.is_valid(h) {
        Seq::empty()
    } else {
        post_order_all(t, t.node_at(h.index as int).child_links(), (fuel - 1) as nat) + seq![h]
    }
}

/// The post-orders of the handles `hs`, one after the other.
pub open spec fn post_order_all<T>(t: Tree<T>, hs: Seq<NodeId>, fuel: nat) -> Seq<NodeId>
    decreases fuel, 1nat, hs.len(),
{
    if hs.len() == 0 {
        Seq::empty()
    } else {
        post_order_all(t, hs.drop_last(), fuel) + post_order(t, hs.last(), fuel)
    }
}

/// How an insertion places its node: in the slot of the last freed handle
/// if there is one, else in a new slot at the end. The handle `c` it hands
/// out was never handed out before; every other slot keeps its liveness and
/// generation, so a handle refused before is refused after, unless it is `c`.
pub open spec fn fresh_handle<T>(o: Tree<T>, n: Tree<T>, c: NodeId) -> bool {
    &&& c == n.id_at(c.index as int)
    &&& !o.live(c.index as int)
    &&& n.live(c.index as int)
    &&& !o.minted().contains(c)
    &&& n.minted() == o.minted().insert(c)
    &&& o.slots().len() <= n.slots().len() <= o.slots().len() + 1
    &&& if o.free_list().len() > 0 {
        c == o.free_list().last() && n.slots().len() == o.slots().len()
    } else {
        c.index == o.slots().len() && n.slots().len() == o.slots().len() + 1
    }
    &&& forall|i: int| 0 <= i < o.slots().len() ==> #[trigger] n.gens()[i] == o.gens()[i]
    &&& forall|i: int| i != c.index ==> #[trigger] n.live(i) == o.live(i)
    &&& forall|h: NodeId| o.check(h) is Err && h != c ==> #[trigger] n.check(h) is Err
}

/// The contract of `Tree::set_root`: `n` is `o` with a new root holding `v`
/// at handle `r`, the old root, if any, its only child.
pub open spec fn root_set<T>(o: Tree<T>, n: Tree<T>, v: T, r: NodeId) -> bool {
    &&& n.stamp() == o.stamp()
    &&& n.root_link() == Some(r)
    &&& r.tree_id == o.stamp()
    &&& !o.live(r.index as int)
    &&& n.live(r.index as int)
    &&& n.node_at(r.index as int).value() == v
    &&& n.node_at(r.index as int).parent_link() is None
    &&& fresh_handle(o, n, r)
    &&& match o.root_link() {
        None => n.node_at(r.index as int).child_links() == Seq::<NodeId>::empty()
            && forall|i: int| 0 <= i < o.slots().len() && i != r.index
                ==> #[trigger] n.slots()[i] == o.slots()[i],
        Some(prev) => n.node_at(r.index as int).child_links() == seq![prev]
            && n.live(prev.index as int)
            && n.node_at(prev.index as int).value() == o.node_at(prev.index as int).value()
            && n.node_at(prev.index as int).child_links() == o.node_at(prev.index as int).child_links()
            && n.node_at(prev.index as int).parent_link() == Some(r)
            && forall|i: int| 0 <= i < o.slots().len() && i != r.index && i != prev.index
                ==> #[trigger] n.slots()[i] == o.slots()[i],
    }
}

/// The contract of `Tree::insert_with_parent`: `n` is `o` with a node holding
/// `v` added as the last child of `parent_id`, or `o` itself and the error
/// that validating `parent_id` gives.
pub open spec fn inserted_under<T>(o: Tree<T>, n: Tree<T>, v: T, parent_id: NodeId, r: Result<NodeId, NodeIdError>) -> bool {
    &&& n.stamp() == o.stamp()
    &&& n.root_link() == o.root_link()
    &&& match o.check(parent_id) {
        Err(e) => r == Err::<NodeId, NodeIdError>(e) && n == o,
        Ok(_) => r is Ok && {
            let c = r.unwrap();
            let p = parent_id.index as int;
            &&& c.tree_id == o.stamp()
            &&& !o.live(c.index as int)
            &&& n.live(c.index as int)
            &&& n.node_at(c.index as int).value() == v
            &&& n.node_at(c.index as int).parent_link() == Some(parent_id)
            &&& n.node_at(c.index as int).child_links() == Seq::<NodeId>::empty()
            &&& n.node_at(p).value() == o.node_at(p).value()
            &&& n.node_at(p).parent_link() == o.node_at(p).parent_link()
            &&& n.node_at(p).child_links() == o.node_at(p).child_links().push(c)
            &&& fresh_handle(o, n, c)
            &&& forall|i: int| 0 <= i < o.slots().len() && i != c.index && i != p
                ==> #[trigger] n.slots()[i] == o.slots()[i]
        },
    }
}

/// The contract of `Tree::remove_node_orphan_children`: `n` is `o` without the
/// node behind `node_id`, its children left in place.
pub open spec fn removed_orphaning<T>(o: Tree<T>, n: Tree<T>, node_id: NodeId, r: Result<Node<T>, NodeIdError>) -> bool {
    &&& n.stamp() == o.stamp()
    &&& n.slots().len() == o.slots().len()
    &&& match o.check(node_id) {
        Err(e) => r == Err::<Node<T>, NodeIdError>(e) && n == o,
        Ok(_) => r == Ok::<Node<T>, NodeIdError>(o.node_at(node_id.index as int))
            && n.minted() == o.minted()
            && (forall|i: int| #[trigger] n.live(i) ==> n.id_at(i) == o.id_at(i))
            && n.root_link() == (if o.root_link() == Some(node_id) {
                None
            } else {
                o.root_link()
            })
            && !n.live(node_id.index as int)
            && (forall|i: int| 0 <= i < o.slots().len() && i != node_id.index ==>
                #[trigger] n.live(i) == o.live(i))
            && (forall|i: int| #[trigger] n.live(i) ==> {
                &&& n.node_at(i).value() == o.node_at(i).value()
                &&& n.node_at(i).parent_link() == o.node_at(i).parent_link()
                &&& n.node_at(i).child_links() == without(o.node_at(i).child_links(), node_id)
            }),
    }
}

/// The contract of `Tree::remove_node_drop_children`: `n` is `o` without the
/// node behind `node_id` and without every node below it.
pub open spec fn removed_cascading<T>(o: Tree<T>, n: Tree<T>, node_id: NodeId, r: Result<Node<T>, NodeIdError>) -> bool {
    &&& n.stamp() == o.stamp()
    &&& n.slots().len() == o.slots().len()
    &&& match o.check(node_id) {
        Err(e) => r == Err::<Node<T>, NodeIdError>(e) && n == o,
        Ok(_) => r is Ok && {
            let node = r.unwrap();
            let x = node_id.index as int;
            &&& node.value() == o.node_at(x).value()
            &&& node.parent_link() == o.node_at(x).parent_link()
            &&& node.child_links() == Seq::<NodeId>::empty()
            &&& n.minted() == o.minted()
            &&& forall|i: int| #[trigger] n.live(i) ==> n.id_at(i) == o.id_at(i)
            &&& n.root_link() == (if o.root_link() == Some(node_id) {
                None
            } else {
                o.root_link()
            })
            &&& !n.live(x)
            &&& forall|j: int, k: int| #![trigger o.removed_in(&n, j), o.node_at(j).child_links()[k]]
                o.removed_in(&n, j) && 0 <= k < o.node_at(j).child_links().len()
                ==> !n.live(o.node_at(j).child_links()[k].index as int)
            &&& forall|j: int| #[trigger] o.removed_in(&n, j) ==> j == x
                || exists|p: int| o.removed_in(&n, p)
                    && #[trigger] o.node_at(p).child_links().contains(o.id_at(j))
            &&& forall|i: int| #[trigger] n.live(i) ==> {
                &&& o.live(i)
                &&& n.node_at(i).value() == o.node_at(i).value()
                &&& n.node_at(i).parent_link() == o.node_at(i).parent_link()
                &&& n.node_at(i).child_links() == without(o.node_at(i).child_links(), node_id)
            }
        },
    }
}

/// Settings from which a `Tree` is built: an optional first root and how
/// much room to reserve for nodes and for freed slots.
pub struct TreeBuilder<T> {
    pub root: Option<Node<T>>,
    pub node_capacity: usize,
    pub swap_capacity: usize,
}

impl<T> TreeBuilder<T> {
    /// No root and no room reserved.
    pub fn new() -> (r: TreeBuilder<T>)
        ensures
            r.root is None,
            r.node_capacity == 0,
            r.swap_capacity == 0,
    {
        TreeBuilder { root: None, node_capacity: 0, swap_capacity: 0 }
    }

    pub fn with_root(self, root: Node<T>) -> (r: TreeBuilder<T>)
        ensures
            r.root == Some(root),
            r.node_capacity == self.node_capacity,
            r.swap_capacity == self.swap_capacity,
    {
        TreeBuilder { root: Some(root), node_capacity: self.node_capacity, swap_capacity: self.swap_capacity }
    }

    pub fn with_node_capacity(self, node_capacity: usize) -> (r: TreeBuilder<T>)
        ensures
            r.root == self.root,
            r.node_capacity == node_capacity,
            r.swap_capacity == self.swap_capacity,
    {
        TreeBuilder { root: self.root, node_capacity, swap_capacity: self.swap_capacity }
    }

    pub fn with_swap_capacity(self, swap_capacity: usize) -> (r: TreeBuilder<T>)
        ensures
            r.root == self.root,
            r.node_capacity == self.node_capacity,
            r.swap_capacity == swap_capacity,
    {
        TreeBuilder { root: self.root, node_capacity: self.node_capacity, swap_capacity }
    }

    /// A tree with a fresh stamp, drawn at random (see `new_stamp`: nothing
    /// is promised of its value). A root given to the builder sits in slot 0,
    /// generation 0, with no parent and no children.
    pub fn build(self) -> (r: Tree<T>)
        ensures
            r.wf(),
            r.free_list().len() == 0,
            match self.root {
                None => r.slots().len() == 0 && r.root_link() is None,
                Some(n) => r.slots().len() == 1 && r.root_link() == Some(r.id_at(0))
                    && r.fresh_node_at(0, n.value()),
            },
    {
        let tree_id = new_stamp();
        let mut tree = Tree {
            id: tree_id,
            root: None,
            nodes: Vec::with_capacity(self.node_capacity),
            free_ids: Vec::with_capacity(self.swap_capacity),
            generations: Vec::new(),
            depth: Ghost(|i: int| 0int),
            minted: Ghost(Set::empty()),
        };
        match self.root {
            Some(node) => {
                let mut node = node;
                node.set_parent(None);
                node.clear_children();
                tree.nodes.push(Some(node));
                tree.generations.push(0);
                let root_id = NodeId { tree_id, index: 0, generation: 0 };
                tree.root = Some(root_id);
                tree.minted = Ghost(Set::empty().insert(root_id));
            },
            None => {},
        }
        tree
    }
}

/// An arena of nodes. Slots hold a node or nothing; freed slots are kept for
/// reuse; every handle carries the arena's stamp and its slot's generation.
pub struct Tree<T> {
    id: u64,
    root: Option<NodeId>,
    nodes: Vec<Option<Node<T>>>,
    free_ids: Vec<NodeId>,
    generations: Vec<u64>,
    depth: Ghost<spec_fn(int) -> int>,
    minted: Ghost<Set<NodeId>>,
}

impl<T> Tree<T> {
    pub closed spec fn stamp(&self) -> u64 {
        self.id
    }

    pub closed spec fn root_link(&self) -> Option<NodeId> {
        self.root
    }

    pub closed spec fn slots(&self) -> Seq<Option<Node<T>>> {
        self.nodes@
    }

    /// The handles that a reuse of each freed slot will hand out, the last
    /// one first.
    pub closed spec fn free_list(&self) -> Seq<NodeId> {
        self.free_ids@
    }

    /// The current generation of each slot.
    pub closed spec fn gens(&self) -> Seq<u64> {
        self.generations@
    }

    /// Every handle this arena has handed out.
    pub closed spec fn minted(&self) -> Set<NodeId> {
        self.minted@
    }

    /// A depth for every slot: each child lies one level below its parent.
    pub closed spec fn depths(&self) -> spec_fn(int) -> int {
        self.depth@
    }

    pub open spec fn depth_of(&self, i: int) -> int {
        (self.depths())(i)
    }

    /// Slot `i` exists and holds a node.
    pub open spec fn live(&self, i: int) -> bool {
        0 <= i < self.slots().len() && self.slots()[i] is Some
    }

    pub open spec fn node_at(&self, i: int) -> Node<T> {
        self.slots()[i].unwrap()
    }

    /// The handle of slot `i` in its current generation.
    pub open spec fn id_at(&self, i: int) -> NodeId {
        NodeId { tree_id: self.stamp(), index: i as usize, generation: self.gens()[i] }
    }

    /// A handle that carries this arena's stamp names one of its slots.
    pub open spec fn in_bounds(&self, h: NodeId) -> bool {
        h.tree_id == self.stamp() ==> h.index < self.slots().len()
    }

    pub open spec fn is_valid(&self, h: NodeId) -> bool {
        h.tree_id == self.stamp() && self.live(h.index as int) && h.generation == self.gens()[h.index as int]
    }

    /// What validating `h` against this arena gives.
    pub open spec fn check(&self, h: NodeId) -> Result<(), NodeIdError> {
        if h.tree_id != self.stamp() {
            Err(NodeIdError::InvalidNodeIdForTree)
        } else if !self.live(h.index as int) || h.generation != self.gens()[h.index as int] {
            Err(NodeIdError::NodeIdNoLongerValid)
        } else {
            Ok(())
        }
    }

    /// Slot `i` holds a node with value `v`, no parent and no children.
    pub open spec fn fresh_node_at(&self, i: int, v: T) -> bool {
        &&& self.live(i)
        &&& self.node_at(i).value() == v
        &&& self.node_at(i).parent_link() is None
        &&& self.node_at(i).child_links() == Seq::<NodeId>::empty()
    }

    /// The root, if any, is a live node of this arena without a parent.
    pub open spec fn root_ok(&self) -> bool {
        match self.root_link() {
            None => true,
            Some(r) => self.is_valid(r) && self.node_at(r.index as int).parent_link() is None,
        }
    }

    /// Slot bookkeeping: the slots can be counted in a `usize` and each has a
    /// generation; freed slots are empty slots of this arena, each listed
    /// once, with a handle never handed out before; handed-out handles are
    /// of this arena and no newer than their slot; every live slot's current
    /// handle has been handed out.
    pub open spec fn free_ok(&self) -> bool {
        &&& self.slots().len() <= usize::MAX
        &&& self.gens().len() == self.slots().len()
        &&& forall|k: int|
            0 <= k < self.free_list().len() ==> {
                let f = #[trigger] self.free_list()[k];
                &&& f.tree_id == self.stamp()
                &&& f.index < self.slots().len()
                &&& !self.live(f.index as int)
                &&& f.generation == self.gens()[f.index as int]
                &&& !self.minted().contains(f)
            }
        &&& forall|h: NodeId| #[trigger] self.minted().contains(h) ==> h.tree_id == self.stamp()
            && h.index < self.slots().len() && h.generation <= self.gens()[h.index as int]
        &&& forall|i: int| #[trigger] self.live(i) ==> self.minted().contains(self.id_at(i))
        &&& forall|k1: int, k2: int|
            0 <= k1 < self.free_list().len() && 0 <= k2 < self.free_list().len() && k1 != k2
                ==> #[trigger] self.free_list()[k1].index != #[trigger] self.free_list()[k2].index
    }

    /// Every child of a live node is another live node of this arena, one
    /// level deeper, whose parent is that node.
    pub open spec fn links_consistent(&self) -> bool {
        forall|i: int, k: int|
            self.live(i) && 0 <= k < self.node_at(i).child_links().len() ==> {
                let c = #[trigger] self.node_at(i).child_links()[k];
                c.tree_id == self.stamp() && self.live(c.index as int) && c.index != i
                    && c.generation == self.gens()[c.index as int]
                    && self.node_at(c.index as int).parent_link() == Some(self.id_at(i))
                    && self.depth_of(c.index as int) == self.depth_of(i) + 1
            }
    }

    /// No live node lists a child twice.
    pub open spec fn children_distinct(&self) -> bool {
        forall|i: int| #[trigger] self.live(i) ==> self.node_at(i).child_links().no_duplicates()
    }

    pub open spec fn links_ok(&self) -> bool {
        self.links_consistent() && self.children_distinct()
    }

    /// The arena's invariant.
    pub open spec fn wf(&self) -> bool {
        &&& self.root_ok()
        &&& self.free_ok()
        &&& self.links_ok()
    }

    /// An empty tree with a fresh stamp.
    pub fn new() -> (r: Tree<T>)
        ensures
            r.wf(),
            r.root_link() is None,
            r.slots().len() == 0,
            r.free_list().len() == 0,
    {
        TreeBuilder::new().build()
    }

    fn new_node_id(&self, node_index: usize) -> (r: NodeId)
        requires
            node_index < self.gens().len(),
        ensures
            r == self.id_at(node_index as int),
    {
        NodeId { tree_id: self.id, index: node_index, generation: self.generations[node_index] }
    }

    fn is_valid_node_id(&self, node_id: NodeId) -> (r: (bool, Option<NodeIdError>))
        requires
            self.in_bounds(node_id),
            self.gens().len() == self.slots().len(),
        ensures
            r.0 == (self.check(node_id) is Ok),
            r.1 == match self.check(node_id) {
                Ok(_) => None,
                Err(e) => Some(e),
            },
    {
        if node_id.tree_id != self.id {
            return (false, Some(NodeIdError::InvalidNodeIdForTree));
        }
        if self.nodes[node_id.index].is_none() || self.generations[node_id.index] != node_id.generation {
            return (false, Some(NodeIdError::NodeIdNoLongerValid));
        }
        (true, None)
    }

    fn is_root_node(&self, node_id: NodeId) -> (r: bool)
        ensures
            r == (self.root_link() == Some(node_id)),
    {
        match self.root {
            Some(root_id) => root_id == node_id,
            None => false,
        }
    }

    /// The handle of the root, if there is one.
    pub fn root_node_id(&self) -> (r: Option<NodeId>)
        ensures
            r == self.root_link(),
    {
        self.root
    }

    /// The node behind `node_id`, if the handle is valid here.
    pub fn get(&self, node_id: NodeId) -> (r: Option<&Node<T>>)
        requires
            self.wf(),
            self.in_bounds(node_id),
        ensures
            r is Some <==> self.is_valid(node_id),
            r is Some ==> *r.unwrap() == self.node_at(node_id.index as int),
    {
        let (is_valid, _) = self.is_valid_node_id(node_id);
        if is_valid {
            return self.nodes[node_id.index].as_ref();
        }
        None
    }

    /// Mutable access to the node behind `node_id`, if the handle is valid
    /// here. Only that slot changes, to what the caller leaves behind.
    pub fn get_mut(&mut self, node_id: NodeId) -> (r: Option<&mut Node<T>>)
        requires
            old(self).wf(),
            old(self).in_bounds(node_id),
        ensures
            r is Some <==> old(self).is_valid(node_id),
            r is None ==> *final(self) == *old(self),
            r is Some ==> *r.unwrap() == old(self).node_at(node_id.index as int)
                && final(self).slots() == old(self).slots().update(node_id.index as int, Some(*final(r.unwrap())))
                && final(self).same_frame(old(self)),
    {
        let (is_valid, _) = self.is_valid_node_id(node_id);
        if is_valid {
            return self.nodes[node_id.index].as_mut();
        }
        None
    }

    /// After an insertion into slot `c.index`, with every other slot keeping
    /// its liveness and generation, a handle refused before is refused after
    /// unless it is `c`.
    proof fn lemma_refused_stay_refused(o: &Tree<T>, n: &Tree<T>, c: NodeId)
        requires
            o.free_ok(),
            n.free_ok(),
            n.stamp() == o.stamp(),
            c == n.id_at(c.index as int),
            o.slots().len() <= n.slots().len() <= o.slots().len() + 1,
            n.slots().len() > o.slots().len() ==> c.index == o.slots().len(),
            forall|i: int| 0 <= i < o.slots().len() ==> #[trigger] n.gens()[i] == o.gens()[i],
            forall|i: int| i != c.index ==> #[trigger] n.live(i) == o.live(i),
        ensures
            forall|h: NodeId| o.check(h) is Err && h != c ==> #[trigger] n.check(h) is Err,
    {
        assert forall|h: NodeId| o.check(h) is Err && h != c implies #[trigger] n.check(h) is Err by {
            let hi = h.index as int;
            if h.tree_id == n.stamp() && n.live(hi) && h.generation == n.gens()[hi] {
                if hi == c.index as int {
                    assert(h == c);
                } else {
                    assert(o.live(hi));
                    assert(hi < o.slots().len());
                    assert(n.gens()[hi] == o.gens()[hi]);
                }
            }
        }
    }

    /// The slot bookkeeping holds on where only nodes' contents changed.
    proof fn lemma_bookkeeping_frame(a: &Tree<T>, b: &Tree<T>)
        requires
            a.free_ok(),
            a.stamp() == b.stamp(),
            a.slots().len() == b.slots().len(),
            a.gens() == b.gens(),
            a.free_list() == b.free_list(),
            a.minted() == b.minted(),
            forall|i: int| #[trigger] b.live(i) == a.live(i),
        ensures
            b.free_ok(),
    {
        assert forall|k: int| 0 <= k < b.free_list().len() implies {
            let f = #[trigger] b.free_list()[k];
            &&& f.tree_id == b.stamp()
            &&& f.index < b.slots().len()
            &&& !b.live(f.index as int)
            &&& f.generation == b.gens()[f.index as int]
            &&& !b.minted().contains(f)
        } by {
            assert(a.free_list()[k] == b.free_list()[k]);
        }
        assert forall|k1: int, k2: int|
            0 <= k1 < b.free_list().len() && 0 <= k2 < b.free_list().len() && k1 != k2
            implies #[trigger] b.free_list()[k1].index != #[trigger] b.free_list()[k2].index by {
            assert(a.free_list()[k1] == b.free_list()[k1]);
            assert(a.free_list()[k2] == b.free_list()[k2]);
        }
        assert forall|i: int| #[trigger] b.live(i) implies b.minted().contains(b.id_at(i)) by {
            assert(a.live(i));
            assert(a.id_at(i) == b.id_at(i));
        }
    }

    /// The free list and the links depend on the stamp, the slots and the
    /// free list alone, not on the root.
    proof fn lemma_links_frame(a: &Tree<T>, b: &Tree<T>)
        requires
            a.links_ok(),
            a.free_ok(),
            a.stamp() == b.stamp(),
            a.slots() == b.slots(),
            a.free_list() == b.free_list(),
            a.depths() == b.depths(),
            a.gens() == b.gens(),
            a.minted() == b.minted(),
        ensures
            b.links_ok(),
            b.free_ok(),
    {
        Self::lemma_bookkeeping_frame(a, b);
        assert forall|i: int, k: int|
            b.live(i) && 0 <= k < b.node_at(i).child_links().len() implies {
                let c = #[trigger] b.node_at(i).child_links()[k];
                c.tree_id == b.stamp() && b.live(c.index as int) && c.index != i
                    && c.generation == b.gens()[c.index as int]
                    && b.node_at(c.index as int).parent_link() == Some(b.id_at(i))
                    && b.depth_of(c.index as int) == b.depth_of(i) + 1
            } by {
            assert(a.live(i));
            assert(a.node_at(i) == b.node_at(i));
            let c = a.node_at(i).child_links()[k];
            assert(a.node_at(c.index as int) == b.node_at(c.index as int));
        }
        assert forall|i: int| #[trigger] b.live(i) implies b.node_at(i).child_links().no_duplicates() by {
            assert(a.live(i));
        }
    }

    /// Slot `j` held a node here and holds none in `later`.
    pub open spec fn removed_in(&self, later: &Tree<T>, j: int) -> bool {
        self.live(j) && !later.live(j)
    }

    /// `h` is one of `start`, or a child here of a node that `later` no
    /// longer holds.
    pub open spec fn reached(&self, later: &Tree<T>, start: Seq<NodeId>, h: NodeId) -> bool {
        start.contains(h) || exists|p: int|
            self.removed_in(later, p) && #[trigger] self.node_at(p).child_links().contains(h)
    }

    /// Children of live nodes are slots of this arena, and those still live
    /// name their parent.
    pub open spec fn loose_links(&self) -> bool {
        forall|i: int, k: int|
            self.live(i) && 0 <= k < self.node_at(i).child_links().len() ==> {
                let c = #[trigger] self.node_at(i).child_links()[k];
                c.tree_id == self.stamp() && c.index < self.slots().len() && (self.live(c.index as int)
                    ==> c.generation == self.gens()[c.index as int]
                    && self.node_at(c.index as int).parent_link() == Some(self.id_at(i)))
            }
    }

    /// Frame for a change that leaves the stamp, the root and the freed slots
    /// alone.
    pub open spec fn same_frame(&self, other: &Tree<T>) -> bool {
        &&& self.stamp() == other.stamp()
        &&& self.depths() == other.depths()
        &&& self.gens() == other.gens()
        &&& self.minted() == other.minted()
        &&& self.root_link() == other.root_link()
        &&& self.free_list() == other.free_list()
    }

    /// Puts `new_node` into a freed slot if there is one, else into a new slot
    /// at the end, and hands out its handle. The node enters with no parent and
    /// no children.
    fn insert_new_node(&mut self, new_node: Node<T>, depth: Ghost<int>) -> (r: NodeId)
        requires
            old(self).wf(),
            old(self).slots().len() < usize::MAX,
        ensures
            final(self).wf(),
            final(self).stamp() == old(self).stamp(),
            final(self).root_link() == old(self).root_link(),
            r == final(self).id_at(r.index as int),
            r.tree_id == old(self).stamp(),
            !old(self).live(r.index as int),
            !old(self).minted().contains(r),
            final(self).minted() == old(self).minted().insert(r),
            final(self).fresh_node_at(r.index as int, new_node.value()),
            final(self).depth_of(r.index as int) == depth@,
            forall|j: int| j != r.index ==> #[trigger] final(self).depth_of(j) == old(self).depth_of(j),
            old(self).slots().len() <= final(self).slots().len() <= old(self).slots().len() + 1,
            forall|i: int| 0 <= i < old(self).slots().len() && i != r.index
                ==> #[trigger] final(self).slots()[i] == old(self).slots()[i],
            forall|i: int| 0 <= i < old(self).slots().len() ==> #[trigger] final(self).gens()[i] == old(self).gens()[i],
            forall|i: int| i != r.index ==> #[trigger] final(self).live(i) == old(self).live(i),
            old(self).free_list().len() > 0 ==> r == old(self).free_list().last()
                && final(self).free_list() == old(self).free_list().drop_last()
                && final(self).slots() == old(self).slots().update(r.index as int, final(self).slots()[r.index as int]),
            old(self).free_list().len() == 0 ==> r.index == old(self).slots().len()
                && final(self).free_list() == old(self).free_list()
                && final(self).slots() == old(self).slots().push(final(self).slots()[r.index as int]),
    {
        let mut new_node = new_node;
        new_node.set_parent(None);
        new_node.clear_children();
        let r = if self.free_ids.len() > 0 {
            let new_node_id = self.free_ids.pop().unwrap();
            proof {
                assert(old(self).free_list()[old(self).free_list().len() - 1] == new_node_id);
            }
            self.nodes.set(new_node_id.index, Some(new_node));
            proof {
                assert forall|k: int| 0 <= k < self.free_list().len() implies
                    #[trigger] self.free_list()[k].index != new_node_id.index by {
                    assert(old(self).free_list()[k] == self.free_list()[k]);
                }
            }
            new_node_id
        } else {
            let new_node_index = self.nodes.len();
            self.nodes.push(Some(new_node));
            self.generations.push(0);
            NodeId { tree_id: self.id, index: new_node_index, generation: 0 }
        };
        let ghost od = self.depth@;
        self.depth = Ghost(|j: int| if j == r.index as int { depth@ } else { od(j) });
        let ghost om = self.minted@;
        self.minted = Ghost(om.insert(r));
        proof {
            let o = old(self);
            assert forall|i: int| 0 <= i < o.slots().len() && i != r.index implies
                #[trigger] self.slots()[i] == o.slots()[i] by {}
            assert forall|i: int| 0 <= i < o.slots().len() implies #[trigger] self.gens()[i] == o.gens()[i] by {}
            assert forall|i: int| 0 <= i < o.slots().len() && i != r.index implies
                #[trigger] self.id_at(i) == o.id_at(i) by {
                assert(self.gens()[i] == o.gens()[i]);
            }
            assert(r == self.id_at(r.index as int));
            assert forall|i: int| i != r.index implies #[trigger] self.live(i) == o.live(i) by {
                if 0 <= i < o.slots().len() {
                    assert(self.slots()[i] == o.slots()[i]);
                }
            }
            assert forall|k: int| 0 <= k < self.free_list().len() implies {
                let f = #[trigger] self.free_list()[k];
                &&& f.tree_id == self.stamp()
                &&& f.index < self.slots().len()
                &&& !self.live(f.index as int)
                &&& f.generation == self.gens()[f.index as int]
                &&& !self.minted().contains(f)
            } by {
                assert(o.free_list()[k] == self.free_list()[k]);
                let f = o.free_list()[k];
                assert(f.index != r.index);
                assert(self.gens()[f.index as int] == o.gens()[f.index as int]);
            }
            assert forall|h: NodeId| #[trigger] self.minted().contains(h) implies h.tree_id == self.stamp()
                && h.index < self.slots().len() && h.generation <= self.gens()[h.index as int] by {
                if h != r {
                    assert(o.minted().contains(h));
                    assert(self.gens()[h.index as int] == o.gens()[h.index as int]);
                }
            }
            assert forall|i: int| #[trigger] self.live(i) implies self.minted().contains(self.id_at(i)) by {
                if i != r.index {
                    assert(o.live(i));
                }
            }
            assert forall|i: int, k: int|
                self.live(i) && 0 <= k < self.node_at(i).child_links().len() implies {
                    let d = #[trigger] self.node_at(i).child_links()[k];
                    d.tree_id == self.stamp() && self.live(d.index as int) && d.index != i
                        && d.generation == self.gens()[d.index as int]
                        && self.node_at(d.index as int).parent_link() == Some(self.id_at(i))
                        && self.depth_of(d.index as int) == self.depth_of(i) + 1
                } by {
                assert(i != r.index);
                assert(o.live(i));
                let d = o.node_at(i).child_links()[k];
                assert(o.live(d.index as int));
                assert(self.gens()[d.index as int] == o.gens()[d.index as int]);
            }
            assert forall|i: int| #[trigger] self.live(i) implies self.node_at(i).child_links().no_duplicates() by {
                if i != r.index {
                    assert(o.live(i));
                }
            }
        }
        r
    }

    /// Makes `child_id` the last child of `parent_id` and `parent_id` the
    /// parent of `child_id`.
    fn set_as_parent_and_child(&mut self, parent_id: NodeId, child_id: NodeId)
        requires
            old(self).free_ok(),
            old(self).links_ok(),
            old(self).is_valid(parent_id),
            old(self).is_valid(child_id),
            parent_id.index != child_id.index,
            old(self).node_at(child_id.index as int).parent_link() is None,
            old(self).depth_of(child_id.index as int) == old(self).depth_of(parent_id.index as int) + 1,
        ensures
            final(self).free_ok(),
            final(self).links_ok(),
            final(self).same_frame(old(self)),
            final(self).slots().len() == old(self).slots().len(),
            forall|i: int| 0 <= i < old(self).slots().len() && i != parent_id.index && i != child_id.index
                ==> #[trigger] final(self).slots()[i] == old(self).slots()[i],
            forall|i: int| #[trigger] final(self).live(i) == old(self).live(i),
            final(self).node_at(parent_id.index as int).value() == old(self).node_at(parent_id.index as int).value(),
            final(self).node_at(parent_id.index as int).parent_link() == old(self).node_at(parent_id.index as int).parent_link(),
            final(self).node_at(parent_id.index as int).child_links() == old(self).node_at(parent_id.index as int).child_links().push(child_id),
            final(self).node_at(child_id.index as int).value() == old(self).node_at(child_id.index as int).value(),
            final(self).node_at(child_id.index as int).parent_link() == Some(parent_id),
            final(self).node_at(child_id.index as int).child_links() == old(self).node_at(child_id.index as int).child_links(),
    {
        let p = parent_id.index;
        let c = child_id.index;
        proof {
            // the child has no parent, so no live node lists it
            assert forall|i: int, k: int|
                old(self).live(i) && 0 <= k < old(self).node_at(i).child_links().len() implies
                #[trigger] old(self).node_at(i).child_links()[k] != child_id by {}
        }
        match self.nodes[p].as_mut() {
            Some(node) => node.add_child(child_id),
            None => {},
        }
        match self.nodes[c].as_mut() {
            Some(node) => node.set_parent(Some(parent_id)),
            None => {},
        }
        proof {
            let o = old(self);
            assert(parent_id == self.id_at(p as int));
            assert forall|i: int, k: int|
                self.live(i) && 0 <= k < self.node_at(i).child_links().len() implies {
                    let d = #[trigger] self.node_at(i).child_links()[k];
                    d.tree_id == self.stamp() && self.live(d.index as int) && d.index != i
                        && d.generation == self.gens()[d.index as int]
                        && self.node_at(d.index as int).parent_link() == Some(self.id_at(i))
                    && self.depth_of(d.index as int) == self.depth_of(i) + 1
                } by {
                if i == p as int {
                    if k < o.node_at(i).child_links().len() {
                        assert(o.node_at(i).child_links()[k] == self.node_at(i).child_links()[k]);
                    }
                } else {
                    assert(o.node_at(i).child_links()[k] == self.node_at(i).child_links()[k]);
                }
            }
            assert forall|i: int| #[trigger] self.live(i) implies self.node_at(i).child_links().no_duplicates() by {
                if i == p as int {
                    assert(o.live(i));
                    let s = self.node_at(i).child_links();
                    assert forall|a: int, b: int| 0 <= a < b < s.len() implies s[a] != s[b] by {
                        if b == s.len() - 1 {
                            assert(o.node_at(i).child_links()[a] == s[a]);
                        }
                    }
                } else {
                    assert(o.live(i));
                }
            }
            assert forall|i: int| #[trigger] self.live(i) == o.live(i) by {}
            Self::lemma_bookkeeping_frame(o, self);
        }
    }

    /// Puts `new_root` in the tree as its root. A root already there becomes
    /// the only child of the new one, its own subtree unchanged.
    pub fn set_root(&mut self, new_root: Node<T>) -> (r: NodeId)
        requires
            old(self).wf(),
            old(self).slots().len() < usize::MAX,
        ensures
            final(self).wf(),
            root_set(*old(self), *final(self), new_root.value(), r),
    {
        let ghost depth = match self.root {
            Some(current) => self.depth_of(current.index as int) - 1,
            None => 0,
        };
        let new_root_id = self.insert_new_node(new_root, Ghost(depth));
        let ghost mid = *self;
        match self.root {
            Some(current_root_node_id) => {
                self.set_as_parent_and_child(new_root_id, current_root_node_id);
                assert forall|i: int| 0 <= i < old(self).slots().len() && i != new_root_id.index
                    && i != current_root_node_id.index implies #[trigger] self.slots()[i] == old(self).slots()[i] by {
                    assert(self.slots()[i] == mid.slots()[i]);
                }
            },
            None => {},
        }
        let ghost before = *self;
        proof {
            assert(before.gens() == mid.gens());
            assert forall|i: int| #[trigger] before.live(i) == mid.live(i) by {}
        }
        self.root = Some(new_root_id);
        proof {
            Self::lemma_links_frame(&before, self);
            assert(self.slots() == before.slots());
            assert(mid.live(new_root_id.index as int));
            assert(before.live(new_root_id.index as int));
            assert(self.gens() == mid.gens());
            assert(self.is_valid(new_root_id));
            assert forall|i: int| 0 <= i < old(self).slots().len() implies
                #[trigger] self.gens()[i] == old(self).gens()[i] by {
                assert(mid.gens()[i] == old(self).gens()[i]);
            }
            assert forall|i: int| i != new_root_id.index implies #[trigger] self.live(i) == old(self).live(i) by {
                assert(mid.live(i) == old(self).live(i));
                assert(before.live(i) == mid.live(i));
            }
            Self::lemma_refused_stay_refused(old(self), self, new_root_id);
        }
        new_root_id
    }

    /// Adds `child` as the last child of the node behind `parent_id` and
    /// hands out its handle; refuses a handle that is not valid here, and
    /// then changes nothing.
    pub fn insert_with_parent(&mut self, child: Node<T>, parent_id: NodeId) -> (r: Result<NodeId, NodeIdError>)
        requires
            old(self).wf(),
            old(self).in_bounds(parent_id),
            old(self).slots().len() < usize::MAX,
        ensures
            final(self).wf(),
            inserted_under(*old(self), *final(self), child.value(), parent_id, r),
    {
        let (is_valid, error) = self.is_valid_node_id(parent_id);
        if !is_valid {
            return Err(error.unwrap());
        }
        let new_child_id = self.insert_new_node(child, Ghost(self.depth_of(parent_id.index as int) + 1));
        let ghost mid = *self;
        self.set_as_parent_and_child(parent_id, new_child_id);
        proof {
            assert forall|i: int| 0 <= i < old(self).slots().len() implies
                #[trigger] self.gens()[i] == old(self).gens()[i] by {
                assert(mid.gens()[i] == old(self).gens()[i]);
            }
            assert forall|i: int| i != new_child_id.index implies #[trigger] self.live(i) == old(self).live(i) by {
                assert(mid.live(i) == old(self).live(i));
            }
            Self::lemma_refused_stay_refused(old(self), self, new_child_id);
        }
        Ok(new_child_id)
    }

    /// Takes the node out of its slot and moves the slot to its next
    /// generation, listing it as free with the handle of that generation. A
    /// slot whose generation cannot grow any more is left empty for good.
    /// Touches no other node.
    fn remove_node_dirty(&mut self, node_id: NodeId) -> (r: Node<T>)
        requires
            old(self).free_ok(),
            old(self).is_valid(node_id),
        ensures
            r == old(self).node_at(node_id.index as int),
            final(self).free_ok(),
            final(self).stamp() == old(self).stamp(),
            final(self).root_link() == old(self).root_link(),
            final(self).slots() == old(self).slots().update(node_id.index as int, None),
            final(self).depths() == old(self).depths(),
            final(self).minted() == old(self).minted(),
            final(self).gens().len() == old(self).gens().len(),
            final(self).gens()[node_id.index as int] > node_id.generation
                || final(self).gens()[node_id.index as int] == u64::MAX,
            old(self).gens()[node_id.index as int] < u64::MAX
                ==> final(self).free_list() == old(self).free_list().push(final(self).id_at(node_id.index as int)),
            old(self).gens()[node_id.index as int] == u64::MAX ==> final(self).free_list() == old(self).free_list(),
            forall|i: int| 0 <= i < old(self).slots().len() && i != node_id.index
                ==> #[trigger] final(self).gens()[i] == old(self).gens()[i],
    {
        let i = node_id.index;
        let slot = self.nodes[i].take();
        let g = self.generations[i];
        if g < u64::MAX {
            self.generations.set(i, g + 1);
            self.free_ids.push(NodeId { tree_id: self.id, index: i, generation: g + 1 });
        }
        proof {
            let o = old(self);
            assert(self.slots() =~= o.slots().update(i as int, None));
            assert forall|j: int| 0 <= j < o.slots().len() && j != i implies
                #[trigger] self.gens()[j] == o.gens()[j] by {}
            assert forall|k: int| 0 <= k < self.free_list().len() implies {
                let f = #[trigger] self.free_list()[k];
                &&& f.tree_id == self.stamp()
                &&& f.index < self.slots().len()
                &&& !self.live(f.index as int)
                &&& f.generation == self.gens()[f.index as int]
                &&& !self.minted().contains(f)
            } by {
                if k < o.free_list().len() {
                    assert(o.free_list()[k] == self.free_list()[k]);
                    assert(self.free_list()[k].index != i);
                } else {
                    let f = self.free_list()[k];
                    if self.minted().contains(f) {
                        assert(o.minted().contains(f));
                    }
                }
            }
            assert forall|k1: int, k2: int|
                0 <= k1 < self.free_list().len() && 0 <= k2 < self.free_list().len() && k1 != k2
                implies #[trigger] self.free_list()[k1].index != #[trigger] self.free_list()[k2].index by {
                if k1 < o.free_list().len() {
                    assert(o.free_list()[k1] == self.free_list()[k1]);
                }
                if k2 < o.free_list().len() {
                    assert(o.free_list()[k2] == self.free_list()[k2]);
                }
            }
            assert forall|h: NodeId| #[trigger] self.minted().contains(h) implies h.tree_id == self.stamp()
                && h.index < self.slots().len() && h.generation <= self.gens()[h.index as int] by {
                assert(o.minted().contains(h));
            }
            assert forall|j: int| #[trigger] self.live(j) implies self.minted().contains(self.id_at(j)) by {
                assert(o.live(j));
                assert(self.id_at(j) == o.id_at(j));
            }
        }
        slot.unwrap()
    }

    /// Takes `node_id` out of the children of `parent`, where `parent` is a
    /// valid handle here; otherwise changes nothing.
    fn detach_from_parent(&mut self, parent: Option<NodeId>, node_id: NodeId)
        requires
            old(self).gens().len() == old(self).slots().len(),
        ensures
            final(self).same_frame(old(self)),
            final(self).slots().len() == old(self).slots().len(),
            forall|i: int| #[trigger] final(self).live(i) == old(self).live(i),
            match parent {
                Some(p) => old(self).is_valid(p) ==> {
                    let pi = p.index as int;
                    &&& forall|i: int| 0 <= i < old(self).slots().len() && i != pi
                        ==> #[trigger] final(self).slots()[i] == old(self).slots()[i]
                    &&& final(self).node_at(pi).value() == old(self).node_at(pi).value()
                    &&& final(self).node_at(pi).parent_link() == old(self).node_at(pi).parent_link()
                    &&& final(self).node_at(pi).child_links() == without(old(self).node_at(pi).child_links(), node_id)
                },
                None => true,
            },
            match parent {
                Some(p) => !old(self).is_valid(p) ==> *final(self) == *old(self),
                None => *final(self) == *old(self),
            },
    {
        match parent {
            Some(parent_id) => {
                if parent_id.tree_id == self.id && parent_id.index < self.nodes.len()
                    && self.nodes[parent_id.index].is_some() && self.generations[parent_id.index] == parent_id.generation {
                    match self.nodes[parent_id.index].as_mut() {
                        Some(parent_node) => parent_node.remove_child(node_id),
                        None => {},
                    }
                }
            },
            None => {},
        }
    }

    /// Takes the node out and detaches it from its parent. Its children stay
    /// in the arena, their parent link pointing at the removed handle.
    fn remove_node(&mut self, node_id: NodeId) -> (r: Node<T>)
        requires
            old(self).free_ok(),
            old(self).links_ok(),
            old(self).is_valid(node_id),
        ensures
            r == old(self).node_at(node_id.index as int),
            final(self).free_ok(),
            final(self).links_ok(),
            final(self).depths() == old(self).depths(),
            final(self).minted() == old(self).minted(),
            final(self).stamp() == old(self).stamp(),
            final(self).root_link() == old(self).root_link(),
            final(self).slots().len() == old(self).slots().len(),
            forall|i: int| 0 <= i < old(self).slots().len() && i != node_id.index ==>
                #[trigger] final(self).gens()[i] == old(self).gens()[i],
            !final(self).live(node_id.index as int),
            forall|i: int| 0 <= i < old(self).slots().len() && i != node_id.index ==>
                #[trigger] final(self).live(i) == old(self).live(i),
            forall|i: int| #[trigger] final(self).live(i) ==> {
                &&& final(self).node_at(i).value() == old(self).node_at(i).value()
                &&& final(self).node_at(i).parent_link() == old(self).node_at(i).parent_link()
                &&& final(self).node_at(i).child_links() == without(old(self).node_at(i).child_links(), node_id)
            },
    {
        let node = self.remove_node_dirty(node_id);
        let ghost mid = *self;
        self.detach_from_parent(node.parent(), node_id);
        proof {
            let o = old(self);
            let x = node_id.index as int;
            assert(node_id == o.id_at(x));
            assert forall|i: int| #[trigger] self.live(i) implies {
                &&& self.node_at(i).value() == o.node_at(i).value()
                &&& self.node_at(i).parent_link() == o.node_at(i).parent_link()
                &&& self.node_at(i).child_links() == without(o.node_at(i).child_links(), node_id)
            } by {
                assert(o.live(i));
                assert(mid.live(i));
                let is_parent = node.parent_link() == Some(o.id_at(i));
                if is_parent {
                    let p = node.parent_link().unwrap();
                    assert(p.index as int == i);
                    assert(mid.is_valid(p));
                    assert(mid.node_at(i) == o.node_at(i));
                } else {
                    assert(self.slots()[i] == mid.slots()[i]);
                    assert(mid.slots()[i] == o.slots()[i]);
                    let s = o.node_at(i).child_links();
                    assert forall|k: int| 0 <= k < s.len() implies #[trigger] s[k] != node_id by {
                        let c = s[k];
                        assert(o.live(c.index as int));
                    }
                    lemma_without_all_kept(s, node_id);
                }
            }
            assert forall|i: int, k: int|
                self.live(i) && 0 <= k < self.node_at(i).child_links().len() implies {
                    let c = #[trigger] self.node_at(i).child_links()[k];
                    c.tree_id == self.stamp() && self.live(c.index as int) && c.index != i
                        && c.generation == self.gens()[c.index as int]
                        && self.node_at(c.index as int).parent_link() == Some(self.id_at(i))
                    && self.depth_of(c.index as int) == self.depth_of(i) + 1
                } by {
                let s = o.node_at(i).child_links();
                lemma_without_subset(s, node_id);
                let c = self.node_at(i).child_links()[k];
                let j = choose|j: int| 0 <= j < s.len() && s[j] == c;
                assert(o.node_at(i).child_links()[j] == c);
                assert(o.live(c.index as int));
                assert(c.index != node_id.index);
                assert(self.live(c.index as int));
            }
            assert forall|i: int| #[trigger] self.live(i) implies self.node_at(i).child_links().no_duplicates() by {
                assert(o.live(i));
                lemma_without_no_duplicates(o.node_at(i).child_links(), node_id);
            }
            Self::lemma_bookkeeping_frame(&mid, self);
        }
        node
    }

    /// Removes the node behind `node_id` and nothing else, or refuses a
    /// handle that is not valid here and then changes nothing. The node comes
    /// back with its children listed; they stay in the arena, each still
    /// naming the removed handle as its parent. Removing the root leaves the
    /// tree without one.
    pub fn remove_node_orphan_children(&mut self, node_id: NodeId) -> (r: Result<Node<T>, NodeIdError>)
        requires
            old(self).wf(),
            old(self).in_bounds(node_id),
        ensures
            final(self).wf(),
            removed_orphaning(*old(self), *final(self), node_id, r),
    {
        let (is_valid, error) = self.is_valid_node_id(node_id);
        if !is_valid {
            return Err(error.unwrap());
        }
        let ghost o = *self;
        if self.is_root_node(node_id) {
            self.root = None;
            proof {
                Self::lemma_links_frame(&o, self);
            }
        }
        let node = self.remove_node(node_id);
        proof {
            match self.root_link() {
                Some(rt) => {
                    assert(o.live(rt.index as int));
                    assert(self.live(rt.index as int));
                    assert(self.gens()[rt.index as int] == o.gens()[rt.index as int]);
                },
                None => {},
            }
        }
        Ok(node)
    }

    /// What was reached stays reached while more nodes go.
    proof fn lemma_reached_grows(o: &Tree<T>, a: &Tree<T>, b: &Tree<T>, start: Seq<NodeId>, h: NodeId)
        requires
            o.reached(a, start, h),
            forall|i: int| !a.live(i) ==> !#[trigger] b.live(i),
        ensures
            o.reached(b, start, h),
    {
        if !start.contains(h) {
            let p = choose|p: int| o.removed_in(a, p) && #[trigger] o.node_at(p).child_links().contains(h);
            assert(o.removed_in(b, p));
        }
    }

    /// Removes every node reachable through children from `children`, the
    /// nodes themselves included, and lists their slots as free.
    fn drop_children_recursive(&mut self, children: Vec<NodeId>)
        requires
            old(self).free_ok(),
            old(self).loose_links(),
            forall|k: int| 0 <= k < children@.len() ==> (#[trigger] children@[k]).tree_id == old(self).stamp()
                && children@[k].index < old(self).slots().len()
                && (old(self).live(children@[k].index as int)
                    ==> children@[k].generation == old(self).gens()[children@[k].index as int]),
        ensures
            final(self).free_ok(),
            final(self).stamp() == old(self).stamp(),
            final(self).root_link() == old(self).root_link(),
            final(self).depths() == old(self).depths(),
            final(self).minted() == old(self).minted(),
            final(self).slots().len() == old(self).slots().len(),
            final(self).gens().len() == old(self).gens().len(),
            forall|i: int| 0 <= i < old(self).slots().len() ==>
                old(self).removed_in(final(self), i) || #[trigger] final(self).gens()[i] == old(self).gens()[i],
            old(self).free_list().len() <= final(self).free_list().len(),
            forall|k: int| 0 <= k < old(self).free_list().len() ==> #[trigger] final(self).free_list()[k] == old(self).free_list()[k],
            forall|k: int| old(self).free_list().len() <= k < final(self).free_list().len()
                ==> old(self).removed_in(final(self), (#[trigger] final(self).free_list()[k]).index as int),
            forall|j: int| #[trigger] old(self).removed_in(final(self), j) ==> final(self).gens()[j] == u64::MAX
                || final(self).free_list().contains(final(self).id_at(j)),
            forall|i: int| 0 <= i < old(self).slots().len() ==>
                old(self).removed_in(final(self), i) || #[trigger] final(self).slots()[i] == old(self).slots()[i],
            forall|k: int| 0 <= k < children@.len() ==> !final(self).live((#[trigger] children@[k]).index as int),
            forall|j: int, k: int| #![trigger old(self).removed_in(final(self), j), old(self).node_at(j).child_links()[k]]
                old(self).removed_in(final(self), j) && 0 <= k < old(self).node_at(j).child_links().len()
                ==> !final(self).live(old(self).node_at(j).child_links()[k].index as int),
            forall|j: int| #[trigger] old(self).removed_in(final(self), j) ==>
                old(self).reached(final(self), children@, old(self).id_at(j)),
    {
        let ghost o = *self;
        let ghost st = children@;
        let mut stack = children;
        while stack.len() > 0
            invariant
                self.stamp() == o.stamp(),
                self.root_link() == o.root_link(),
                self.depths() == o.depths(),
                self.minted() == o.minted(),
                self.slots().len() == o.slots().len(),
                self.gens().len() == o.gens().len(),
                self.free_ok(),
                o.loose_links(),
                forall|i: int| 0 <= i < o.slots().len() ==>
                    o.removed_in(self, i) || #[trigger] self.slots()[i] == o.slots()[i],
                forall|i: int| 0 <= i < o.slots().len() ==>
                    o.removed_in(self, i) || #[trigger] self.gens()[i] == o.gens()[i],
                o.free_list().len() <= self.free_list().len(),
                forall|k: int| 0 <= k < o.free_list().len() ==> #[trigger] self.free_list()[k] == o.free_list()[k],
                forall|k: int| o.free_list().len() <= k < self.free_list().len()
                    ==> o.removed_in(self, (#[trigger] self.free_list()[k]).index as int),
                forall|j: int| #[trigger] o.removed_in(self, j) ==> self.gens()[j] == u64::MAX
                    || self.free_list().contains(self.id_at(j)),
                forall|k: int| 0 <= k < stack@.len() ==> (#[trigger] stack@[k]).tree_id == o.stamp()
                    && stack@[k].index < o.slots().len()
                    && (o.live(stack@[k].index as int) ==> stack@[k].generation == o.gens()[stack@[k].index as int]),
                forall|k: int| 0 <= k < stack@.len() && self.live((#[trigger] stack@[k]).index as int)
                    ==> o.reached(self, st, stack@[k]),
                forall|j: int| #[trigger] o.removed_in(self, j) ==> o.reached(self, st, o.id_at(j)),
                forall|k: int| 0 <= k < st.len() ==> !self.live((#[trigger] st[k]).index as int)
                    || stack@.contains(st[k]),
                forall|j: int, k: int| #![trigger o.removed_in(self, j), o.node_at(j).child_links()[k]]
                    o.removed_in(self, j) && 0 <= k < o.node_at(j).child_links().len() ==>
                    !self.live(o.node_at(j).child_links()[k].index as int)
                    || stack@.contains(o.node_at(j).child_links()[k]),
            decreases live_count(self.slots()), stack@.len(),
        {
            let ghost prev = stack@;
            let c = stack.pop().unwrap();
            proof {
                assert(prev[prev.len() - 1] == c);
                assert(prev =~= stack@.push(c));
            }
            if self.nodes[c.index].is_some() {
                let ghost before = *self;
                proof {
                    lemma_live_count_clear(self.slots(), c.index as int);
                    assert(self.slots()[c.index as int] == o.slots()[c.index as int]);
                    assert(self.gens()[c.index as int] == o.gens()[c.index as int]);
                }
                let mut removed_node = self.remove_node_dirty(c);
                let mut kids = removed_node.take_children();
                let ghost base = stack@;
                let ghost ks = kids@;
                stack.append(&mut kids);
                proof {
                    let ci = c.index as int;
                    assert(ks == o.node_at(ci).child_links());
                    assert(stack@ == base + ks);
                    assert forall|i: int| !before.live(i) implies !#[trigger] self.live(i) by {}
                    assert forall|i: int| 0 <= i < o.slots().len() implies
                        o.removed_in(self, i) || #[trigger] self.slots()[i] == o.slots()[i] by {
                        if i != ci {
                            assert(self.slots()[i] == before.slots()[i]);
                        }
                    }
                    assert forall|i: int| 0 <= i < o.slots().len() implies
                        o.removed_in(self, i) || #[trigger] self.gens()[i] == o.gens()[i] by {
                        if i != ci {
                            assert(self.gens()[i] == before.gens()[i]);
                            assert(before.slots()[i] == self.slots()[i] || i == ci);
                        }
                    }
                    assert forall|k: int| 0 <= k < o.free_list().len() implies
                        #[trigger] self.free_list()[k] == o.free_list()[k] by {
                        assert(before.free_list()[k] == o.free_list()[k]);
                    }
                    assert forall|k: int| o.free_list().len() <= k < self.free_list().len()
                        implies o.removed_in(self, (#[trigger] self.free_list()[k]).index as int) by {
                        if k < before.free_list().len() {
                            assert(self.free_list()[k] == before.free_list()[k]);
                            assert(o.removed_in(&before, before.free_list()[k].index as int));
                        }
                    }
                    assert forall|j: int| #[trigger] o.removed_in(self, j) implies self.gens()[j] == u64::MAX
                        || self.free_list().contains(self.id_at(j)) by {
                        if j == ci {
                            if self.gens()[j] != u64::MAX {
                                assert(self.free_list()[self.free_list().len() - 1] == self.id_at(j));
                            }
                        } else {
                            assert(o.removed_in(&before, j));
                            assert(self.gens()[j] == before.gens()[j]);
                            assert(self.id_at(j) == before.id_at(j));
                            if before.gens()[j] != u64::MAX {
                                let m = choose|m: int| 0 <= m < before.free_list().len()
                                    && before.free_list()[m] == before.id_at(j);
                                assert(self.free_list()[m] == before.free_list()[m]);
                            }
                        }
                    }
                    assert forall|k: int| 0 <= k < stack@.len() implies (#[trigger] stack@[k]).tree_id == o.stamp()
                        && stack@[k].index < o.slots().len()
                        && (o.live(stack@[k].index as int) ==> stack@[k].generation == o.gens()[stack@[k].index as int]) by {
                        if k < base.len() {
                            assert(stack@[k] == prev[k]);
                        } else {
                            assert(stack@[k] == o.node_at(ci).child_links()[k - base.len()]);
                        }
                    }
                    assert forall|k: int| 0 <= k < stack@.len() && self.live((#[trigger] stack@[k]).index as int)
                        implies o.reached(self, st, stack@[k]) by {
                        if k < base.len() {
                            assert(stack@[k] == prev[k]);
                            Self::lemma_reached_grows(&o, &before, self, st, stack@[k]);
                        } else {
                            let d = stack@[k];
                            assert(d == o.node_at(ci).child_links()[k - base.len()]);
                            assert(o.node_at(ci).child_links().contains(d));
                            assert(o.removed_in(self, ci));
                        }
                    }
                    assert forall|j: int| #[trigger] o.removed_in(self, j) implies o.reached(self, st, o.id_at(j)) by {
                        if j == ci {
                            assert(prev[prev.len() - 1] == c);
                            Self::lemma_reached_grows(&o, &before, self, st, c);
                        } else {
                            assert(o.removed_in(&before, j));
                            Self::lemma_reached_grows(&o, &before, self, st, o.id_at(j));
                        }
                    }
                    assert forall|k: int| 0 <= k < st.len() implies !self.live((#[trigger] st[k]).index as int)
                        || stack@.contains(st[k]) by {
                        if self.live(st[k].index as int) {
                            assert(prev.contains(st[k]));
                            let m = choose|m: int| 0 <= m < prev.len() && prev[m] == st[k];
                            assert(m < base.len());
                            assert(stack@[m] == st[k]);
                        }
                    }
                    assert forall|j: int, k: int| #![trigger o.removed_in(self, j), o.node_at(j).child_links()[k]]
                        o.removed_in(self, j) && 0 <= k < o.node_at(j).child_links().len() implies
                        !self.live(o.node_at(j).child_links()[k].index as int)
                        || stack@.contains(o.node_at(j).child_links()[k]) by {
                        let d = o.node_at(j).child_links()[k];
                        if j == ci {
                            assert(stack@[base.len() + k] == d);
                        } else if self.live(d.index as int) {
                            assert(o.removed_in(&before, j));
                            assert(prev.contains(d));
                            let m = choose|m: int| 0 <= m < prev.len() && prev[m] == d;
                            assert(m < base.len());
                            assert(stack@[m] == d);
                        }
                    }
                }
            } else {
                proof {
                    assert forall|k: int| 0 <= k < stack@.len() implies (#[trigger] stack@[k]).tree_id == o.stamp()
                        && stack@[k].index < o.slots().len()
                        && (o.live(stack@[k].index as int) ==> stack@[k].generation == o.gens()[stack@[k].index as int]) by {
                        assert(stack@[k] == prev[k]);
                    }
                    assert forall|k: int| 0 <= k < stack@.len() && self.live((#[trigger] stack@[k]).index as int)
                        implies o.reached(self, st, stack@[k]) by {
                        assert(stack@[k] == prev[k]);
                    }
                    assert forall|k: int| 0 <= k < st.len() implies !self.live((#[trigger] st[k]).index as int)
                        || stack@.contains(st[k]) by {
                        if self.live(st[k].index as int) {
                            assert(prev.contains(st[k]));
                            let m = choose|m: int| 0 <= m < prev.len() && prev[m] == st[k];
                            assert(m < stack@.len());
                            assert(stack@[m] == st[k]);
                        }
                    }
                    assert forall|j: int, k: int| #![trigger o.removed_in(self, j), o.node_at(j).child_links()[k]]
                        o.removed_in(self, j) && 0 <= k < o.node_at(j).child_links().len() implies
                        !self.live(o.node_at(j).child_links()[k].index as int)
                        || stack@.contains(o.node_at(j).child_links()[k]) by {
                        let d = o.node_at(j).child_links()[k];
                        if self.live(d.index as int) {
                            assert(prev.contains(d));
                            let m = choose|m: int| 0 <= m < prev.len() && prev[m] == d;
                            assert(m < stack@.len());
                            assert(stack@[m] == d);
                        }
                    }
                }
            }
        }
    }

    /// Removes the node behind `node_id` together with every node below it,
    /// or refuses a handle that is not valid here and then changes nothing.
    /// The node comes back with no children listed, since their handles are
    /// dead. Removing the root leaves the tree without one.
    pub fn remove_node_drop_children(&mut self, node_id: NodeId) -> (r: Result<Node<T>, NodeIdError>)
        requires
            old(self).wf(),
            old(self).in_bounds(node_id),
        ensures
            final(self).wf(),
            removed_cascading(*old(self), *final(self), node_id, r),
    {
        let (is_valid, error) = self.is_valid_node_id(node_id);
        if !is_valid {
            return Err(error.unwrap());
        }
        let ghost o = *self;
        if self.is_root_node(node_id) {
            self.root = None;
            proof {
                Self::lemma_links_frame(&o, self);
            }
        }
        let mut node = self.remove_node_dirty(node_id);
        let ghost s1 = *self;
        let x = node_id.index;
        proof {
            assert(node_id == o.id_at(x as int));
            assert forall|i: int, k: int|
                s1.live(i) && 0 <= k < s1.node_at(i).child_links().len() implies {
                    let c = #[trigger] s1.node_at(i).child_links()[k];
                    c.tree_id == s1.stamp() && c.index < s1.slots().len() && (s1.live(c.index as int)
                        ==> c.generation == s1.gens()[c.index as int]
                        && s1.node_at(c.index as int).parent_link() == Some(s1.id_at(i)))
                } by {
                assert(o.live(i));
                assert(s1.node_at(i) == o.node_at(i));
                assert(s1.id_at(i) == o.id_at(i));
                let c = o.node_at(i).child_links()[k];
                assert(o.live(c.index as int));
                if s1.live(c.index as int) {
                    assert(s1.gens()[c.index as int] == o.gens()[c.index as int]);
                }
            }
            assert forall|k: int| 0 <= k < node.child_links().len() implies
                (#[trigger] node.child_links()[k]).tree_id == s1.stamp() && node.child_links()[k].index < s1.slots().len()
                && (s1.live(node.child_links()[k].index as int)
                    ==> node.child_links()[k].generation == s1.gens()[node.child_links()[k].index as int]) by {
                let c = o.node_at(x as int).child_links()[k];
                assert(o.live(c.index as int));
                assert(s1.gens()[c.index as int] == o.gens()[c.index as int]);
            }
        }
        let children = node.take_children();
        self.drop_children_recursive(children);
        let ghost s2 = *self;
        self.detach_from_parent(node.parent(), node_id);
        proof {
            let st = o.node_at(x as int).child_links();
            let pl = o.node_at(x as int).parent_link();
            // what drop and detach left, slot by slot
            assert forall|i: int| #[trigger] self.live(i) implies {
                &&& o.live(i)
                &&& i != x
                &&& s2.slots()[i] == o.slots()[i]
                &&& self.node_at(i).value() == o.node_at(i).value()
                &&& self.node_at(i).parent_link() == o.node_at(i).parent_link()
                &&& self.node_at(i).child_links() == without(o.node_at(i).child_links(), node_id)
            } by {
                assert(s2.live(i));
                assert(s2.slots()[i] == s1.slots()[i]);
                assert(i != x);
                assert(s1.slots()[i] == o.slots()[i]);
                if pl == Some(o.id_at(i)) {
                    let p = pl.unwrap();
                    assert(p.index as int == i);
                    assert(s2.is_valid(p));
                } else {
                    assert(self.slots()[i] == s2.slots()[i]);
                    let s = o.node_at(i).child_links();
                    assert forall|k: int| 0 <= k < s.len() implies #[trigger] s[k] != node_id by {
                        let c = s[k];
                        assert(o.live(c.index as int));
                    }
                    lemma_without_all_kept(s, node_id);
                }
            }
            // no live node was reached by the removal
            assert forall|i: int| #[trigger] self.live(i) && o.live(i) implies !o.reached(&s2, st, o.id_at(i)) by {
                let h = o.id_at(i);
                assert(s2.live(i));
                if st.contains(h) {
                    let k = choose|k: int| 0 <= k < st.len() && st[k] == h;
                    assert(o.live(h.index as int));
                    assert(h.index as int == i);
                    assert(o.node_at(i).parent_link() == Some(node_id));
                    assert(s2.slots()[x as int] is None);
                }
                if exists|p: int| o.removed_in(&s2, p) && #[trigger] o.node_at(p).child_links().contains(h) {
                    let p = choose|p: int| o.removed_in(&s2, p) && #[trigger] o.node_at(p).child_links().contains(h);
                    assert(s1.live(p));
                    assert(s1.node_at(p) == o.node_at(p));
                    let k = choose|k: int| 0 <= k < o.node_at(p).child_links().len() && o.node_at(p).child_links()[k] == h;
                    assert(o.node_at(i).parent_link() == Some(o.id_at(p)));
                    assert(o.id_at(p).index as int == p);
                }
            }
            assert forall|i: int| 0 <= i < o.slots().len() && o.live(i) && !self.live(i) && i != x implies
                #[trigger] s1.removed_in(&s2, i) by {
                assert(s1.live(i));
                assert(!s2.live(i));
            }
            // the root is still there, or was the removed node
            match self.root_link() {
                Some(rt) => {
                    let ri = rt.index as int;
                    assert(o.live(ri));
                    assert(rt != node_id);
                    assert(s1.live(ri));
                    assert(s1.node_at(ri) == o.node_at(ri));
                    if !s2.live(ri) {
                        assert(s1.removed_in(&s2, ri));
                        assert(s1.reached(&s2, st, s1.id_at(ri)));
                        if st.contains(rt) {
                            let k = choose|k: int| 0 <= k < st.len() && st[k] == rt;
                            assert(o.node_at(x as int).child_links()[k] == rt);
                        } else {
                            let p = choose|p: int| s1.removed_in(&s2, p) && #[trigger] s1.node_at(p).child_links().contains(rt);
                            assert(s1.node_at(p) == o.node_at(p));
                            let k = choose|k: int| 0 <= k < o.node_at(p).child_links().len() && o.node_at(p).child_links()[k] == rt;
                        }
                    }
                    assert(self.live(ri));
                },
                None => {},
            }
            assert forall|i: int, k: int|
                self.live(i) && 0 <= k < self.node_at(i).child_links().len() implies {
                    let c = #[trigger] self.node_at(i).child_links()[k];
                    c.tree_id == self.stamp() && self.live(c.index as int) && c.index != i
                        && c.generation == self.gens()[c.index as int]
                        && self.node_at(c.index as int).parent_link() == Some(self.id_at(i))
                    && self.depth_of(c.index as int) == self.depth_of(i) + 1
                } by {
                let s = o.node_at(i).child_links();
                lemma_without_subset(s, node_id);
                let c = self.node_at(i).child_links()[k];
                let j = choose|j: int| 0 <= j < s.len() && s[j] == c;
                assert(o.node_at(i).child_links()[j] == c);
                let ci = c.index as int;
                assert(o.live(ci));
                assert(ci != x);
                assert(s1.live(ci));
                if !s2.live(ci) {
                    assert(s1.removed_in(&s2, ci));
                    assert(s1.reached(&s2, st, s1.id_at(ci)));
                    assert(s1.id_at(ci) == c);
                    if st.contains(c) {
                        let m = choose|m: int| 0 <= m < st.len() && st[m] == c;
                        assert(o.node_at(x as int).child_links()[m] == c);
                    } else {
                        let p = choose|p: int| s1.removed_in(&s2, p) && #[trigger] s1.node_at(p).child_links().contains(c);
                        assert(s1.node_at(p) == o.node_at(p));
                        let m = choose|m: int| 0 <= m < o.node_at(p).child_links().len() && o.node_at(p).child_links()[m] == c;
                        assert(o.id_at(p).index as int == p);
                    }
                }
                assert(self.live(ci));
            }
            assert forall|i: int| #[trigger] self.live(i) implies self.node_at(i).child_links().no_duplicates() by {
                lemma_without_no_duplicates(o.node_at(i).child_links(), node_id);
            }
            Self::lemma_bookkeeping_frame(&s2, self);
            // what went: the node, and all reached from its children
            assert forall|j: int, k: int| #![trigger o.removed_in(self, j), o.node_at(j).child_links()[k]]
                o.removed_in(self, j) && 0 <= k < o.node_at(j).child_links().len()
                implies !self.live(o.node_at(j).child_links()[k].index as int) by {
                let d = o.node_at(j).child_links()[k];
                if j == x as int {
                    assert(st[k] == d);
                } else {
                    assert(s1.removed_in(&s2, j));
                    assert(s1.node_at(j) == o.node_at(j));
                    assert(!s2.live(s1.node_at(j).child_links()[k].index as int));
                }
            }
            assert forall|j: int| #[trigger] o.removed_in(self, j) implies j == x as int
                || exists|p: int| o.removed_in(self, p)
                    && #[trigger] o.node_at(p).child_links().contains(o.id_at(j)) by {
                if j != x as int {
                    assert(s1.removed_in(&s2, j));
                    let h = s1.id_at(j);
                    assert(s1.reached(&s2, st, h));
                    if st.contains(h) {
                        assert(o.removed_in(self, x as int));
                        assert(o.node_at(x as int).child_links().contains(o.id_at(j)));
                    } else {
                        let p = choose|p: int| s1.removed_in(&s2, p) && #[trigger] s1.node_at(p).child_links().contains(h);
                        assert(s1.node_at(p) == o.node_at(p));
                        assert(o.removed_in(self, p));
                        assert(o.node_at(p).child_links().contains(o.id_at(j)));
                    }
                }
            }
        }
        Ok(node)
    }

    /// Appends to `out` the post-order of the node behind `node_id`, walking
    /// at most `fuel` levels down.
    fn post_order_into(&self, node_id: NodeId, fuel: usize, out: &mut Vec<NodeId>)
        requires
            self.wf(),
            self.in_bounds(node_id),
        ensures
            final(out)@ == old(out)@ + post_order(*self, node_id, fuel as nat),
        decreases fuel,
    {
        if fuel == 0 {
            assert(old(out)@ + post_order(*self, node_id, 0) =~= old(out)@);
            return;
        }
        match self.get(node_id) {
            None => {
                assert(old(out)@ + post_order(*self, node_id, fuel as nat) =~= old(out)@);
            },
            Some(node) => {
                let children = node.children();
                let ghost cs = children@;
                let mut i: usize = 0;
                while i < children.len()
                    invariant
                        self.wf(),
                        children@ == cs,
                        cs == self.node_at(node_id.index as int).child_links(),
                        self.live(node_id.index as int),
                        0 <= i <= cs.len(),
                        fuel > 0,
                        out@ == old(out)@ + post_order_all(*self, cs.take(i as int), (fuel - 1) as nat),
                    decreases cs.len() - i,
                {
                    let c = children[i];
                    proof {
                        let ni = node_id.index as int;
                        assert(self.node_at(ni).child_links()[i as int] == c);
                        assert(cs.take(i as int + 1).drop_last() =~= cs.take(i as int));
                        assert(cs.take(i as int + 1).last() == c);
                    }
                    self.post_order_into(c, fuel - 1, out);
                    proof {
                        assert(out@ =~= old(out)@ + post_order_all(*self, cs.take(i as int + 1), (fuel - 1) as nat));
                    }
                    i = i + 1;
                }
                proof {
                    assert(cs.take(cs.len() as int) =~= cs);
                }
                out.push(node_id);
                proof {
                    assert(out@ =~= old(out)@ + post_order(*self, node_id, fuel as nat));
                }
            },
        }
    }

    /// The handles below and including the node behind `node_id`, each
    /// node's subtree before the node itself, children in insertion order;
    /// or the reason the handle is refused. The walk is whole: no limit on
    /// its depth would give more.
    pub fn traverse_post_order_ids(&self, node_id: NodeId) -> (r: Result<Vec<NodeId>, NodeIdError>)
        requires
            self.wf(),
            self.in_bounds(node_id),
        ensures
            match self.check(node_id) {
                Err(e) => r == Err::<Vec<NodeId>, NodeIdError>(e),
                Ok(_) => r is Ok && forall|fuel: nat| fuel >= self.slots().len()
                    ==> r.unwrap()@ == #[trigger] post_order(*self, node_id, fuel),
            },
    {
        let (is_valid, error) = self.is_valid_node_id(node_id);
        if !is_valid {
            return Err(error.unwrap());
        }
        let mut out: Vec<NodeId> = Vec::new();
        self.post_order_into(node_id, self.nodes.len(), &mut out);
        assert(out@ =~= post_order(*self, node_id, self.slots().len()));
        assert forall|fuel: nat| fuel >= self.slots().len()
            implies out@ == #[trigger] post_order(*self, node_id, fuel) by {
            lemma_post_order_complete(*self, node_id, fuel);
        }
        Ok(out)
    }

    /// How many slots the arena has, full or free.
    pub fn slot_count(&self) -> (r: usize)
        ensures
            r == self.slots().len(),
    {
        self.nodes.len()
    }

    /// How many freed slots wait for reuse.
    pub fn free_slot_count(&self) -> (r: usize)
        ensures
            r == self.free_list().len(),
    {
        self.free_ids.len()
    }

    /// How many slots fit before the slot storage grows.
    pub fn slot_capacity(&self) -> (r: usize)
        ensures
            r >= self.slots().len(),
    {
        vec_capacity(&self.nodes)
    }

    /// How many freed slots can be listed before that list grows.
    pub fn free_slot_capacity(&self) -> (r: usize)
        ensures
            r >= self.free_list().len(),
    {
        vec_capacity(&self.free_ids)
    }
}

} // verus!
