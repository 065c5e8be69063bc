use vstd::prelude::*;

verus! {

/// A handle: the stamp of the arena that minted it, the slot it names, and
/// the generation of that slot when it was minted. A slot's generation grows
/// each time its node is removed, so a handle to a removed node never names
/// the node that later takes its slot.
#[derive(Clone, Copy, Debug, PartialEq, Eq, Structural, Hash)]
pub struct NodeId {
    pub tree_id: u64,
    pub index: usize,
    pub generation: u64,
}

/// Why a handle was refused.
#[derive(Clone, Copy, Debug, PartialEq, Eq, Structural)]
pub enum NodeIdError {
    /// The handle was minted by another arena.
    InvalidNodeIdForTree,
    /// The handle's node has been removed.
    NodeIdNoLongerValid,
}

/// One node: the caller's value, the handle of its parent, and the handles
/// of its children in insertion order.
#[derive(Debug)]
pub struct Node<T> {
    data: T,
    parent: Option<NodeId>,
    children: Vec<NodeId>,
}

/// `s` with every occurrence of `x` taken out, the rest in order.
pub open spec fn without(s: Seq<NodeId>, x: NodeId) -> Seq<NodeId> {
    s.filter(|y: NodeId| y != x)
}

/// How `without` takes the last element of a nonempty list.
pub proof fn lemma_without_last(s: Seq<NodeId>, x: NodeId)
    requires
        s.len() > 0,
    ensures
        without(s, x) == if s.last() != x {
            without(s.drop_last(), x).push(s.last())
        } else {
            without(s.drop_last(), x)
        },
{
    reveal(Seq::filter);
}

impl<T> Node<T> {
    pub closed spec fn value(self) -> T {
        self.data
    }

    pub closed spec fn parent_link(self) -> Option<NodeId> {
        self.parent
    }

    pub closed spec fn child_links(self) -> Seq<NodeId> {
        self.children@
    }

    /// A node holding `data`, with no parent and no children.
    pub fn new(data: T) -> (r: Node<T>)
        ensures
            r.value() == data,
            r.parent_link() is None,
            r.child_links() == Seq::<NodeId>::empty(),
    {
        Node { data, parent: None, children: Vec::new() }
    }

    pub fn data(&self) -> (r: &T)
        ensures
            *r == self.value(),
    {
        &self.data
    }

    /// Mutable access to the value; parent and children stay as they are.
    pub fn data_mut(&mut self) -> (r: &mut T)
        ensures
            *r == old(self).value(),
            final(self).value() == *final(r),
            final(self).parent_link() == old(self).parent_link(),
            final(self).child_links() == old(self).child_links(),
    {
        &mut self.data
    }

    pub fn parent(&self) -> (r: Option<NodeId>)
        ensures
            r == self.parent_link(),
    {
        self.parent
    }

    pub fn children(&self) -> (r: &Vec<NodeId>)
        ensures
            r@ == self.child_links(),
    {
        &self.children
    }

    pub(crate) fn set_parent(&mut self, parent: Option<NodeId>)
        ensures
            final(self).value() == old(self).value(),
            final(self).parent_link() == parent,
            final(self).child_links() == old(self).child_links(),
    {
        self.parent = parent;
    }

    pub(crate) fn add_child(&mut self, child: NodeId)
        ensures
            final(self).value() == old(self).value(),
            final(self).parent_link() == old(self).parent_link(),
            final(self).child_links() == old(self).child_links().push(child),
    {
        self.children.push(child);
    }

    /// Hands out the children and leaves none behind.
    pub(crate) fn take_children(&mut self) -> (r: Vec<NodeId>)
        ensures
            r@ == old(self).child_links(),
            final(self).value() == old(self).value(),
            final(self).parent_link() == old(self).parent_link(),
            final(self).child_links() == Seq::<NodeId>::empty(),
    {
        let mut r: Vec<NodeId> = Vec::new();
        std::mem::swap(&mut r, &mut self.children);
        r
    }

    pub(crate) fn clear_children(&mut self)
        ensures
            final(self).value() == old(self).value(),
            final(self).parent_link() == old(self).parent_link(),
            final(self).child_links() == Seq::<NodeId>::empty(),
    {
        self.children = Vec::new();
    }

    /// Takes every occurrence of `child` out of the children, keeping the order
    /// of the others.
    pub(crate) fn remove_child(&mut self, child: NodeId)
        ensures
            final(self).value() == old(self).value(),
            final(self).parent_link() == old(self).parent_link(),
            final(self).child_links() == without(old(self).child_links(), child),
    {
        let mut kept: Vec<NodeId> = Vec::new();
        let mut i: usize = 0;
        while i < self.children.len()
            invariant
                0 <= i <= self.children.len(),
                kept@ == without(self.children@.take(i as int), child),
            decreases self.children.len() - i,
        {
            let c = self.children[i];
            proof {
                let s = self.children@;
                assert(s.take(i as int + 1).drop_last() =~= s.take(i as int));
                assert(s.take(i as int + 1).last() == c);
                lemma_without_last(s.take(i as int + 1), child);
            }
            if c != child {
                kept.push(c);
            }
            i = i + 1;
        }
        proof {
            assert(self.children@.take(self.children@.len() as int) =~= self.children@);
        }
        self.children = kept;
    }
}

/// Taking out an element that is not there changes nothing.
pub proof fn lemma_without_all_kept(s: Seq<NodeId>, x: NodeId)
    requires
        forall|k: int| 0 <= k < s.len() ==> #[trigger] s[k] != x,
    ensures
        without(s, x) == s,
    decreases s.len(),
{
    if s.len() > 0 {
        lemma_without_last(s, x);
        lemma_without_all_kept(s.drop_last(), x);
        assert(s.drop_last().push(s.last()) =~= s);
    }
}

/// Taking an element out keeps only elements of the list, none equal to it.
pub proof fn lemma_without_subset(s: Seq<NodeId>, x: NodeId)
    ensures
        forall|k: int|
            0 <= k < without(s, x).len() ==> s.contains(#[trigger] without(s, x)[k])
                && without(s, x)[k] != x,
    decreases s.len(),
{
    if s.len() > 0 {
        lemma_without_last(s, x);
        lemma_without_subset(s.drop_last(), x);
        assert forall|k: int| 0 <= k < without(s, x).len() implies s.contains(
            #[trigger] without(s, x)[k],
        ) && without(s, x)[k] != x by {
            let w = without(s.drop_last(), x);
            if k < w.len() {
                assert(s.drop_last().contains(w[k]));
                let j = choose|j: int| 0 <= j < s.drop_last().len() && s.drop_last()[j] == w[k];
                assert(s[j] == w[k]);
            } else {
                assert(s[s.len() - 1] == without(s, x)[k]);
            }
        }
    }
}

/// Taking an element out of a list without repeats leaves a list without repeats.
pub proof fn lemma_without_no_duplicates(s: Seq<NodeId>, x: NodeId)
    requires
        s.no_duplicates(),
    ensures
        without(s, x).no_duplicates(),
    decreases s.len(),
{
    if s.len() > 0 {
        let d = s.drop_last();
        lemma_without_last(s, x);
        assert(d.no_duplicates());
        lemma_without_no_duplicates(d, x);
        lemma_without_subset(d, x);
        let w = without(d, x);
        if s.last() != x {
            assert forall|a: int, b: int|
                0 <= a < b < without(s, x).len() implies without(s, x)[a] != without(s, x)[b] by {
                if b == w.len() {
                    assert(d.contains(w[a]));
                    let j = choose|j: int| 0 <= j < d.len() && d[j] == w[a];
                    assert(s[j] == w[a]);
                }
            }
        }
    }
}

} // verus!
