use id_tree::{Node, NodeId, NodeIdError, Tree, TreeBuilder};

fn values(tree: &Tree<i32>, ids: Vec<NodeId>) -> Vec<i32> {
    ids.into_iter().map(|id| *tree.get(id).unwrap().data()).collect()
}

/// Checks that each child of each given node names that node as its parent.
fn links_agree(tree: &Tree<i32>, ids: &[NodeId]) -> bool {
    for id in ids {
        if let Some(node) = tree.get(*id) {
            for child in node.children() {
                match tree.get(*child) {
                    Some(c) => {
                        if c.parent() != Some(*id) {
                            return false;
                        }
                    }
                    None => return false,
                }
            }
        }
    }
    true
}

#[test]
fn handle_of_another_tree_is_refused() {
    let mut a: Tree<i32> = Tree::new();
    let mut b: Tree<i32> = Tree::new();
    let ha = a.set_root(Node::new(1));
    let hb = b.set_root(Node::new(2));
    assert_eq!(ha.index, hb.index);
    assert_ne!(ha, hb);

    assert!(b.get(ha).is_none());
    assert!(b.get_mut(ha).is_none());
    assert_eq!(b.insert_with_parent(Node::new(3), ha), Err(NodeIdError::InvalidNodeIdForTree));
    assert_eq!(b.traverse_post_order_ids(ha), Err(NodeIdError::InvalidNodeIdForTree));
    assert!(matches!(b.remove_node_orphan_children(ha), Err(NodeIdError::InvalidNodeIdForTree)));
    assert!(matches!(b.remove_node_drop_children(ha), Err(NodeIdError::InvalidNodeIdForTree)));
    assert_eq!(b.get(hb).unwrap().data(), &2);
    assert_eq!(b.slot_count(), 1);
}

#[test]
fn removed_handle_is_stale() {
    let mut tree = TreeBuilder::new().with_root(Node::new(0)).build();
    let root = tree.root_node_id().unwrap();
    let child = tree.insert_with_parent(Node::new(1), root).unwrap();
    tree.remove_node_orphan_children(child).unwrap();

    assert!(tree.get(child).is_none());
    assert_eq!(tree.insert_with_parent(Node::new(2), child), Err(NodeIdError::NodeIdNoLongerValid));
    assert!(matches!(tree.remove_node_drop_children(child), Err(NodeIdError::NodeIdNoLongerValid)));
    assert_eq!(tree.traverse_post_order_ids(child), Err(NodeIdError::NodeIdNoLongerValid));
    assert_eq!(tree.get(root).unwrap().children().len(), 0);
}

#[test]
fn reinsertion_reuses_a_freed_slot() {
    let mut tree = TreeBuilder::new().with_root(Node::new(0)).build();
    let root = tree.root_node_id().unwrap();
    let a = tree.insert_with_parent(Node::new(1), root).unwrap();
    let b = tree.insert_with_parent(Node::new(2), a).unwrap();
    let c = tree.insert_with_parent(Node::new(3), a).unwrap();
    tree.remove_node_drop_children(a).unwrap();
    assert_eq!(tree.free_slot_count(), 3);

    let n = tree.insert_with_parent(Node::new(9), root).unwrap();
    assert_eq!(tree.slot_count(), 4);
    assert_eq!(tree.free_slot_count(), 2);
    assert_eq!(tree.get(n).unwrap().data(), &9);
    assert!([a, b, c].iter().any(|h| h.index == n.index));
    for h in [a, b, c] {
        assert_ne!(h, n);
        assert!(tree.get(h).is_none());
        assert_eq!(tree.insert_with_parent(Node::new(4), h), Err(NodeIdError::NodeIdNoLongerValid));
    }
}

#[test]
fn removed_handle_stays_stale_when_its_slot_is_reused() {
    let mut tree = TreeBuilder::new().with_root(Node::new(0)).build();
    let root = tree.root_node_id().unwrap();
    let old = tree.insert_with_parent(Node::new(1), root).unwrap();
    tree.remove_node_orphan_children(old).unwrap();

    let new = tree.insert_with_parent(Node::new(2), root).unwrap();
    assert_eq!(new.index, old.index);
    assert_ne!(new, old);
    assert!(tree.get(old).is_none());
    assert!(tree.get_mut(old).is_none());
    assert_eq!(tree.traverse_post_order_ids(old), Err(NodeIdError::NodeIdNoLongerValid));
    assert!(matches!(tree.remove_node_orphan_children(old), Err(NodeIdError::NodeIdNoLongerValid)));
    assert_eq!(tree.get(new).unwrap().data(), &2);

    let top = tree.set_root(Node::new(3));
    tree.remove_node_drop_children(top).unwrap();
    let again = tree.set_root(Node::new(4));
    assert_eq!(tree.slot_count(), 3);
    assert!([top, root, new].iter().any(|h| h.index == again.index));
    for h in [top, root, new] {
        assert_ne!(h, again);
        assert!(tree.get(h).is_none());
    }
    assert_eq!(tree.get(again).unwrap().data(), &4);
}

#[test]
fn links_agree_after_inserts_and_removals() {
    let mut tree = TreeBuilder::new().with_root(Node::new(0)).build();
    let root = tree.root_node_id().unwrap();
    let mut ids = vec![root];
    for v in 1..8 {
        let parent = ids[(v as usize - 1) / 2];
        ids.push(tree.insert_with_parent(Node::new(v), parent).unwrap());
    }
    assert!(links_agree(&tree, &ids));
    tree.remove_node_drop_children(ids[2]).unwrap();
    assert!(links_agree(&tree, &ids));
    tree.remove_node_orphan_children(ids[1]).unwrap();
    assert!(links_agree(&tree, &ids));
    ids.push(tree.insert_with_parent(Node::new(20), root).unwrap());
    ids.push(tree.set_root(Node::new(30)));
    assert!(links_agree(&tree, &ids));
    assert_eq!(tree.get(root).unwrap().children().len(), 1);
}

#[test]
fn cascading_removal_takes_the_whole_subtree() {
    let mut tree = TreeBuilder::new().with_root(Node::new(0)).build();
    let root = tree.root_node_id().unwrap();
    let a = tree.insert_with_parent(Node::new(1), root).unwrap();
    let keep = tree.insert_with_parent(Node::new(2), root).unwrap();
    let b = tree.insert_with_parent(Node::new(3), a).unwrap();
    let c = tree.insert_with_parent(Node::new(4), b).unwrap();
    let d = tree.insert_with_parent(Node::new(5), b).unwrap();

    let node = tree.remove_node_drop_children(a).unwrap();
    assert_eq!(node.data(), &1);
    assert!(node.children().is_empty());
    assert_eq!(tree.free_slot_count(), 4);
    for h in [a, b, c, d] {
        assert!(tree.get(h).is_none());
    }
    assert_eq!(values(&tree, tree.traverse_post_order_ids(root).unwrap()), [2, 0]);
    assert_eq!(tree.get(keep).unwrap().data(), &2);
}

#[test]
fn cascading_removal_of_the_root_empties_the_tree() {
    let mut tree = TreeBuilder::new().with_root(Node::new(0)).build();
    let root = tree.root_node_id().unwrap();
    tree.insert_with_parent(Node::new(1), root).unwrap();
    tree.remove_node_drop_children(root).unwrap();
    assert_eq!(tree.root_node_id(), None);
    assert_eq!(tree.free_slot_count(), 2);
}

#[test]
fn orphans_keep_their_handles_and_name_the_removed_parent() {
    let mut tree = TreeBuilder::new().with_root(Node::new(0)).build();
    let root = tree.root_node_id().unwrap();
    let a = tree.insert_with_parent(Node::new(1), root).unwrap();
    let b = tree.insert_with_parent(Node::new(2), a).unwrap();
    let c = tree.insert_with_parent(Node::new(3), b).unwrap();

    let node = tree.remove_node_orphan_children(a).unwrap();
    assert_eq!(node.children(), &vec![b]);
    assert_eq!(tree.get(b).unwrap().parent(), Some(a));
    assert_eq!(tree.get(b).unwrap().data(), &2);
    assert_eq!(tree.get(c).unwrap().parent(), Some(b));
    assert_eq!(values(&tree, tree.traverse_post_order_ids(b).unwrap()), [3, 2]);
    assert_eq!(values(&tree, tree.traverse_post_order_ids(root).unwrap()), [0]);

    // an orphan whose parent is gone can itself be removed
    let orphan = tree.remove_node_orphan_children(b).unwrap();
    assert_eq!(orphan.parent(), Some(a));
    assert_eq!(tree.get(c).unwrap().parent(), Some(b));
}

#[test]
fn orphaning_removal_of_the_root_clears_it() {
    let mut tree = TreeBuilder::new().with_root(Node::new(0)).build();
    let root = tree.root_node_id().unwrap();
    let a = tree.insert_with_parent(Node::new(1), root).unwrap();
    tree.remove_node_orphan_children(root).unwrap();
    assert_eq!(tree.root_node_id(), None);
    assert_eq!(tree.get(a).unwrap().parent(), Some(root));
    let new_root = tree.set_root(Node::new(7));
    assert_eq!(tree.get(new_root).unwrap().children().len(), 0);
}

#[test]
fn set_root_grows_upward_and_keeps_the_old_subtree() {
    let mut tree: Tree<i32> = Tree::new();
    let r0 = tree.set_root(Node::new(0));
    let a = tree.insert_with_parent(Node::new(1), r0).unwrap();
    tree.insert_with_parent(Node::new(2), a).unwrap();
    tree.insert_with_parent(Node::new(3), r0).unwrap();
    let before = values(&tree, tree.traverse_post_order_ids(r0).unwrap());

    let r1 = tree.set_root(Node::new(10));
    assert_eq!(tree.root_node_id(), Some(r1));
    assert_eq!(tree.get(r1).unwrap().children(), &vec![r0]);
    assert_eq!(tree.get(r1).unwrap().parent(), None);
    assert_eq!(tree.get(r0).unwrap().parent(), Some(r1));
    assert_eq!(values(&tree, tree.traverse_post_order_ids(r0).unwrap()), before);
    assert_eq!(values(&tree, tree.traverse_post_order_ids(r1).unwrap()), [2, 1, 3, 0, 10]);
}

#[test]
fn post_order_of_a_single_node() {
    let tree = TreeBuilder::new().with_root(Node::new(42)).build();
    let root = tree.root_node_id().unwrap();
    assert_eq!(tree.traverse_post_order_ids(root).unwrap(), vec![root]);
}

#[test]
fn get_mut_changes_only_the_value() {
    let mut tree = TreeBuilder::new().with_root(Node::new(1)).build();
    let root = tree.root_node_id().unwrap();
    let child = tree.insert_with_parent(Node::new(2), root).unwrap();
    *tree.get_mut(child).unwrap().data_mut() = 5;
    let node = tree.get(child).unwrap();
    assert_eq!(node.data(), &5);
    assert_eq!(node.parent(), Some(root));
    assert_eq!(tree.get(root).unwrap().children(), &vec![child]);
}
