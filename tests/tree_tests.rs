use id_tree::{Node, NodeId, Tree, TreeBuilder};

#[test]
fn tree_test_new() {
    let tree: Tree<i32> = Tree::new();

    assert_eq!(tree.root_node_id(), None);
    assert_eq!(tree.slot_count(), 0);
    assert_eq!(tree.free_slot_count(), 0);
}

#[test]
fn test_get() {
    let tree = TreeBuilder::new().with_root(Node::new(5)).build();

    let root = tree.get(tree.root_node_id().unwrap()).unwrap();

    assert_eq!(root.data(), &5);
}

#[test]
fn test_get_mut() {
    let mut tree = TreeBuilder::new().with_root(Node::new(5)).build();

    let root_id = tree.root_node_id().unwrap();

    {
        let root = tree.get(root_id.clone()).unwrap();
        assert_eq!(root.data(), &5);
    }

    {
        let root = tree.get_mut(root_id.clone()).unwrap();
        *root.data_mut() = 6;
    }

    let root = tree.get(root_id).unwrap();
    assert_eq!(root.data(), &6);
}

#[test]
fn test_set_root() {
    let a = 5;
    let b = 6;
    let node_a = Node::new(a);
    let node_b = Node::new(b);

    let mut tree = TreeBuilder::new().build();

    let node_a_id = tree.set_root(node_a);
    let root_id = tree.root_node_id().unwrap();
    assert_eq!(node_a_id, root_id);

    {
        let node_a_ref = tree.get(node_a_id).unwrap();
        let root_ref = tree.get(root_id).unwrap();
        assert_eq!(node_a_ref.data(), &a);
        assert_eq!(root_ref.data(), &a);
    }

    let node_b_id = tree.set_root(node_b);
    let root_id = tree.root_node_id().unwrap();
    assert_eq!(node_b_id, root_id);

    {
        let node_b_ref = tree.get(node_b_id).unwrap();
        let root_ref = tree.get(root_id).unwrap();
        assert_eq!(node_b_ref.data(), &b);
        assert_eq!(root_ref.data(), &b);

        let node_b_child_id = node_b_ref.children().get(0).unwrap();
        let node_b_child_ref = tree.get(node_b_child_id.clone()).unwrap();
        assert_eq!(node_b_child_ref.data(), &a);
    }
}

#[test]
fn test_root_node_id() {
    let tree = TreeBuilder::new().with_root(Node::new(5)).build();

    let root_id = tree.root_node_id().unwrap();
    let root_node_id = tree.root_node_id().unwrap();

    assert_eq!(root_id, root_node_id);
}

#[test]
fn test_add_child() {
    let a = 1;
    let b = 2;
    let r = 5;

    let mut tree = TreeBuilder::new().with_root(Node::new(r)).build();

    let node_a = Node::new(a);
    let node_b = Node::new(b);

    let root_id = tree.root_node_id().unwrap();
    let node_a_id = tree.insert_with_parent(node_a, root_id.clone()).unwrap();
    let node_b_id = tree.insert_with_parent(node_b, root_id.clone()).unwrap();

    let node_a_ref = tree.get(node_a_id).unwrap();
    let node_b_ref = tree.get(node_b_id).unwrap();
    assert_eq!(node_a_ref.data(), &a);
    assert_eq!(node_b_ref.data(), &b);

    assert_eq!(node_a_ref.parent().unwrap(), root_id);
    assert_eq!(node_b_ref.parent().unwrap(), root_id);

    let root_node_ref = tree.get(root_id).unwrap();
    let root_children: &Vec<NodeId> = root_node_ref.children();

    let child_1_id = root_children.get(0).unwrap();
    let child_2_id = root_children.get(1).unwrap();

    let child_1_ref = tree.get(child_1_id.clone()).unwrap();
    let child_2_ref = tree.get(child_2_id.clone()).unwrap();

    assert_eq!(child_1_ref.data(), &a);
    assert_eq!(child_2_ref.data(), &b);
}

#[test]
fn test_remove_node_drop_children() {
    let mut tree = TreeBuilder::new().with_root(Node::new(5)).build();

    let root_id = tree.root_node_id().unwrap();

    let node_1_id = tree.insert_with_parent(Node::new(1), root_id.clone()).unwrap();
    let node_2_id = tree.insert_with_parent(Node::new(2), node_1_id.clone()).unwrap();
    let node_3_id = tree.insert_with_parent(Node::new(3), node_1_id.clone()).unwrap();

    let node_1 = tree.remove_node_drop_children(node_1_id.clone()).unwrap();

    assert_eq!(node_1.data(), &1);
    assert_eq!(node_1.children().len(), 0);
    assert_eq!(node_1.parent().unwrap(), root_id);
    assert!(tree.get(node_1_id).is_none());
    assert!(tree.get(node_2_id).is_none());
    assert!(tree.get(node_3_id).is_none());
}

#[test]
fn test_remove_node_orphan_children() {
    let mut tree = TreeBuilder::new().with_root(Node::new(5)).build();

    let root_id = tree.root_node_id().unwrap();

    let node_1_id = tree.insert_with_parent(Node::new(1), root_id.clone()).unwrap();
    let node_2_id = tree.insert_with_parent(Node::new(2), node_1_id.clone()).unwrap();
    let node_3_id = tree.insert_with_parent(Node::new(3), node_1_id.clone()).unwrap();

    let node_1 = tree.remove_node_orphan_children(node_1_id.clone()).unwrap();

    assert_eq!(node_1.data(), &1);
    assert_eq!(node_1.children().len(), 2);
    assert_eq!(node_1.parent().unwrap(), root_id);
    assert!(tree.get(node_1_id).is_none());
    assert_eq!(tree.get(node_2_id).unwrap().data(), &2);
    assert_eq!(tree.get(node_3_id).unwrap().data(), &3);
}
