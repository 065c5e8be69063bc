use id_tree::{Node, TreeBuilder};

#[test]
fn test_new() {
    let tb: TreeBuilder<i32> = TreeBuilder::new();
    assert!(tb.root.is_none());
    assert_eq!(tb.node_capacity, 0);
    assert_eq!(tb.swap_capacity, 0);
}

#[test]
fn test_with_root() {
    let tb: TreeBuilder<i32> = TreeBuilder::new().with_root(Node::new(5));

    assert_eq!(tb.root.unwrap().data(), &5);
    assert_eq!(tb.node_capacity, 0);
    assert_eq!(tb.swap_capacity, 0);
}

#[test]
fn test_with_node_capacity() {
    let tb: TreeBuilder<i32> = TreeBuilder::new().with_node_capacity(10);

    assert!(tb.root.is_none());
    assert_eq!(tb.node_capacity, 10);
    assert_eq!(tb.swap_capacity, 0);
}

#[test]
fn test_with_swap_capacity() {
    let tb: TreeBuilder<i32> = TreeBuilder::new().with_swap_capacity(10);

    assert!(tb.root.is_none());
    assert_eq!(tb.node_capacity, 0);
    assert_eq!(tb.swap_capacity, 10);
}

#[test]
fn test_with_all_settings() {
    let tb: TreeBuilder<i32> = TreeBuilder::new()
        .with_root(Node::new(5))
        .with_node_capacity(10)
        .with_swap_capacity(3);

    assert_eq!(tb.root.unwrap().data(), &5);
    assert_eq!(tb.node_capacity, 10);
    assert_eq!(tb.swap_capacity, 3);
}

#[test]
fn test_build() {
    let tree = TreeBuilder::new()
        .with_root(Node::new(5))
        .with_node_capacity(10)
        .with_swap_capacity(3)
        .build();

    let root = tree.get(tree.root_node_id().unwrap()).unwrap();

    assert_eq!(root.data(), &5);
    assert_eq!(tree.slot_capacity(), 10);
    assert_eq!(tree.free_slot_capacity(), 3);
}

#[test]
fn build_without_root_is_empty() {
    let tree: id_tree::Tree<i32> = TreeBuilder::new().with_node_capacity(4).build();
    assert_eq!(tree.root_node_id(), None);
    assert_eq!(tree.slot_count(), 0);
    assert!(tree.slot_capacity() >= 4);
}

#[test]
fn build_detaches_a_root_that_had_children() {
    let mut first = TreeBuilder::new().with_root(Node::new(1)).build();
    let root_id = first.root_node_id().unwrap();
    first.insert_with_parent(Node::new(2), root_id).unwrap();
    let taken = first.remove_node_orphan_children(root_id).unwrap();
    assert_eq!(taken.children().len(), 1);

    let second = TreeBuilder::new().with_root(taken).build();
    let root = second.get(second.root_node_id().unwrap()).unwrap();
    assert_eq!(root.data(), &1);
    assert_eq!(root.children().len(), 0);
    assert_eq!(root.parent(), None);
}
