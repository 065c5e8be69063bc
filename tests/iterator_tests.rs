use id_tree::{Node, Tree, TreeBuilder};

type NodeData = i32;

fn values(tree: &Tree<NodeData>, ids: Vec<id_tree::NodeId>) -> Vec<NodeData> {
    ids.into_iter().map(|node_id| *tree.get(node_id).unwrap().data()).collect::<Vec<NodeData>>()
}

#[test]
fn post_order_traversal_ids() {
    let mut tree: Tree<NodeData> = TreeBuilder::new().build();

    //    0 ----------\
    //   /  \         |
    //  1    3        4
    //  |            /|\
    //  2           5 6 7

    let root_0 = tree.set_root(Node::new(0));
    let node_1 = tree.insert_with_parent(Node::new(1), root_0).ok().unwrap();
    let _node_ = tree.insert_with_parent(Node::new(2), node_1).ok().unwrap();
    let node_3 = tree.insert_with_parent(Node::new(3), root_0).ok().unwrap();
    let node_4 = tree.insert_with_parent(Node::new(4), root_0).ok().unwrap();
    let _node_ = tree.insert_with_parent(Node::new(5), node_4).ok().unwrap();
    let _node_ = tree.insert_with_parent(Node::new(6), node_4).ok().unwrap();
    let _node_ = tree.insert_with_parent(Node::new(7), node_4).ok().unwrap();

    let node_data = values(&tree, tree.traverse_post_order_ids(root_0).unwrap());
    assert_eq!(node_data, [2, 1, 3, 5, 6, 7, 4, 0]);

    let node_data = values(&tree, tree.traverse_post_order_ids(node_4).unwrap());
    assert_eq!(node_data, [5, 6, 7, 4]);

    let node_data = values(&tree, tree.traverse_post_order_ids(node_3).unwrap());
    assert_eq!(node_data, [3]);
}
