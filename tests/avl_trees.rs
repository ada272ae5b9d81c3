use rust_data_structures::avl_trees::{AVLNode, AVLTree};

#[test]
fn avl_node_heights() {
    let leaf = AVLNode::create_optional(5);
    assert_eq!(AVLNode::height(&leaf), 0);
    assert_eq!(AVLNode::height(&None), -1);
    let mut node = AVLNode::new(7);
    node.update_height();
    assert!(node.rotation().is_none());
}

#[test]
fn avl_tree_accepts_sorted_and_repeated_input() {
    let mut tree = AVLTree::new();
    for value in 0..200 {
        tree.insert(value);
    }
    for value in (0..200).rev() {
        tree.insert(value);
    }
    for value in [50, -3, 1000, 7, 7] {
        tree.insert(value);
    }
}
