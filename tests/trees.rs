use rust_data_structures::trees::{BinarySearchTree, Node, TraversingOrder};

fn tree_of(values: &[i32]) -> BinarySearchTree {
    let mut tree = BinarySearchTree::new();
    for v in values {
        tree.insert(*v);
    }
    tree
}

#[test]
fn tree_node_constructor() {
    let _node = Node::new(3);
}

#[test]
fn tree_finds_inserted_values() {
    let tree = tree_of(&[7, 4, 9, 1, 6, 8, 10]);
    for v in [7, 4, 9, 1, 6, 8, 10] {
        assert!(tree.find(v));
    }
    assert!(!tree.find(5));
    assert!(!BinarySearchTree::new().find(5));
}

#[test]
fn tree_traversals() {
    let tree = tree_of(&[7, 4, 9, 1, 6, 8, 10]);
    assert_eq!(tree.traverse(TraversingOrder::PreOrder), vec![7, 4, 1, 6, 9, 8, 10]);
    assert_eq!(tree.traverse(TraversingOrder::InOrder), vec![1, 4, 6, 7, 8, 9, 10]);
    assert_eq!(tree.traverse(TraversingOrder::PostOrder), vec![1, 6, 4, 8, 10, 9, 7]);
}

#[test]
fn tree_ignores_duplicates() {
    let tree = tree_of(&[5, 3, 5, 3]);
    assert_eq!(tree.traverse(TraversingOrder::InOrder), vec![3, 5]);
}

#[test]
fn tree_height() {
    assert_eq!(BinarySearchTree::new().get_height(), -1);
    assert_eq!(tree_of(&[5]).get_height(), 0);
    assert_eq!(tree_of(&[7, 4, 9, 1]).get_height(), 2);
    assert_eq!(tree_of(&[1, 2, 3, 4]).get_height(), 3);
}

#[test]
fn tree_equality_follows_shape() {
    assert!(tree_of(&[7, 4, 9]).equals(&tree_of(&[7, 9, 4])));
    assert!(!tree_of(&[7, 4, 9]).equals(&tree_of(&[4, 7, 9])));
    assert!(BinarySearchTree::new().equals(&BinarySearchTree::new()));
}
