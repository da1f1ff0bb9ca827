use tree_collections::avl_tree::AVLTree;
use tree_collections::common_trait::CommonTreeTrait;

#[test]
fn empty_tree_queries() {
    let tree = AVLTree::new();
    assert!(tree.is_tree_empty());
    assert_eq!(tree.height(), 0);
    assert_eq!(tree.count_leaves(), 0);
    assert_eq!(tree.min(), None);
    assert_eq!(tree.max(), None);
    assert!(!tree.contains(0));
    assert_eq!(tree.in_order_traversal(), Vec::<u32>::new());
    assert_eq!(tree.pre_order_traversal(), Vec::<u32>::new());
}

#[test]
fn single_node_has_one_leaf() {
    let mut tree = AVLTree::new();
    tree.insert(1);
    assert_eq!(tree.count_leaves(), 1);
    assert_eq!(tree.height(), 1);
    tree.insert(2);
    assert_eq!(tree.count_leaves(), 1);
    assert_eq!(tree.height(), 2);
    tree.insert(3);
    assert_eq!(tree.count_leaves(), 2);
    assert_eq!(tree.height(), 2);
}

#[test]
fn membership_min_max_and_traversals() {
    let mut tree = AVLTree::new();
    for k in [1u32, 3, 5, 2, 4] {
        tree.insert(k);
    }
    assert_eq!(tree.in_order_traversal(), vec![1, 2, 3, 4, 5]);
    assert_eq!(tree.pre_order_traversal(), vec![3, 1, 2, 5, 4]);
    assert_eq!(tree.min(), Some(1));
    assert_eq!(tree.max(), Some(5));
    assert!(tree.contains(4));
    assert!(!tree.contains(6));
    let mut appended = vec![9u32];
    tree.in_order_traversal_for_test(&mut appended);
    assert_eq!(appended, vec![9, 1, 2, 3, 4, 5]);
}

#[test]
fn largest_keys() {
    let mut tree = AVLTree::new();
    tree.insert(u32::MAX);
    tree.insert(0);
    tree.insert(u32::MAX - 1);
    assert_eq!(tree.in_order_traversal(), vec![0, u32::MAX - 1, u32::MAX]);
    assert_eq!(tree.max(), Some(u32::MAX));
}
