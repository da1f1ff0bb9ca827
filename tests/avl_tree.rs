use tree_collections::avl_tree::AVLTree;
use tree_collections::common_trait::CommonTreeTrait;

fn build(keys: &[u32]) -> AVLTree {
    let mut tree = AVLTree::new();
    for k in keys {
        tree.insert(*k);
    }
    tree
}

#[allow(non_snake_case)]
#[test]
fn avlTree_tree_traversal() {
    let mut tree = AVLTree::new();
    tree.insert(0);
    vec![16, 16, 8, 24, 20, 22].iter().for_each(|v| {
        tree.insert(*v);
    });
    let root = tree.get_root().unwrap();
    let mut pre_container = vec![];
    let mut in_container = vec![];
    tree.preorder_traverse(root, &mut pre_container);
    tree.in_order_traverse(root, &mut in_container);
    let is_balanced = tree.is_balanced(tree.get_root());
    assert_eq!(pre_container, vec![20, 8, 0, 16, 24, 22]);
    assert_eq!(in_container, vec![0, 8, 16, 20, 22, 24]);
    assert_eq!(is_balanced, true);
}

#[allow(non_snake_case)]
#[test]
fn avlTree_test_insert() {
    let mut avl_tree = AVLTree::new();
    avl_tree.insert(1);
    avl_tree.insert(2);
    avl_tree.insert(3);
    avl_tree.insert(4);
    avl_tree.insert(5);

    let result = avl_tree.is_balanced(avl_tree.get_root());
    assert_eq!(result, true);
}

#[allow(non_snake_case)]
#[test]
fn avlTree_test_delete() {
    let mut tree = AVLTree::new();
    tree.insert(0);
    vec![16, 8, 24, 20, 22].iter().for_each(|v| {
        tree.insert(*v);
    });

    tree.delete(16);
    let root = tree.get_root().unwrap();
    let mut container = vec![];
    tree.preorder_traverse(root, &mut container);
    let result = tree.is_balanced(tree.get_root());
    assert_eq!(result, true);

    assert_eq!(container, vec![20, 8, 0, 24, 22]);
}

#[test]
fn avl_rotation_cases() {
    // right-right, left-left, left-right and right-left each end in the same shape
    assert_eq!(build(&[1, 2, 3]).pre_order_traversal(), vec![2, 1, 3]);
    assert_eq!(build(&[3, 2, 1]).pre_order_traversal(), vec![2, 1, 3]);
    assert_eq!(build(&[3, 1, 2]).pre_order_traversal(), vec![2, 1, 3]);
    assert_eq!(build(&[1, 3, 2]).pre_order_traversal(), vec![2, 1, 3]);
}

#[test]
fn avl_stays_balanced_and_ordered_through_updates() {
    let mut tree = AVLTree::new();
    let mut expected: Vec<u32> = Vec::new();
    for i in 0..200u32 {
        let k = (i * 37) % 211;
        tree.insert(k);
        if !expected.contains(&k) {
            expected.push(k);
        }
        assert!(tree.is_balanced(tree.get_root()));
    }
    for i in 0..100u32 {
        let k = (i * 53) % 211;
        tree.delete(k);
        expected.retain(|x| *x != k);
        assert!(tree.is_balanced(tree.get_root()));
    }
    expected.sort();
    assert_eq!(tree.in_order_traversal(), expected);
}

#[test]
fn avl_height_bound() {
    let tree = build(&(1..=1000).collect::<Vec<u32>>());
    // 1.44 * log2(1001) is about 14.4
    assert!(tree.height() <= 14);
    assert_eq!(tree.height(), 10);
}

#[test]
fn avl_round_trip() {
    let mut tree = build(&[0, 16, 8, 24, 20, 22]);
    let before = tree.in_order_traversal();
    tree.insert(5);
    tree.delete(5);
    assert!(!tree.contains(5));
    assert_eq!(tree.in_order_traversal(), before);
}

#[test]
fn avl_delete_absent_twice() {
    let mut tree = build(&[0, 16, 8, 24, 20, 22]);
    let pre = tree.pre_order_traversal();
    tree.delete(7);
    assert_eq!(tree.pre_order_traversal(), pre);
    tree.delete(7);
    assert_eq!(tree.pre_order_traversal(), pre);
    let mut empty = AVLTree::new();
    empty.delete(1);
    assert!(empty.is_tree_empty());
}

#[test]
fn avl_insert_existing_key_changes_nothing() {
    let mut tree = build(&[0, 16, 8, 24, 20, 22]);
    let pre = tree.pre_order_traversal();
    tree.insert(24);
    assert_eq!(tree.pre_order_traversal(), pre);
}

#[test]
fn avl_delete_leaf_single_child_and_root() {
    let mut tree = build(&[2, 1, 3, 4]);
    tree.delete(1);
    assert_eq!(tree.pre_order_traversal(), vec![3, 2, 4]);
    tree.delete(4);
    assert_eq!(tree.pre_order_traversal(), vec![3, 2]);
    tree.delete(3);
    assert_eq!(tree.pre_order_traversal(), vec![2]);
    tree.delete(2);
    assert!(tree.is_tree_empty());
    assert_eq!(tree.height(), 0);
}
