use tree_collections::bs_tree::BSTree;
use tree_collections::common_trait::CommonTreeTrait;

#[allow(non_snake_case)]
#[test]
fn bsTree_test_insert() {
    let mut tree = BSTree::new();
    tree.insert(0);
    vec![16, 16, 8, 24, 20, 22].iter().for_each(|v| {
        tree.insert(*v);
    });
    let mut in_container = vec![];
    let mut pre_container = vec![];
    tree.in_order_traversal_for_test(&mut in_container);
    tree.pre_order_traversal_for_test(&mut pre_container);
    assert_eq!(in_container, vec![0, 8, 16, 20, 22, 24]);
    assert_eq!(pre_container, vec![0, 16, 8, 24, 20, 22]);
}

#[allow(non_snake_case)]
#[test]
fn bsTree_test_delete() {
    let mut tree = BSTree::new();
    tree.insert(0);
    vec![16, 16, 8, 24, 20, 22].iter().for_each(|v| {
        tree.insert(*v);
    });
    tree.delete(16);
    let mut in_container = vec![];
    let mut pre_container = vec![];
    tree.in_order_traversal_for_test(&mut in_container);
    tree.pre_order_traversal_for_test(&mut pre_container);
    assert_eq!(in_container, vec![0, 8, 20, 22, 24]);
    assert_eq!(pre_container, vec![0, 20, 8, 24, 22]);
}

#[test]
fn bst_delete_root_cases() {
    let mut tree = BSTree::new();
    for k in [5u32, 3, 8, 7] {
        tree.insert(k);
    }
    tree.delete(5);
    assert_eq!(tree.pre_order_traversal(), vec![7, 3, 8]);
    tree.delete(7);
    assert_eq!(tree.pre_order_traversal(), vec![8, 3]);
    tree.delete(8);
    assert_eq!(tree.pre_order_traversal(), vec![3]);
    tree.delete(3);
    assert!(tree.is_tree_empty());
    tree.delete(3);
    assert!(tree.is_tree_empty());
}

#[test]
fn bst_unbalanced_height_and_leaves() {
    let mut tree = BSTree::new();
    for k in 1..=10u32 {
        tree.insert(k);
    }
    assert_eq!(tree.height(), 10);
    assert_eq!(tree.count_leaves(), 1);
    assert_eq!(tree.min(), Some(1));
    assert_eq!(tree.max(), Some(10));
}
