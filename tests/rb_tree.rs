use tree_collections::common_trait::CommonTreeTrait;
use tree_collections::rb_tree::{NodeColor, RBTree, TreeNode};

fn build(keys: &[u32]) -> RBTree {
    let mut tree = RBTree::new();
    for k in keys {
        tree.insert(*k);
    }
    tree
}

#[test]
fn test_rotation() {
    let tree = TreeNode::new_black_with_children(
        30,
        Some(TreeNode::new_black_with_children(
            20,
            Some(TreeNode::new_black_with_children(10, None, None)),
            Some(TreeNode::new_black_with_children(25, None, None)),
        )),
        Some(TreeNode::new_black_with_children(
            40,
            Some(TreeNode::new_black_with_children(35, None, None)),
            Some(TreeNode::new_black_with_children(50, None, None)),
        )),
    );
    let after_left_rot = TreeNode::new_black_with_children(
        40,
        Some(TreeNode::new_black_with_children(
            30,
            Some(TreeNode::new_black_with_children(
                20,
                Some(TreeNode::new_black_with_children(10, None, None)),
                Some(TreeNode::new_black_with_children(25, None, None)),
            )),
            Some(TreeNode::new_black_with_children(35, None, None)),
        )),
        Some(TreeNode::new_black_with_children(50, None, None)),
    );
    let rotated = TreeNode::left_rotate(tree);
    let traversal = RBTree::new();
    let mut tree_container = vec![];
    let mut left_rotate_container = vec![];
    traversal.pre_order_traverse(&rotated, &mut tree_container);
    traversal.pre_order_traverse(&after_left_rot, &mut left_rotate_container);

    assert_eq!(tree_container, left_rotate_container);
}

#[allow(non_snake_case)]
#[test]
fn rbTree_tree_traversal() {
    let mut tree = RBTree::new();
    tree.insert(0);
    vec![16, 16, 8, 24, 20, 22].iter().for_each(|v| {
        tree.insert(*v);
    });
    let mut container = vec![];
    tree.pre_order_traversal_for_test(&mut container);
    assert_eq!(container, vec![8, 0, 20, 16, 24, 22]);
}

#[allow(non_snake_case)]
#[test]
fn rbTree_test_insert() {
    let mut rb_tree = RBTree::new();
    rb_tree.insert(12);
    rb_tree.insert(1);
    rb_tree.insert(9);
    rb_tree.insert(2);
    rb_tree.insert(0);
    rb_tree.insert(11);
    rb_tree.insert(7);
    rb_tree.insert(19);
    rb_tree.insert(4);
    rb_tree.insert(15);
    rb_tree.insert(18);
    rb_tree.insert(5);
    rb_tree.insert(14);
    rb_tree.insert(13);
    rb_tree.insert(10);
    rb_tree.insert(16);
    rb_tree.insert(6);
    rb_tree.insert(3);
    rb_tree.insert(8);
    rb_tree.insert(17);

    let result = RBTree::is_valid_red_black_tree(rb_tree.root());
    assert_eq!(result, true);
}

#[allow(non_snake_case)]
#[test]
fn rbTree_test_delete() {
    let mut tree = RBTree::new();
    tree.insert(0);
    vec![16, 8, 24, 20, 22].iter().for_each(|v| {
        tree.insert(*v);
    });

    tree.delete(16);
    let root = tree.get_root().unwrap();
    let mut container = vec![];
    tree.debug_preorder_traverse(root, &mut container);
    let result = RBTree::is_valid_red_black_tree(tree.root());
    assert_eq!(result, true);
}

#[test]
fn rb_valid_after_every_insertion() {
    let keys = [12u32, 1, 9, 2, 0, 11, 7, 19, 4, 15, 18, 5, 14, 13, 10, 16, 6, 3, 8, 17];
    let mut tree = RBTree::new();
    for k in keys {
        tree.insert(k);
        assert!(RBTree::is_valid_red_black_tree(tree.root()));
    }
    assert_eq!(tree.in_order_traversal(), (0..20).collect::<Vec<u32>>());
}

#[test]
fn rb_valid_after_every_deletion() {
    let mut tree = build(&(0..100).collect::<Vec<u32>>());
    let mut expected: Vec<u32> = (0..100).collect();
    for i in 0..100u32 {
        let k = (i * 37) % 100;
        tree.delete(k);
        expected.retain(|x| *x != k);
        assert!(RBTree::is_valid_red_black_tree(tree.root()));
        assert_eq!(tree.in_order_traversal(), expected);
    }
    assert!(tree.is_tree_empty());
}

#[test]
fn rb_height_bound() {
    let tree = build(&(1..=1000).collect::<Vec<u32>>());
    // 2 * log2(1001) is about 19.9
    assert!(tree.height() <= 19);
}

#[test]
fn rb_round_trip_and_idempotent_delete() {
    let mut tree = build(&[0, 16, 8, 24, 20, 22]);
    let before = tree.in_order_traversal();
    tree.insert(3);
    tree.delete(3);
    assert!(!tree.contains(3));
    assert_eq!(tree.in_order_traversal(), before);
    let pre = tree.pre_order_traversal();
    tree.delete(99);
    assert_eq!(tree.pre_order_traversal(), pre);
    tree.delete(99);
    assert_eq!(tree.pre_order_traversal(), pre);
}

#[test]
fn rb_is_equal_compares_shapes() {
    let a = build(&[1, 2, 3]);
    let b = build(&[3, 2, 1]);
    let c = build(&[1, 2]);
    assert!(RBTree::is_equal(a.get_root(), b.get_root()));
    assert!(!RBTree::is_equal(a.get_root(), c.get_root()));
    assert!(RBTree::is_equal(None, None));
}

#[test]
fn rb_color_names() {
    assert_eq!(NodeColor::Red.to_string(), "r");
    assert_eq!(NodeColor::Black.to_string(), "b");
}
