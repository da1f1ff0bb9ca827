use tree_collections::common_trait::CommonTreeTrait;
use tree_collections::rb_tree_fast::{FastRBTree, NodeColor};

#[allow(non_snake_case)]
#[test]
fn rbTreeFast_tree_traversal() {
    let mut tree = FastRBTree::new();
    tree.insert(0);
    vec![16, 16, 8, 24, 20, 22].iter().for_each(|v| {
        tree.insert(*v);
    });
    let mut container = vec![];
    tree.pre_order_traversal_for_test(&mut container);
    // The left-leaning fixups rotate 20 up to the root, where the classic repair
    // rules leave 8 at the root.
    assert_eq!(container, vec![20, 8, 0, 16, 24, 22]);
    assert!(FastRBTree::is_valid_red_black_tree(tree.root()));
}

#[allow(non_snake_case)]
#[test]
fn rbTreeFast_test_insert() {
    let mut rb_tree = FastRBTree::new();
    rb_tree.insert(12);
    rb_tree.insert(1);
    rb_tree.insert(9);
    rb_tree.insert(2);
    rb_tree.insert(0);
    rb_tree.insert(11);
    rb_tree.insert(7);
    rb_tree.insert(19);
    rb_tree.insert(4);
    rb_tree.insert(15);
    rb_tree.insert(18);
    rb_tree.insert(5);
    rb_tree.insert(14);
    rb_tree.insert(13);
    rb_tree.insert(10);
    rb_tree.insert(16);
    rb_tree.insert(6);
    rb_tree.insert(3);
    rb_tree.insert(8);
    rb_tree.insert(17);

    let result = FastRBTree::is_valid_red_black_tree(rb_tree.root());
    assert_eq!(result, true);
}

#[allow(non_snake_case)]
#[test]
fn rbTreeFast_test_delete() {
    let mut tree = FastRBTree::new();
    tree.insert(0);
    vec![16, 8, 24, 20, 22].iter().for_each(|v| {
        tree.insert(*v);
    });

    let mut container = vec![];
    tree.pre_order_traversal_for_test(&mut container);
    let result = FastRBTree::is_valid_red_black_tree(tree.root());
    assert_eq!(result, true);
}

#[test]
fn fast_rb_valid_after_every_insertion() {
    let mut tree = FastRBTree::new();
    for i in 0..300u32 {
        tree.insert((i * 97) % 301);
        assert!(FastRBTree::is_valid_red_black_tree(tree.root()));
    }
    let mut expected: Vec<u32> = (0..300u32).map(|i| (i * 97) % 301).collect();
    expected.sort();
    assert_eq!(tree.in_order_traversal(), expected);
    // 2 * log2(301) is about 16.5
    assert!(tree.height() <= 16);
}

#[test]
fn fast_rb_queries() {
    let mut tree = FastRBTree::new();
    assert!(tree.is_tree_empty());
    assert_eq!(tree.min(), None);
    assert_eq!(tree.count_leaves(), 0);
    for k in [5u32, 1, 9] {
        tree.insert(k);
    }
    assert_eq!(tree.pre_order_traversal(), vec![5, 1, 9]);
    assert_eq!(tree.count_leaves(), 2);
    assert!(tree.contains(9));
    assert!(!tree.contains(4));
    assert_eq!(tree.max(), Some(9));
    assert!(FastRBTree::is_equal(tree.get_root(), tree.get_root()));
    assert_eq!(NodeColor::Black.to_string(), "b");
}
