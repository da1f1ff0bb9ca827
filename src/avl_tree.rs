//! AVL tree: a binary search tree that keeps, at every node, the heights of the two
//! subtrees within one of each other. Each node stores the height of its subtree;
//! insertion and deletion recompute it on the way back up and repair any node that
//! leans by two with one or two rotations.

use vstd::prelude::*;
use crate::shape::{
    Shape, leaf, lemma_small_shapes, lemma_leftmost_is_min, lemma_join, lemma_children_ordered, lemma_rotations, lemma_size_of_ordered,
    lemma_avl_rotate_right, lemma_avl_rotate_left, lemma_avl_rotate_left_right, lemma_avl_rotate_right_left,
};
use crate::common_trait::{CommonTreeNodeTrait, CommonTreeTrait, get_min_value_in_children, pre_order_traversal_for_test, in_order_traversal_for_test};

verus! {

pub struct TreeNode {
    pub value: u32,
    left: Option<Box<TreeNode>>,
    right: Option<Box<TreeNode>>,
    height: u64,
}

pub struct AVLTree {
    root: Option<Box<TreeNode>>,
}

pub open spec fn opt_shape(node: Option<Box<TreeNode>>) -> Shape
    decreases node,
{
    match node {
        None => Shape::Empty,
        Some(n) => n.node_shape(),
    }
}

/// Every stored height in the subtree is the true height.
pub closed spec fn opt_wf(node: Option<Box<TreeNode>>) -> bool
    decreases node,
{
    match node {
        None => true,
        Some(n) => n.wf(),
    }
}

impl TreeNode {
    pub closed spec fn node_shape(self) -> Shape
        decreases self,
    {
        Shape::Node {
            key: self.value,
            left: Box::new(opt_shape(self.left)),
            right: Box::new(opt_shape(self.right)),
        }
    }

    pub closed spec fn wf(self) -> bool
        decreases self,
    {
        &&& self.height == self.node_shape().height()
        &&& opt_wf(self.left)
        &&& opt_wf(self.right)
    }

    /// A new leaf; its height is 1.
    fn new(value: u32) -> (r: Box<TreeNode>)
        ensures
            r.wf(),
            r.node_shape() == leaf(value),
    {
        let r = Box::new(TreeNode { value, left: None, right: None, height: 1 });
        proof {
            lemma_small_shapes(value);
        }
        assert(opt_wf(r.left) && opt_wf(r.right));
        assert(opt_shape(r.left) == Shape::Empty && opt_shape(r.right) == Shape::Empty);
        r
    }

    pub fn get_data(&self) -> (r: u32)
        ensures
            r == self.shape()->key,
    {
        self.value
    }
}

impl CommonTreeNodeTrait for TreeNode {
    open spec fn shape(&self) -> Shape {
        self.node_shape()
    }

    fn get_left(&self) -> (r: Option<&Self>) {
        match &self.left {
            Some(b) => Some(&**b),
            None => None,
        }
    }

    fn get_right(&self) -> (r: Option<&Self>) {
        match &self.right {
            Some(b) => Some(&**b),
            None => None,
        }
    }

    fn get_value(&self) -> (r: u32) {
        self.value
    }
}

impl CommonTreeTrait<TreeNode> for AVLTree {
    closed spec fn shape(&self) -> Shape {
        opt_shape(self.root)
    }

    fn get_root(&self) -> (r: Option<&TreeNode>) {
        proof {
            use_type_invariant(self);
        }
        match &self.root {
            Some(b) => Some(&**b),
            None => None,
        }
    }
}

impl AVLTree {
    #[verifier::type_invariant]
    closed spec fn inv(self) -> bool {
        &&& opt_wf(self.root)
        &&& opt_shape(self.root).is_bst()
        &&& opt_shape(self.root).is_balanced()
    }

    pub fn new() -> (r: Self)
        ensures
            r.shape() == Shape::Empty,
    {
        AVLTree { root: None }
    }

    /// Appends the keys of the subtree at `node` in pre-order.
    pub fn preorder_traverse(&self, node: &TreeNode, container: &mut Vec<u32>)
        ensures
            final(container)@ == old(container)@ + node.shape().preorder(),
    {
        pre_order_traversal_for_test(node, container)
    }

    /// Appends the keys of the subtree at `node` in order.
    pub fn in_order_traverse(&self, node: &TreeNode, container: &mut Vec<u32>)
        ensures
            final(container)@ == old(container)@ + node.shape().inorder(),
    {
        in_order_traversal_for_test(node, container)
    }

    pub fn is_tree_empty(&self) -> (r: bool)
        ensures
            r == (self.shape() == Shape::Empty),
    {
        self.root.is_none()
    }

    /// Adds `insert_value`; a key already present leaves the tree as it is.
    /// The tree stays ordered and balanced.
    pub fn insert(&mut self, insert_value: u32)
        ensures
            final(self).shape().keys() == old(self).shape().keys().insert(insert_value),
            final(self).shape() == old(self).shape().avl_insert(insert_value),
            final(self).shape().is_bst(),
            final(self).shape().is_balanced(),
            old(self).shape().height() <= final(self).shape().height() <= old(self).shape().height() + 1,
            old(self).shape().contains(insert_value) ==> final(self).shape() == old(self).shape(),
    {
        proof {
            use_type_invariant(&*self);
        }
        let mut root = None;
        std::mem::swap(&mut root, &mut self.root);
        let mut new_root = Some(Self::node_insert(root, insert_value));
        std::mem::swap(&mut new_root, &mut self.root);
    }

    fn node_insert(node: Option<Box<TreeNode>>, insert_value: u32) -> (r: Box<TreeNode>)
        requires
            opt_wf(node),
            opt_shape(node).is_bst(),
            opt_shape(node).is_balanced(),
        ensures
            r.wf(),
            r.node_shape().is_bst(),
            r.node_shape().is_balanced(),
            r.node_shape().keys() == opt_shape(node).keys().insert(insert_value),
            r.node_shape() == opt_shape(node).avl_insert(insert_value),
            opt_shape(node).height() <= r.node_shape().height() <= opt_shape(node).height() + 1,
            opt_shape(node).contains(insert_value) ==> r.node_shape() == opt_shape(node),
        decreases node,
    {
        let mut n = match node {
            None => {
                proof {
                    lemma_small_shapes(insert_value);
                }
                return TreeNode::new(insert_value);
            },
            Some(n) => n,
        };
        let ghost old_shape = n.node_shape();
        proof {
            lemma_children_ordered(old_shape);
            assert(old_shape.keys() == old_shape.left().keys().union(old_shape.right().keys()).insert(n.value));
        }
        let node_value = n.value;
        if insert_value < node_value {
            let left = n.left.take();
            let new_left = Self::node_insert(left, insert_value);
            n.left = Some(new_left);
        } else if insert_value > node_value {
            let right = n.right.take();
            let new_right = Self::node_insert(right, insert_value);
            n.right = Some(new_right);
        } else {
            n.value = insert_value;
        }
        proof {
            lemma_join(n.value, opt_shape(n.left), opt_shape(n.right));
        }
        Self::rebalance(n)
    }

    /// Removes `delete_value` if present; an absent key leaves the tree as it is.
    /// The tree stays ordered and balanced.
    pub fn delete(&mut self, delete_value: u32)
        ensures
            final(self).shape().keys() == old(self).shape().keys().remove(delete_value),
            final(self).shape() == old(self).shape().avl_delete(delete_value),
            final(self).shape().is_bst(),
            final(self).shape().is_balanced(),
            old(self).shape().height() <= final(self).shape().height() + 1,
            final(self).shape().height() <= old(self).shape().height(),
            !old(self).shape().contains(delete_value) ==> final(self).shape() == old(self).shape(),
    {
        proof {
            use_type_invariant(&*self);
        }
        let mut root = None;
        std::mem::swap(&mut root, &mut self.root);
        let mut new_root = Self::node_delete(root, delete_value);
        std::mem::swap(&mut new_root, &mut self.root);
    }

    fn node_delete(node: Option<Box<TreeNode>>, delete_value: u32) -> (r: Option<Box<TreeNode>>)
        requires
            opt_wf(node),
            opt_shape(node).is_bst(),
            opt_shape(node).is_balanced(),
        ensures
            opt_wf(r),
            opt_shape(r).is_bst(),
            opt_shape(r).is_balanced(),
            opt_shape(r).keys() == opt_shape(node).keys().remove(delete_value),
            opt_shape(r) == opt_shape(node).avl_delete(delete_value),
            opt_shape(node).height() <= opt_shape(r).height() + 1,
            opt_shape(r).height() <= opt_shape(node).height(),
            !opt_shape(node).contains(delete_value) ==> opt_shape(r) == opt_shape(node),
        decreases node,
    {
        let mut n = match node {
            None => {
                assert(Shape::Empty.keys() =~= Set::<u32>::empty().remove(delete_value));
                return None;
            },
            Some(n) => n,
        };
        let ghost old_shape = n.node_shape();
        proof {
            lemma_children_ordered(old_shape);
            assert(old_shape.keys() == old_shape.left().keys().union(old_shape.right().keys()).insert(n.value));
        }
        let node_value = n.value;
        let ret: Option<Box<TreeNode>> = if delete_value < node_value {
            let left = n.left.take();
            n.left = Self::node_delete(left, delete_value);
            proof {
                lemma_join(n.value, opt_shape(n.left), opt_shape(n.right));
                assert(n.node_shape().keys() =~= old_shape.keys().remove(delete_value));
            }
            Some(n)
        } else if delete_value > node_value {
            let right = n.right.take();
            n.right = Self::node_delete(right, delete_value);
            proof {
                lemma_join(n.value, opt_shape(n.left), opt_shape(n.right));
                assert(n.node_shape().keys() =~= old_shape.keys().remove(delete_value));
            }
            Some(n)
        } else {
            let left = n.left.take();
            let right = n.right.take();
            match (left, right) {
                (None, Some(r)) => {
                    assert(r.node_shape().keys() =~= old_shape.keys().remove(delete_value));
                    Some(r)
                },
                (Some(l), None) => {
                    assert(l.node_shape().keys() =~= old_shape.keys().remove(delete_value));
                    Some(l)
                },
                (None, None) => {
                    assert(Shape::Empty.keys() =~= old_shape.keys().remove(delete_value));
                    None
                },
                (Some(l), Some(r)) => {
                    let min_value = get_min_value_in_children(&*r);
                    proof {
                        lemma_leftmost_is_min(r.node_shape(), min_value);
                    }
                    n.value = min_value;
                    n.left = Some(l);
                    n.right = Self::node_delete(Some(r), min_value);
                    proof {
                        lemma_join(n.value, opt_shape(n.left), opt_shape(n.right));
                        assert(n.node_shape().keys() =~= old_shape.keys().remove(delete_value));
                    }
                    Some(n)
                },
            }
        };
        match ret {
            None => None,
            Some(n) => Some(Self::rebalance(n)),
        }
    }

    /// Stores the true height at `n` and, where the subtrees' heights differ by two,
    /// rotates: LL (right), RR (left), LR (left at the left child, then right),
    /// RL (right at the right child, then left).
    fn rebalance(n: Box<TreeNode>) -> (r: Box<TreeNode>)
        requires
            opt_wf(n.left),
            opt_wf(n.right),
            n.node_shape().is_bst(),
            opt_shape(n.left).is_balanced(),
            opt_shape(n.right).is_balanced(),
            -2 <= n.node_shape().balance_factor() <= 2,
        ensures
            r.wf(),
            r.node_shape().is_bst(),
            r.node_shape().is_balanced(),
            r.node_shape().keys() == n.node_shape().keys(),
            r.node_shape() == n.node_shape().avl_rebalance(),
            -1 <= n.node_shape().balance_factor() <= 1 ==> r.node_shape() == n.node_shape(),
            -1 <= n.node_shape().balance_factor() <= 1 ==> r.node_shape().height() == n.node_shape().height(),
            n.node_shape().height() - 1 <= r.node_shape().height() <= n.node_shape().height(),
    {
        let mut n = n;
        proof {
            lemma_size_of_ordered(n.node_shape());
            lemma_children_ordered(n.node_shape());
        }
        let lh = Self::get_left_height(&n);
        let rh = Self::get_right_height(&n);
        n.height = if lh >= rh { lh + 1 } else { rh + 1 };
        let balance_factor = Self::get_balance_factor(&n);
        let ghost s = n.node_shape();
        assert(n.wf());
        if balance_factor > 1 {
            let left_bf = Self::get_balance_factor(n.left.as_ref().unwrap());
            if left_bf >= 0 {
                // LL
                proof {
                    lemma_avl_rotate_right(s);
                    lemma_rotations(s, 0, u32::MAX as int);
                }
                return Self::right_rotate(n);
            } else {
                // LR
                let left = n.left.take().unwrap();
                proof {
                    lemma_size_of_ordered(left.node_shape());
                    lemma_children_ordered(left.node_shape());
                    lemma_rotations(left.node_shape(), 0, u32::MAX as int);
                }
                let rotated = Self::left_rotate(left);
                n.left = Some(rotated);
                proof {
                    lemma_join(n.value, opt_shape(n.left), opt_shape(n.right));
                    lemma_avl_rotate_left_right(s);
                    lemma_rotations(n.node_shape(), 0, u32::MAX as int);
                }
                return Self::right_rotate(n);
            }
        }
        if balance_factor < -1 {
            let right_bf = Self::get_balance_factor(n.right.as_ref().unwrap());
            if right_bf <= 0 {
                // RR
                proof {
                    lemma_avl_rotate_left(s);
                    lemma_rotations(s, 0, u32::MAX as int);
                }
                return Self::left_rotate(n);
            } else {
                // RL
                let right = n.right.take().unwrap();
                proof {
                    lemma_size_of_ordered(right.node_shape());
                    lemma_children_ordered(right.node_shape());
                    lemma_rotations(right.node_shape(), 0, u32::MAX as int);
                }
                let rotated = Self::right_rotate(right);
                n.right = Some(rotated);
                proof {
                    lemma_join(n.value, opt_shape(n.left), opt_shape(n.right));
                    lemma_avl_rotate_right_left(s);
                    lemma_rotations(n.node_shape(), 0, u32::MAX as int);
                }
                return Self::left_rotate(n);
            }
        }
        n
    }

    /// Height of an optional subtree, from its stored height; 0 when absent.
    fn get_height(node: &Option<Box<TreeNode>>) -> (r: u64)
        requires
            opt_wf(*node),
        ensures
            r == opt_shape(*node).height(),
    {
        match node {
            None => 0,
            Some(n) => n.height,
        }
    }

    fn get_left_height(n: &TreeNode) -> (r: u64)
        requires
            opt_wf(n.left),
        ensures
            r == opt_shape(n.left).height(),
    {
        Self::get_height(&n.left)
    }

    fn get_right_height(n: &TreeNode) -> (r: u64)
        requires
            opt_wf(n.right),
        ensures
            r == opt_shape(n.right).height(),
    {
        Self::get_height(&n.right)
    }

    fn get_balance_factor(n: &TreeNode) -> (r: i64)
        requires
            opt_wf(n.left),
            opt_wf(n.right),
            n.node_shape().is_bst(),
        ensures
            r == n.node_shape().balance_factor(),
    {
        proof {
            lemma_size_of_ordered(n.node_shape());
        }
        Self::get_left_height(n) as i64 - Self::get_right_height(n) as i64
    }

    /// Whether every node of the subtree at `node` is balanced, by recomputing heights.
    pub fn is_balanced(&self, node: Option<&TreeNode>) -> (r: bool)
        requires
            node matches Some(n) ==> n.shape().is_bst(),
        ensures
            r == match node {
                Some(n) => n.shape().is_balanced(),
                None => true,
            },
    {
        match node {
            None => true,
            Some(n) => Self::balanced_height(n).is_some(),
        }
    }

    /// The height of the subtree at `n` when it is balanced, `None` otherwise.
    fn balanced_height(n: &TreeNode) -> (r: Option<u64>)
        requires
            n.node_shape().is_bst(),
        ensures
            r is Some <==> n.node_shape().is_balanced(),
            r matches Some(h) ==> h == n.node_shape().height(),
        decreases n.node_shape(),
    {
        proof {
            lemma_size_of_ordered(n.node_shape());
            lemma_children_ordered(n.node_shape());
        }
        let lh: Option<u64> = match &n.left {
            None => Some(0),
            Some(l) => Self::balanced_height(l),
        };
        let rh: Option<u64> = match &n.right {
            None => Some(0),
            Some(x) => Self::balanced_height(x),
        };
        assert(n.node_shape().left() == opt_shape(n.left));
        assert(n.node_shape().right() == opt_shape(n.right));
        assert(n.left is None ==> opt_shape(n.left) == Shape::Empty);
        assert(n.right is None ==> opt_shape(n.right) == Shape::Empty);
        proof {
            lemma_small_shapes(n.value);
        }
        match (lh, rh) {
            (Some(a), Some(b)) => {
                if a <= b + 1 && b <= a + 1 {
                    Some(if a >= b { a + 1 } else { b + 1 })
                } else {
                    None
                }
            },
            _ => None,
        }
    }

    //            y                           x
    //          /   \                       /   \
    //         x     c     right (y)       a     y
    //        / \          -------->            / \
    //       a   b                             b   c
    fn right_rotate(y: Box<TreeNode>) -> (r: Box<TreeNode>)
        requires
            y.left is Some,
            opt_wf(y.left),
            opt_wf(y.right),
            y.node_shape().is_bst(),
        ensures
            r.wf(),
            r.node_shape() == y.node_shape().rotate_right(),
    {
        let mut y = y;
        proof {
            lemma_size_of_ordered(y.node_shape());
            lemma_children_ordered(y.node_shape());
            lemma_size_of_ordered(opt_shape(y.left));
        }
        let mut x = y.left.take().unwrap();
        let b = x.right.take();
        y.left = b;
        let lh = Self::get_left_height(&y);
        let rh = Self::get_right_height(&y);
        y.height = if lh >= rh { lh + 1 } else { rh + 1 };
        assert(y.wf());
        x.right = Some(y);
        let lh = Self::get_left_height(&x);
        let rh = Self::get_right_height(&x);
        x.height = if lh >= rh { lh + 1 } else { rh + 1 };
        x
    }

    //            y                               x
    //          /   \                           /   \
    //         a     x      left (y)           y     c
    //              / \     ------->          / \
    //             b   c                     a   b
    fn left_rotate(y: Box<TreeNode>) -> (r: Box<TreeNode>)
        requires
            y.right is Some,
            opt_wf(y.left),
            opt_wf(y.right),
            y.node_shape().is_bst(),
        ensures
            r.wf(),
            r.node_shape() == y.node_shape().rotate_left(),
    {
        let mut y = y;
        proof {
            lemma_size_of_ordered(y.node_shape());
            lemma_children_ordered(y.node_shape());
            lemma_size_of_ordered(opt_shape(y.right));
        }
        let mut x = y.right.take().unwrap();
        let b = x.left.take();
        y.right = b;
        let lh = Self::get_left_height(&y);
        let rh = Self::get_right_height(&y);
        y.height = if lh >= rh { lh + 1 } else { rh + 1 };
        assert(y.wf());
        x.left = Some(y);
        let lh = Self::get_left_height(&x);
        let rh = Self::get_right_height(&x);
        x.height = if lh >= rh { lh + 1 } else { rh + 1 };
        x
    }
}

} // verus!
