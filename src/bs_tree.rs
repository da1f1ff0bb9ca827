//! Plain binary search tree, without any balancing: a simple reference for the
//! balanced variants.

use vstd::prelude::*;
use crate::shape::{Shape, leaf, lemma_small_shapes, lemma_join, lemma_children_ordered, lemma_leftmost_is_min};
use crate::common_trait::{CommonTreeNodeTrait, CommonTreeTrait, get_min_value_in_children};

verus! {

pub struct BSTree {
    root: Option<Box<TreeNode>>,
}

pub struct TreeNode {
    value: u32,
    left: Option<Box<TreeNode>>,
    right: Option<Box<TreeNode>>,
}

pub open spec fn opt_shape(node: Option<Box<TreeNode>>) -> Shape
    decreases node,
{
    match node {
        None => Shape::Empty,
        Some(n) => n.node_shape(),
    }
}

impl TreeNode {
    pub closed spec fn node_shape(self) -> Shape
        decreases self,
    {
        Shape::Node {
            key: self.value,
            left: Box::new(opt_shape(self.left)),
            right: Box::new(opt_shape(self.right)),
        }
    }

    fn new(value: u32) -> (r: Box<TreeNode>)
        ensures
            r.node_shape() == leaf(value),
    {
        let r = Box::new(TreeNode { value, left: None, right: None });
        assert(opt_shape(r.left) == Shape::Empty && opt_shape(r.right) == Shape::Empty);
        r
    }

    /// Adds `insert_value` below `node`, at the absent position where the search for it ends.
    fn node_insert(node: Box<TreeNode>, insert_value: u32) -> (r: Box<TreeNode>)
        requires
            node.node_shape().is_bst(),
        ensures
            r.node_shape().is_bst(),
            r.node_shape().keys() == node.node_shape().keys().insert(insert_value),
            r.node_shape() == node.node_shape().bst_insert(insert_value),
            node.node_shape().contains(insert_value) ==> r == node,
        decreases node,
    {
        let mut node = node;
        let ghost old_shape = node.node_shape();
        proof {
            lemma_children_ordered(old_shape);
            assert(old_shape.keys() == old_shape.left().keys().union(old_shape.right().keys()).insert(node.value));
            lemma_small_shapes(insert_value);
            assert(Shape::Empty.bst_insert(insert_value) == leaf(insert_value));
        }
        if node.value > insert_value {
            let left = node.left.take();
            match left {
                Some(left) => {
                    node.left = Some(Self::node_insert(left, insert_value));
                },
                None => {
                    node.left = Some(TreeNode::new(insert_value));
                },
            }
        } else if node.value < insert_value {
            let right = node.right.take();
            match right {
                Some(right) => {
                    node.right = Some(Self::node_insert(right, insert_value));
                },
                None => {
                    node.right = Some(TreeNode::new(insert_value));
                },
            }
        } else {
            return node;
        }
        proof {
            lemma_join(node.value, opt_shape(node.left), opt_shape(node.right));
        }
        node
    }

    /// Removes `delete_value` from the left subtree of `parent`.
    fn node_delete_left(parent: Box<TreeNode>, delete_value: u32) -> (r: Box<TreeNode>)
        requires
            opt_shape(parent.left).is_bst(),
        ensures
            r.value == parent.value,
            r.right == parent.right,
            opt_shape(r.left).is_bst(),
            opt_shape(r.left).keys() == opt_shape(parent.left).keys().remove(delete_value),
            opt_shape(r.left) == opt_shape(parent.left).bst_delete(delete_value),
            !opt_shape(parent.left).contains(delete_value) ==> r == parent,
        decreases parent.node_shape().size(), 0nat,
    {
        let mut parent = parent;
        let curr = parent.left.take();
        parent.left = Self::node_delete(curr, delete_value);
        parent
    }

    /// Removes `delete_value` from the right subtree of `parent`.
    fn node_delete_right(parent: Box<TreeNode>, delete_value: u32) -> (r: Box<TreeNode>)
        requires
            opt_shape(parent.right).is_bst(),
        ensures
            r.value == parent.value,
            r.left == parent.left,
            opt_shape(r.right).is_bst(),
            opt_shape(r.right).keys() == opt_shape(parent.right).keys().remove(delete_value),
            opt_shape(r.right) == opt_shape(parent.right).bst_delete(delete_value),
            !opt_shape(parent.right).contains(delete_value) ==> r == parent,
        decreases parent.node_shape().size(), 0nat,
    {
        let mut parent = parent;
        let curr = parent.right.take();
        parent.right = Self::node_delete(curr, delete_value);
        parent
    }

    /// Removes `delete_value` from the subtree at `node`: a node with two children takes
    /// the smallest key of its right subtree, which is then removed there instead; a node
    /// with one child is replaced by it.
    fn node_delete(node: Option<Box<TreeNode>>, delete_value: u32) -> (r: Option<Box<TreeNode>>)
        requires
            opt_shape(node).is_bst(),
        ensures
            opt_shape(r).is_bst(),
            opt_shape(r).keys() == opt_shape(node).keys().remove(delete_value),
            opt_shape(r) == opt_shape(node).bst_delete(delete_value),
            !opt_shape(node).contains(delete_value) ==> r == node,
        decreases opt_shape(node).size(), 1nat,
    {
        let mut curr = match node {
            None => {
                assert(Shape::Empty.keys() =~= Set::<u32>::empty().remove(delete_value));
                return None;
            },
            Some(n) => n,
        };
        let ghost old_shape = curr.node_shape();
        proof {
            lemma_children_ordered(old_shape);
            assert(old_shape.keys() == old_shape.left().keys().union(old_shape.right().keys()).insert(curr.value));
        }
        if curr.value > delete_value {
            let r = Self::node_delete_left(curr, delete_value);
            proof {
                lemma_join(r.value, opt_shape(r.left), opt_shape(r.right));
                assert(r.node_shape().keys() =~= old_shape.keys().remove(delete_value));
            }
            Some(r)
        } else if curr.value < delete_value {
            let r = Self::node_delete_right(curr, delete_value);
            proof {
                lemma_join(r.value, opt_shape(r.left), opt_shape(r.right));
                assert(r.node_shape().keys() =~= old_shape.keys().remove(delete_value));
            }
            Some(r)
        } else if curr.left.is_some() && curr.right.is_some() {
            let min_of_right = get_min_value_in_children(&**curr.right.as_ref().unwrap());
            proof {
                lemma_leftmost_is_min(opt_shape(curr.right), min_of_right);
            }
            curr.value = min_of_right;
            let r = Self::node_delete_right(curr, min_of_right);
            proof {
                lemma_join(r.value, opt_shape(r.left), opt_shape(r.right));
                assert(r.node_shape().keys() =~= old_shape.keys().remove(delete_value));
            }
            Some(r)
        } else if curr.left.is_some() {
            let l = curr.left.take();
            assert(opt_shape(l).keys() =~= old_shape.keys().remove(delete_value));
            l
        } else {
            let r = curr.right.take();
            proof {
                if r is None {
                    lemma_small_shapes(delete_value);
                }
            }
            assert(opt_shape(r).keys() =~= old_shape.keys().remove(delete_value));
            r
        }
    }
}

impl CommonTreeNodeTrait for TreeNode {
    open spec fn shape(&self) -> Shape {
        self.node_shape()
    }

    fn get_left(&self) -> (r: Option<&Self>) {
        match &self.left {
            Some(b) => Some(&**b),
            None => None,
        }
    }

    fn get_right(&self) -> (r: Option<&Self>) {
        match &self.right {
            Some(b) => Some(&**b),
            None => None,
        }
    }

    fn get_value(&self) -> (r: u32) {
        self.value
    }
}

impl CommonTreeTrait<TreeNode> for BSTree {
    closed spec fn shape(&self) -> Shape {
        opt_shape(self.root)
    }

    fn get_root(&self) -> (r: Option<&TreeNode>) {
        proof {
            use_type_invariant(self);
        }
        match &self.root {
            Some(b) => Some(&**b),
            None => None,
        }
    }
}

impl BSTree {
    #[verifier::type_invariant]
    closed spec fn inv(self) -> bool {
        opt_shape(self.root).is_bst()
    }

    pub fn new() -> (r: Self)
        ensures
            r.shape() == Shape::Empty,
    {
        BSTree { root: None }
    }

    /// Adds `insert_value` as a new leaf; a key already present leaves the tree as it is.
    pub fn insert(&mut self, insert_value: u32)
        ensures
            final(self).shape().keys() == old(self).shape().keys().insert(insert_value),
            final(self).shape() == old(self).shape().bst_insert(insert_value),
            final(self).shape().is_bst(),
            old(self).shape().contains(insert_value) ==> final(self).shape() == old(self).shape(),
    {
        proof {
            use_type_invariant(&*self);
        }
        let mut root = None;
        std::mem::swap(&mut root, &mut self.root);
        let mut new_root = match root {
            None => {
                proof {
                    lemma_small_shapes(insert_value);
                }
                Some(TreeNode::new(insert_value))
            },
            Some(root) => Some(TreeNode::node_insert(root, insert_value)),
        };
        std::mem::swap(&mut new_root, &mut self.root);
    }

    /// Removes `delete_value` if present; an absent key leaves the tree as it is.
    pub fn delete(&mut self, delete_value: u32)
        ensures
            final(self).shape().keys() == old(self).shape().keys().remove(delete_value),
            final(self).shape() == old(self).shape().bst_delete(delete_value),
            final(self).shape().is_bst(),
            !old(self).shape().contains(delete_value) ==> final(self).shape() == old(self).shape(),
    {
        proof {
            use_type_invariant(&*self);
        }
        let mut root = None;
        std::mem::swap(&mut root, &mut self.root);
        let mut new_root = TreeNode::node_delete(root, delete_value);
        std::mem::swap(&mut new_root, &mut self.root);
    }
}

} // verus!
