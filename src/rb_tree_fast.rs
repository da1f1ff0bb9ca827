//! Left-leaning red-black tree, insertion only. No node has a red right child. On the
//! way back up from an insertion each node applies three local fixes in turn: a red
//! right child beside a black left one is rotated to the left; two reds in a row on the
//! left are rotated to the right; two red children are flipped to black and their
//! parent to red.

use vstd::prelude::*;
use vstd::arithmetic::power2::{pow2, lemma_pow2_unfold, lemma_pow2_adds};
use crate::shape::{Shape, Painted, lemma_pow2_monotone, leaf, lemma_small_shapes, lemma_join, lemma_children_ordered, lemma_rotations, lemma_size_of_ordered};
use crate::common_trait::{CommonTreeNodeTrait, CommonTreeTrait, pre_order_traversal_for_test, in_order_traversal_for_test};

verus! {

#[derive(Clone, Copy, Debug, PartialEq, Eq, Structural)]
pub enum NodeColor {
    Red,
    Black,
}

impl NodeColor {
    /// "r" for red, "b" for black.
    pub fn to_string(&self) -> (r: &'static str)
        ensures
            r@ == (if *self == NodeColor::Red { "r"@ } else { "b"@ }),
    {
        match self {
            NodeColor::Red => "r",
            NodeColor::Black => "b",
        }
    }
}

pub struct TreeNode {
    color: NodeColor,
    value: u32,
    left: Option<Box<TreeNode>>,
    right: Option<Box<TreeNode>>,
}

pub struct FastRBTree {
    root: Option<Box<TreeNode>>,
}

pub open spec fn opt_shape(node: Option<Box<TreeNode>>) -> Shape
    decreases node,
{
    match node {
        None => Shape::Empty,
        Some(n) => n.node_shape(),
    }
}

pub open spec fn opt_painted(node: Option<Box<TreeNode>>) -> Painted
    decreases node,
{
    match node {
        None => Painted::Empty,
        Some(n) => n.painted(),
    }
}

/// One level of the colored view, at an optional node.
proof fn lemma_painted(node: Option<Box<TreeNode>>)
    ensures
        opt_painted(node).is_red() == is_red(node),
        node is None ==> opt_painted(node) == Painted::Empty,
        node matches Some(n) ==> opt_painted(node) == (Painted::Node {
            red: n.color == NodeColor::Red,
            key: n.value,
            left: Box::new(opt_painted(n.left)),
            right: Box::new(opt_painted(n.right)),
        }),
{
}

/// The colored view without its colors is the shape.
proof fn lemma_painted_shape(node: Option<Box<TreeNode>>)
    ensures
        opt_painted(node).shape() == opt_shape(node),
    decreases node,
{
    if let Some(n) = node {
        lemma_painted_shape(n.left);
        lemma_painted_shape(n.right);
        lemma_painted(node);
    }
}

/// A present red node; absent children count as black.
pub closed spec fn is_red(node: Option<Box<TreeNode>>) -> bool {
    node matches Some(n) && n.color == NodeColor::Red
}

/// Number of black nodes on the leftmost path down from `node`.
pub closed spec fn black_height(node: Option<Box<TreeNode>>) -> nat
    decreases node,
{
    match node {
        None => 0,
        Some(n) => black_height(n.left) + if n.color == NodeColor::Black { 1nat } else { 0nat },
    }
}

/// Every path down from each node meets the same number of black nodes.
pub closed spec fn black_balanced(node: Option<Box<TreeNode>>) -> bool
    decreases node,
{
    match node {
        None => true,
        Some(n) => {
            &&& black_height(n.left) == black_height(n.right)
            &&& black_balanced(n.left)
            &&& black_balanced(n.right)
        },
    }
}

/// The red-black rules below the root: equal black heights, and no red node with a red child.
pub closed spec fn rb_ok(node: Option<Box<TreeNode>>) -> bool
    decreases node,
{
    match node {
        None => true,
        Some(n) => {
            &&& black_height(n.left) == black_height(n.right)
            &&& (n.color == NodeColor::Red ==> !is_red(n.left) && !is_red(n.right))
            &&& rb_ok(n.left)
            &&& rb_ok(n.right)
        },
    }
}

/// One level of the red-black definitions, at a given node.
proof fn lemma_unfold(n: TreeNode)
    ensures
        is_red(Some(Box::new(n))) == (n.color == NodeColor::Red),
        black_height(Some(Box::new(n))) == black_height(n.left) + if n.color == NodeColor::Black { 1nat } else { 0nat },
        black_height(Some(Box::new(n))) == black_height(n.right) + if n.color == NodeColor::Black { 1nat } else { 0nat }
            <== black_height(n.left) == black_height(n.right),
        rb_ok(Some(Box::new(n))) == {
            &&& black_height(n.left) == black_height(n.right)
            &&& (n.color == NodeColor::Red ==> !is_red(n.left) && !is_red(n.right))
            &&& rb_ok(n.left)
            &&& rb_ok(n.right)
        },
{
}

/// No node has a red right child.
pub closed spec fn left_leaning(node: Option<Box<TreeNode>>) -> bool
    decreases node,
{
    match node {
        None => true,
        Some(n) => {
            &&& !is_red(n.right)
            &&& left_leaning(n.left)
            &&& left_leaning(n.right)
        },
    }
}

/// One level of `left_leaning`, at a given node.
proof fn lemma_unfold_leaning(n: TreeNode)
    ensures
        left_leaning(Some(Box::new(n))) == (!is_red(n.right) && left_leaning(n.left) && left_leaning(n.right)),
{
}

/// The black height never exceeds the height.
proof fn lemma_black_height_bound(node: Option<Box<TreeNode>>)
    ensures
        black_height(node) <= opt_shape(node).height(),
    decreases node,
{
    if let Some(n) = node {
        lemma_black_height_bound(n.left);
    }
}

impl TreeNode {
    pub closed spec fn node_shape(self) -> Shape
        decreases self,
    {
        Shape::Node {
            key: self.value,
            left: Box::new(opt_shape(self.left)),
            right: Box::new(opt_shape(self.right)),
        }
    }

    /// This subtree with its colors.
    pub closed spec fn painted(self) -> Painted
        decreases self,
    {
        Painted::Node {
            red: self.color == NodeColor::Red,
            key: self.value,
            left: Box::new(opt_painted(self.left)),
            right: Box::new(opt_painted(self.right)),
        }
    }

    /// Every path down from each node of this subtree meets the same number of black nodes.
    pub closed spec fn is_black_balanced(self) -> bool {
        black_balanced(Some(Box::new(self)))
    }

    /// A new red leaf.
    fn new(value: u32) -> (r: Box<TreeNode>)
        ensures
            r.node_shape() == leaf(value),
            r.color == NodeColor::Red,
            r.left is None,
            r.right is None,
    {
        Box::new(TreeNode { color: NodeColor::Red, value, left: None, right: None })
    }

    /// The color of an optional node; an absent node is black.
    fn get_color(node: &Option<Box<TreeNode>>) -> (r: NodeColor)
        ensures
            (r == NodeColor::Red) == is_red(*node),
    {
        match node {
            None => NodeColor::Black,
            Some(n) => n.color,
        }
    }

    fn is_red(node: &Option<Box<TreeNode>>) -> (r: bool)
        ensures
            r == is_red(*node),
    {
        Self::get_color(node) == NodeColor::Red
    }

    fn is_black(node: &Option<Box<TreeNode>>) -> (r: bool)
        ensures
            r == !is_red(*node),
    {
        Self::get_color(node) == NodeColor::Black
    }

    fn set_red(node: Box<TreeNode>) -> (r: Box<TreeNode>)
        ensures
            *r == (TreeNode { color: NodeColor::Red, ..*node }),
            r.node_shape() == node.node_shape(),
    {
        let mut node = node;
        node.color = NodeColor::Red;
        node
    }

    fn set_black(node: Box<TreeNode>) -> (r: Box<TreeNode>)
        ensures
            *r == (TreeNode { color: NodeColor::Black, ..*node }),
            r.node_shape() == node.node_shape(),
    {
        let mut node = node;
        node.color = NodeColor::Black;
        node
    }

    /// Both children turn black and the node red.
    fn flip_color(node: Box<TreeNode>) -> (r: Box<TreeNode>)
        requires
            node.left is Some,
            node.right is Some,
        ensures
            *r == (TreeNode {
                color: NodeColor::Red,
                left: Some(Box::new(TreeNode { color: NodeColor::Black, ..*node.left.unwrap() })),
                right: Some(Box::new(TreeNode { color: NodeColor::Black, ..*node.right.unwrap() })),
                ..*node
            }),
            r.node_shape() == node.node_shape(),
            opt_painted(Some(r)) == opt_painted(Some(node)).flip(),
    {
        let ghost old_node = *node;
        proof {
            lemma_painted(Some(node));
            lemma_painted(node.left);
            lemma_painted(node.right);
            lemma_painted(Some(Box::new(TreeNode { color: NodeColor::Black, ..*node.left.unwrap() })));
            lemma_painted(Some(Box::new(TreeNode { color: NodeColor::Black, ..*node.right.unwrap() })));
        }
        let mut node = node;
        let l = node.left.take().unwrap();
        node.left = Some(Self::set_black(l));
        let r = node.right.take().unwrap();
        node.right = Some(Self::set_black(r));
        let r = Self::set_red(node);
        proof {
            lemma_painted(Some(r));
        }
        r
    }

    /// The right child rises to the top and takes the node's color; the node turns red.
    fn left_rotate(node: Box<TreeNode>) -> (r: Box<TreeNode>)
        requires
            node.right is Some,
        ensures
            *r == (TreeNode {
                color: node.color,
                left: Some(Box::new(TreeNode { color: NodeColor::Red, right: node.right.unwrap().left, ..*node })),
                ..*node.right.unwrap()
            }),
            r.node_shape() == node.node_shape().rotate_left(),
            opt_painted(Some(r)) == opt_painted(Some(node)).llrb_rotate_left(),
    {
        let ghost old_node = *node;
        let ghost xr = *old_node.right.unwrap();
        let mut node = node;
        let mut x = node.right.take().unwrap();
        node.right = x.left.take();
        x.color = node.color;
        node.color = NodeColor::Red;
        x.left = Some(node);
        proof {
            assert(opt_shape(old_node.right) == xr.node_shape());
            let inner = TreeNode { color: NodeColor::Red, right: xr.left, ..old_node };
            assert(opt_shape(x.left) == inner.node_shape());
            lemma_painted(Some(Box::new(old_node)));
            lemma_painted(old_node.right);
            lemma_painted(Some(Box::new(inner)));
            lemma_painted(Some(x));
        }
        x
    }

    /// The left child rises to the top and takes the node's color; the node turns red.
    fn right_rotate(node: Box<TreeNode>) -> (r: Box<TreeNode>)
        requires
            node.left is Some,
        ensures
            *r == (TreeNode {
                color: node.color,
                right: Some(Box::new(TreeNode { color: NodeColor::Red, left: node.left.unwrap().right, ..*node })),
                ..*node.left.unwrap()
            }),
            r.node_shape() == node.node_shape().rotate_right(),
            opt_painted(Some(r)) == opt_painted(Some(node)).llrb_rotate_right(),
    {
        let ghost old_node = *node;
        let ghost xl = *old_node.left.unwrap();
        let mut node = node;
        let mut x = node.left.take().unwrap();
        node.left = x.right.take();
        x.color = node.color;
        node.color = NodeColor::Red;
        x.right = Some(node);
        proof {
            assert(opt_shape(old_node.left) == xl.node_shape());
            let inner = TreeNode { color: NodeColor::Red, left: xl.right, ..old_node };
            assert(opt_shape(x.right) == inner.node_shape());
            lemma_painted(Some(Box::new(old_node)));
            lemma_painted(old_node.left);
            lemma_painted(Some(Box::new(inner)));
            lemma_painted(Some(x));
        }
        x
    }

    /// One more than the black height of `node` when its black heights agree on
    /// every path (an absent node counts 1), `None` otherwise.
    fn calculate_black_height(node: &Option<Box<TreeNode>>) -> (r: Option<u64>)
        requires
            opt_shape(*node).is_bst(),
        ensures
            r is Some <==> black_balanced(*node),
            r matches Some(h) ==> h == black_height(*node) + 1,
        decreases *node,
    {
        match node {
            None => Some(1),
            Some(n) => {
                proof {
                    lemma_children_ordered(n.node_shape());
                    lemma_size_of_ordered(n.node_shape());
                    lemma_black_height_bound(*node);
                }
                let left_height = Self::calculate_black_height(&n.left);
                let right_height = Self::calculate_black_height(&n.right);
                match (left_height, right_height) {
                    (Some(l), Some(r)) => {
                        if l != r {
                            None
                        } else if n.color == NodeColor::Black {
                            Some(l + 1)
                        } else {
                            Some(l)
                        }
                    },
                    _ => None,
                }
            },
        }
    }
}

impl CommonTreeNodeTrait for TreeNode {
    open spec fn shape(&self) -> Shape {
        self.node_shape()
    }

    fn get_left(&self) -> (r: Option<&Self>) {
        match &self.left {
            Some(b) => Some(&**b),
            None => None,
        }
    }

    fn get_right(&self) -> (r: Option<&Self>) {
        match &self.right {
            Some(b) => Some(&**b),
            None => None,
        }
    }

    fn get_value(&self) -> (r: u32) {
        self.value
    }
}

impl CommonTreeTrait<TreeNode> for FastRBTree {
    closed spec fn shape(&self) -> Shape {
        opt_shape(self.root)
    }

    fn get_root(&self) -> (r: Option<&TreeNode>) {
        proof {
            use_type_invariant(self);
        }
        match &self.root {
            Some(b) => Some(&**b),
            None => None,
        }
    }
}

impl TreeNode {
    /// Inserts below `node` and applies the local fixes on the way back up.
    fn node_insert(node: Option<Box<TreeNode>>, insert_value: u32) -> (r: Box<TreeNode>)
        requires
            opt_shape(node).is_bst(),
            rb_ok(node),
            left_leaning(node),
        ensures
            r.node_shape().is_bst(),
            r.node_shape().keys() == opt_shape(node).keys().insert(insert_value),
            black_height(Some(r)) == black_height(node),
            black_height(r.left) == black_height(r.right),
            rb_ok(r.left),
            rb_ok(r.right),
            left_leaning(Some(r)),
            !is_red(node) ==> rb_ok(Some(r)),
            is_red(node) ==> r.color == NodeColor::Red,
            opt_shape(node).contains(insert_value) ==> Some(r) == node,
            opt_painted(Some(r)) == opt_painted(node).llrb_ins(insert_value),
        decreases node,
    {
        let mut n = match node {
            None => {
                proof {
                    lemma_small_shapes(insert_value);
                }
                let r = TreeNode::new(insert_value);
                proof {
                    lemma_unfold(*r);
                    lemma_unfold_leaning(*r);
                    lemma_painted(Some(r));
                    lemma_painted(r.left);
                    lemma_painted(r.right);
                }
                return r;
            },
            Some(n) => n,
        };
        let ghost nn = *n;
        let ghost old_shape = n.node_shape();
        proof {
            lemma_children_ordered(old_shape);
            assert(old_shape.keys() == old_shape.left().keys().union(old_shape.right().keys()).insert(n.value));
            lemma_unfold(nn);
            lemma_unfold_leaning(nn);
            lemma_painted(Some(Box::new(nn)));
            if nn.left is Some {
                lemma_unfold(*nn.left.unwrap());
                lemma_unfold_leaning(*nn.left.unwrap());
            }
            if nn.right is Some {
                lemma_unfold(*nn.right.unwrap());
                lemma_unfold_leaning(*nn.right.unwrap());
            }
        }
        let node_value = n.value;
        if insert_value < node_value {
            let left = n.left.take();
            n.left = Some(Self::node_insert(left, insert_value));
        } else if insert_value > node_value {
            let right = n.right.take();
            n.right = Some(Self::node_insert(right, insert_value));
        } else {
            n.value = insert_value;
        }
        proof {
            lemma_join(n.value, opt_shape(n.left), opt_shape(n.right));
            if n.left is Some {
                lemma_unfold(*n.left.unwrap());
                lemma_unfold_leaning(*n.left.unwrap());
            }
            if n.right is Some {
                lemma_unfold(*n.right.unwrap());
                lemma_unfold_leaning(*n.right.unwrap());
            }
        }
        Self::insert_maintain_rb(n)
    }

    /// The three local fixes at `node`: rotate a red right child to the left, rotate two
    /// reds in a row on the left to the right, and flip two red children.
    fn insert_maintain_rb(node: Box<TreeNode>) -> (r: Box<TreeNode>)
        requires
            node.node_shape().is_bst(),
            black_height(node.left) == black_height(node.right),
            rb_ok(node.right),
            left_leaning(node.left),
            left_leaning(node.right),
            node.left matches Some(a) ==> {
                &&& rb_ok(a.left)
                &&& rb_ok(a.right)
                &&& black_height(a.left) == black_height(a.right)
                &&& !is_red(a.right)
            },
            node.left matches Some(a) && is_red(node.left) && is_red(a.left)
                ==> node.color == NodeColor::Black && !is_red(node.right),
            node.color == NodeColor::Red ==> !(is_red(node.left) && is_red(node.right)),
        ensures
            r.node_shape().is_bst(),
            r.node_shape().keys() == node.node_shape().keys(),
            black_height(Some(r)) == black_height(Some(node)),
            black_height(r.left) == black_height(r.right),
            rb_ok(r.left),
            rb_ok(r.right),
            left_leaning(Some(r)),
            node.color == NodeColor::Black ==> rb_ok(Some(r)),
            node.color == NodeColor::Red ==> r.color == NodeColor::Red,
            rb_ok(Some(node)) && left_leaning(Some(node)) ==> r == node,
            opt_painted(Some(r)) == opt_painted(Some(node)).llrb_fix(),
    {
        let ghost h = *node;
        let ghost s = node.node_shape();
        proof {
            lemma_children_ordered(s);
            lemma_rotations(s, 0, u32::MAX as int);
            lemma_unfold(h);
            lemma_unfold_leaning(h);
            if h.left is Some {
                lemma_unfold(*h.left.unwrap());
                lemma_unfold_leaning(*h.left.unwrap());
            }
            if h.right is Some {
                lemma_unfold(*h.right.unwrap());
                lemma_unfold_leaning(*h.right.unwrap());
            }
        }
        proof {
            lemma_painted(Some(node));
            lemma_painted(h.left);
            lemma_painted(h.right);
            if h.left is Some {
                lemma_painted(h.left.unwrap().left);
            }
        }
        if TreeNode::is_red(&node.right) && TreeNode::is_black(&node.left) {
            let temp1 = TreeNode::left_rotate(node);
            proof {
                lemma_painted(Some(temp1));
                lemma_painted(temp1.left);
                if temp1.left is Some {
                    lemma_painted(temp1.left.unwrap().left);
                }
                let b = *h.right.unwrap();
                let low = TreeNode { color: NodeColor::Red, right: b.left, ..h };
                lemma_unfold(low);
                lemma_unfold_leaning(low);
                lemma_unfold(*temp1);
                lemma_unfold_leaning(*temp1);
            }
            let left_left_red = match &temp1.left {
                Some(l) => TreeNode::is_red(&l.left),
                None => false,
            };
            if TreeNode::is_red(&temp1.left) && left_left_red {
                let temp2 = TreeNode::right_rotate(temp1);
                proof {
                    lemma_painted(Some(temp2));
                    lemma_painted(temp2.left);
                    lemma_painted(temp2.right);
                }
                if TreeNode::is_red(&temp2.left) && TreeNode::is_red(&temp2.right) {
                    return TreeNode::flip_color(temp2);
                }
                return temp2;
            }
            return temp1;
        }
        let left_left_red = match &node.left {
            Some(l) => TreeNode::is_red(&l.left),
            None => false,
        };
        if TreeNode::is_red(&node.left) && left_left_red {
            let temp1 = TreeNode::right_rotate(node);
            proof {
                lemma_painted(Some(temp1));
                lemma_painted(temp1.left);
                lemma_painted(temp1.right);
            }
            if TreeNode::is_red(&temp1.left) && TreeNode::is_red(&temp1.right) {
                let r = TreeNode::flip_color(temp1);
                proof {
                    let a = *h.left.unwrap();
                    let low = TreeNode { color: NodeColor::Black, left: a.right, ..h };
                    let al = TreeNode { color: NodeColor::Black, ..*a.left.unwrap() };
                    lemma_unfold(*a.left.unwrap());
                    lemma_unfold_leaning(*a.left.unwrap());
                    lemma_unfold(low);
                    lemma_unfold_leaning(low);
                    lemma_unfold(al);
                    lemma_unfold_leaning(al);
                    lemma_unfold(*r);
                    lemma_unfold_leaning(*r);
                }
                return r;
            }
            return temp1;
        }
        if TreeNode::is_red(&node.left) && TreeNode::is_red(&node.right) {
            let r = TreeNode::flip_color(node);
            proof {
                let a = TreeNode { color: NodeColor::Black, ..*h.left.unwrap() };
                let b = TreeNode { color: NodeColor::Black, ..*h.right.unwrap() };
                lemma_unfold(a);
                lemma_unfold_leaning(a);
                lemma_unfold(b);
                lemma_unfold_leaning(b);
                lemma_unfold(*r);
                lemma_unfold_leaning(*r);
            }
            return r;
        }
        node
    }
}

impl FastRBTree {
    #[verifier::type_invariant]
    closed spec fn inv(self) -> bool {
        &&& opt_shape(self.root).is_bst()
        &&& self.is_red_black()
        &&& left_leaning(self.root)
    }

    /// The red-black rules: the root is black, no red node has a red child, and every
    /// path down from a node meets the same number of black nodes.
    pub closed spec fn is_red_black(self) -> bool {
        &&& !is_red(self.root)
        &&& rb_ok(self.root)
    }

    /// Every path down from each node meets the same number of black nodes: what
    /// `is_valid_red_black_tree` checks from the root.
    pub closed spec fn is_black_balanced(self) -> bool {
        black_balanced(self.root)
    }

    /// The root node, which passes the black-height check.
    pub fn root(&self) -> (r: Option<&TreeNode>)
        ensures
            match r {
                Some(n) => n.shape() == self.shape() && n.shape().is_bst() && n.is_black_balanced(),
                None => self.shape() == Shape::Empty,
            },
    {
        proof {
            use_type_invariant(self);
            lemma_rb_ok_is_black_balanced(self.root);
        }
        match &self.root {
            Some(b) => Some(&**b),
            None => None,
        }
    }

    /// The tree with its colors.
    pub closed spec fn painted(self) -> Painted {
        opt_painted(self.root)
    }

    pub fn new() -> (r: Self)
        ensures
            r.shape() == Shape::Empty,
            r.painted() == Painted::Empty,
    {
        FastRBTree { root: None }
    }

    /// Adds `insert_value`; a key already present leaves the tree as it is.
    pub fn insert(&mut self, insert_value: u32)
        ensures
            final(self).shape().keys() == old(self).shape().keys().insert(insert_value),
            final(self).painted() == old(self).painted().llrb_insert(insert_value),
            final(self).painted().shape() == final(self).shape(),
            final(self).shape().is_bst(),
            final(self).is_red_black(),
            final(self).is_black_balanced(),
            old(self).shape().contains(insert_value) ==> final(self).shape() == old(self).shape(),
    {
        proof {
            use_type_invariant(&*self);
        }
        let mut root = None;
        std::mem::swap(&mut root, &mut self.root);
        let inserted = TreeNode::node_insert(root, insert_value);
        proof {
            lemma_painted(Some(inserted));
        }
        let new_root = TreeNode::set_black(inserted);
        proof {
            lemma_unfold(*new_root);
            lemma_unfold_leaning(*new_root);
            lemma_painted(Some(new_root));
            lemma_painted_shape(Some(new_root));
        }
        let mut new_root = Some(new_root);
        proof {
            lemma_rb_ok_is_black_balanced(new_root);
        }
        std::mem::swap(&mut new_root, &mut self.root);
    }

    /// Appends the keys of the subtree at `node` in pre-order.
    pub fn pre_order_traverse(&self, node: &TreeNode, container: &mut Vec<u32>)
        ensures
            final(container)@ == old(container)@ + node.shape().preorder(),
    {
        pre_order_traversal_for_test(node, container)
    }

    /// Appends the keys of the subtree at `node` in pre-order.
    pub fn debug_preorder_traverse(&self, node: &TreeNode, container: &mut Vec<u32>)
        ensures
            final(container)@ == old(container)@ + node.shape().preorder(),
    {
        pre_order_traversal_for_test(node, container)
    }

    /// Appends the keys of the subtree at `node` in order.
    pub fn inorder_traverse(&self, node: &TreeNode, container: &mut Vec<u32>)
        ensures
            final(container)@ == old(container)@ + node.shape().inorder(),
    {
        in_order_traversal_for_test(node, container)
    }

    /// Whether every path down from each node of the subtree at `root` meets the same
    /// number of black nodes.
    pub fn is_valid_red_black_tree(root: Option<&TreeNode>) -> (r: bool)
        requires
            root matches Some(n) ==> n.shape().is_bst(),
        ensures
            r == match root {
                Some(n) => n.is_black_balanced(),
                None => true,
            },
    {
        match root {
            None => true,
            Some(n) => {
                proof {
                    lemma_children_ordered(n.node_shape());
                }
                let left_height = TreeNode::calculate_black_height(&n.left);
                let right_height = TreeNode::calculate_black_height(&n.right);
                match (left_height, right_height) {
                    (Some(l), Some(r)) => l == r,
                    _ => false,
                }
            },
        }
    }

    /// Whether two subtrees hold the same keys in the same places.
    pub fn is_equal(left: Option<&TreeNode>, right: Option<&TreeNode>) -> (r: bool)
        ensures
            r == (match left {
                Some(n) => n.shape(),
                None => Shape::Empty,
            } == match right {
                Some(n) => n.shape(),
                None => Shape::Empty,
            }),
        decreases match left {
            Some(n) => n.shape().size(),
            None => 0,
        },
    {
        match (left, right) {
            (None, None) => true,
            (Some(_), None) | (None, Some(_)) => false,
            (Some(l), Some(r)) => {
                if l.value == r.value {
                    let ll = l.get_left();
                    let lr = l.get_right();
                    let rl = r.get_left();
                    let rr = r.get_right();
                    Self::is_equal(ll, rl) && Self::is_equal(lr, rr)
                } else {
                    false
                }
            },
        }
    }
}

/// Red-black rules give every node at least `2^black_height - 1` nodes below and
/// including it.
proof fn lemma_size_from_black_height(node: Option<Box<TreeNode>>)
    requires
        rb_ok(node),
    ensures
        pow2(black_height(node)) <= opt_shape(node).size() + 1,
    decreases node,
{
    if let Some(n) = node {
        lemma_size_from_black_height(n.left);
        lemma_size_from_black_height(n.right);
        lemma_pow2_unfold(black_height(n.left) + 1);
        lemma_pow2_monotone(black_height(node), black_height(n.left) + 1);
    } else {
        vstd::arithmetic::power2::lemma2_to64();
    }
}

/// Without two reds in a row, a path holds at most one red node per black one, plus a
/// red node at the top.
proof fn lemma_height_from_black_height(node: Option<Box<TreeNode>>)
    requires
        rb_ok(node),
    ensures
        opt_shape(node).height() <= 2 * black_height(node) + if is_red(node) { 1nat } else { 0nat },
    decreases node,
{
    if let Some(n) = node {
        lemma_height_from_black_height(n.left);
        lemma_height_from_black_height(n.right);
    }
}

/// Height bound: a tree that keeps the red-black rules has `2^height <= (size + 1)^2`,
/// that is, its height is at most `2 * log2(size + 1)`.
pub proof fn lemma_height_bound(t: FastRBTree)
    requires
        t.is_red_black(),
    ensures
        pow2(t.shape().height()) <= (t.shape().size() + 1) * (t.shape().size() + 1),
{
    let bh = black_height(t.root);
    let n = t.shape().size() + 1;
    lemma_height_from_black_height(t.root);
    lemma_size_from_black_height(t.root);
    lemma_pow2_monotone(t.shape().height(), bh + bh);
    lemma_pow2_adds(bh, bh);
    let p = pow2(bh);
    assert(p * p <= n * n) by (nonlinear_arith)
        requires
            p <= n,
    ;
}

/// The red-black rules include the black-height rule that `is_valid_red_black_tree` checks.
proof fn lemma_rb_ok_is_black_balanced(node: Option<Box<TreeNode>>)
    requires
        rb_ok(node),
    ensures
        black_balanced(node),
    decreases node,
{
    if let Some(n) = node {
        lemma_rb_ok_is_black_balanced(n.left);
        lemma_rb_ok_is_black_balanced(n.right);
    }
}

} // verus!
