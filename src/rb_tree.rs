//! Red-black tree with the classic repair rules: after an insertion the red-red
//! conflict is settled at the grandparent by the uncle's color (recolor, or one or two
//! rotations); after removing a black node the missing black is settled at the parent
//! by the sibling's and nephews' colors. The ancestors that the classic formulation
//! reaches through parent links are here the frames of the recursion, each of which
//! repairs its own subtree and hands the new subtree root back to its caller.

use vstd::prelude::*;
use vstd::arithmetic::power2::{pow2, lemma_pow2_unfold, lemma_pow2_adds};
use crate::shape::{Shape, Painted, lemma_leftmost_is_min, lemma_pow2_monotone, leaf, lemma_small_shapes, lemma_join, lemma_children_ordered, lemma_rotations, lemma_size_of_ordered};
use crate::common_trait::{CommonTreeNodeTrait, CommonTreeTrait, get_min_value_in_children, pre_order_traversal_for_test, in_order_traversal_for_test};

verus! {

#[derive(Clone, Copy, Debug, PartialEq, Eq, Structural)]
pub enum NodeColor {
    Red,
    Black,
}

impl NodeColor {
    /// "r" for red, "b" for black.
    pub fn to_string(&self) -> (r: &'static str)
        ensures
            r@ == (if *self == NodeColor::Red { "r"@ } else { "b"@ }),
    {
        match self {
            NodeColor::Red => "r",
            NodeColor::Black => "b",
        }
    }
}

pub struct TreeNode {
    color: NodeColor,
    value: u32,
    left: Option<Box<TreeNode>>,
    right: Option<Box<TreeNode>>,
}

pub struct RBTree {
    root: Option<Box<TreeNode>>,
}

pub open spec fn opt_shape(node: Option<Box<TreeNode>>) -> Shape
    decreases node,
{
    match node {
        None => Shape::Empty,
        Some(n) => n.node_shape(),
    }
}

pub open spec fn opt_painted(node: Option<Box<TreeNode>>) -> Painted
    decreases node,
{
    match node {
        None => Painted::Empty,
        Some(n) => n.painted(),
    }
}

/// One level of the colored view, at an optional node.
proof fn lemma_painted(node: Option<Box<TreeNode>>)
    ensures
        opt_painted(node).is_red() == is_red(node),
        node is None ==> opt_painted(node) == Painted::Empty,
        node matches Some(n) ==> opt_painted(node) == (Painted::Node {
            red: n.color == NodeColor::Red,
            key: n.value,
            left: Box::new(opt_painted(n.left)),
            right: Box::new(opt_painted(n.right)),
        }),
{
}

/// The colored view without its colors is the shape.
proof fn lemma_painted_shape(node: Option<Box<TreeNode>>)
    ensures
        opt_painted(node).shape() == opt_shape(node),
    decreases node,
{
    if let Some(n) = node {
        lemma_painted_shape(n.left);
        lemma_painted_shape(n.right);
        lemma_painted(node);
    }
}

/// A present red node; absent children count as black.
pub closed spec fn is_red(node: Option<Box<TreeNode>>) -> bool {
    node matches Some(n) && n.color == NodeColor::Red
}

/// Number of black nodes on the leftmost path down from `node`.
pub closed spec fn black_height(node: Option<Box<TreeNode>>) -> nat
    decreases node,
{
    match node {
        None => 0,
        Some(n) => black_height(n.left) + if n.color == NodeColor::Black { 1nat } else { 0nat },
    }
}

/// Every path down from each node meets the same number of black nodes.
pub closed spec fn black_balanced(node: Option<Box<TreeNode>>) -> bool
    decreases node,
{
    match node {
        None => true,
        Some(n) => {
            &&& black_height(n.left) == black_height(n.right)
            &&& black_balanced(n.left)
            &&& black_balanced(n.right)
        },
    }
}

/// The red-black rules below the root: equal black heights, and no red node with a red child.
pub closed spec fn rb_ok(node: Option<Box<TreeNode>>) -> bool
    decreases node,
{
    match node {
        None => true,
        Some(n) => {
            &&& black_height(n.left) == black_height(n.right)
            &&& (n.color == NodeColor::Red ==> !is_red(n.left) && !is_red(n.right))
            &&& rb_ok(n.left)
            &&& rb_ok(n.right)
        },
    }
}

/// One level of the red-black definitions, at a given node.
proof fn lemma_unfold(n: TreeNode)
    ensures
        is_red(Some(Box::new(n))) == (n.color == NodeColor::Red),
        black_height(Some(Box::new(n))) == black_height(n.left) + if n.color == NodeColor::Black { 1nat } else { 0nat },
        black_height(Some(Box::new(n))) == black_height(n.right) + if n.color == NodeColor::Black { 1nat } else { 0nat }
            <== black_height(n.left) == black_height(n.right),
        rb_ok(Some(Box::new(n))) == {
            &&& black_height(n.left) == black_height(n.right)
            &&& (n.color == NodeColor::Red ==> !is_red(n.left) && !is_red(n.right))
            &&& rb_ok(n.left)
            &&& rb_ok(n.right)
        },
{
}

/// A present child is a node of the shape.
proof fn lemma_child_nodes(n: TreeNode)
    ensures
        n.left is Some ==> n.shape().left() is Node,
        n.right is Some ==> n.shape().right() is Node,
{
    if let Some(l) = n.left {
        assert(opt_shape(n.left) == l.node_shape());
    }
    if let Some(r) = n.right {
        assert(opt_shape(n.right) == r.node_shape());
    }
}

/// The black height never exceeds the height.
proof fn lemma_black_height_bound(node: Option<Box<TreeNode>>)
    ensures
        black_height(node) <= opt_shape(node).height(),
    decreases node,
{
    if let Some(n) = node {
        lemma_black_height_bound(n.left);
    }
}

impl TreeNode {
    pub closed spec fn node_shape(self) -> Shape
        decreases self,
    {
        Shape::Node {
            key: self.value,
            left: Box::new(opt_shape(self.left)),
            right: Box::new(opt_shape(self.right)),
        }
    }

    /// This subtree with its colors.
    pub closed spec fn painted(self) -> Painted
        decreases self,
    {
        Painted::Node {
            red: self.color == NodeColor::Red,
            key: self.value,
            left: Box::new(opt_painted(self.left)),
            right: Box::new(opt_painted(self.right)),
        }
    }

    pub closed spec fn spec_color(self) -> NodeColor {
        self.color
    }

    /// The right child raised to the top: the node keeps its left subtree and takes
    /// the raised child's left subtree as its right one.
    pub closed spec fn rotated_left(self) -> TreeNode {
        TreeNode {
            left: Some(Box::new(TreeNode { right: self.right.unwrap().left, ..self })),
            ..*self.right.unwrap()
        }
    }

    /// The mirror image of `rotated_left`.
    pub closed spec fn rotated_right(self) -> TreeNode {
        TreeNode {
            right: Some(Box::new(TreeNode { left: self.left.unwrap().right, ..self })),
            ..*self.left.unwrap()
        }
    }

    /// A new red leaf.
    fn new(value: u32) -> (r: Box<TreeNode>)
        ensures
            r.node_shape() == leaf(value),
            r.color == NodeColor::Red,
            r.left is None,
            r.right is None,
    {
        Box::new(TreeNode { color: NodeColor::Red, value, left: None, right: None })
    }

    /// A black node over the given subtrees.
    pub fn new_black_with_children(value: u32, left: Option<Box<TreeNode>>, right: Option<Box<TreeNode>>) -> (r: Box<TreeNode>)
        ensures
            r.shape() == (Shape::Node { key: value, left: Box::new(opt_shape(left)), right: Box::new(opt_shape(right)) }),
            r.spec_color() == NodeColor::Black,
    {
        Box::new(TreeNode { color: NodeColor::Black, value, left, right })
    }

    fn set_red(node: Box<TreeNode>) -> (r: Box<TreeNode>)
        ensures
            *r == (TreeNode { color: NodeColor::Red, ..*node }),
            r.node_shape() == node.node_shape(),
    {
        let mut node = node;
        node.color = NodeColor::Red;
        node
    }

    fn set_black(node: Box<TreeNode>) -> (r: Box<TreeNode>)
        ensures
            *r == (TreeNode { color: NodeColor::Black, ..*node }),
            r.node_shape() == node.node_shape(),
    {
        let mut node = node;
        node.color = NodeColor::Black;
        node
    }

    /// The color of an optional node; an absent node is black.
    fn get_color(node: &Option<Box<TreeNode>>) -> (r: NodeColor)
        ensures
            (r == NodeColor::Red) == is_red(*node),
    {
        match node {
            None => NodeColor::Black,
            Some(n) => n.color,
        }
    }

    /// Every path down from each node of this subtree meets the same number of black nodes.
    pub closed spec fn is_black_balanced(self) -> bool {
        black_balanced(Some(Box::new(self)))
    }

    /// One more than the black height of `node` when its black heights agree on
    /// every path (an absent node counts 1), `None` otherwise.
    fn calculate_black_height(node: &Option<Box<TreeNode>>) -> (r: Option<u64>)
        requires
            opt_shape(*node).is_bst(),
        ensures
            r is Some <==> black_balanced(*node),
            r matches Some(h) ==> h == black_height(*node) + 1,
        decreases *node,
    {
        match node {
            None => Some(1),
            Some(n) => {
                proof {
                    lemma_children_ordered(n.node_shape());
                    lemma_size_of_ordered(n.node_shape());
                    lemma_black_height_bound(*node);
                }
                let left_height = Self::calculate_black_height(&n.left);
                let right_height = Self::calculate_black_height(&n.right);
                match (left_height, right_height) {
                    (Some(l), Some(r)) => {
                        if l != r {
                            None
                        } else if n.color == NodeColor::Black {
                            Some(l + 1)
                        } else {
                            Some(l)
                        }
                    },
                    _ => None,
                }
            },
        }
    }

    /// Makes the right child the root of the subtree; colors stay with their nodes.
    pub fn left_rotate(node: Box<TreeNode>) -> (r: Box<TreeNode>)
        requires
            node.shape().right() is Node,
        ensures
            *r == node.rotated_left(),
            r.shape() == node.shape().rotate_left(),
    {
        let ghost old_node = *node;
        let ghost xr = *old_node.right.unwrap();
        let mut node = node;
        let mut x = node.right.take().unwrap();
        node.right = x.left.take();
        x.left = Some(node);
        proof {
            assert(opt_shape(old_node.right) == xr.node_shape());
            let inner = TreeNode { right: xr.left, ..old_node };
            assert(opt_shape(x.left) == inner.node_shape());
        }
        x
    }

    /// Makes the left child the root of the subtree; colors stay with their nodes.
    pub fn right_rotate(node: Box<TreeNode>) -> (r: Box<TreeNode>)
        requires
            node.shape().left() is Node,
        ensures
            *r == node.rotated_right(),
            r.shape() == node.shape().rotate_right(),
    {
        let ghost old_node = *node;
        let ghost xl = *old_node.left.unwrap();
        let mut node = node;
        let mut x = node.left.take().unwrap();
        node.left = x.right.take();
        x.right = Some(node);
        proof {
            assert(opt_shape(old_node.left) == xl.node_shape());
            let inner = TreeNode { left: xl.right, ..old_node };
            assert(opt_shape(x.right) == inner.node_shape());
        }
        x
    }
}

impl CommonTreeNodeTrait for TreeNode {
    open spec fn shape(&self) -> Shape {
        self.node_shape()
    }

    fn get_left(&self) -> (r: Option<&Self>) {
        match &self.left {
            Some(b) => Some(&**b),
            None => None,
        }
    }

    fn get_right(&self) -> (r: Option<&Self>) {
        match &self.right {
            Some(b) => Some(&**b),
            None => None,
        }
    }

    fn get_value(&self) -> (r: u32) {
        self.value
    }
}

impl CommonTreeTrait<TreeNode> for RBTree {
    closed spec fn shape(&self) -> Shape {
        opt_shape(self.root)
    }

    fn get_root(&self) -> (r: Option<&TreeNode>) {
        proof {
            use_type_invariant(self);
        }
        match &self.root {
            Some(b) => Some(&**b),
            None => None,
        }
    }
}

impl TreeNode {
    /// Inserts below `node` and repairs on the way back up; a red-red conflict that
    /// reaches the returned root is left for the caller, which is its grandparent's frame.
    fn node_insert(node: Option<Box<TreeNode>>, insert_value: u32) -> (r: Box<TreeNode>)
        requires
            opt_shape(node).is_bst(),
            rb_ok(node),
        ensures
            r.node_shape().is_bst(),
            r.node_shape().keys() == opt_shape(node).keys().insert(insert_value),
            black_height(Some(r)) == black_height(node),
            black_height(r.left) == black_height(r.right),
            rb_ok(r.left),
            rb_ok(r.right),
            !is_red(node) ==> rb_ok(Some(r)),
            is_red(node) ==> r.color == NodeColor::Red && !(is_red(r.left) && is_red(r.right)),
            opt_shape(node).contains(insert_value) ==> Some(r) == node,
            opt_painted(Some(r)) == opt_painted(node).rb_ins(insert_value),
        decreases node,
    {
        let mut n = match node {
            None => {
                proof {
                    lemma_small_shapes(insert_value);
                }
                let r = TreeNode::new(insert_value);
                proof {
                    lemma_painted(Some(r));
                    lemma_painted(r.left);
                    lemma_painted(r.right);
                }
                return r;
            },
            Some(n) => n,
        };
        let ghost old_shape = n.node_shape();
        proof {
            lemma_children_ordered(old_shape);
            assert(old_shape.keys() == old_shape.left().keys().union(old_shape.right().keys()).insert(n.value));
        }
        if n.value == insert_value {
            return n;
        } else if n.value > insert_value {
            let left = n.left.take();
            n.left = Some(Self::node_insert(left, insert_value));
            proof {
                lemma_join(n.value, opt_shape(n.left), opt_shape(n.right));
            }
            Self::insert_maintain_left(n)
        } else {
            let right = n.right.take();
            n.right = Some(Self::node_insert(right, insert_value));
            proof {
                lemma_join(n.value, opt_shape(n.left), opt_shape(n.right));
            }
            Self::insert_maintain_right(n)
        }
    }

    /// Settles a red left child with a red child under `g`: with a red uncle by
    /// recoloring; with a black uncle by a right rotation (left-left) or a left rotation
    /// of the child first (left-right). The new top is black and its children red.
    fn insert_maintain_left(g: Box<TreeNode>) -> (r: Box<TreeNode>)
        requires
            g.left is Some,
            g.node_shape().is_bst(),
            rb_ok(g.left.unwrap().left),
            rb_ok(g.left.unwrap().right),
            black_height(g.left.unwrap().left) == black_height(g.left.unwrap().right),
            is_red(g.left) ==> !(is_red(g.left.unwrap().left) && is_red(g.left.unwrap().right)),
            rb_ok(g.right),
            black_height(g.left) == black_height(g.right),
            is_red(g.left) && (is_red(g.left.unwrap().left) || is_red(g.left.unwrap().right))
                ==> g.color == NodeColor::Black,
        ensures
            r.node_shape().is_bst(),
            r.node_shape().keys() == g.node_shape().keys(),
            black_height(Some(r)) == black_height(Some(g)),
            black_height(r.left) == black_height(r.right),
            rb_ok(r.left),
            rb_ok(r.right),
            g.color == NodeColor::Black ==> rb_ok(Some(r)),
            rb_ok(Some(g)) ==> r == g,
            g.color == NodeColor::Red ==> r == g,
            opt_painted(Some(r)) == opt_painted(Some(g)).rb_fix_left(),
    {
        let mut g = g;
        let ghost gg = *g;
        let ghost c = *gg.left.unwrap();
        let c_red = TreeNode::get_color(&g.left) == NodeColor::Red;
        let (cl_red, cr_red) = match &g.left {
            Some(c) => (
                TreeNode::get_color(&c.left) == NodeColor::Red,
                TreeNode::get_color(&c.right) == NodeColor::Red,
            ),
            None => (false, false),
        };
        proof {
            lemma_unfold(gg);
            lemma_unfold(c);
            lemma_painted(Some(g));
            lemma_painted(gg.left);
            lemma_painted(gg.right);
            lemma_painted(c.left);
            lemma_painted(c.right);
            if gg.right is Some {
                lemma_unfold(*gg.right.unwrap());
            }
        }
        if !(c_red && (cl_red || cr_red)) {
            assert(rb_ok(gg.left));
            return g;
        }
        let ghost s = g.node_shape();
        proof {
            lemma_children_ordered(s);
            lemma_rotations(s, 0, u32::MAX as int);
        }
        if TreeNode::get_color(&g.right) == NodeColor::Red {
            // the uncle is red: recolor and pass the conflict up
            let ghost u = *gg.right.unwrap();
            let cx = g.left.take().unwrap();
            g.left = Some(TreeNode::set_black(cx));
            let ux = g.right.take().unwrap();
            g.right = Some(TreeNode::set_black(ux));
            let r = TreeNode::set_red(g);
            proof {
                let cb = TreeNode { color: NodeColor::Black, ..c };
                let ub = TreeNode { color: NodeColor::Black, ..u };
                lemma_painted(Some(Box::new(cb)));
                lemma_painted(Some(Box::new(ub)));
                lemma_painted(Some(r));
                assert(rb_ok(Some(Box::new(cb))));
                assert(rb_ok(Some(Box::new(ub))));
                assert(black_height(Some(Box::new(cb))) == black_height(cb.left) + 1);
                assert(black_height(Some(Box::new(ub))) == black_height(ub.left) + 1);
            }
            assert(r.node_shape() == s);
            return r;
        }
        if !cl_red {
            // left-right: turn it into left-left
            let cx = g.left.take().unwrap();
            let ghost z = *cx.right.unwrap();
            proof {
                lemma_children_ordered(cx.node_shape());
                lemma_rotations(cx.node_shape(), 0, u32::MAX as int);
                assert(rb_ok(cx.right));
                assert(black_height(cx.right) == black_height(z.left));
            }
            proof {
                lemma_child_nodes(*cx);
            }
            g.left = Some(TreeNode::left_rotate(cx));
            proof {
                lemma_join(g.value, opt_shape(g.left), opt_shape(g.right));
                lemma_rotations(g.node_shape(), 0, u32::MAX as int);
            }
            let mut r = TreeNode::right_rotate(g);
            let below = r.right.take().unwrap();
            r.right = Some(TreeNode::set_red(below));
            let r = TreeNode::set_black(r);
            proof {
                let c1 = TreeNode { right: z.left, ..c };
                let g1 = TreeNode { color: NodeColor::Red, left: z.right, ..gg };
                assert(*r == TreeNode { color: NodeColor::Black, left: Some(Box::new(c1)), right: Some(Box::new(g1)), ..z });
                lemma_painted(Some(Box::new(c1)));
                lemma_painted(Some(Box::new(g1)));
                lemma_painted(Some(r));
                lemma_painted(Some(Box::new(z)));
                assert(rb_ok(Some(Box::new(c1))));
                assert(rb_ok(Some(Box::new(g1))));
                assert(black_height(Some(Box::new(c1))) == black_height(c1.left));
                assert(black_height(Some(Box::new(g1))) == black_height(g1.left));
            }
            return r;
        }
        // left-left
        let mut r = TreeNode::right_rotate(g);
        let below = r.right.take().unwrap();
        r.right = Some(TreeNode::set_red(below));
        let r = TreeNode::set_black(r);
        proof {
            let g1 = TreeNode { color: NodeColor::Red, left: c.right, ..gg };
            assert(*r == TreeNode { color: NodeColor::Black, right: Some(Box::new(g1)), ..c });
            lemma_painted(Some(Box::new(g1)));
            lemma_painted(Some(r));
            assert(rb_ok(Some(Box::new(g1))));
            assert(black_height(Some(Box::new(g1))) == black_height(g1.left));
        }
        r
    }

    /// The mirror image of `insert_maintain_left`.
    fn insert_maintain_right(g: Box<TreeNode>) -> (r: Box<TreeNode>)
        requires
            g.right is Some,
            g.node_shape().is_bst(),
            rb_ok(g.right.unwrap().left),
            rb_ok(g.right.unwrap().right),
            black_height(g.right.unwrap().left) == black_height(g.right.unwrap().right),
            is_red(g.right) ==> !(is_red(g.right.unwrap().left) && is_red(g.right.unwrap().right)),
            rb_ok(g.left),
            black_height(g.left) == black_height(g.right),
            is_red(g.right) && (is_red(g.right.unwrap().left) || is_red(g.right.unwrap().right))
                ==> g.color == NodeColor::Black,
        ensures
            r.node_shape().is_bst(),
            r.node_shape().keys() == g.node_shape().keys(),
            black_height(Some(r)) == black_height(Some(g)),
            black_height(r.left) == black_height(r.right),
            rb_ok(r.left),
            rb_ok(r.right),
            g.color == NodeColor::Black ==> rb_ok(Some(r)),
            rb_ok(Some(g)) ==> r == g,
            g.color == NodeColor::Red ==> r == g,
            opt_painted(Some(r)) == opt_painted(Some(g)).rb_fix_right(),
    {
        let mut g = g;
        let ghost gg = *g;
        let ghost c = *gg.right.unwrap();
        let c_red = TreeNode::get_color(&g.right) == NodeColor::Red;
        let (cl_red, cr_red) = match &g.right {
            Some(c) => (
                TreeNode::get_color(&c.right) == NodeColor::Red,
                TreeNode::get_color(&c.left) == NodeColor::Red,
            ),
            None => (false, false),
        };
        proof {
            lemma_unfold(gg);
            lemma_unfold(c);
            lemma_painted(Some(g));
            lemma_painted(gg.left);
            lemma_painted(gg.right);
            lemma_painted(c.left);
            lemma_painted(c.right);
            if gg.left is Some {
                lemma_unfold(*gg.left.unwrap());
            }
        }
        if !(c_red && (cl_red || cr_red)) {
            assert(rb_ok(gg.right));
            return g;
        }
        let ghost s = g.node_shape();
        proof {
            lemma_children_ordered(s);
            lemma_rotations(s, 0, u32::MAX as int);
        }
        if TreeNode::get_color(&g.left) == NodeColor::Red {
            // the uncle is red: recolor and pass the conflict up
            let ghost u = *gg.left.unwrap();
            let cx = g.right.take().unwrap();
            g.right = Some(TreeNode::set_black(cx));
            let ux = g.left.take().unwrap();
            g.left = Some(TreeNode::set_black(ux));
            let r = TreeNode::set_red(g);
            proof {
                let cb = TreeNode { color: NodeColor::Black, ..c };
                let ub = TreeNode { color: NodeColor::Black, ..u };
                lemma_painted(Some(Box::new(cb)));
                lemma_painted(Some(Box::new(ub)));
                lemma_painted(Some(r));
                assert(rb_ok(Some(Box::new(cb))));
                assert(rb_ok(Some(Box::new(ub))));
                assert(black_height(Some(Box::new(cb))) == black_height(cb.left) + 1);
                assert(black_height(Some(Box::new(ub))) == black_height(ub.left) + 1);
            }
            assert(r.node_shape() == s);
            return r;
        }
        if !cl_red {
            // right-left: turn it into right-right
            let cx = g.right.take().unwrap();
            let ghost z = *cx.left.unwrap();
            proof {
                lemma_children_ordered(cx.node_shape());
                lemma_rotations(cx.node_shape(), 0, u32::MAX as int);
                assert(rb_ok(cx.left));
                assert(black_height(cx.left) == black_height(z.left));
            }
            proof {
                lemma_child_nodes(*cx);
            }
            g.right = Some(TreeNode::right_rotate(cx));
            proof {
                lemma_join(g.value, opt_shape(g.left), opt_shape(g.right));
                lemma_rotations(g.node_shape(), 0, u32::MAX as int);
            }
            let mut r = TreeNode::left_rotate(g);
            let below = r.left.take().unwrap();
            r.left = Some(TreeNode::set_red(below));
            let r = TreeNode::set_black(r);
            proof {
                let c1 = TreeNode { left: z.right, ..c };
                let g1 = TreeNode { color: NodeColor::Red, right: z.left, ..gg };
                assert(*r == TreeNode { color: NodeColor::Black, right: Some(Box::new(c1)), left: Some(Box::new(g1)), ..z });
                lemma_painted(Some(Box::new(c1)));
                lemma_painted(Some(Box::new(g1)));
                lemma_painted(Some(r));
                lemma_painted(Some(Box::new(z)));
                assert(rb_ok(Some(Box::new(c1))));
                assert(rb_ok(Some(Box::new(g1))));
                assert(black_height(Some(Box::new(c1))) == black_height(c1.left));
                assert(black_height(Some(Box::new(g1))) == black_height(g1.left));
            }
            return r;
        }
        // right-right
        let mut r = TreeNode::left_rotate(g);
        let below = r.left.take().unwrap();
        r.left = Some(TreeNode::set_red(below));
        let r = TreeNode::set_black(r);
        proof {
            let g1 = TreeNode { color: NodeColor::Red, right: c.left, ..gg };
            assert(*r == TreeNode { color: NodeColor::Black, left: Some(Box::new(g1)), ..c });
            lemma_painted(Some(Box::new(g1)));
            lemma_painted(Some(r));
            assert(rb_ok(Some(Box::new(g1))));
            assert(black_height(Some(Box::new(g1))) == black_height(g1.left));
        }
        r
    }

    /// Removes `delete_value` below `node`. The flag tells whether the subtree lost one
    /// black level, which the caller then restores from the sibling's side.
    fn node_delete(node: Option<Box<TreeNode>>, delete_value: u32) -> (r: (Option<Box<TreeNode>>, bool))
        requires
            opt_shape(node).is_bst(),
            rb_ok(node),
        ensures
            opt_shape(r.0).is_bst(),
            opt_shape(r.0).keys() == opt_shape(node).keys().remove(delete_value),
            rb_ok(r.0),
            black_height(r.0) + (if r.1 { 1nat } else { 0nat }) == black_height(node),
            r.1 ==> !is_red(r.0),
            is_red(r.0) ==> is_red(node),
            is_red(node) ==> !r.1,
            !opt_shape(node).contains(delete_value) ==> r.0 == node && !r.1,
            (opt_painted(r.0), r.1) == opt_painted(node).rb_del(delete_value),
        decreases node,
    {
        let mut n = match node {
            None => {
                assert(Shape::Empty.keys() =~= Set::<u32>::empty().remove(delete_value));
                return (None, false);
            },
            Some(n) => n,
        };
        let ghost nn = *n;
        proof {
            lemma_painted(Some(Box::new(nn)));
            lemma_painted(nn.left);
            lemma_painted(nn.right);
            lemma_painted_shape(nn.right);
            lemma_unfold(nn);
            if nn.left is Some {
                lemma_unfold(*nn.left.unwrap());
            }
            if nn.right is Some {
                lemma_unfold(*nn.right.unwrap());
            }
        }
        let ghost old_shape = n.node_shape();
        proof {
            lemma_children_ordered(old_shape);
            assert(old_shape.keys() == old_shape.left().keys().union(old_shape.right().keys()).insert(n.value));
        }
        if n.value > delete_value {
            let left = n.left.take();
            let (l, shorter) = Self::node_delete(left, delete_value);
            n.left = l;
            proof {
                lemma_join(n.value, opt_shape(n.left), opt_shape(n.right));
                assert(n.node_shape().keys() =~= old_shape.keys().remove(delete_value));
            }
            proof {
                lemma_unfold(*n);
                lemma_painted(Some(n));
            }
            if shorter {
                Self::delete_fix_left(n)
            } else {
                (Some(n), false)
            }
        } else if n.value < delete_value {
            let right = n.right.take();
            let (r, shorter) = Self::node_delete(right, delete_value);
            n.right = r;
            proof {
                lemma_join(n.value, opt_shape(n.left), opt_shape(n.right));
                assert(n.node_shape().keys() =~= old_shape.keys().remove(delete_value));
            }
            proof {
                lemma_unfold(*n);
                lemma_painted(Some(n));
            }
            if shorter {
                Self::delete_fix_right(n)
            } else {
                (Some(n), false)
            }
        } else if n.left.is_some() && n.right.is_some() {
            // two children: take the successor's key and delete the successor instead
            let min_of_right = get_min_value_in_children(&**n.right.as_ref().unwrap());
            proof {
                lemma_leftmost_is_min(opt_shape(nn.right), min_of_right);
            }
            n.value = min_of_right;
            let right = n.right.take();
            let (r, shorter) = Self::node_delete(right, min_of_right);
            n.right = r;
            proof {
                lemma_join(n.value, opt_shape(n.left), opt_shape(n.right));
                assert(n.node_shape().keys() =~= old_shape.keys().remove(delete_value));
            }
            proof {
                lemma_unfold(*n);
                lemma_painted(Some(n));
            }
            if shorter {
                Self::delete_fix_right(n)
            } else {
                (Some(n), false)
            }
        } else {
            let left = n.left.take();
            let right = n.right.take();
            match (left, right) {
                (Some(c), None) => {
                    // a black node over a single red child: the child takes its place, black
                    assert(c.node_shape().keys() =~= old_shape.keys().remove(delete_value));
                    let r = TreeNode::set_black(c);
                    proof {
                        lemma_unfold(*r);
                        lemma_painted(Some(r));
                    }
                    (Some(r), false)
                },
                (None, Some(c)) => {
                    assert(c.node_shape().keys() =~= old_shape.keys().remove(delete_value));
                    let r = TreeNode::set_black(c);
                    proof {
                        lemma_unfold(*r);
                        lemma_painted(Some(r));
                    }
                    (Some(r), false)
                },
                _ => {
                    // no children: a red node just goes; a black one leaves its parent a level short
                    proof {
                        lemma_small_shapes(delete_value);
                    }
                    assert(Shape::Empty.keys() =~= old_shape.keys().remove(delete_value));
                    (None, n.color == NodeColor::Black)
                },
            }
        }
    }

    /// Restores the black level that the left subtree of `p` lost. A red sibling is first
    /// rotated up, which leaves a red parent with a black sibling.
    fn delete_fix_left(p: Box<TreeNode>) -> (r: (Option<Box<TreeNode>>, bool))
        requires
            p.node_shape().is_bst(),
            rb_ok(p.left),
            rb_ok(p.right),
            black_height(p.left) + 1 == black_height(p.right),
            !is_red(p.left),
            p.color == NodeColor::Red ==> !is_red(p.right),
        ensures
            opt_shape(r.0).is_bst(),
            opt_shape(r.0).keys() == p.node_shape().keys(),
            rb_ok(r.0),
            black_height(r.0) + (if r.1 { 1nat } else { 0nat })
                == black_height(p.right) + (if p.color == NodeColor::Black { 1nat } else { 0nat }),
            r.1 ==> !is_red(r.0),
            is_red(r.0) ==> p.color == NodeColor::Red,
            p.color == NodeColor::Red ==> !r.1,
            (opt_painted(r.0), r.1) == opt_painted(Some(p)).rb_delete_fix_left(),
    {
        let ghost pp = *p;
        proof {
            lemma_painted(Some(p));
            lemma_painted(pp.right);
        }
        if TreeNode::get_color(&p.right) == NodeColor::Red {
            // red sibling: rotate it up, recolor, and repair below it
            let ghost so = *pp.right.unwrap();
            let ghost s = p.node_shape();
            proof {
                lemma_children_ordered(s);
                lemma_rotations(s, 0, u32::MAX as int);
                assert(rb_ok(Some(Box::new(so))));
                lemma_painted(so.left);
                lemma_painted(so.right);
                assert(black_height(Some(Box::new(so))) == black_height(so.left));
            }
            proof {
                lemma_child_nodes(*p);
            }
            let mut top = TreeNode::left_rotate(p);
            proof {
                lemma_children_ordered(top.node_shape());
            }
            let below = TreeNode::set_red(top.left.take().unwrap());
            proof {
                lemma_painted(Some(below));
            }
            let (fixed, _) = Self::delete_fix_left_black_sibling(below);
            top.left = Some(fixed);
            proof {
                lemma_join(top.value, opt_shape(top.left), opt_shape(top.right));
            }
            let r = TreeNode::set_black(top);
            proof {
                lemma_painted(Some(r));
                assert(rb_ok(Some(r)));
                assert(black_height(Some(r)) == black_height(r.left) + 1);
            }
            (Some(r), false)
        } else {
            let (fixed, shorter) = Self::delete_fix_left_black_sibling(p);
            (Some(fixed), shorter)
        }
    }

    /// Restores the black level that the left subtree of `p` lost, when the sibling is
    /// black: recolor the sibling when both nephews are black; otherwise rotate so that a
    /// red far nephew, turned black, takes up the missing level.
    fn delete_fix_left_black_sibling(p: Box<TreeNode>) -> (r: (Box<TreeNode>, bool))
        requires
            p.node_shape().is_bst(),
            rb_ok(p.left),
            rb_ok(p.right),
            black_height(p.left) + 1 == black_height(p.right),
            !is_red(p.left),
            !is_red(p.right),
        ensures
            r.0.node_shape().is_bst(),
            r.0.node_shape().keys() == p.node_shape().keys(),
            rb_ok(Some(r.0)),
            black_height(Some(r.0)) + (if r.1 { 1nat } else { 0nat })
                == black_height(p.right) + (if p.color == NodeColor::Black { 1nat } else { 0nat }),
            r.1 ==> r.0.color == NodeColor::Black,
            r.0.color == NodeColor::Red ==> p.color == NodeColor::Red,
            p.color == NodeColor::Red ==> !r.1,
            (opt_painted(Some(r.0)), r.1) == opt_painted(Some(p)).rb_delete_fix_left_black_sibling(),
    {
        let mut p = p;
        let ghost pp = *p;
        let ghost ps = p.node_shape();
        proof {
            lemma_children_ordered(ps);
        }
        let s = p.right.take().unwrap();
        let ghost so = *s;
        proof {
            assert(rb_ok(Some(Box::new(so))));
            lemma_painted(Some(Box::new(pp)));
            lemma_painted(pp.right);
            lemma_painted(so.left);
            lemma_painted(so.right);
            assert(black_height(Some(Box::new(so))) == black_height(so.left) + 1);
        }
        let close_red = TreeNode::get_color(&s.left) == NodeColor::Red;
        let far_red = TreeNode::get_color(&s.right) == NodeColor::Red;
        if !close_red && !far_red {
            // both nephews black: the sibling turns red, and the parent absorbs the loss
            p.right = Some(TreeNode::set_red(s));
            assert(p.node_shape() == ps);
            proof {
                let sr = TreeNode { color: NodeColor::Red, ..so };
                lemma_painted(Some(Box::new(sr)));
                lemma_painted(Some(p));
                assert(rb_ok(Some(Box::new(sr))));
                assert(black_height(Some(Box::new(sr))) == black_height(sr.left));
            }
            if p.color == NodeColor::Black {
                return (p, true);
            } else {
                let r = TreeNode::set_black(p);
                proof {
                    lemma_painted(Some(r));
                }
                return (r, false);
            }
        }
        let mut s = s;
        if !far_red {
            // close nephew red, far one black: rotate the sibling away from the gap
            let ghost cl = *so.left.unwrap();
            proof {
                lemma_children_ordered(s.node_shape());
                lemma_rotations(s.node_shape(), 0, u32::MAX as int);
                assert(rb_ok(so.left));
                assert(black_height(so.left) == black_height(cl.left));
            }
            proof {
                lemma_child_nodes(*s);
            }
            let mut s2 = TreeNode::right_rotate(s);
            let lower = s2.right.take().unwrap();
            s2.right = Some(TreeNode::set_red(lower));
            s = TreeNode::set_black(s2);
            proof {
                let low = TreeNode { color: NodeColor::Red, left: cl.right, ..so };
                assert(*s == TreeNode { color: NodeColor::Black, right: Some(Box::new(low)), ..cl });
                assert(rb_ok(Some(Box::new(low))));
                lemma_painted(Some(Box::new(low)));
                lemma_painted(Some(s));
                lemma_painted(cl.left);
                lemma_painted(cl.right);
                assert(black_height(Some(Box::new(low))) == black_height(low.left));
            }
        }
        let ghost sp = *s;
        proof {
            lemma_painted(Some(Box::new(sp)));
            lemma_painted(sp.left);
            lemma_painted(sp.right);
            assert(rb_ok(Some(Box::new(sp))));
            assert(black_height(Some(Box::new(sp))) == black_height(sp.left) + 1);
            let f = *sp.right.unwrap();
            assert(rb_ok(Some(Box::new(f))));
            assert(black_height(Some(Box::new(f))) == black_height(f.left));
        }
        // far nephew red: rotate the parent toward the gap
        let parent_color = p.color;
        p.right = Some(s);
        proof {
            lemma_join(p.value, opt_shape(p.left), opt_shape(p.right));
            lemma_rotations(p.node_shape(), 0, u32::MAX as int);
        }
        let mut top = TreeNode::left_rotate(p);
        let lower = top.left.take().unwrap();
        top.left = Some(TreeNode::set_black(lower));
        let far = top.right.take().unwrap();
        top.right = Some(TreeNode::set_black(far));
        let ghost before_recolor = top.node_shape();
        top.color = parent_color;
        proof {
            assert(top.node_shape() == before_recolor);
            let pb = TreeNode { color: NodeColor::Black, right: sp.left, ..pp };
            let fb = TreeNode { color: NodeColor::Black, ..*sp.right.unwrap() };
            assert(*top == TreeNode { color: pp.color, left: Some(Box::new(pb)), right: Some(Box::new(fb)), ..sp });
            assert(rb_ok(Some(Box::new(pb))));
            lemma_painted(Some(Box::new(pb)));
            lemma_painted(Some(Box::new(fb)));
            lemma_painted(Some(top));
            assert(rb_ok(Some(Box::new(fb))));
            assert(black_height(Some(Box::new(pb))) == black_height(pb.left) + 1);
            assert(black_height(Some(Box::new(fb))) == black_height(fb.left) + 1);
        }
        (top, false)
    }

    /// The mirror image of `delete_fix_left`.
    fn delete_fix_right(p: Box<TreeNode>) -> (r: (Option<Box<TreeNode>>, bool))
        requires
            p.node_shape().is_bst(),
            rb_ok(p.left),
            rb_ok(p.right),
            black_height(p.right) + 1 == black_height(p.left),
            !is_red(p.right),
            p.color == NodeColor::Red ==> !is_red(p.left),
        ensures
            opt_shape(r.0).is_bst(),
            opt_shape(r.0).keys() == p.node_shape().keys(),
            rb_ok(r.0),
            black_height(r.0) + (if r.1 { 1nat } else { 0nat })
                == black_height(p.left) + (if p.color == NodeColor::Black { 1nat } else { 0nat }),
            r.1 ==> !is_red(r.0),
            is_red(r.0) ==> p.color == NodeColor::Red,
            p.color == NodeColor::Red ==> !r.1,
            (opt_painted(r.0), r.1) == opt_painted(Some(p)).rb_delete_fix_right(),
    {
        let ghost pp = *p;
        proof {
            lemma_painted(Some(p));
            lemma_painted(pp.left);
        }
        if TreeNode::get_color(&p.left) == NodeColor::Red {
            // red sibling: rotate it up, recolor, and repair below it
            let ghost so = *pp.left.unwrap();
            let ghost s = p.node_shape();
            proof {
                lemma_children_ordered(s);
                lemma_rotations(s, 0, u32::MAX as int);
                assert(rb_ok(Some(Box::new(so))));
                lemma_painted(so.left);
                lemma_painted(so.right);
                assert(black_height(Some(Box::new(so))) == black_height(so.left));
            }
            proof {
                lemma_child_nodes(*p);
            }
            let mut top = TreeNode::right_rotate(p);
            proof {
                lemma_children_ordered(top.node_shape());
            }
            let below = TreeNode::set_red(top.right.take().unwrap());
            proof {
                lemma_painted(Some(below));
            }
            let (fixed, _) = Self::delete_fix_right_black_sibling(below);
            top.right = Some(fixed);
            proof {
                lemma_join(top.value, opt_shape(top.left), opt_shape(top.right));
            }
            let r = TreeNode::set_black(top);
            proof {
                lemma_painted(Some(r));
                assert(rb_ok(Some(r)));
                assert(black_height(Some(r)) == black_height(r.left) + 1);
            }
            (Some(r), false)
        } else {
            let (fixed, shorter) = Self::delete_fix_right_black_sibling(p);
            (Some(fixed), shorter)
        }
    }

    /// The mirror image of `delete_fix_left_black_sibling`.
    fn delete_fix_right_black_sibling(p: Box<TreeNode>) -> (r: (Box<TreeNode>, bool))
        requires
            p.node_shape().is_bst(),
            rb_ok(p.left),
            rb_ok(p.right),
            black_height(p.right) + 1 == black_height(p.left),
            !is_red(p.left),
            !is_red(p.right),
        ensures
            r.0.node_shape().is_bst(),
            r.0.node_shape().keys() == p.node_shape().keys(),
            rb_ok(Some(r.0)),
            black_height(Some(r.0)) + (if r.1 { 1nat } else { 0nat })
                == black_height(p.left) + (if p.color == NodeColor::Black { 1nat } else { 0nat }),
            r.1 ==> r.0.color == NodeColor::Black,
            r.0.color == NodeColor::Red ==> p.color == NodeColor::Red,
            p.color == NodeColor::Red ==> !r.1,
            (opt_painted(Some(r.0)), r.1) == opt_painted(Some(p)).rb_delete_fix_right_black_sibling(),
    {
        let mut p = p;
        let ghost pp = *p;
        let ghost ps = p.node_shape();
        proof {
            lemma_children_ordered(ps);
        }
        let s = p.left.take().unwrap();
        let ghost so = *s;
        proof {
            assert(rb_ok(Some(Box::new(so))));
            lemma_painted(Some(Box::new(pp)));
            lemma_painted(pp.left);
            lemma_painted(so.left);
            lemma_painted(so.right);
            assert(black_height(Some(Box::new(so))) == black_height(so.left) + 1);
        }
        let close_red = TreeNode::get_color(&s.right) == NodeColor::Red;
        let far_red = TreeNode::get_color(&s.left) == NodeColor::Red;
        if !close_red && !far_red {
            // both nephews black: the sibling turns red, and the parent absorbs the loss
            p.left = Some(TreeNode::set_red(s));
            assert(p.node_shape() == ps);
            proof {
                let sr = TreeNode { color: NodeColor::Red, ..so };
                lemma_painted(Some(Box::new(sr)));
                lemma_painted(Some(p));
                assert(rb_ok(Some(Box::new(sr))));
                assert(black_height(Some(Box::new(sr))) == black_height(sr.left));
            }
            if p.color == NodeColor::Black {
                return (p, true);
            } else {
                let r = TreeNode::set_black(p);
                proof {
                    lemma_painted(Some(r));
                }
                return (r, false);
            }
        }
        let mut s = s;
        if !far_red {
            // close nephew red, far one black: rotate the sibling away from the gap
            let ghost cl = *so.right.unwrap();
            proof {
                lemma_children_ordered(s.node_shape());
                lemma_rotations(s.node_shape(), 0, u32::MAX as int);
                assert(rb_ok(so.right));
                assert(black_height(so.right) == black_height(cl.left));
            }
            proof {
                lemma_child_nodes(*s);
            }
            let mut s2 = TreeNode::left_rotate(s);
            let lower = s2.left.take().unwrap();
            s2.left = Some(TreeNode::set_red(lower));
            s = TreeNode::set_black(s2);
            proof {
                let low = TreeNode { color: NodeColor::Red, right: cl.left, ..so };
                assert(*s == TreeNode { color: NodeColor::Black, left: Some(Box::new(low)), ..cl });
                assert(rb_ok(Some(Box::new(low))));
                lemma_painted(Some(Box::new(low)));
                lemma_painted(Some(s));
                lemma_painted(cl.left);
                lemma_painted(cl.right);
                assert(black_height(Some(Box::new(low))) == black_height(low.left));
            }
        }
        let ghost sp = *s;
        proof {
            lemma_painted(Some(Box::new(sp)));
            lemma_painted(sp.left);
            lemma_painted(sp.right);
            assert(rb_ok(Some(Box::new(sp))));
            assert(black_height(Some(Box::new(sp))) == black_height(sp.left) + 1);
            assert(black_height(Some(Box::new(sp))) == black_height(sp.right) + 1);
            let f = *sp.left.unwrap();
            assert(rb_ok(Some(Box::new(f))));
            assert(black_height(Some(Box::new(f))) == black_height(f.left));
        }
        // far nephew red: rotate the parent toward the gap
        let parent_color = p.color;
        p.left = Some(s);
        proof {
            lemma_join(p.value, opt_shape(p.left), opt_shape(p.right));
            lemma_rotations(p.node_shape(), 0, u32::MAX as int);
        }
        let mut top = TreeNode::right_rotate(p);
        let lower = top.right.take().unwrap();
        top.right = Some(TreeNode::set_black(lower));
        let far = top.left.take().unwrap();
        top.left = Some(TreeNode::set_black(far));
        let ghost before_recolor = top.node_shape();
        top.color = parent_color;
        proof {
            assert(top.node_shape() == before_recolor);
            let pb = TreeNode { color: NodeColor::Black, left: sp.right, ..pp };
            let fb = TreeNode { color: NodeColor::Black, ..*sp.left.unwrap() };
            assert(*top == TreeNode { color: pp.color, right: Some(Box::new(pb)), left: Some(Box::new(fb)), ..sp });
            assert(rb_ok(Some(Box::new(pb))));
            lemma_painted(Some(Box::new(pb)));
            lemma_painted(Some(Box::new(fb)));
            lemma_painted(Some(top));
            assert(rb_ok(Some(Box::new(fb))));
            assert(black_height(Some(Box::new(pb))) == black_height(pb.left) + 1);
            assert(black_height(Some(Box::new(fb))) == black_height(fb.left) + 1);
        }
        (top, false)
    }
}

impl RBTree {
    #[verifier::type_invariant]
    closed spec fn inv(self) -> bool {
        &&& opt_shape(self.root).is_bst()
        &&& self.is_red_black()
    }

    /// The red-black rules: the root is black, no red node has a red child, and every
    /// path down from a node meets the same number of black nodes.
    pub closed spec fn is_red_black(self) -> bool {
        &&& !is_red(self.root)
        &&& rb_ok(self.root)
    }

    /// Every path down from each node meets the same number of black nodes: what
    /// `is_valid_red_black_tree` checks from the root.
    pub closed spec fn is_black_balanced(self) -> bool {
        black_balanced(self.root)
    }

    /// The root node, which passes the black-height check.
    pub fn root(&self) -> (r: Option<&TreeNode>)
        ensures
            match r {
                Some(n) => n.shape() == self.shape() && n.shape().is_bst() && n.is_black_balanced(),
                None => self.shape() == Shape::Empty,
            },
    {
        proof {
            use_type_invariant(self);
            lemma_rb_ok_is_black_balanced(self.root);
        }
        match &self.root {
            Some(b) => Some(&**b),
            None => None,
        }
    }

    /// The tree with its colors.
    pub closed spec fn painted(self) -> Painted {
        opt_painted(self.root)
    }

    pub fn new() -> (r: Self)
        ensures
            r.shape() == Shape::Empty,
            r.painted() == Painted::Empty,
    {
        RBTree { root: None }
    }

    /// Adds `insert_value`; a key already present leaves the tree as it is.
    pub fn insert(&mut self, insert_value: u32)
        ensures
            final(self).shape().keys() == old(self).shape().keys().insert(insert_value),
            final(self).painted() == old(self).painted().rb_insert(insert_value),
            final(self).painted().shape() == final(self).shape(),
            final(self).shape().is_bst(),
            final(self).is_red_black(),
            final(self).is_black_balanced(),
            old(self).shape().contains(insert_value) ==> final(self).shape() == old(self).shape(),
    {
        proof {
            use_type_invariant(&*self);
        }
        let mut root = None;
        std::mem::swap(&mut root, &mut self.root);
        let inserted = TreeNode::node_insert(root, insert_value);
        proof {
            lemma_painted(Some(inserted));
        }
        let new_root = TreeNode::set_black(inserted);
        proof {
            assert(new_root.node_shape() == TreeNode { color: NodeColor::Red, ..*new_root }.node_shape());
        }
        let mut new_root = Some(new_root);
        proof {
            lemma_rb_ok_is_black_balanced(new_root);
            lemma_painted(new_root);
            lemma_painted_shape(new_root);
        }
        std::mem::swap(&mut new_root, &mut self.root);
    }

    /// Removes `delete_value` if present; an absent key leaves the tree as it is.
    pub fn delete(&mut self, delete_value: u32)
        ensures
            final(self).shape().keys() == old(self).shape().keys().remove(delete_value),
            final(self).painted() == old(self).painted().rb_delete(delete_value),
            final(self).painted().shape() == final(self).shape(),
            final(self).shape().is_bst(),
            final(self).is_red_black(),
            final(self).is_black_balanced(),
            !old(self).shape().contains(delete_value) ==> final(self).shape() == old(self).shape(),
    {
        proof {
            use_type_invariant(&*self);
        }
        let mut root = None;
        std::mem::swap(&mut root, &mut self.root);
        let (mut new_root, _shorter) = TreeNode::node_delete(root, delete_value);
        proof {
            lemma_rb_ok_is_black_balanced(new_root);
            lemma_painted_shape(new_root);
        }
        std::mem::swap(&mut new_root, &mut self.root);
    }

    /// Appends the keys of the subtree at `node` in pre-order.
    pub fn pre_order_traverse(&self, node: &TreeNode, container: &mut Vec<u32>)
        ensures
            final(container)@ == old(container)@ + node.shape().preorder(),
    {
        pre_order_traversal_for_test(node, container)
    }

    /// Appends the keys of the subtree at `node` in pre-order.
    pub fn debug_preorder_traverse(&self, node: &TreeNode, container: &mut Vec<u32>)
        ensures
            final(container)@ == old(container)@ + node.shape().preorder(),
    {
        pre_order_traversal_for_test(node, container)
    }

    /// Appends the keys of the subtree at `node` in order.
    pub fn inorder_traverse(&self, node: &TreeNode, container: &mut Vec<u32>)
        ensures
            final(container)@ == old(container)@ + node.shape().inorder(),
    {
        in_order_traversal_for_test(node, container)
    }

    /// Whether every path down from each node of the subtree at `root` meets the same
    /// number of black nodes.
    pub fn is_valid_red_black_tree(root: Option<&TreeNode>) -> (r: bool)
        requires
            root matches Some(n) ==> n.shape().is_bst(),
        ensures
            r == match root {
                Some(n) => n.is_black_balanced(),
                None => true,
            },
    {
        match root {
            None => true,
            Some(n) => {
                proof {
                    lemma_children_ordered(n.node_shape());
                }
                let left_height = TreeNode::calculate_black_height(&n.left);
                let right_height = TreeNode::calculate_black_height(&n.right);
                match (left_height, right_height) {
                    (Some(l), Some(r)) => l == r,
                    _ => false,
                }
            },
        }
    }

    /// Whether two subtrees hold the same keys in the same places.
    pub fn is_equal(left: Option<&TreeNode>, right: Option<&TreeNode>) -> (r: bool)
        ensures
            r == (match left {
                Some(n) => n.shape(),
                None => Shape::Empty,
            } == match right {
                Some(n) => n.shape(),
                None => Shape::Empty,
            }),
        decreases match left {
            Some(n) => n.shape().size(),
            None => 0,
        },
    {
        match (left, right) {
            (None, None) => true,
            (Some(_), None) | (None, Some(_)) => false,
            (Some(l), Some(r)) => {
                if l.value == r.value {
                    let ll = l.get_left();
                    let lr = l.get_right();
                    let rl = r.get_left();
                    let rr = r.get_right();
                    Self::is_equal(ll, rl) && Self::is_equal(lr, rr)
                } else {
                    false
                }
            },
        }
    }
}

/// Red-black rules give every node at least `2^black_height - 1` nodes below and
/// including it.
proof fn lemma_size_from_black_height(node: Option<Box<TreeNode>>)
    requires
        rb_ok(node),
    ensures
        pow2(black_height(node)) <= opt_shape(node).size() + 1,
    decreases node,
{
    if let Some(n) = node {
        lemma_size_from_black_height(n.left);
        lemma_size_from_black_height(n.right);
        lemma_pow2_unfold(black_height(n.left) + 1);
        lemma_pow2_monotone(black_height(node), black_height(n.left) + 1);
    } else {
        vstd::arithmetic::power2::lemma2_to64();
    }
}

/// Without two reds in a row, a path holds at most one red node per black one, plus a
/// red node at the top.
proof fn lemma_height_from_black_height(node: Option<Box<TreeNode>>)
    requires
        rb_ok(node),
    ensures
        opt_shape(node).height() <= 2 * black_height(node) + if is_red(node) { 1nat } else { 0nat },
    decreases node,
{
    if let Some(n) = node {
        lemma_height_from_black_height(n.left);
        lemma_height_from_black_height(n.right);
    }
}

/// Height bound: a tree that keeps the red-black rules has `2^height <= (size + 1)^2`,
/// that is, its height is at most `2 * log2(size + 1)`.
pub proof fn lemma_height_bound(t: RBTree)
    requires
        t.is_red_black(),
    ensures
        pow2(t.shape().height()) <= (t.shape().size() + 1) * (t.shape().size() + 1),
{
    let bh = black_height(t.root);
    let n = t.shape().size() + 1;
    lemma_height_from_black_height(t.root);
    lemma_size_from_black_height(t.root);
    lemma_pow2_monotone(t.shape().height(), bh + bh);
    lemma_pow2_adds(bh, bh);
    let p = pow2(bh);
    assert(p * p <= n * n) by (nonlinear_arith)
        requires
            p <= n,
    ;
}

/// The red-black rules include the black-height rule that `is_valid_red_black_tree` checks.
proof fn lemma_rb_ok_is_black_balanced(node: Option<Box<TreeNode>>)
    requires
        rb_ok(node),
    ensures
        black_balanced(node),
    decreases node,
{
    if let Some(n) = node {
        lemma_rb_ok_is_black_balanced(n.left);
        lemma_rb_ok_is_black_balanced(n.right);
    }
}

} // verus!
