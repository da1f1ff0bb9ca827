//! Queries shared by every tree variant: height, leaves, membership, minimum and
//! maximum, and the two traversals. A tree variant supplies access to its root and to
//! each node's children and key; the algorithms here do the rest.

use vstd::prelude::*;
use crate::shape::{Shape, strictly_increasing, lemma_children_ordered, lemma_size_of_ordered, lemma_size_bounds, lemma_inorder};

verus! {

/// Access to a node's key and children.
pub trait CommonTreeNodeTrait: Sized {
    /// The subtree rooted at this node.
    spec fn shape(&self) -> Shape;

    fn get_left(&self) -> (r: Option<&Self>)
        ensures
            self.shape() is Node,
            match r {
                Some(l) => self.shape().left() == l.shape() && l.shape() is Node,
                None => self.shape().left() == Shape::Empty,
            },
    ;

    fn get_right(&self) -> (r: Option<&Self>)
        ensures
            self.shape() is Node,
            match r {
                Some(x) => self.shape().right() == x.shape() && x.shape() is Node,
                None => self.shape().right() == Shape::Empty,
            },
    ;

    fn get_value(&self) -> (r: u32)
        ensures
            self.shape() is Node,
            r == self.shape()->key,
    ;
}

/// Queries on a whole tree, over the shape that its root gives.
pub trait CommonTreeTrait<N: CommonTreeNodeTrait> {
    spec fn shape(&self) -> Shape;

    fn get_root(&self) -> (r: Option<&N>)
        ensures
            match r {
                Some(n) => self.shape() == n.shape() && n.shape() is Node && n.shape().is_bst(),
                None => self.shape() == Shape::Empty,
            },
    ;

    /// Number of nodes without children.
    fn count_leaves(&self) -> (r: u64)
        ensures
            r == self.shape().leaves(),
    {
        match self.get_root() {
            None => 0,
            Some(n) => {
                proof {
                    lemma_size_of_ordered(n.shape());
                }
                count_leaves(n)
            },
        }
    }

    /// Number of nodes on the longest path from the root; 0 for the empty tree.
    fn height(&self) -> (r: u64)
        ensures
            r == self.shape().height(),
    {
        match self.get_root() {
            None => 0,
            Some(n) => {
                proof {
                    lemma_size_of_ordered(n.shape());
                }
                get_height(n)
            },
        }
    }

    /// The keys in increasing order: each key of the tree once, each smaller than the next.
    fn in_order_traversal(&self) -> (r: Vec<u32>)
        ensures
            r@ == self.shape().inorder(),
            strictly_increasing(r@),
            forall|x: u32| r@.contains(x) <==> self.shape().contains(x),
    {
        let root = self.get_root();
        proof {
            match root {
                Some(n) => lemma_inorder(n.shape(), 0, u32::MAX as int),
                None => {},
            }
        }
        let mut container: Vec<u32> = Vec::new();
        self.in_order_traversal_for_test(&mut container);
        assert(container@ =~= self.shape().inorder());
        container
    }

    /// Appends the keys in increasing order.
    fn in_order_traversal_for_test(&self, container: &mut Vec<u32>)
        ensures
            final(container)@ == old(container)@ + self.shape().inorder(),
    {
        match self.get_root() {
            None => {
                assert(container@ =~= container@ + Seq::<u32>::empty());
            },
            Some(n) => in_order_traversal_for_test(n, container),
        }
    }

    /// The keys in pre-order: each node before its left and then its right subtree.
    fn pre_order_traversal(&self) -> (r: Vec<u32>)
        ensures
            r@ == self.shape().preorder(),
    {
        let mut container: Vec<u32> = Vec::new();
        self.pre_order_traversal_for_test(&mut container);
        assert(container@ =~= self.shape().preorder());
        container
    }

    /// Appends the keys in pre-order.
    fn pre_order_traversal_for_test(&self, container: &mut Vec<u32>)
        ensures
            final(container)@ == old(container)@ + self.shape().preorder(),
    {
        match self.get_root() {
            None => {
                assert(container@ =~= container@ + Seq::<u32>::empty());
            },
            Some(n) => pre_order_traversal_for_test(n, container),
        }
    }

    fn contains(&self, value: u32) -> (r: bool)
        ensures
            r == self.shape().contains(value),
    {
        match self.get_root() {
            None => false,
            Some(n) => contains(n, value),
        }
    }

    fn is_tree_empty(&self) -> (r: bool)
        ensures
            r == (self.shape() == Shape::Empty),
    {
        self.get_root().is_none()
    }

    /// The smallest key, or `None` for the empty tree.
    fn min(&self) -> (r: Option<u32>)
        ensures
            r is None <==> self.shape() == Shape::Empty,
            r matches Some(m) ==> self.shape().is_min(m),
    {
        match self.get_root() {
            None => None,
            Some(n) => Some(get_min_value_in_children(n)),
        }
    }

    /// The largest key, or `None` for the empty tree.
    fn max(&self) -> (r: Option<u32>)
        ensures
            r is None <==> self.shape() == Shape::Empty,
            r matches Some(m) ==> self.shape().is_max(m),
    {
        match self.get_root() {
            None => None,
            Some(n) => Some(get_max_value_in_children(n)),
        }
    }
}

/// Number of nodes without children in the subtree at `n`.
pub fn count_leaves<N: CommonTreeNodeTrait>(n: &N) -> (r: u64)
    requires
        n.shape().size() <= 0x1_0000_0000,
    ensures
        r == n.shape().leaves(),
    decreases n.shape().size(),
{
    proof {
        lemma_size_bounds(n.shape().left());
        lemma_size_bounds(n.shape().right());
    }
    let left = n.get_left();
    let right = n.get_right();
    match (left, right) {
        (None, None) => 1,
        (Some(l), None) => count_leaves(l),
        (None, Some(r)) => count_leaves(r),
        (Some(l), Some(r)) => count_leaves(l) + count_leaves(r),
    }
}

/// Height of the subtree at `n`.
pub fn get_height<N: CommonTreeNodeTrait>(n: &N) -> (r: u64)
    requires
        n.shape().size() <= 0x1_0000_0000,
    ensures
        r == n.shape().height(),
    decreases n.shape().size(),
{
    proof {
        lemma_size_bounds(n.shape().left());
        lemma_size_bounds(n.shape().right());
    }
    let lh: u64 = match n.get_left() {
        None => 0,
        Some(l) => get_height(l),
    };
    let rh: u64 = match n.get_right() {
        None => 0,
        Some(r) => get_height(r),
    };
    assert(lh == n.shape().left().height());
    assert(rh == n.shape().right().height());
    if lh >= rh {
        lh + 1
    } else {
        rh + 1
    }
}

/// Appends the keys of the subtree at `n` in increasing order.
pub fn in_order_traversal_for_test<N: CommonTreeNodeTrait>(n: &N, container: &mut Vec<u32>)
    ensures
        final(container)@ == old(container)@ + n.shape().inorder(),
    decreases n.shape().size(),
{
    let ghost start = container@;
    match n.get_left() {
        None => {},
        Some(l) => in_order_traversal_for_test(l, container),
    }
    container.push(n.get_value());
    match n.get_right() {
        None => {},
        Some(r) => in_order_traversal_for_test(r, container),
    }
    let ghost s = n.shape();
    assert(container@ =~= start + (s.left().inorder().push(s->key) + s.right().inorder()));
}

/// Appends the keys of the subtree at `n` in pre-order.
pub fn pre_order_traversal_for_test<N: CommonTreeNodeTrait>(n: &N, container: &mut Vec<u32>)
    ensures
        final(container)@ == old(container)@ + n.shape().preorder(),
    decreases n.shape().size(),
{
    let ghost start = container@;
    container.push(n.get_value());
    match n.get_left() {
        None => {},
        Some(l) => pre_order_traversal_for_test(l, container),
    }
    match n.get_right() {
        None => {},
        Some(r) => pre_order_traversal_for_test(r, container),
    }
    let ghost s = n.shape();
    assert(container@ =~= start + (seq![s->key] + s.left().preorder() + s.right().preorder()));
}

/// Whether `value` is a key of the ordered subtree at `n`, found by descending.
pub fn contains<N: CommonTreeNodeTrait>(n: &N, value: u32) -> (r: bool)
    requires
        n.shape().is_bst(),
    ensures
        r == n.shape().contains(value),
    decreases n.shape().size(),
{
    let current = n.get_value();
    proof {
        lemma_children_ordered(n.shape());
        let t = n.shape();
        assert(t.keys() == t.left().keys().union(t.right().keys()).insert(t->key));
    }
    if current == value {
        true
    } else if current > value {
        match n.get_left() {
            None => false,
            Some(l) => contains(l, value),
        }
    } else {
        match n.get_right() {
            None => false,
            Some(r) => contains(r, value),
        }
    }
}

/// The smallest key of the ordered subtree at `n`: the leftmost one.
pub fn get_min_value_in_children<N: CommonTreeNodeTrait>(n: &N) -> (r: u32)
    requires
        n.shape().is_bst(),
    ensures
        n.shape().is_min(r),
    decreases n.shape().size(),
{
    let child = n.get_left();
    proof {
        lemma_children_ordered(n.shape());
        let t = n.shape();
        assert(t.keys() == t.left().keys().union(t.right().keys()).insert(t->key));
    }
    match child {
        Some(l) => get_min_value_in_children(l),
        None => n.get_value(),
    }
}

/// The largest key of the ordered subtree at `n`: the rightmost one.
pub fn get_max_value_in_children<N: CommonTreeNodeTrait>(n: &N) -> (r: u32)
    requires
        n.shape().is_bst(),
    ensures
        n.shape().is_max(r),
    decreases n.shape().size(),
{
    let child = n.get_right();
    proof {
        lemma_children_ordered(n.shape());
        let t = n.shape();
        assert(t.keys() == t.left().keys().union(t.right().keys()).insert(t->key));
    }
    match child {
        Some(x) => get_max_value_in_children(x),
        None => n.get_value(),
    }
}

} // verus!
