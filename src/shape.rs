//! The mathematical shape of a binary tree, shared by every tree variant:
//! its keys, its traversals, its height and the ordering and balance rules.

use vstd::prelude::*;
use vstd::arithmetic::power2::{pow2, lemma_pow2_unfold, lemma_pow2_strictly_increases, lemma2_to64};

verus! {

/// The structure of a binary tree of keys, of which every concrete tree is a view.
pub enum Shape {
    Empty,
    Node { key: u32, left: Box<Shape>, right: Box<Shape> },
}

/// Each element is smaller than the next.
pub open spec fn strictly_increasing(s: Seq<u32>) -> bool {
    forall|i: int, j: int| 0 <= i < j < s.len() ==> s[i] < s[j]
}

pub open spec fn max_nat(a: nat, b: nat) -> nat {
    if a >= b {
        a
    } else {
        b
    }
}

impl Shape {
    pub open spec fn size(self) -> nat
        decreases self,
    {
        match self {
            Shape::Empty => 0,
            Shape::Node { left, right, .. } => left.size() + right.size() + 1,
        }
    }

    /// Number of nodes on the longest downward path; the empty tree has height 0.
    pub open spec fn height(self) -> nat
        decreases self,
    {
        match self {
            Shape::Empty => 0,
            Shape::Node { left, right, .. } => 1 + max_nat(left.height(), right.height()),
        }
    }

    /// Number of nodes whose two children are both absent.
    pub open spec fn leaves(self) -> nat
        decreases self,
    {
        match self {
            Shape::Empty => 0,
            Shape::Node { left, right, .. } => if *left == Shape::Empty && *right == Shape::Empty {
                1
            } else {
                left.leaves() + right.leaves()
            },
        }
    }

    pub open spec fn keys(self) -> Set<u32>
        decreases self,
    {
        match self {
            Shape::Empty => Set::empty(),
            Shape::Node { key, left, right } => left.keys().union(right.keys()).insert(key),
        }
    }

    pub open spec fn inorder(self) -> Seq<u32>
        decreases self,
    {
        match self {
            Shape::Empty => Seq::empty(),
            Shape::Node { key, left, right } => left.inorder().push(key) + right.inorder(),
        }
    }

    pub open spec fn preorder(self) -> Seq<u32>
        decreases self,
    {
        match self {
            Shape::Empty => Seq::empty(),
            Shape::Node { key, left, right } => seq![key] + left.preorder() + right.preorder(),
        }
    }

    /// Every key lies in `[lo, hi]`, left keys are below their node's key and right keys above.
    pub open spec fn bst_in(self, lo: int, hi: int) -> bool
        decreases self,
    {
        match self {
            Shape::Empty => true,
            Shape::Node { key, left, right } => {
                &&& lo <= key <= hi
                &&& left.bst_in(lo, key - 1)
                &&& right.bst_in(key + 1, hi)
            },
        }
    }

    /// The ordering rule: the in-order sequence of keys is strictly increasing.
    pub open spec fn is_bst(self) -> bool {
        self.bst_in(0, u32::MAX as int)
    }

    pub open spec fn balance_factor(self) -> int {
        match self {
            Shape::Empty => 0,
            Shape::Node { left, right, .. } => left.height() - right.height(),
        }
    }

    /// The AVL rule: at every node the heights of the two subtrees differ by at most one.
    pub open spec fn is_balanced(self) -> bool
        decreases self,
    {
        match self {
            Shape::Empty => true,
            Shape::Node { left, right, .. } => {
                &&& -1 <= self.balance_factor() <= 1
                &&& left.is_balanced()
                &&& right.is_balanced()
            },
        }
    }

    pub open spec fn contains(self, k: u32) -> bool {
        self.keys().contains(k)
    }

    /// The smallest key, for a non-empty tree.
    pub open spec fn is_min(self, m: u32) -> bool {
        self.keys().contains(m) && forall|k: u32| self.keys().contains(k) ==> m <= k
    }

    /// The largest key, for a non-empty tree.
    pub open spec fn is_max(self, m: u32) -> bool {
        self.keys().contains(m) && forall|k: u32| self.keys().contains(k) ==> k <= m
    }

    pub open spec fn left(self) -> Shape {
        match self {
            Shape::Empty => Shape::Empty,
            Shape::Node { left, .. } => *left,
        }
    }

    pub open spec fn right(self) -> Shape {
        match self {
            Shape::Empty => Shape::Empty,
            Shape::Node { right, .. } => *right,
        }
    }

    /// The key reached by always going left: the smallest key of an ordered tree.
    pub open spec fn leftmost(self) -> u32
        decreases self,
    {
        match self {
            Shape::Empty => 0,
            Shape::Node { key, left, .. } => if *left is Empty {
                key
            } else {
                left.leftmost()
            },
        }
    }

    /// Plain search-tree insertion: the key becomes a new leaf where the search for it
    /// ends; a key already present changes nothing.
    pub open spec fn bst_insert(self, k: u32) -> Shape
        decreases self,
    {
        match self {
            Shape::Empty => leaf(k),
            Shape::Node { key, left, right } => if k < key {
                Shape::Node { key, left: Box::new(left.bst_insert(k)), right }
            } else if k > key {
                Shape::Node { key, left, right: Box::new(right.bst_insert(k)) }
            } else {
                self
            },
        }
    }

    /// Plain search-tree deletion: a node with two children takes the smallest key of
    /// its right subtree, which is deleted there instead; a node with one child gives way
    /// to it; an absent key changes nothing.
    pub open spec fn bst_delete(self, k: u32) -> Shape
        decreases self,
    {
        match self {
            Shape::Empty => Shape::Empty,
            Shape::Node { key, left, right } => if k < key {
                Shape::Node { key, left: Box::new(left.bst_delete(k)), right }
            } else if k > key {
                Shape::Node { key, left, right: Box::new(right.bst_delete(k)) }
            } else if *left is Node && *right is Node {
                let m = right.leftmost();
                Shape::Node { key: m, left, right: Box::new(right.bst_delete(m)) }
            } else if *left is Node {
                *left
            } else {
                *right
            },
        }
    }

    /// The AVL repair at one node, from the heights of its subtrees: leaning left by more
    /// than one, a right rotation (LL) or a left rotation of the left child first (LR);
    /// leaning right, the mirror images (RR, RL); otherwise nothing.
    pub open spec fn avl_rebalance(self) -> Shape {
        if self.balance_factor() > 1 {
            if self.left().balance_factor() >= 0 {
                self.rotate_right()
            } else {
                with_left_rotated(self).rotate_right()
            }
        } else if self.balance_factor() < -1 {
            if self.right().balance_factor() <= 0 {
                self.rotate_left()
            } else {
                with_right_rotated(self).rotate_left()
            }
        } else {
            self
        }
    }

    /// AVL insertion: search-tree insertion with the repair applied at every node on the
    /// way back up.
    pub open spec fn avl_insert(self, k: u32) -> Shape
        decreases self,
    {
        match self {
            Shape::Empty => leaf(k),
            Shape::Node { key, left, right } => if k < key {
                (Shape::Node { key, left: Box::new(left.avl_insert(k)), right }).avl_rebalance()
            } else if k > key {
                (Shape::Node { key, left, right: Box::new(right.avl_insert(k)) }).avl_rebalance()
            } else {
                self.avl_rebalance()
            },
        }
    }

    /// AVL deletion: search-tree deletion (the successor's key replaces a key with two
    /// children) with the repair applied at every node on the way back up.
    pub open spec fn avl_delete(self, k: u32) -> Shape
        decreases self,
    {
        match self {
            Shape::Empty => Shape::Empty,
            Shape::Node { key, left, right } => if k < key {
                (Shape::Node { key, left: Box::new(left.avl_delete(k)), right }).avl_rebalance()
            } else if k > key {
                (Shape::Node { key, left, right: Box::new(right.avl_delete(k)) }).avl_rebalance()
            } else if *left is Node && *right is Node {
                let m = right.leftmost();
                (Shape::Node { key: m, left, right: Box::new(right.avl_delete(m)) }).avl_rebalance()
            } else if *left is Node {
                left.avl_rebalance()
            } else if *right is Node {
                right.avl_rebalance()
            } else {
                Shape::Empty
            },
        }
    }

    /// The right child rises to the root; the old root becomes its left child.
    pub open spec fn rotate_left(self) -> Shape {
        match self {
            Shape::Node { key: p, left: a, right: r } => match *r {
                Shape::Node { key: q, left: b, right: c } => Shape::Node {
                    key: q,
                    left: Box::new(Shape::Node { key: p, left: a, right: b }),
                    right: c,
                },
                Shape::Empty => self,
            },
            Shape::Empty => self,
        }
    }

    /// The left child rises to the root; the old root becomes its right child.
    pub open spec fn rotate_right(self) -> Shape {
        match self {
            Shape::Node { key: q, left: l, right: c } => match *l {
                Shape::Node { key: p, left: a, right: b } => Shape::Node {
                    key: p,
                    left: a,
                    right: Box::new(Shape::Node { key: q, left: b, right: c }),
                },
                Shape::Empty => self,
            },
            Shape::Empty => self,
        }
    }
}

pub open spec fn leaf(key: u32) -> Shape {
    Shape::Node { key, left: Box::new(Shape::Empty), right: Box::new(Shape::Empty) }
}

/// What the empty tree and a single node are.
pub proof fn lemma_small_shapes(key: u32)
    ensures
        Shape::Empty.height() == 0,
        Shape::Empty.size() == 0,
        Shape::Empty.keys() == Set::<u32>::empty(),
        Shape::Empty.inorder() == Seq::<u32>::empty(),
        Shape::Empty.preorder() == Seq::<u32>::empty(),
        Shape::Empty.is_bst(),
        Shape::Empty.is_balanced(),
        leaf(key).height() == 1,
        leaf(key).size() == 1,
        leaf(key).keys() == Set::<u32>::empty().insert(key),
        leaf(key).is_bst(),
        leaf(key).is_balanced(),
{
    let e = Shape::Empty;
    assert(e.keys() == Set::<u32>::empty());
    assert(e.bst_in(0, key - 1) && e.bst_in(key + 1, u32::MAX as int));
    assert(e.height() == 0);
    assert(e.size() == 0);
    assert(e.is_balanced());
    assert(leaf(key).size() == 1);
    assert(leaf(key).is_balanced());
    assert(leaf(key).keys() =~= Set::<u32>::empty().insert(key));
}

/// Keys of an ordered tree lie within its bounds, and so do its size, height and
/// number of leaves: a tree over `[lo, hi]` has at most `hi - lo + 1` nodes.
pub proof fn lemma_bounds(t: Shape, lo: int, hi: int)
    requires
        t.bst_in(lo, hi),
        lo <= hi + 1,
    ensures
        forall|x: u32| t.keys().contains(x) ==> lo <= x <= hi,
        t.keys().finite(),
        t.size() <= hi - lo + 1,
    decreases t,
{
    if let Shape::Node { key, left, right } = t {
        lemma_bounds(*left, lo, key - 1);
        lemma_bounds(*right, key + 1, hi);
    }
}

/// An ordered tree over `u32` keys has at most 2^32 nodes.
pub proof fn lemma_size_of_ordered(t: Shape)
    requires
        t.is_bst(),
    ensures
        t.size() <= 0x1_0000_0000,
        t.height() <= t.size(),
        t.leaves() <= t.size(),
        t.keys().finite(),
{
    lemma_bounds(t, 0, u32::MAX as int);
    lemma_size_bounds(t);
}

/// Height and number of leaves never exceed the number of nodes.
pub proof fn lemma_size_bounds(t: Shape)
    ensures
        t.height() <= t.size(),
        t.leaves() <= t.size(),
    decreases t,
{
    if let Shape::Node { key, left, right } = t {
        lemma_size_bounds(*left);
        lemma_size_bounds(*right);
    }
}

/// The leftmost key of a non-empty ordered tree is its smallest key, and the only one.
pub proof fn lemma_leftmost_is_min(t: Shape, m: u32)
    requires
        t is Node,
        t.is_bst(),
        t.is_min(m),
    ensures
        m == t.leftmost(),
        t.is_min(t.leftmost()),
    decreases t,
{
    lemma_children_ordered(t);
    let l = t.left();
    assert(t.keys() == l.keys().union(t.right().keys()).insert(t->key));
    if let Shape::Node { key: lk, left: ll, right: lr } = l {
        assert(l.keys() == ll.keys().union(lr.keys()).insert(lk));
        assert(l.keys().contains(lk));
        assert(t.keys().contains(lk));
        assert(m <= lk && lk < t->key);
        assert(!t.right().keys().contains(m));
        assert(l.keys().contains(m));
        assert forall|k: u32| l.keys().contains(k) implies m <= k by {
            assert(t.keys().contains(k));
        }
        lemma_leftmost_is_min(l, m);
    } else {
        assert(l.keys() == Set::<u32>::empty());
        if m != t->key {
            assert(t.keys().contains(t->key));
        }
    }
}

/// A key between two ordered trees, above every key of the first and below every key
/// of the second, joins them into an ordered tree.
pub proof fn lemma_join(key: u32, l: Shape, r: Shape)
    requires
        l.is_bst(),
        r.is_bst(),
        forall|x: u32| l.keys().contains(x) ==> x < key,
        forall|x: u32| r.keys().contains(x) ==> x > key,
    ensures
        (Shape::Node { key, left: Box::new(l), right: Box::new(r) }).is_bst(),
{
    lemma_narrow_hi(l, 0, u32::MAX as int, key - 1);
    lemma_narrow_lo(r, 0, u32::MAX as int, key + 1);
}

/// The subtrees of an ordered tree are ordered.
pub proof fn lemma_children_ordered(t: Shape)
    requires
        t.is_bst(),
    ensures
        t.left().is_bst(),
        t.right().is_bst(),
        forall|x: u32| t.left().keys().contains(x) ==> x < t->key,
        forall|x: u32| t.right().keys().contains(x) ==> x > t->key,
{
    if let Shape::Node { key, left, right } = t {
        lemma_bounds(*left, 0, key - 1);
        lemma_bounds(*right, key + 1, u32::MAX as int);
        lemma_widen(*left, 0, key - 1, 0, u32::MAX as int);
        lemma_widen(*right, key + 1, u32::MAX as int, 0, u32::MAX as int);
    }
}

/// An ordered tree stays ordered within wider bounds.
pub proof fn lemma_widen(t: Shape, lo: int, hi: int, lo2: int, hi2: int)
    requires
        t.bst_in(lo, hi),
        lo2 <= lo,
        hi <= hi2,
    ensures
        t.bst_in(lo2, hi2),
    decreases t,
{
    if let Shape::Node { key, left, right } = t {
        lemma_widen(*left, lo, key - 1, lo2, key - 1);
        lemma_widen(*right, key + 1, hi, key + 1, hi2);
    }
}

/// An ordered tree whose keys are all at least `lo2` is ordered within `[lo2, hi]`.
pub proof fn lemma_narrow_lo(t: Shape, lo: int, hi: int, lo2: int)
    requires
        t.bst_in(lo, hi),
        forall|x: u32| t.keys().contains(x) ==> lo2 <= x,
    ensures
        t.bst_in(lo2, hi),
    decreases t,
{
    if let Shape::Node { key, left, right } = t {
        assert(t.keys().contains(key));
        if lo2 <= lo {
            lemma_widen(t, lo, hi, lo2, hi);
        } else {
            assert forall|x: u32| left.keys().contains(x) implies lo2 <= x by {
                assert(t.keys().contains(x));
            }
            lemma_narrow_lo(*left, lo, key - 1, lo2);
        }
    }
}

/// An ordered tree whose keys are all at most `hi2` is ordered within `[lo, hi2]`.
pub proof fn lemma_narrow_hi(t: Shape, lo: int, hi: int, hi2: int)
    requires
        t.bst_in(lo, hi),
        forall|x: u32| t.keys().contains(x) ==> x <= hi2,
    ensures
        t.bst_in(lo, hi2),
    decreases t,
{
    if let Shape::Node { key, left, right } = t {
        assert(t.keys().contains(key));
        if hi <= hi2 {
            lemma_widen(t, lo, hi, lo, hi2);
        } else {
            assert forall|x: u32| right.keys().contains(x) implies x <= hi2 by {
                assert(t.keys().contains(x));
            }
            lemma_narrow_hi(*right, key + 1, hi, hi2);
        }
    }
}

/// The in-order sequence of an ordered tree is strictly increasing and holds exactly its keys.
pub proof fn lemma_inorder(t: Shape, lo: int, hi: int)
    requires
        t.bst_in(lo, hi),
    ensures
        strictly_increasing(t.inorder()),
        forall|x: u32| t.inorder().contains(x) <==> t.keys().contains(x),
        forall|i: int| 0 <= i < t.inorder().len() ==> lo <= #[trigger] t.inorder()[i] <= hi,
        t.inorder().len() == t.size(),
    decreases t,
{
    if let Shape::Node { key, left, right } = t {
        lemma_inorder(*left, lo, key - 1);
        lemma_inorder(*right, key + 1, hi);
        let l = left.inorder();
        let r = right.inorder();
        let s = t.inorder();
        assert(s == l.push(key) + r);
        assert forall|i: int| 0 <= i < s.len() implies lo <= #[trigger] s[i] <= hi by {
            if i < l.len() {
                assert(s[i] == l[i]);
            } else if i == l.len() {
            } else {
                assert(s[i] == r[i - l.len() - 1]);
            }
        }
        assert forall|i: int, j: int| 0 <= i < j < s.len() implies s[i] < s[j] by {
            if j < l.len() {
                assert(s[i] == l[i] && s[j] == l[j]);
            } else if j == l.len() {
                assert(s[i] == l[i]);
            } else if i < l.len() {
                assert(s[i] == l[i] && s[j] == r[j - l.len() - 1]);
            } else if i == l.len() {
                assert(s[j] == r[j - l.len() - 1]);
            } else {
                assert(s[i] == r[i - l.len() - 1] && s[j] == r[j - l.len() - 1]);
            }
        }
        assert forall|x: u32| s.contains(x) implies t.keys().contains(x) by {
            let i = choose|i: int| 0 <= i < s.len() && s[i] == x;
            if i < l.len() {
                assert(l[i] == x);
                assert(l.contains(x));
            } else if i > l.len() {
                assert(r[i - l.len() - 1] == x);
                assert(r.contains(x));
            }
        }
        assert forall|x: u32| t.keys().contains(x) implies s.contains(x) by {
            if left.keys().contains(x) {
                assert(l.contains(x));
                let i = choose|i: int| 0 <= i < l.len() && l[i] == x;
                assert(s[i] == x);
            } else if right.keys().contains(x) {
                assert(r.contains(x));
                let i = choose|i: int| 0 <= i < r.len() && r[i] == x;
                assert(s[i + l.len() + 1] == x);
            } else {
                assert(s[l.len() as int] == x);
            }
        }
    }
}

/// Two strictly increasing sequences with the same elements are equal.
pub proof fn lemma_sorted_unique(s1: Seq<u32>, s2: Seq<u32>)
    requires
        strictly_increasing(s1),
        strictly_increasing(s2),
        forall|x: u32| s1.contains(x) <==> s2.contains(x),
    ensures
        s1 == s2,
    decreases s1.len() + s2.len(),
{
    if s1.len() == 0 && s2.len() == 0 {
        assert(s1 =~= s2);
    } else if s1.len() == 0 {
        assert(s2.contains(s2[0]));
    } else if s2.len() == 0 {
        assert(s1.contains(s1[0]));
    } else {
        let a = s1[0];
        let b = s2[0];
        assert(s1.contains(a));
        assert(s2.contains(b));
        let i = choose|i: int| 0 <= i < s2.len() && s2[i] == a;
        let j = choose|j: int| 0 <= j < s1.len() && s1[j] == b;
        assert(a == b) by {
            if a < b {
                if i > 0 {
                    assert(s2[0] < s2[i]);
                }
            } else if b < a {
                if j > 0 {
                    assert(s1[0] < s1[j]);
                }
            }
        }
        let t1 = s1.drop_first();
        let t2 = s2.drop_first();
        assert forall|x: u32| t1.contains(x) <==> t2.contains(x) by {
            if t1.contains(x) {
                let k = choose|k: int| 0 <= k < t1.len() && t1[k] == x;
                assert(s1[k + 1] == x && s1[0] < s1[k + 1]);
                assert(s1.contains(x));
                let m = choose|m: int| 0 <= m < s2.len() && s2[m] == x;
                assert(m != 0);
                assert(t2[m - 1] == x);
            }
            if t2.contains(x) {
                let k = choose|k: int| 0 <= k < t2.len() && t2[k] == x;
                assert(s2[k + 1] == x && s2[0] < s2[k + 1]);
                assert(s2.contains(x));
                let m = choose|m: int| 0 <= m < s1.len() && s1[m] == x;
                assert(m != 0);
                assert(t1[m - 1] == x);
            }
        }
        lemma_sorted_unique(t1, t2);
        assert(s1 =~= seq![a] + t1);
        assert(s2 =~= seq![b] + t2);
    }
}

/// Ordered trees with the same keys have the same in-order sequence.
pub proof fn lemma_same_keys_same_inorder(t1: Shape, t2: Shape)
    requires
        t1.is_bst(),
        t2.is_bst(),
        t1.keys() == t2.keys(),
    ensures
        t1.inorder() == t2.inorder(),
{
    lemma_inorder(t1, 0, u32::MAX as int);
    lemma_inorder(t2, 0, u32::MAX as int);
    lemma_sorted_unique(t1.inorder(), t2.inorder());
}

/// Inserting a key that is absent and then deleting it gives back the in-order sequence
/// from before, without the key. Each tree variant's insertion and deletion state their
/// results as key sets of ordered trees, which is all this needs.
pub proof fn lemma_round_trip(before: Shape, inserted: Shape, after: Shape, key: u32)
    requires
        before.is_bst(),
        inserted.is_bst(),
        after.is_bst(),
        !before.contains(key),
        inserted.keys() == before.keys().insert(key),
        after.keys() == inserted.keys().remove(key),
    ensures
        !after.contains(key),
        after.inorder() == before.inorder(),
{
    assert(after.keys() =~= before.keys());
    lemma_same_keys_same_inorder(after, before);
}

/// A rotation keeps the keys and the in-order sequence, and keeps the tree ordered.
pub proof fn lemma_rotations(t: Shape, lo: int, hi: int)
    ensures
        t.rotate_left().keys() == t.keys(),
        t.rotate_right().keys() == t.keys(),
        t.rotate_left().inorder() == t.inorder(),
        t.rotate_right().inorder() == t.inorder(),
        t.bst_in(lo, hi) ==> t.rotate_left().bst_in(lo, hi),
        t.bst_in(lo, hi) ==> t.rotate_right().bst_in(lo, hi),
{
    if let Shape::Node { key: p, left: a, right: r } = t {
        if let Shape::Node { key: q, left: b, right: c } = *r {
            let inner = Shape::Node { key: p, left: a, right: b };
            assert(inner.keys() == a.keys().union(b.keys()).insert(p));
            assert(r.keys() == b.keys().union(c.keys()).insert(q));
            assert(t.rotate_left().keys() =~= t.keys());
            assert(inner.inorder() == a.inorder().push(p) + b.inorder());
            assert(r.inorder() == b.inorder().push(q) + c.inorder());
            assert(t.rotate_left().inorder() =~= t.inorder());
            if t.bst_in(lo, hi) {
                assert(a.bst_in(lo, p - 1));
                assert(r.bst_in(p + 1, hi));
                assert(b.bst_in(p + 1, q - 1));
                assert(inner.bst_in(lo, q - 1));
            }
        }
        if let Shape::Node { key: q, left: b, right: c } = *a {
            let inner = Shape::Node { key: p, left: c, right: r };
            assert(inner.keys() == c.keys().union(r.keys()).insert(p));
            assert(a.keys() == b.keys().union(c.keys()).insert(q));
            assert(t.rotate_right().keys() =~= t.keys());
            assert(inner.inorder() == c.inorder().push(p) + r.inorder());
            assert(a.inorder() == b.inorder().push(q) + c.inorder());
            assert(t.rotate_right().inorder() =~= t.inorder());
            if t.bst_in(lo, hi) {
                assert(r.bst_in(p + 1, hi));
                assert(a.bst_in(lo, p - 1));
                assert(c.bst_in(q + 1, p - 1));
                assert(inner.bst_in(q + 1, hi));
            }
        }
    }
}

/// AVL repair, case LL: a node leaning left by two whose left child does not lean
/// right becomes balanced by a right rotation, and loses at most one level.
pub proof fn lemma_avl_rotate_right(s: Shape)
    requires
        s is Node,
        s.left().is_balanced(),
        s.right().is_balanced(),
        s.balance_factor() == 2,
        s.left().balance_factor() >= 0,
    ensures
        s.rotate_right().is_balanced(),
        s.height() - 1 <= s.rotate_right().height() <= s.height(),
{
    let l = s.left();
    let c = s.right();
    assert(l is Node);
    let a = l.left();
    let b = l.right();
    let inner = Shape::Node { key: s->key, left: Box::new(b), right: Box::new(c) };
    assert(l.height() == 1 + max_nat(a.height(), b.height()));
    assert(inner.height() == 1 + max_nat(b.height(), c.height()));
    assert(a.is_balanced() && b.is_balanced());
    assert(inner.is_balanced());
    assert(s.rotate_right() == Shape::Node { key: l->key, left: Box::new(a), right: Box::new(inner) });
}

/// AVL repair, case RR: the mirror image of case LL.
pub proof fn lemma_avl_rotate_left(s: Shape)
    requires
        s is Node,
        s.left().is_balanced(),
        s.right().is_balanced(),
        s.balance_factor() == -2,
        s.right().balance_factor() <= 0,
    ensures
        s.rotate_left().is_balanced(),
        s.height() - 1 <= s.rotate_left().height() <= s.height(),
{
    let r = s.right();
    let a = s.left();
    assert(r is Node);
    let b = r.left();
    let c = r.right();
    let inner = Shape::Node { key: s->key, left: Box::new(a), right: Box::new(b) };
    assert(r.height() == 1 + max_nat(b.height(), c.height()));
    assert(inner.height() == 1 + max_nat(a.height(), b.height()));
    assert(b.is_balanced() && c.is_balanced());
    assert(inner.is_balanced());
    assert(s.rotate_left() == Shape::Node { key: r->key, left: Box::new(inner), right: Box::new(c) });
}

/// The node whose left child has been rotated left.
pub open spec fn with_left_rotated(s: Shape) -> Shape {
    Shape::Node { key: s->key, left: Box::new(s.left().rotate_left()), right: Box::new(s.right()) }
}

/// The node whose right child has been rotated right.
pub open spec fn with_right_rotated(s: Shape) -> Shape {
    Shape::Node { key: s->key, left: Box::new(s.left()), right: Box::new(s.right().rotate_right()) }
}

/// AVL repair, case LR: a node leaning left by two whose left child leans right becomes
/// balanced by a left rotation of the left child and then a right rotation, one level lower.
pub proof fn lemma_avl_rotate_left_right(s: Shape)
    requires
        s is Node,
        s.left().is_balanced(),
        s.right().is_balanced(),
        s.balance_factor() == 2,
        s.left().balance_factor() < 0,
    ensures
        with_left_rotated(s).left() is Node,
        with_left_rotated(s).rotate_right().is_balanced(),
        with_left_rotated(s).rotate_right().height() == s.height() - 1,
{
    let l = s.left();
    let c = s.right();
    assert(l is Node);
    let a = l.left();
    let z = l.right();
    assert(l.height() == 1 + max_nat(a.height(), z.height()));
    assert(z is Node);
    let b1 = z.left();
    let b2 = z.right();
    assert(z.height() == 1 + max_nat(b1.height(), b2.height()));
    let low = Shape::Node { key: l->key, left: Box::new(a), right: Box::new(b1) };
    let high = Shape::Node { key: s->key, left: Box::new(b2), right: Box::new(c) };
    assert(l.rotate_left() == Shape::Node { key: z->key, left: Box::new(low), right: Box::new(b2) });
    assert(with_left_rotated(s).rotate_right() == Shape::Node { key: z->key, left: Box::new(low), right: Box::new(high) });
    assert(low.height() == 1 + max_nat(a.height(), b1.height()));
    assert(high.height() == 1 + max_nat(b2.height(), c.height()));
    assert(z.is_balanced());
    assert(b1.is_balanced() && b2.is_balanced());
    assert(low.is_balanced() && high.is_balanced());
}

/// AVL repair, case RL: the mirror image of case LR.
pub proof fn lemma_avl_rotate_right_left(s: Shape)
    requires
        s is Node,
        s.left().is_balanced(),
        s.right().is_balanced(),
        s.balance_factor() == -2,
        s.right().balance_factor() > 0,
    ensures
        with_right_rotated(s).right() is Node,
        with_right_rotated(s).rotate_left().is_balanced(),
        with_right_rotated(s).rotate_left().height() == s.height() - 1,
{
    let r = s.right();
    let a = s.left();
    assert(r is Node);
    let z = r.left();
    let c = r.right();
    assert(r.height() == 1 + max_nat(z.height(), c.height()));
    assert(z is Node);
    let b1 = z.left();
    let b2 = z.right();
    assert(z.height() == 1 + max_nat(b1.height(), b2.height()));
    let low = Shape::Node { key: s->key, left: Box::new(a), right: Box::new(b1) };
    let high = Shape::Node { key: r->key, left: Box::new(b2), right: Box::new(c) };
    assert(r.rotate_right() == Shape::Node { key: z->key, left: Box::new(b1), right: Box::new(high) });
    assert(with_right_rotated(s).rotate_left() == Shape::Node { key: z->key, left: Box::new(low), right: Box::new(high) });
    assert(low.height() == 1 + max_nat(a.height(), b1.height()));
    assert(high.height() == 1 + max_nat(b2.height(), c.height()));
    assert(z.is_balanced());
    assert(b1.is_balanced() && b2.is_balanced());
    assert(low.is_balanced() && high.is_balanced());
}

/// `pow2` does not decrease.
pub proof fn lemma_pow2_monotone(a: nat, b: nat)
    requires
        a <= b,
    ensures
        pow2(a) <= pow2(b),
{
    if a < b {
        lemma_pow2_strictly_increases(a, b);
    }
}

/// Height bound of balanced trees: a tree whose nodes all satisfy the AVL rule has
/// `2^(height / 2) <= size + 1`, so its height is at most `2 * log2(size + 1) + 1`.
pub proof fn lemma_avl_height_bound(t: Shape)
    requires
        t.is_balanced(),
    ensures
        pow2(t.height() / 2) <= t.size() + 1,
    decreases t,
{
    lemma2_to64();
    if let Shape::Node { key, left, right } = t {
        lemma_avl_height_bound(*left);
        lemma_avl_height_bound(*right);
        let h = t.height();
        if h >= 2 {
            let e = (h / 2 - 1) as nat;
            lemma_pow2_monotone(e, left.height() / 2);
            lemma_pow2_monotone(e, right.height() / 2);
            lemma_pow2_unfold(h / 2);
            assert(pow2(h / 2) == 2 * pow2(e));
        }
    }
}

pub open spec fn fib(n: nat) -> nat
    decreases n,
{
    if n < 2 {
        n
    } else {
        fib((n - 1) as nat) + fib((n - 2) as nat)
    }
}

proof fn lemma_fib_monotone(a: nat, b: nat)
    requires
        a <= b,
    ensures
        fib(a) <= fib(b),
    decreases b,
{
    if a < b {
        lemma_fib_monotone(a, (b - 1) as nat);
        if b >= 2 {
            assert(fib(b) == fib((b - 1) as nat) + fib((b - 2) as nat));
        }
    }
}

/// The tight height bound of balanced trees: `fib(height + 2) <= size + 1`. Since
/// `fib(h + 2)` grows as `1.618^h`, the height is at most about `1.44 * log2(size + 2)`.
pub proof fn lemma_avl_fibonacci_bound(t: Shape)
    requires
        t.is_balanced(),
    ensures
        fib(t.height() + 2) <= t.size() + 1,
    decreases t,
{
    assert(fib(2) == 1) by {
        assert(fib(1) == 1 && fib(0) == 0);
    }
    if let Shape::Node { key, left, right } = t {
        lemma_avl_fibonacci_bound(*left);
        lemma_avl_fibonacci_bound(*right);
        let h = t.height();
        assert(fib(h + 2) == fib(h + 1) + fib(h as nat));
        if left.height() >= right.height() {
            lemma_fib_monotone(h as nat, right.height() + 2);
        } else {
            lemma_fib_monotone(h as nat, left.height() + 2);
        }
    }
}

/// A tree of keys with a color at each node, red or black: the view of the red-black
/// variants, whose repair rules depend on the colors.
pub enum Painted {
    Empty,
    Node { red: bool, key: u32, left: Box<Painted>, right: Box<Painted> },
}

impl Painted {
    /// The keys and their places, without the colors.
    pub open spec fn shape(self) -> Shape
        decreases self,
    {
        match self {
            Painted::Empty => Shape::Empty,
            Painted::Node { key, left, right, .. } => Shape::Node {
                key,
                left: Box::new(left.shape()),
                right: Box::new(right.shape()),
            },
        }
    }

    /// A present red node; an absent one counts as black.
    pub open spec fn is_red(self) -> bool {
        self matches Painted::Node { red, .. } && red
    }

    pub open spec fn left(self) -> Painted {
        match self {
            Painted::Empty => Painted::Empty,
            Painted::Node { left, .. } => *left,
        }
    }

    pub open spec fn right(self) -> Painted {
        match self {
            Painted::Empty => Painted::Empty,
            Painted::Node { right, .. } => *right,
        }
    }

    /// The same tree with the root recolored.
    pub open spec fn with_red(self, red: bool) -> Painted {
        match self {
            Painted::Empty => Painted::Empty,
            Painted::Node { key, left, right, .. } => Painted::Node { red, key, left, right },
        }
    }

    pub open spec fn red_leaf(key: u32) -> Painted {
        Painted::Node { red: true, key, left: Box::new(Painted::Empty), right: Box::new(Painted::Empty) }
    }

    /// Classic insertion repair at a grandparent whose left child is red with a red
    /// child: a red uncle means recoloring (parent and uncle black, grandparent red);
    /// a black uncle means a right rotation (left-left) or first a left rotation of the
    /// child (left-right), after which the new top is black and the old grandparent red.
    pub open spec fn rb_fix_left(self) -> Painted {
        let c = self.left();
        let u = self.right();
        if c.is_red() && (c.left().is_red() || c.right().is_red()) {
            if u.is_red() {
                Painted::Node {
                    red: true,
                    key: self->key,
                    left: Box::new(c.with_red(false)),
                    right: Box::new(u.with_red(false)),
                }
            } else if c.left().is_red() {
                Painted::Node {
                    red: false,
                    key: c->key,
                    left: Box::new(c.left()),
                    right: Box::new(Painted::Node { red: true, key: self->key, left: Box::new(c.right()), right: Box::new(u) }),
                }
            } else {
                let z = c.right();
                Painted::Node {
                    red: false,
                    key: z->key,
                    left: Box::new(Painted::Node { red: c->red, key: c->key, left: Box::new(c.left()), right: Box::new(z.left()) }),
                    right: Box::new(Painted::Node { red: true, key: self->key, left: Box::new(z.right()), right: Box::new(u) }),
                }
            }
        } else {
            self
        }
    }

    /// The mirror image of `rb_fix_left`.
    pub open spec fn rb_fix_right(self) -> Painted {
        let c = self.right();
        let u = self.left();
        if c.is_red() && (c.left().is_red() || c.right().is_red()) {
            if u.is_red() {
                Painted::Node {
                    red: true,
                    key: self->key,
                    left: Box::new(u.with_red(false)),
                    right: Box::new(c.with_red(false)),
                }
            } else if c.right().is_red() {
                Painted::Node {
                    red: false,
                    key: c->key,
                    left: Box::new(Painted::Node { red: true, key: self->key, left: Box::new(u), right: Box::new(c.left()) }),
                    right: Box::new(c.right()),
                }
            } else {
                let z = c.left();
                Painted::Node {
                    red: false,
                    key: z->key,
                    left: Box::new(Painted::Node { red: true, key: self->key, left: Box::new(u), right: Box::new(z.left()) }),
                    right: Box::new(Painted::Node { red: c->red, key: c->key, left: Box::new(z.right()), right: Box::new(c.right()) }),
                }
            }
        } else {
            self
        }
    }

    /// Classic insertion below the root: a new red leaf, repaired at every grandparent
    /// on the way back up; a key already present changes nothing.
    pub open spec fn rb_ins(self, k: u32) -> Painted
        decreases self,
    {
        match self {
            Painted::Empty => Painted::red_leaf(k),
            Painted::Node { red, key, left, right } => if k == key {
                self
            } else if k < key {
                (Painted::Node { red, key, left: Box::new(left.rb_ins(k)), right }).rb_fix_left()
            } else {
                (Painted::Node { red, key, left, right: Box::new(right.rb_ins(k)) }).rb_fix_right()
            },
        }
    }

    /// Classic red-black insertion: the root ends black.
    pub open spec fn rb_insert(self, k: u32) -> Painted {
        self.rb_ins(k).with_red(false)
    }

    /// Repair after the left subtree lost one black level, with a black sibling: both
    /// nephews black means the sibling turns red and the parent takes the loss (passing it
    /// up if it was black); otherwise a red close nephew is first rotated outward, and a
    /// left rotation of the parent lets the far nephew, now black, fill the gap.
    /// The flag tells whether the subtree still lacks a black level.
    pub open spec fn rb_delete_fix_left_black_sibling(self) -> (Painted, bool) {
        let s = self.right();
        if !s.left().is_red() && !s.right().is_red() {
            let p2 = Painted::Node { red: self->red, key: self->key, left: Box::new(self.left()), right: Box::new(s.with_red(true)) };
            if !self->red {
                (p2, true)
            } else {
                (p2.with_red(false), false)
            }
        } else {
            let s2 = if !s.right().is_red() {
                let c = s.left();
                Painted::Node {
                    red: false,
                    key: c->key,
                    left: Box::new(c.left()),
                    right: Box::new(Painted::Node { red: true, key: s->key, left: Box::new(c.right()), right: Box::new(s.right()) }),
                }
            } else {
                s
            };
            (Painted::Node {
                red: self->red,
                key: s2->key,
                left: Box::new(Painted::Node { red: false, key: self->key, left: Box::new(self.left()), right: Box::new(s2.left()) }),
                right: Box::new(s2.right().with_red(false)),
            }, false)
        }
    }

    /// Repair after the left subtree lost one black level: a red sibling is first rotated
    /// up (black now, with the parent red below it), then the black-sibling repair runs at
    /// the parent.
    pub open spec fn rb_delete_fix_left(self) -> (Painted, bool) {
        let s = self.right();
        if s.is_red() {
            let below = Painted::Node { red: true, key: self->key, left: Box::new(self.left()), right: Box::new(s.left()) };
            (Painted::Node {
                red: false,
                key: s->key,
                left: Box::new(below.rb_delete_fix_left_black_sibling().0),
                right: Box::new(s.right()),
            }, false)
        } else {
            self.rb_delete_fix_left_black_sibling()
        }
    }

    /// The mirror image of `rb_delete_fix_left_black_sibling`.
    pub open spec fn rb_delete_fix_right_black_sibling(self) -> (Painted, bool) {
        let s = self.left();
        if !s.right().is_red() && !s.left().is_red() {
            let p2 = Painted::Node { red: self->red, key: self->key, left: Box::new(s.with_red(true)), right: Box::new(self.right()) };
            if !self->red {
                (p2, true)
            } else {
                (p2.with_red(false), false)
            }
        } else {
            let s2 = if !s.left().is_red() {
                let c = s.right();
                Painted::Node {
                    red: false,
                    key: c->key,
                    left: Box::new(Painted::Node { red: true, key: s->key, left: Box::new(s.left()), right: Box::new(c.left()) }),
                    right: Box::new(c.right()),
                }
            } else {
                s
            };
            (Painted::Node {
                red: self->red,
                key: s2->key,
                left: Box::new(s2.left().with_red(false)),
                right: Box::new(Painted::Node { red: false, key: self->key, left: Box::new(s2.right()), right: Box::new(self.right()) }),
            }, false)
        }
    }

    /// The mirror image of `rb_delete_fix_left`.
    pub open spec fn rb_delete_fix_right(self) -> (Painted, bool) {
        let s = self.left();
        if s.is_red() {
            let below = Painted::Node { red: true, key: self->key, left: Box::new(s.right()), right: Box::new(self.right()) };
            (Painted::Node {
                red: false,
                key: s->key,
                left: Box::new(s.left()),
                right: Box::new(below.rb_delete_fix_right_black_sibling().0),
            }, false)
        } else {
            self.rb_delete_fix_right_black_sibling()
        }
    }

    /// Classic deletion below the root, with the flag telling whether the subtree lost a
    /// black level: a key with two children takes the smallest key of its right subtree,
    /// which is deleted there instead; a node with one child gives way to it, recolored
    /// black; a childless red node just goes and a childless black one leaves the level
    /// short. Each loss is repaired at the parent on the way back up.
    pub open spec fn rb_del(self, k: u32) -> (Painted, bool)
        decreases self,
    {
        match self {
            Painted::Empty => (Painted::Empty, false),
            Painted::Node { red, key, left, right } => if k < key {
                let (l, short) = left.rb_del(k);
                let n = Painted::Node { red, key, left: Box::new(l), right };
                if short {
                    n.rb_delete_fix_left()
                } else {
                    (n, false)
                }
            } else if k > key {
                let (r, short) = right.rb_del(k);
                let n = Painted::Node { red, key, left, right: Box::new(r) };
                if short {
                    n.rb_delete_fix_right()
                } else {
                    (n, false)
                }
            } else if *left is Node && *right is Node {
                let m = right.shape().leftmost();
                let (r, short) = right.rb_del(m);
                let n = Painted::Node { red, key: m, left, right: Box::new(r) };
                if short {
                    n.rb_delete_fix_right()
                } else {
                    (n, false)
                }
            } else if *left is Node {
                (left.with_red(false), false)
            } else if *right is Node {
                (right.with_red(false), false)
            } else {
                (Painted::Empty, !red)
            },
        }
    }

    /// Classic red-black deletion.
    pub open spec fn rb_delete(self, k: u32) -> Painted {
        self.rb_del(k).0
    }

    /// Left-leaning rotation to the left: the right child rises and takes the node's
    /// color; the node turns red.
    pub open spec fn llrb_rotate_left(self) -> Painted {
        let r = self.right();
        Painted::Node {
            red: self->red,
            key: r->key,
            left: Box::new(Painted::Node { red: true, key: self->key, left: Box::new(self.left()), right: Box::new(r.left()) }),
            right: Box::new(r.right()),
        }
    }

    /// The mirror image of `llrb_rotate_left`.
    pub open spec fn llrb_rotate_right(self) -> Painted {
        let l = self.left();
        Painted::Node {
            red: self->red,
            key: l->key,
            left: Box::new(l.left()),
            right: Box::new(Painted::Node { red: true, key: self->key, left: Box::new(l.right()), right: Box::new(self.right()) }),
        }
    }

    /// Both children turn black and the node red.
    pub open spec fn flip(self) -> Painted {
        Painted::Node {
            red: true,
            key: self->key,
            left: Box::new(self.left().with_red(false)),
            right: Box::new(self.right().with_red(false)),
        }
    }

    /// The three left-leaning fixes in turn: rotate a red right child beside a black left
    /// one to the left; rotate two reds in a row on the left to the right; flip two red
    /// children.
    pub open spec fn llrb_fix(self) -> Painted {
        if self.right().is_red() && !self.left().is_red() {
            let t1 = self.llrb_rotate_left();
            if t1.left().is_red() && t1.left().left().is_red() {
                let t2 = t1.llrb_rotate_right();
                if t2.left().is_red() && t2.right().is_red() {
                    t2.flip()
                } else {
                    t2
                }
            } else {
                t1
            }
        } else if self.left().is_red() && self.left().left().is_red() {
            let t1 = self.llrb_rotate_right();
            if t1.left().is_red() && t1.right().is_red() {
                t1.flip()
            } else {
                t1
            }
        } else if self.left().is_red() && self.right().is_red() {
            self.flip()
        } else {
            self
        }
    }

    /// Left-leaning insertion below the root: a new red leaf, with the fixes applied at
    /// every node on the way back up.
    pub open spec fn llrb_ins(self, k: u32) -> Painted
        decreases self,
    {
        match self {
            Painted::Empty => Painted::red_leaf(k),
            Painted::Node { red, key, left, right } => if k < key {
                (Painted::Node { red, key, left: Box::new(left.llrb_ins(k)), right }).llrb_fix()
            } else if k > key {
                (Painted::Node { red, key, left, right: Box::new(right.llrb_ins(k)) }).llrb_fix()
            } else {
                self.llrb_fix()
            },
        }
    }

    /// Left-leaning red-black insertion: the root ends black.
    pub open spec fn llrb_insert(self, k: u32) -> Painted {
        self.llrb_ins(k).with_red(false)
    }
}

} // verus!
