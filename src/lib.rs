//! Self-balancing binary search trees over `u32` keys: AVL, red-black (classic and
//! left-leaning), and a plain binary search tree as a reference. Every variant is
//! viewed as a `shape::Shape` (the red-black ones also as a colored `shape::Painted`);
//! its operations state their exact results over that view,
//! and the queries of `common_trait` serve all of them.

pub mod shape;
pub mod common_trait;
pub mod avl_tree;
pub mod bs_tree;
pub mod rb_tree;
pub mod rb_tree_fast;
