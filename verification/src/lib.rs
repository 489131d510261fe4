//! An unbalanced binary search tree, its traversals, and a fixed-depth text
//! diagram of its upper levels.

pub mod order;
pub mod shape;
pub mod binary_tree;
pub mod layout;
