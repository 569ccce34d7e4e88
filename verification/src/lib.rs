//! An ordered key-value container kept as a B-tree.
//!
//! A `BTree` maps keys to values. All of its leaves stand at the same depth
//! and each node holds at most `2 * t - 1` keys, where `t` is the minimum
//! degree that the tree was made with. An insert walks down from the root
//! once and splits every full node that it meets before it enters it.
//! Nothing is ever taken out of a tree but by `clear`.
//!
//! - `tree`: the node type, its model and invariant, and the operations on
//!   the root alone.
//! - `search`: `find` and the descent that it makes.
//! - `split`: the split of a full child.
//! - `insert`: `insert` and the descent that it makes.
//! - `laws`: what holds of every valid tree.
//! - `equal`: equality of trees.
//! - `render`, `label`: a tree written out as text.
//! - `order`, `slots`: the order on keys and the rows of one node.

pub mod equal;
pub mod insert;
pub mod label;
pub mod laws;
pub mod order;
pub mod render;
pub mod search;
pub mod slots;
pub mod split;
pub mod tree;

pub use label::Label;
pub use tree::{BTree, TreeItem, BTREE_KEYS_LBOUND, BTREE_KEYS_UBOUND, BTREE_MIN_DEGREE};
