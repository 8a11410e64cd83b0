//! An ordered binary search tree container.
//!
//! `BST<T>` stores distinct values of any type with a verified total order,
//! supports insertion, membership testing, value retrieval (shared and
//! mutable), and three consuming traversals (pre-order, in-order,
//! post-order) that hand the elements out as one-pass sequences.

pub mod order;
pub mod tree;
pub mod laws;

pub use order::Comparison;
pub use order::TotalOrder;
pub use tree::BST;
pub use tree::SpecTree;
pub use tree::IntoPreOrderIter;
pub use tree::IntoInOrderIter;
pub use tree::IntoPostOrderIter;
