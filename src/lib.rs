//! Ordered containers built on an arena-backed, top-down splay tree.
pub mod shape;
pub mod arena;
pub mod splay;
pub mod iter;
pub mod laws;
pub mod tree_core;
