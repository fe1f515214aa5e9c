//! Resolution of a structured configuration: flattened path assignments are
//! merged into one document tree, references between values are resolved in
//! two passes, and the tree is finalized into plain values.

pub mod config;
pub mod entries;
pub mod finalize;
pub mod laws;
pub mod merge;
pub mod substitute;
pub mod text;
pub mod tree;
pub mod value;
