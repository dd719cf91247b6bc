//! Depth-first, pre-order traversal of implicit trees, steered by the
//! visitor: continue into a node's children, prune them, or stop the walk.
//!
//! A tree is given by a root value, a predicate that says which nodes may be
//! visited, and a function that lists a node's children. `traverse_tree`
//! walks it and hands each visited node, with a state, to a visitor, whose
//! answer (`TreeControl`) steers the rest of the walk.

pub mod control;
pub mod model;
pub mod traverse;
pub mod laws;
pub mod binary;
pub mod sample;
pub mod filesystem;

pub use control::TreeControl;
pub use traverse::traverse_tree;
pub use binary::BinaryNode;
pub use filesystem::FileSystemNode;
pub mod words;
pub mod fibonacci;
pub mod levels;
