//! A tree whose nodes live in an arena and are addressed by handles.
//!
//! Every handle carries the stamp of the arena that minted it, so a handle of
//! one tree is refused by another, and a handle to a removed node is refused
//! by the tree that removed it.

pub mod node;
pub mod tree;
pub mod laws;

pub use node::{Node, NodeId, NodeIdError};
pub use tree::{Tree, TreeBuilder};
