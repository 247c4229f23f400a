//! The parts of a left-leaning red-black tree: its node, the shapes that its
//! balancing primitives give a subtree, and what these primitives keep.

pub(crate) mod balance;
pub(crate) mod insertion;
pub(crate) mod laws;
pub mod node;
pub mod shape;
