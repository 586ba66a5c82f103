//! Shared-ownership graphs of nodes whose children may be held by many
//! parents at once, with explicit reference counts, and the modes of a list
//! of integers.

pub mod graph;
pub mod maths;
pub mod sample;
pub mod words;

pub use graph::{Graph, Node, NodeRef};
