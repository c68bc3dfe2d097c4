//! Directed graphs with cycles, built in an arena and traversed depth-first.
//!
//! Nodes are owned by one `Graph` arena and named by `Node` handles; an edge
//! is a handle, never an owner, so cycles and back-edges need no reference
//! counting and nodes may gain edges after other nodes already point to them.
pub mod graph;
pub mod traverse;
pub mod example;
pub mod laws;
pub mod reach;

pub use graph::{Graph, GraphError, Node};
pub use example::init;
