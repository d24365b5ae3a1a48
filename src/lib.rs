//! Topology of a weighted, directed link graph, kept in a dense arena.
//!
//! Nodes are numbered in the order in which they are first referenced, and each
//! ordered pair of nodes owns one edge slot however often it is linked. A caller
//! keeps its per-node and per-edge quantities in vectors indexed by those numbers.
pub mod laws;
pub mod topology;

pub use topology::{Edge, Link, Topology};
