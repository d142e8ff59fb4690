//! Shortest-path distances between labeled points of an undirected,
//! weighted graph, computed by two alternative strategies: bounded
//! edge relaxation and min-priority frontier expansion.
//!
//! A graph is built once by inserting points and connections and is
//! then queried any number of times. A query returns either a finite
//! distance or `i32::MAX`, the sentinel meaning "no known finite
//! distance".

pub mod graph;
pub mod walks;
pub mod frontier;
pub mod relaxation;
pub mod laws;

pub use graph::{Edge, Graph, Node};
