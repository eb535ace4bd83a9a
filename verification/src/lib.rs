//! Shortest-path closure of a sparse weighted undirected graph.
//!
//! A `CompleteGraph` is built once from a skeleton edge list and then answers
//! single-source shortest-distance queries and two-point shortest-path
//! queries, using a timestamp-based visited set so that repeated queries do
//! not have to clear per-vertex state.

pub mod assoc;
pub mod complete_graph;
pub mod frontier;
pub mod laws;
pub mod shortest;

pub use complete_graph::CompleteGraph;
pub use complete_graph::CompleteGraphVertex;
pub use complete_graph::DistanceMap;
pub use frontier::PriorityElement;
pub use frontier::PriorityFrontier;
