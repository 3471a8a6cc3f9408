//! Average shortest-path distance statistics over a weighted contact graph.
//!
//! The graph is a dense weight matrix in which a weight of zero means that
//! there is no edge. Distances from a set of sampled source nodes are found
//! with Dijkstra's algorithm and summed into an average distance.
pub mod graph;
pub mod edges;
pub mod distance;
pub mod statistics;
pub mod sampling;
pub mod aggregate;
pub mod format;
