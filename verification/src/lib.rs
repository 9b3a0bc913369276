//! Analysis of a static, undirected social-network graph held in memory.
//!
//! The graph is an adjacency map from node ID to the set of its neighbours.
//! [`ingest`] reads the edge-list text, [`graph`] builds the adjacency map
//! from raw edges, [`paths`] defines walks and hop distance, [`friends`]
//! finds second-degree neighbours and [`traversal`] holds the breadth-first
//! searches.

pub mod friends;
pub mod graph;
pub mod ingest;
mod iteration;
pub mod paths;
pub mod traversal;
