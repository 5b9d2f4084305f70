//! Bounded breadth-first search, induced arc sets, greedy density peeling and
//! out-degree ranking over an adjacency-list graph.

pub mod degree;
pub mod edge_set;
pub mod facts;
pub mod file_operations;
pub mod graph;
pub mod graph_analysis;
pub mod graph_operations;
pub mod ranking;
pub mod reach;
pub mod sampling;
