//! Shortest paths in undirected weighted graphs, with two interchangeable
//! engines: a memoizing single-source engine driven by a priority queue and a
//! dense all-pairs engine that is refreshed whenever edges are added.

pub mod adjacency;
pub mod dijkstra;
pub mod errors;
pub mod floyd_warshall;
pub mod graph;
pub mod laws;
pub mod matrix;
pub mod queue;
pub mod record;
pub mod search;
pub mod shortest_path_algo;
