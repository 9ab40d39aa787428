//! Sampled estimates of structural properties of a directed graph: hop
//! distances by breadth-first search, their mean and distribution over a
//! random sample of start nodes, and closeness rankings in both directions.

pub mod exchange;
pub mod graph;
pub mod bfs;
pub mod sampler;
pub mod tally;
pub mod closeness;
pub mod average;
pub mod histogram;
pub mod ingest;
