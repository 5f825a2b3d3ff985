//! Community detection over demographic mortality-rate records.
//!
//! The crate builds a weighted similarity graph from flat records and
//! partitions it with the Louvain method (modularity scoring, greedy local
//! moves, graph aggregation, a multi-level driver).  All weights are exact
//! fixed-point integers in millionths of a unit, so every score and every
//! tie-break is deterministic and free of rounding drift.

pub mod node;
pub mod sums;
pub mod graph;
pub mod analysis;
pub mod edge_assigner;
