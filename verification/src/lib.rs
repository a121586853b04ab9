//! Exact weighted cluster editing by branch and bound.
//!
//! A [`graph::Graph`] holds a signed weight for every pair of vertices and
//! supports reversible merges and cuts. A [`packing::Packing`] of conflict
//! triples bounds the remaining cost from below, and a [`search::Solver`]
//! explores merge and cut decisions, pruned by that bound.

pub mod sums;
pub mod matrix;
pub mod graph;
pub mod merge;
pub mod triple;
pub mod cost;
pub mod packing;
pub mod order;
pub mod turns;
pub mod incremental;
pub mod optimal;
pub mod finish;
pub mod component;
pub mod branch;
pub mod search;
pub mod forest;
pub mod active;
pub mod compare;
pub mod load;
pub mod critical;
pub mod exchange;
pub mod greedy;
pub mod simplify;
pub mod maintain;
pub mod text;
pub mod kernel;
pub mod valid;
