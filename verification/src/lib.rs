//! An in-memory undirected graph and verified structural metrics over it.

pub mod centrality;
pub mod clustering;
pub mod counting;
pub mod geodesics;
pub mod graph;
pub mod laws;
pub mod loader;
pub mod matrix;
pub mod ordering;
pub mod paths;
pub mod replay;
pub mod search;
pub mod structural;
pub mod sums;
