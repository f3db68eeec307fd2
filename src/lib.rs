//! Connected components of an undirected graph given as a list of edges
//! between integer node identifiers, computed with a disjoint-set forest
//! (union by rank, full path compression).

pub mod components;
pub mod forest;
pub mod reorder;
