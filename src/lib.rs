//! An in-memory graph store with a breadth-first traversal engine and the
//! queries built on it: shortest path, connected components, bipartiteness.

pub mod graph;
pub mod traversal;
