//! Weighted directed multigraph with single-source shortest paths (Dijkstra)
//! and minimum spanning tree weights (Prim), both driven by an indexed binary
//! min-heap that supports decrease-key by vertex identity.

pub mod graph;
pub mod min_heap;
pub mod traversal;
pub mod dijkstra;
pub mod prim;
