//! A small verified graph-search library: a uniform-cost shortest-path
//! engine and a depth-first traversal engine over a caller-supplied finite
//! graph, with path reconstruction through a predecessor map.

pub mod graph;
pub mod grid;
pub mod pathfinding;
