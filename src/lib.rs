//! A road-network router: a compressed-sparse-row graph loaded from a text
//! map file, a quadtree for nearest-node lookup, and uniform-cost search
//! for shortest distances.

pub mod args;
pub mod coords;
pub mod edge;
pub mod graph;
pub mod grid;
pub mod load;
pub mod node;
pub mod queue;
pub mod router;
pub mod text;
