//! A rectangular maze library: a grid of cells joined by fixed positional
//! adjacency, a symmetric "carved link" relation built up by randomized
//! generation algorithms, and breadth-first distances over the carved graph.

pub mod binary_tree;
pub mod cell;
pub mod distance;
pub mod grid;
pub mod kruskal;
pub mod recursive_backtracker;
pub mod rng;
pub mod sidewinder;
