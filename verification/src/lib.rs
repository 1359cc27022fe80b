//! Generation of perfect mazes on a rectangular grid.
//!
//! A maze is a flat, row-major sequence of `columns * rows` cells, each an
//! integer bitmask over four wall flags (`Up = 1`, `Right = 2`, `Down = 4`,
//! `Left = 8`; a set bit is a standing wall). Generation carves passages by a
//! randomized depth-first walk with an explicit backtrack stack, producing a
//! spanning tree of the grid graph: exactly one simple path between any two
//! cells.

pub mod grid;
pub mod maze;
pub mod reach;
pub mod rng;
