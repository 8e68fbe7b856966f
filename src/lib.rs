//! Breadth-first search and line-of-sight sweeps on a hexagonal grid.

pub mod bfs;
pub mod hex;
pub mod los;
pub mod los2;
