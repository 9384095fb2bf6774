//! Path planning building blocks: a priority queue, a union-find, arena-backed interval lists,
//! adjacency-list, function and grid graphs, parent trees, and a cheapest-first search, each with
//! its contract.

pub mod datastructures;
pub mod framework;
pub mod geometry;
pub mod graphs;
pub mod parallel;
pub mod path_planning;
