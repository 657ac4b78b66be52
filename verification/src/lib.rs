//! Classic algorithm exercises, verified: single-source shortest paths over
//! non-negative weighted directed graphs (the core), two sorting routines,
//! an N-Queens solver, and binary tree traversals.

pub mod merge_sort;
pub mod queens;
pub mod quicksort;
pub mod shortest_path;
pub mod tree_traversal;
