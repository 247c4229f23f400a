//! Ordered symbol tables on binary trees.

pub mod binary_search_tree;
pub mod red_black_tree;
