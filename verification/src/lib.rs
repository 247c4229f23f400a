//! Verified symbol tables and graph search.
//!
//! - `tree::red_black_tree`: a left-leaning red-black tree, an ordered map
//!   that keeps itself balanced;
//! - `tree::binary_search_tree`: a binary search tree without balancing;
//! - `rbt`: the node of the red-black tree and its balancing primitives;
//! - `string::trie_st`: a trie with string keys;
//! - `graph_`: undirected graphs and depth-first paths;
//! - `order`: the order on keys, and what the operations of an ordered table
//!   mean on the sequence of its entries.

pub mod graph_;
pub mod order;
pub mod rbt;
pub mod string;
pub mod tree;
