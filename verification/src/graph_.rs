//! Undirected graphs and the search for paths in them.

pub mod depth_first_paths;
pub mod graph;
