//! Symbol tables with string keys.

pub mod trie_st;
