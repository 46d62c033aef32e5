//! Finds the dictionary words that can be traced on a letter grid along paths
//! of neighbouring cells, each cell used at most once, with a prefix tree
//! pruning the search.

pub mod search;
pub mod trie;
