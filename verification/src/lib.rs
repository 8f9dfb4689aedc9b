pub mod egraph;
pub mod extract;
pub mod val_trie;
