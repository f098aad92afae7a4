pub mod validate;
pub mod trie;
pub mod controller;
pub mod query;
pub mod laws;
