//! Tree-shaped index structures.

pub mod hashmap;
pub mod mcl;
pub mod trie;
pub mod merkle_v1;
pub mod merkle_v2;
