//! A small collection of verified blockchain-flavoured data structures.
//!
//! The centrepiece is the Merkle cross list in [`mcl`]: a sorted, hash-keyed,
//! tamper-evident index with logarithmic-height multiway rebalancing and
//! cryptographic inclusion proofs.

pub mod bitops;
pub mod bloom_filter;
pub mod bytes;
pub mod digest;
pub mod exercises;
pub mod keys;
pub mod linkedlist;
pub mod linklist;
pub mod par_bloom_filter;
pub mod text;
pub mod tree;

pub use tree::mcl;
