//! Linear list structures: a single-ended stack-like list, a two-ended list,
//! and a two-ended list with its own handle type.

pub mod one_way;
pub mod one_way_multi_thread;
pub mod two_way;
