//! Earlier, simpler takes on the structures, kept for exercise.

pub mod one_way;
