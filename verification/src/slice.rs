//! Slice-derived structures.

pub mod partial_sum;
