//! Algorithmic primitives for contest-style programming: a monoid-based
//! segment tree, modular arithmetic, prime sieving, string matching, and
//! small numeric and indexing utilities, with machine-checked contracts.

pub mod binary_search;
pub mod bits;
pub mod collections;
pub mod display;
pub mod gf;
pub mod graph;
pub mod inf;
pub mod io;
pub mod ix;
pub mod kmp;
pub mod monoid;
pub mod num;
pub mod number;
pub mod prime;
pub mod range;
pub mod segment_tree;
pub mod slice;
pub mod union_find;
pub mod util;
