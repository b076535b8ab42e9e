//! A rope: a B-tree of short UTF-8 chunks whose nodes cache aggregate
//! summaries, with slicing and leaf iteration.

pub mod balance;
pub mod chunk;
pub mod node;
pub mod slice;
pub mod summary;
pub mod tree;
