//! Sets of small unsigned integers in two representations: a sorted array
//! for sparse sets and a word-packed bitmap for dense ones, each with exact
//! set algebra, membership queries, cardinality and ordered iteration.

pub mod arrayset;
pub mod bitmap;
pub mod bitseq;
pub mod word;
