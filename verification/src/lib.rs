//! Ordered containers backed by contiguous sorted arrays.
//!
//! `BinarySet` keeps a strictly increasing sequence of unique elements;
//! `BinaryMap` keeps two index-aligned sequences, keys strictly increasing.
//! Lookups are binary searches; bulk loading goes through one of three
//! merge strategies, the most elaborate being an in-place rotation merge.

pub mod search;
pub mod merge;
pub mod set;
pub mod laws;
pub mod map;

pub use set::BinarySet;
pub use map::BinaryMap;
pub use map::KeyBound;
