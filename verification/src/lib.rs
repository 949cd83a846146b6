//! A small verified sorting demo: a deterministic linear-congruential
//! pseudorandom generator, a builder that fills a vector with bounded
//! random values, an in-place Lomuto quicksort over index ranges of a
//! vector, and a sortedness checker.

pub mod prng;
pub mod sort;
