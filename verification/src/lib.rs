//! Brute-force recovery of a short lowercase plaintext from a known hash.
//!
//! The library enumerates every string of lowercase letters up to a bounded
//! length in a fixed order (shorter first, lexicographic within one length)
//! and returns the earliest one whose hash equals a caller-supplied target,
//! evaluating the hash predicate across a parallel worker pool.

pub mod generator;
pub mod hashes;
pub mod search;
pub mod space;
