//! An external-sort engine: sorts files far larger than memory by splitting
//! them into block-sorted intermediate chunk files and streaming a k-way
//! merge of those chunks into a totally ordered output.
//!
//! The unit of comparison is a fixed-size block of `BLOCK_SIZE` bytes,
//! ordered byte-wise lexicographically.
use vstd::prelude::*;

pub mod bucket;
pub mod checkfile;
pub mod error;
pub mod merge;
pub mod order;
pub mod split;

verus! {

/// The fixed block size: the unit of comparison and of merge granularity.
pub const BLOCK_SIZE: usize = 4096;

} // verus!
