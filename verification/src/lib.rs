//! Partitioning of a rectangular grid of municipalities (cells carrying a
//! vote count) into a fixed number of contiguous, size-balanced districts,
//! together with a local-search optimizer that reassigns boundary cells
//! between districts to maximize the number of districts whose vote total
//! exceeds a majority threshold.

pub mod base;
pub mod local_search;
pub mod util;
