//! A Barnes-Hut octree over an integer grid: incremental construction,
//! bottom-up mass aggregation and the approximate interaction query.

pub mod geometry;
pub mod sums;
pub mod octree;
