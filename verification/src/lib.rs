//! Closest points between a composite shape and another shape, found by a
//! best-first branch-and-bound search over the composite's bounding-volume
//! hierarchy.
//!
//! All geometry lives on a two-dimensional integer lattice: coordinates are
//! fixed-point numbers, rigid motions are translations combined with quarter
//! turns, and candidates are ordered by their squared Euclidean distance, so
//! that every quantity the search compares is exact.

pub mod bounding_volume;
pub mod closest_points_composite;
pub mod closest_points_laws;
pub mod compound;
pub mod default_query_dispatcher;
pub mod math;
pub mod partitioning;
pub mod query;
pub mod shape;
pub mod simd;
