//! Spatial simulation core of a top-down arena shooter, in exact
//! fixed-point arithmetic: swept collision detection of moving boxes
//! against a tile grid and against each other, per-entity aggregation of
//! contacts into movement bounds with a clamp-based correction, grid ray
//! marching for line-of-sight queries, and the seeded map generators that
//! produce the levels the core runs on.
//!
//! All world quantities are `i64` values counted in thousandths of a
//! world unit; every rounding is truncation toward zero.

pub mod kmath;
pub mod rect;
pub mod entity;
pub mod level;
pub mod collision;
pub mod map_fragment;
pub mod map_gen;
pub(crate) mod rng;
