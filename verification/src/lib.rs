//! Agglomerative (bottom-up) hierarchical clustering over entities described
//! by fixed-point numeric attribute vectors.
//!
//! Attribute values are plain `i64` fixed-point numbers: a real value `x` is
//! represented as `round(x * SCALE)`. All distances are squared Euclidean
//! distances in those fixed-point units, so a real squared distance `d`
//! appears as `d * SCALE * SCALE`.
//!
//! The engine repeatedly merges the two closest clusters under single-linkage
//! (nearest-point) distance, for a caller-chosen number of steps, and reports
//! the distance at which the final merge occurred.

pub mod cluster;
pub mod engine;
pub mod model;
pub mod standardize;
