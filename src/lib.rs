//! A k-nearest-neighbours classifier over integer feature vectors.
//!
//! Feature values are `i32` (callers pick the fixed-point scale that suits
//! their data). Neighbours are ranked by the exact squared Euclidean
//! distance, so every comparison is total and no distance is ever unordered.
use vstd::prelude::*;

pub mod classifier;
pub mod distance;

verus! {

/// The ways a distance computation or a prediction can fail.
#[derive(Debug, Clone, Copy, PartialEq, Eq, Structural)]
pub enum KnnError {
    /// Two feature vectors that must have the same length do not.
    DimensionMismatch,
    /// Fewer training points are stored than the neighbour count `k`.
    InsufficientData,
    /// No neighbour can vote (the neighbour count is zero).
    NoPrediction,
}

} // verus!
