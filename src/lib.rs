//! Population covariance matrices from comma-separated numeric records,
//! computed in one pass from raw moments: Cov(X, Y) = E[XY] - E[X]E[Y].
//!
//! Values are integers, and every result is exact: entry (i, j) of the
//! matrix is the rational number `numer[i][j] / denom`.
use vstd::prelude::*;

pub mod model;
pub mod moments;
pub mod record;
pub mod covariance;
pub mod text;

verus! {

/// The ways a computation can fail.
#[derive(Debug, Clone, Copy, PartialEq, Eq, Structural)]
pub enum CovError {
    /// A token is not an integer in the accepted range.
    MalformedInput,
    /// A record's field count differs from the header's.
    ShapeMismatch,
    /// No data record was consumed.
    EmptyInput,
    /// More records than the exact accumulators can take.
    TooManyRecords,
}

} // verus!
