use vstd::prelude::*;

verus! {

/// The ways a series computation can fail.
///
/// Every fallible operation of this crate reports one of these kinds instead
/// of panicking, so a caller can decide whether to abort a whole run.
#[derive(Clone, Copy, Debug, PartialEq, Eq, Structural)]
pub enum TimeSeriesError {
    /// The input series has no points at all.
    EmptySeries,
    /// The timestamp and value sequences have different lengths.
    LengthMismatch,
    /// A parameter is outside its documented domain
    /// (a smoothing factor above one, a zero window).
    InvalidParameter,
    /// A value is NaN or infinite where a finite number is required.
    NonFiniteValue,
    /// A magnitude does not fit the fixed-point range of the codec.
    EncodingOverflow,
    /// The timestamps are not in non-decreasing order.
    UnsortedTimestamps,
}

} // verus!
