use vstd::prelude::*;

verus! {

/// Why an alignment or compositing step could not produce a result.
#[derive(PartialEq, Eq, Structural, Clone, Copy, Debug)]
pub enum AlignmentError {
    /// The search window is zero or does not fit strictly inside both frames.
    InvalidWindowSize,
    /// One of the frames has no pixel.
    EmptyFrame,
    /// Two frames that must have the same size do not.
    DimensionMismatch,
    /// Fewer than four correspondences survived matching.
    InsufficientMatches,
    /// The robust homography fit failed numerically.
    HomographyEstimationFailed,
}

} // verus!
