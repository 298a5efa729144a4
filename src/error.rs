use vstd::prelude::*;

verus! {

/// The ways a quantization request can fail.
#[derive(Clone, Copy, Debug, PartialEq, Eq, Structural)]
pub enum KmeansError {
    /// The pixel buffer is not `width * height` RGBA pixels.
    UnsupportedSource,
    /// The cluster count is zero or above the number of samples.
    InvalidK,
    /// There are no samples to cluster.
    EmptyInput,
    /// The sort tag names no known ordering.
    InvalidSortKey,
    /// The colour-space tag names no known colour space.
    InvalidColorSpace,
}

} // verus!
