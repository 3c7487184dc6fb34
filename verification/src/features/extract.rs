//! Size of the hand-crafted feature vector: six colour statistics (mean and
//! standard deviation of each channel), an eight-bucket brightness histogram
//! and six edge densities (three channels at two thresholds).
use vstd::prelude::*;

verus! {

/// The number of features one image is described by.
pub const FEATURE_COUNT: usize = 20;

/// The number of features one image is described by.
pub fn feature_count() -> (n: usize)
    ensures
        n == FEATURE_COUNT,
        n == 20,
{
    FEATURE_COUNT
}

} // verus!
