//! Degree-two expansion of two-feature inputs: `x, y, x*y, x*x, y*y`.
use vstd::prelude::*;

verus! {

/// The number of features of the degree-two expansion of a two-feature input.
pub fn transformed_feature_count() -> (n: usize)
    ensures
        n == 5,
{
    5
}

} // verus!
