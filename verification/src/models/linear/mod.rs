//! Linear models: least-squares regression and the polynomial expansion.
pub mod regression;
pub mod transform;

use vstd::prelude::*;
use crate::tensor::Matrix;

verus! {

/// A least-squares linear regression: `weights` holds one weight per input
/// column, the weight of the constant bias column first.
pub struct Regression<T> {
    pub weights: Matrix<T>,
}

} // verus!
