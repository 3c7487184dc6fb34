use vstd::prelude::*;

verus! {

/// The kernel of a support vector machine; `gamma` is the width of the RBF
/// kernel.
#[derive(Debug, Clone, Copy)]
pub enum Kernel<T> {
    Linear,
    Rbf { gamma: T },
}

} // verus!
