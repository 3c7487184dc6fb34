//! The Rosenblatt perceptron and its one-vs-rest three-class combination.
pub mod rosenblatt;
pub mod rosenblatt_classifier;

use vstd::prelude::*;
use crate::tensor::{Matrix, MatrixV};

verus! {

/// A binary perceptron: `weights` is `1 x (n_features + 1)`, the first weight
/// applying to the constant `bias` input.
pub struct Rosenblatt<T> {
    pub learning_rate: T,
    pub weights: Matrix<T>,
    pub bias: T,
}

/// The mathematical content of a perceptron.
pub struct RosenblattV<T> {
    pub learning_rate: T,
    pub weights: MatrixV<T>,
    pub bias: T,
}

impl<T: Copy> View for Rosenblatt<T> {
    type V = RosenblattV<T>;

    open spec fn view(&self) -> RosenblattV<T> {
        RosenblattV { learning_rate: self.learning_rate, weights: self.weights@, bias: self.bias }
    }
}

/// Three perceptrons, one per class (cat 0, lion 1, cheetah 2), each
/// separating its class from the other two.
pub struct RosenblattClassifier<T> {
    pub cat: Rosenblatt<T>,
    pub lion: Rosenblatt<T>,
    pub cheetah: Rosenblatt<T>,
}

/// The mathematical content of a three-class perceptron classifier.
pub struct RosenblattClassifierV<T> {
    pub cat: RosenblattV<T>,
    pub lion: RosenblattV<T>,
    pub cheetah: RosenblattV<T>,
}

impl<T: Copy> View for RosenblattClassifier<T> {
    type V = RosenblattClassifierV<T>;

    open spec fn view(&self) -> RosenblattClassifierV<T> {
        RosenblattClassifierV { cat: self.cat@, lion: self.lion@, cheetah: self.cheetah@ }
    }
}

} // verus!
