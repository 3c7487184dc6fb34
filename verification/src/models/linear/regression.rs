use vstd::prelude::*;
use crate::tensor::Matrix;
use crate::models::perceptron::rosenblatt::{copy_row, prepend_bias_column};
use super::Regression;

verus! {

impl<T: Copy + Default> Regression<T> {
    /// An unfitted regression over `nb_features` inputs: `nb_features + 1`
    /// zero weights, the first for the bias column.
    pub fn new(nb_features: usize) -> (r: Self)
        requires
            nb_features < usize::MAX,
        ensures
            r.weights.wf(),
            r.weights.rows == 1,
            r.weights.cols == nb_features + 1,
            forall|i: int| 0 <= i < nb_features + 1 ==> call_ensures(T::default, (), #[trigger] r.weights.data@[i]),
    {
        Regression { weights: Matrix::zeros(1, nb_features + 1) }
    }
}

impl<T: Copy> Regression<T> {
    /// The fitted weights, bias weight first.
    pub fn get_weight(&mut self) -> (w: &Matrix<T>)
        ensures
            *w == old(self).weights,
            *final(self) == *old(self),
    {
        &self.weights
    }

    /// `x` with a first column holding `bias` on every row.
    pub fn add_bias_column(&mut self, x: &Matrix<T>, bias: T) -> (m: Matrix<T>)
        requires
            x.wf(),
            x.cols + 1 <= usize::MAX,
        ensures
            *final(self) == *old(self),
            m.wf(),
            m.rows == x.rows,
            m.cols == x.cols + 1,
            forall|r: int, c: int|
                0 <= r < x.rows && 0 <= c < x.cols + 1 ==> #[trigger] m.at(r, c) == if c == 0 {
                    bias
                } else {
                    x.at(r, c - 1)
                },
    {
        prepend_bias_column(x, bias)
    }

    /// Row `position` of `x_with_bias`, as a `1 x cols` matrix; the empty row
    /// when the matrix has no column.
    pub fn get_xk_regression(x_with_bias: &Matrix<T>, position: usize) -> (m: Matrix<T>)
        requires
            x_with_bias.wf(),
            position < x_with_bias.rows || x_with_bias.cols == 0,
        ensures
            m.wf(),
            m.rows == 1,
            m.cols == x_with_bias.cols,
            forall|c: int|
                0 <= c < x_with_bias.cols ==> #[trigger] m.data@[c] == x_with_bias.at(
                    position as int,
                    c,
                ),
    {
        if x_with_bias.cols == 0 {
            return Matrix { data: Vec::new(), rows: 1, cols: 0 };
        }
        copy_row(x_with_bias, position)
    }
}

} // verus!
