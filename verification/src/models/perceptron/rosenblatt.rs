use vstd::prelude::*;
use crate::tensor::{lemma_row_major_index, Matrix};
use super::Rosenblatt;

verus! {

/// The label of each sample for a one-vs-rest perceptron: 1 for class `value`,
/// -1 for any other class.
pub open spec fn binary_labels(y: Seq<usize>, value: usize) -> Seq<i32> {
    y.map_values(|c: usize| if c == value { 1i32 } else { -1i32 })
}

/// Cell `(a, c)` of a row-major sequence with rows of width `w`.
pub open spec fn cell<T>(s: Seq<T>, w: int, a: int, c: int) -> T {
    s[a * w + c]
}

/// Cell `(a, c)` of `x` with a leading column of `bias`.
pub open spec fn biased_cell<T>(x: Matrix<T>, bias: T, a: int, c: int) -> T {
    if c == 0 {
        bias
    } else {
        x.at(a, c - 1)
    }
}

/// Builds `x` with a leading column holding `bias` on every row.
pub fn prepend_bias_column<T: Copy>(x: &Matrix<T>, bias: T) -> (m: Matrix<T>)
    requires
        x.wf(),
        x.cols + 1 <= usize::MAX,
    ensures
        m.wf(),
        m.rows == x.rows,
        m.cols == x.cols + 1,
        forall|r: int, c: int|
            0 <= r < x.rows && 0 <= c < x.cols + 1 ==> #[trigger] m.at(r, c) == if c == 0 {
                bias
            } else {
                x.at(r, c - 1)
            },
{
    let rows = x.rows;
    let cols = x.cols;
    let w = cols + 1;
    let mut flat: Vec<T> = Vec::new();
    let mut r: usize = 0;
    while r < rows
        invariant
            x.wf(),
            rows == x.rows,
            cols == x.cols,
            w == cols + 1,
            r <= rows,
            flat@.len() == r * w,
            forall|a: int, c: int|
                0 <= a < r && 0 <= c < w ==> #[trigger] cell(flat@, w as int, a, c) == biased_cell(
                    *x,
                    bias,
                    a,
                    c,
                ),
        decreases rows - r,
    {
        let ghost start = flat@;
        flat.push(bias);
        let mut c: usize = 0;
        while c < cols
            invariant
                x.wf(),
                rows == x.rows,
                cols == x.cols,
                w == cols + 1,
                r < rows,
                c <= cols,
                start.len() == r * w,
                flat@.len() == r * w + 1 + c,
                flat@.subrange(0, r * w) == start,
                flat@[r * w] == bias,
                forall|k: int| 0 <= k < c ==> flat@[r * w + 1 + k] == x.at(r as int, k),
            decreases cols - c,
        {
            proof {
                lemma_row_major_index(r as int, c as int, rows as int, cols as int);
            }
            let v = x.get(r, c);
            flat.push(v);
            c = c + 1;
        }
        proof {
            assert((r + 1) * w == r * w + w) by (nonlinear_arith);
            assert forall|a: int, cc: int|
                0 <= a < r + 1 && 0 <= cc < w implies #[trigger] cell(flat@, w as int, a, cc)
                == biased_cell(*x, bias, a, cc) by {
                if a < r {
                    lemma_row_major_index(a, cc, r as int, w as int);
                    assert(flat@[a * w + cc] == flat@.subrange(0, r * w)[a * w + cc]);
                    assert(cell(start, w as int, a, cc) == biased_cell(*x, bias, a, cc));
                } else if cc > 0 {
                    assert(flat@[r * w + 1 + (cc - 1)] == x.at(r as int, cc - 1));
                }
            }
        }
        r = r + 1;
    }
    proof {
        assert(flat@.len() == rows * w) by (nonlinear_arith)
            requires
                flat@.len() == r * w,
                r == rows,
        ;
    }
    let m = Matrix { data: flat, rows, cols: w };
    proof {
        assert forall|a: int, cc: int|
            0 <= a < x.rows && 0 <= cc < x.cols + 1 implies #[trigger] m.at(a, cc) == if cc == 0 {
                bias
            } else {
                x.at(a, cc - 1)
            } by {
            assert(cell(flat@, w as int, a, cc) == biased_cell(*x, bias, a, cc));
        }
    }
    m
}

/// Copies row `position` of `x` into a `1 x cols` matrix.
pub fn copy_row<T: Copy>(x: &Matrix<T>, position: usize) -> (m: Matrix<T>)
    requires
        x.wf(),
        position < x.rows,
    ensures
        m.wf(),
        m.rows == 1,
        m.cols == x.cols,
        forall|c: int| 0 <= c < x.cols ==> #[trigger] m.data@[c] == x.at(position as int, c),
{
    let cols = x.cols;
    let mut row: Vec<T> = Vec::new();
    let mut c: usize = 0;
    while c < cols
        invariant
            x.wf(),
            cols == x.cols,
            position < x.rows,
            c <= cols,
            row@.len() == c,
            forall|k: int| 0 <= k < c ==> row@[k] == x.at(position as int, k),
        decreases cols - c,
    {
        proof {
            lemma_row_major_index(position as int, c as int, x.rows as int, cols as int);
        }
        row.push(x.get(position, c));
        c = c + 1;
    }
    Matrix { data: row, rows: 1, cols }
}

impl<T: Copy> Rosenblatt<T> {
    /// The weights, bias weight first.
    pub fn get_weight(&mut self) -> (w: &Matrix<T>)
        ensures
            *w == old(self).weights,
            *final(self) == *old(self),
    {
        &self.weights
    }

    /// The constant input fed to the first weight.
    pub fn get_bias(&self) -> (b: T)
        ensures
            b == self.bias,
    {
        self.bias
    }

    /// The step size of the perceptron update.
    pub fn get_learning_rate(&self) -> (r: T)
        ensures
            r == self.learning_rate,
    {
        self.learning_rate
    }

    /// The one-vs-rest labels for class `value`: 1 where `y` is `value`, -1
    /// elsewhere.
    pub fn to_binary_labels(y: &Vec<usize>, value: usize) -> (r: Vec<i32>)
        ensures
            r@ == binary_labels(y@, value),
            r@.len() == y@.len(),
            forall|i: int| 0 <= i < y@.len() ==> (#[trigger] r@[i] == 1) == (y@[i] == value),
            forall|i: int| 0 <= i < y@.len() ==> (#[trigger] r@[i] == -1) == (y@[i] != value),
    {
        let mut new_y: Vec<i32> = Vec::new();
        let n = y.len();
        let mut i: usize = 0;
        while i < n
            invariant
                n == y@.len(),
                i <= n,
                new_y@ == binary_labels(y@.subrange(0, i as int), value),
            decreases n - i,
        {
            if y[i] == value {
                new_y.push(1);
            } else {
                new_y.push(-1);
            }
            i = i + 1;
            assert(new_y@ == binary_labels(y@.subrange(0, i as int), value));
        }
        assert(y@.subrange(0, n as int) == y@);
        new_y
    }

    /// `x` with a first column holding this perceptron's bias input.
    pub fn add_bias_column(&mut self, x: &Matrix<T>) -> (m: Matrix<T>)
        requires
            x.wf(),
            x.cols + 1 <= usize::MAX,
        ensures
            *final(self) == *old(self),
            m.wf(),
            m.rows == x.rows,
            m.cols == x.cols + 1,
            forall|r: int, c: int|
                0 <= r < x.rows && 0 <= c < x.cols + 1 ==> #[trigger] m.at(r, c) == if c == 0 {
                    old(self).bias
                } else {
                    x.at(r, c - 1)
                },
    {
        prepend_bias_column(x, self.bias)
    }

    /// Row `position` of `x_with_bias`, as a `1 x cols` matrix.
    pub fn get_xk(x_with_bias: &Matrix<T>, position: usize) -> (m: Matrix<T>)
        requires
            x_with_bias.wf(),
            position < x_with_bias.rows,
        ensures
            m.wf(),
            m.rows == 1,
            m.cols == x_with_bias.cols,
            forall|c: int|
                0 <= c < x_with_bias.cols ==> #[trigger] m.data@[c] == x_with_bias.at(
                    position as int,
                    c,
                ),
    {
        copy_row(x_with_bias, position)
    }
}

} // verus!
