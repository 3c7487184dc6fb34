use vstd::prelude::*;

verus! {

/// A dense row-major matrix of `rows * cols` elements.
#[derive(Debug, Clone)]
pub struct Matrix<T> {
    pub data: Vec<T>,
    pub rows: usize,
    pub cols: usize,
}

/// The mathematical content of a matrix: its shape and its elements in
/// row-major order.
pub struct MatrixV<T> {
    pub rows: nat,
    pub cols: nat,
    pub data: Seq<T>,
}

impl<T> MatrixV<T> {
    /// The element count matches the shape.
    pub open spec fn wf(self) -> bool {
        self.data.len() == self.rows * self.cols
    }
}

impl<T> View for Matrix<T> {
    type V = MatrixV<T>;

    open spec fn view(&self) -> MatrixV<T> {
        MatrixV { rows: self.rows as nat, cols: self.cols as nat, data: self.data@ }
    }
}

impl<T> Matrix<T> {
    /// The matrix holds exactly `rows * cols` elements.
    pub open spec fn wf(&self) -> bool {
        self.data@.len() == self.rows * self.cols
    }

    /// Element `(r, c)` of the row-major layout.
    pub open spec fn at(&self, r: int, c: int) -> T {
        self.data@[r * self.cols + c]
    }
}

impl<T: Copy> Matrix<T> {
    /// Wraps `data` as a `rows x cols` matrix.
    pub fn from_vec(data: Vec<T>, rows: usize, cols: usize) -> (m: Self)
        requires
            data@.len() == rows * cols,
        ensures
            m.wf(),
            m.data@ == data@,
            m.rows == rows,
            m.cols == cols,
    {
        Matrix { data, rows, cols }
    }

    /// Reads element `(row, col)`.
    pub fn get(&self, row: usize, col: usize) -> (v: T)
        requires
            row * self.cols + col < self.data@.len(),
        ensures
            v == self.data@[row * self.cols + col],
    {
        let len = self.data.len();
        proof {
            assert(0 <= row * self.cols) by (nonlinear_arith);
            assert(row * self.cols + col < len);
        }
        self.data[row * self.cols + col]
    }

    /// Overwrites element `(row, col)` with `val`.
    pub fn set(&mut self, row: usize, col: usize, val: T)
        requires
            row * old(self).cols + col < old(self).data@.len(),
        ensures
            final(self).rows == old(self).rows,
            final(self).cols == old(self).cols,
            final(self).data@ == old(self).data@.update(row * old(self).cols + col, val),
    {
        let len = self.data.len();
        proof {
            assert(0 <= row * self.cols) by (nonlinear_arith);
            assert(row * self.cols + col < len);
        }
        let idx = row * self.cols + col;
        self.data[idx] = val;
    }
}

impl<T: Copy + Default> Matrix<T> {
    /// A `rows x cols` matrix whose every element is `T::default()` (zero for
    /// numbers).
    pub fn zeros(rows: usize, cols: usize) -> (m: Self)
        requires
            rows * cols <= usize::MAX,
        ensures
            m.wf(),
            m.rows == rows,
            m.cols == cols,
            forall|i: int| 0 <= i < rows * cols ==> call_ensures(T::default, (), #[trigger] m.data@[i]),
    {
        let z = T::default();
        let n = rows * cols;
        let mut data: Vec<T> = Vec::new();
        let mut i: usize = 0;
        while i < n
            invariant
                i <= n,
                data@.len() == i,
                call_ensures(T::default, (), z),
                forall|k: int| 0 <= k < i ==> #[trigger] data@[k] == z,
            decreases n - i,
        {
            data.push(z);
            i = i + 1;
        }
        Matrix { data, rows, cols }
    }
}

/// Row-major indices of a `rows x cols` grid stay inside the grid, and the
/// cells of earlier rows come before those of later rows.
pub proof fn lemma_row_major_index(a: int, b: int, rows: int, cols: int)
    requires
        0 <= a < rows,
        0 <= b < cols,
    ensures
        0 <= a * cols + b < rows * cols,
        a * cols + b < (a + 1) * cols,
        a * cols <= a * cols + b,
{
    assert(0 <= a * cols) by (nonlinear_arith)
        requires
            0 <= a,
            0 <= cols,
    ;
    assert((a + 1) * cols <= rows * cols) by (nonlinear_arith)
        requires
            a + 1 <= rows,
            0 <= cols,
    ;
    assert((a + 1) * cols == a * cols + cols) by (nonlinear_arith);
}

impl<T: Copy> Matrix<T> {
    /// The transposed matrix: element `(j, i)` of the result is element `(i, j)`
    /// of `self`.
    pub fn transpose(&self) -> (t: Matrix<T>)
        requires
            self.wf(),
        ensures
            t.wf(),
            t.rows == self.cols,
            t.cols == self.rows,
            forall|j: int, i: int|
                0 <= j < self.cols && 0 <= i < self.rows ==> #[trigger] t.at(j, i) == self.at(i, j),
    {
        let rows = self.rows;
        let cols = self.cols;
        let mut out: Vec<T> = Vec::new();
        let mut j: usize = 0;
        while j < cols
            invariant
                self.wf(),
                rows == self.rows,
                cols == self.cols,
                j <= cols,
                out@.len() == j * rows,
                forall|a: int, b: int|
                    0 <= a < j && 0 <= b < rows ==> out@[a * rows + b] == self.at(b, a),
            decreases cols - j,
        {
            let mut i: usize = 0;
            proof {
                assert((j + 1) * rows == j * rows + rows) by (nonlinear_arith);
            }
            while i < rows
                invariant
                    self.wf(),
                    rows == self.rows,
                    cols == self.cols,
                    j < cols,
                    i <= rows,
                    out@.len() == j * rows + i,
                    forall|a: int, b: int|
                        0 <= a < j && 0 <= b < rows ==> out@[a * rows + b] == self.at(b, a),
                    forall|b: int| 0 <= b < i ==> out@[j * rows + b] == self.at(b, j as int),
                decreases rows - i,
            {
                proof {
                    lemma_row_major_index(i as int, j as int, rows as int, cols as int);
                }
                let v = self.get(i, j);
                let ghost before = out@;
                out.push(v);
                proof {
                    assert forall|a: int, b: int|
                        0 <= a < j && 0 <= b < rows implies out@[a * rows + b] == self.at(b, a) by {
                        lemma_row_major_index(a, b, j as int, rows as int);
                        assert(out@[a * rows + b] == before[a * rows + b]);
                    }
                }
                i = i + 1;
            }
            proof {
                assert((j + 1) * rows == j * rows + rows) by (nonlinear_arith);
                assert forall|a: int, b: int|
                    0 <= a < j + 1 && 0 <= b < rows implies out@[a * rows + b] == self.at(b, a) by {
                    if a == j {
                    } else {
                    }
                }
            }
            j = j + 1;
        }
        proof {
            assert(out@.len() == rows * cols) by (nonlinear_arith)
                requires
                    out@.len() == j * rows,
                    j == cols,
            ;
        }
        let t = Matrix { data: out, rows: cols, cols: rows };
        proof {
            assert forall|jj: int, ii: int|
                0 <= jj < self.cols && 0 <= ii < self.rows implies #[trigger] t.at(jj, ii) == self.at(ii, jj) by {
            }
        }
        t
    }

    /// Applies `f` to every element, keeping the shape.
    pub fn map<F: Fn(T) -> T>(&self, f: F) -> (m: Matrix<T>)
        requires
            forall|x: T| #[trigger] f.requires((x,)),
        ensures
            m.rows == self.rows,
            m.cols == self.cols,
            m.data@.len() == self.data@.len(),
            forall|i: int| 0 <= i < self.data@.len() ==> f.ensures((self.data@[i],), #[trigger] m.data@[i]),
    {
        let mut out: Vec<T> = Vec::new();
        let n = self.data.len();
        let mut i: usize = 0;
        while i < n
            invariant
                n == self.data@.len(),
                i <= n,
                out@.len() == i,
                forall|x: T| #[trigger] f.requires((x,)),
                forall|k: int| 0 <= k < i ==> f.ensures((self.data@[k],), #[trigger] out@[k]),
            decreases n - i,
        {
            let v = f(self.data[i]);
            out.push(v);
            i = i + 1;
        }
        Matrix { data: out, rows: self.rows, cols: self.cols }
    }
}

} // verus!
