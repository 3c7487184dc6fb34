//! Confusion matrices of class predictions.
use vstd::prelude::*;
use vstd::arithmetic::power::pow;

verus! {

/// The number of samples among the first `k` whose true label is `t` and whose
/// predicted label is `p`.
pub open spec fn pair_count(labels: Seq<usize>, predictions: Seq<usize>, t: int, p: int, k: int) -> nat
    decreases k,
{
    if k <= 0 {
        0
    } else {
        pair_count(labels, predictions, t, p, k - 1) + if labels[k - 1] == t && predictions[k - 1]
            == p {
            1nat
        } else {
            0nat
        }
    }
}

/// The number of samples among the first `k` whose true label is `t` and whose
/// predicted label is below `n`.
pub open spec fn row_count(labels: Seq<usize>, predictions: Seq<usize>, t: int, n: int, k: int) -> nat
    decreases k,
{
    if k <= 0 {
        0
    } else {
        row_count(labels, predictions, t, n, k - 1) + if labels[k - 1] == t && predictions[k - 1]
            < n {
            1nat
        } else {
            0nat
        }
    }
}

/// The number of samples among the first `k` whose true label is `t`.
pub open spec fn label_count(labels: Seq<usize>, t: int, k: int) -> nat
    decreases k,
{
    if k <= 0 {
        0
    } else {
        label_count(labels, t, k - 1) + if labels[k - 1] == t {
            1nat
        } else {
            0nat
        }
    }
}

/// The sum of the first `n` entries of a row of counts.
pub open spec fn row_sum(row: Seq<usize>, n: int) -> int
    decreases n,
{
    if n <= 0 {
        0
    } else {
        row_sum(row, n - 1) + row[n - 1]
    }
}

/// The sum over `p < np` of `pair_count(.., t, p, k)`.
pub open spec fn pair_count_sum(labels: Seq<usize>, predictions: Seq<usize>, t: int, np: int, k: int) -> int
    decreases np,
{
    if np <= 0 {
        0
    } else {
        pair_count_sum(labels, predictions, t, np - 1, k) + pair_count(labels, predictions, t, np - 1, k)
    }
}

/// A count over the first `k` samples is at most `k`.
pub proof fn lemma_pair_count_bound(labels: Seq<usize>, predictions: Seq<usize>, t: int, p: int, k: int)
    requires
        0 <= k,
    ensures
        pair_count(labels, predictions, t, p, k) <= k,
    decreases k,
{
    if k > 0 {
        lemma_pair_count_bound(labels, predictions, t, p, k - 1);
    }
}

/// Summing the counts of one true label over the predictions below `np`
/// counts the samples of that label predicted below `np`.
proof fn lemma_pair_count_sum(labels: Seq<usize>, predictions: Seq<usize>, t: int, np: int, k: int)
    requires
        0 <= np,
        0 <= k,
    ensures
        pair_count_sum(labels, predictions, t, np, k) == row_count(labels, predictions, t, np, k),
    decreases k, np,
{
    if k > 0 {
        lemma_pair_count_sum(labels, predictions, t, np, k - 1);
        lemma_pair_count_sum_step(labels, predictions, t, np, k);
    } else {
        lemma_pair_count_sum_zero(labels, predictions, t, np);
    }
}

proof fn lemma_pair_count_sum_zero(labels: Seq<usize>, predictions: Seq<usize>, t: int, np: int)
    requires
        0 <= np,
    ensures
        pair_count_sum(labels, predictions, t, np, 0) == 0,
    decreases np,
{
    if np > 0 {
        lemma_pair_count_sum_zero(labels, predictions, t, np - 1);
    }
}

proof fn lemma_pair_count_sum_step(labels: Seq<usize>, predictions: Seq<usize>, t: int, np: int, k: int)
    requires
        0 <= np,
        0 < k,
    ensures
        pair_count_sum(labels, predictions, t, np, k) == pair_count_sum(labels, predictions, t, np, k - 1)
            + if labels[k - 1] == t && predictions[k - 1] < np {
            1int
        } else {
            0int
        },
    decreases np,
{
    if np > 0 {
        lemma_pair_count_sum_step(labels, predictions, t, np - 1, k);
    }
}

/// Law: in the confusion matrix of `predictions` against `labels`, the entries
/// of row `t` add up to the number of samples of true class `t` whose
/// prediction is a class below `n_classes`.
pub proof fn lemma_confusion_row_sum(
    labels: Seq<usize>,
    predictions: Seq<usize>,
    n_classes: int,
    t: int,
    row: Seq<usize>,
)
    requires
        labels.len() == predictions.len(),
        0 <= n_classes,
        row.len() == n_classes,
        forall|p: int|
            0 <= p < n_classes ==> #[trigger] row[p] == pair_count(
                labels,
                predictions,
                t,
                p,
                labels.len() as int,
            ),
    ensures
        row_sum(row, n_classes) == row_count(labels, predictions, t, n_classes, labels.len() as int),
{
    lemma_row_sum_is_pair_count_sum(labels, predictions, t, n_classes, row);
    lemma_pair_count_sum(labels, predictions, t, n_classes, labels.len() as int);
}

proof fn lemma_row_sum_is_pair_count_sum(
    labels: Seq<usize>,
    predictions: Seq<usize>,
    t: int,
    np: int,
    row: Seq<usize>,
)
    requires
        0 <= np <= row.len(),
        forall|p: int|
            0 <= p < row.len() ==> #[trigger] row[p] == pair_count(
                labels,
                predictions,
                t,
                p,
                labels.len() as int,
            ),
    ensures
        row_sum(row, np) == pair_count_sum(labels, predictions, t, np, labels.len() as int),
    decreases np,
{
    if np > 0 {
        lemma_row_sum_is_pair_count_sum(labels, predictions, t, np - 1, row);
        assert(row[np - 1] == pair_count(labels, predictions, t, np - 1, labels.len() as int));
    }
}

/// Law: when every prediction is a class below `n_classes`, the samples of
/// class `t` counted in row `t` are all the samples of class `t`.
pub proof fn lemma_row_count_all_in_range(
    labels: Seq<usize>,
    predictions: Seq<usize>,
    t: int,
    n_classes: int,
    k: int,
)
    requires
        0 <= k <= labels.len(),
        k <= predictions.len(),
        forall|i: int| 0 <= i < predictions.len() ==> #[trigger] predictions[i] < n_classes,
    ensures
        row_count(labels, predictions, t, n_classes, k) == label_count(labels, t, k),
    decreases k,
{
    if k > 0 {
        lemma_row_count_all_in_range(labels, predictions, t, n_classes, k - 1);
        assert(predictions[k - 1] < n_classes);
    }
}

/// Law: when every prediction equals its label, the confusion matrix is
/// diagonal, and its diagonal holds the number of samples of each class.
pub proof fn lemma_perfect_predictions(labels: Seq<usize>, t: int, p: int, k: int)
    requires
        0 <= k <= labels.len(),
    ensures
        t != p ==> pair_count(labels, labels, t, p, k) == 0,
        pair_count(labels, labels, t, t, k) == label_count(labels, t, k),
    decreases k,
{
    if k > 0 {
        lemma_perfect_predictions(labels, t, p, k - 1);
    }
}

/// The confusion matrix of `predictions` against `labels`: entry `[t][p]` is
/// the number of samples of true class `t` predicted as class `p`. Samples with
/// a label or prediction outside `0..n_classes` are left out.
pub fn confusion_matrix(predictions: &[usize], labels: &[usize], n_classes: usize) -> (m: Vec<Vec<usize>>)
    requires
        predictions@.len() == labels@.len(),
    ensures
        m@.len() == n_classes,
        forall|t: int| 0 <= t < n_classes ==> (#[trigger] m@[t])@.len() == n_classes,
        forall|t: int, p: int|
            0 <= t < n_classes && 0 <= p < n_classes ==> #[trigger] m@[t]@[p] == pair_count(
                labels@,
                predictions@,
                t,
                p,
                labels@.len() as int,
            ),
{
    let mut matrix: Vec<Vec<usize>> = Vec::new();
    let mut r: usize = 0;
    while r < n_classes
        invariant
            r <= n_classes,
            matrix@.len() == r,
            forall|t: int| 0 <= t < r ==> (#[trigger] matrix@[t])@.len() == n_classes,
            forall|t: int, p: int| 0 <= t < r && 0 <= p < n_classes ==> #[trigger] matrix@[t]@[p] == 0,
        decreases n_classes - r,
    {
        let mut row: Vec<usize> = Vec::new();
        let mut c: usize = 0;
        while c < n_classes
            invariant
                c <= n_classes,
                row@.len() == c,
                forall|p: int| 0 <= p < c ==> #[trigger] row@[p] == 0,
            decreases n_classes - c,
        {
            row.push(0);
            c = c + 1;
        }
        matrix.push(row);
        r = r + 1;
    }
    let n = predictions.len();
    let mut i: usize = 0;
    while i < n
        invariant
            n == predictions@.len(),
            n == labels@.len(),
            i <= n,
            matrix@.len() == n_classes,
            forall|t: int| 0 <= t < n_classes ==> (#[trigger] matrix@[t])@.len() == n_classes,
            forall|t: int, p: int|
                0 <= t < n_classes && 0 <= p < n_classes ==> #[trigger] matrix@[t]@[p] == pair_count(
                    labels@,
                    predictions@,
                    t,
                    p,
                    i as int,
                ),
        decreases n - i,
    {
        let true_label = labels[i];
        let predicted_label = predictions[i];
        if true_label < n_classes && predicted_label < n_classes {
            proof {
                lemma_pair_count_bound(labels@, predictions@, true_label as int, predicted_label as int, i as int);
            }
            let ghost before = matrix@;
            let mut row: Vec<usize> = Vec::new();
            std::mem::swap(&mut matrix[true_label], &mut row);
            let v = row[predicted_label];
            row[predicted_label] = v + 1;
            matrix[true_label] = row;
            proof {
                assert forall|t: int, p: int|
                    0 <= t < n_classes && 0 <= p < n_classes implies #[trigger] matrix@[t]@[p]
                    == pair_count(labels@, predictions@, t, p, i + 1) by {
                    if t != true_label {
                        assert(matrix@[t] == before[t]);
                    }
                }
                assert forall|t: int| 0 <= t < n_classes implies (#[trigger] matrix@[t])@.len()
                    == n_classes by {
                    if t != true_label {
                        assert(matrix@[t] == before[t]);
                    }
                }
            }
        }
        i = i + 1;
    }
    matrix
}

/// The number of decimal digits of `n` (one for zero).
pub open spec fn decimal_len(n: nat) -> nat
    decreases n,
{
    if n < 10 {
        1
    } else {
        1 + decimal_len(n / 10)
    }
}

/// The largest of the first `k` entries of `row` (zero if there is none).
pub open spec fn row_max(row: Seq<usize>, k: int) -> nat
    decreases k,
{
    if k <= 0 {
        0
    } else {
        let m = row_max(row, k - 1);
        if row[k - 1] > m {
            row[k - 1] as nat
        } else {
            m
        }
    }
}

/// The largest entry of the first `k` rows of `matrix` (zero if there is none).
pub open spec fn matrix_max(matrix: Seq<Seq<usize>>, k: int) -> nat
    decreases k,
{
    if k <= 0 {
        0
    } else {
        let m = matrix_max(matrix, k - 1);
        let r = row_max(matrix[k - 1], matrix[k - 1].len() as int);
        if r > m {
            r
        } else {
            m
        }
    }
}

/// The longest UTF-8 length among the first `k` names (zero if there is none).
pub open spec fn name_width(names: Seq<Seq<char>>, k: int) -> nat
    decreases k,
{
    if k <= 0 {
        0
    } else {
        let m = name_width(names, k - 1);
        let l = vstd::utf8::encode_utf8(names[k - 1]).len();
        if l > m {
            l
        } else {
            m
        }
    }
}

/// The width of the column of row labels ("true <name>") of a printed
/// confusion matrix.
pub open spec fn label_column_width(names: Seq<Seq<char>>) -> nat {
    name_width(names, names.len() as int) + 5
}

/// The width of every count column ("pred <name>") of a printed confusion
/// matrix: wide enough for each header and, with two spaces, for the largest
/// count.
pub open spec fn count_column_width(matrix: Seq<Seq<usize>>, names: Seq<Seq<char>>) -> nat {
    let counts = decimal_len(matrix_max(matrix, matrix.len() as int)) + 2;
    if names.len() > 0 && name_width(names, names.len() as int) + 5 > counts {
        name_width(names, names.len() as int) + 5
    } else {
        counts
    }
}

/// Law: `decimal_len(n)` is the number of decimal digits of `n`: one for
/// zero, and otherwise the `d` with `10^(d-1) <= n < 10^d`.
pub proof fn lemma_decimal_len_digits(n: nat)
    ensures
        decimal_len(0) == 1,
        n >= 1 ==> pow(10, (decimal_len(n) - 1) as nat) <= n,
        n < pow(10, decimal_len(n)),
    decreases n,
{
    reveal(pow);
    if n >= 10 {
        lemma_decimal_len_digits(n / 10);
        let d = decimal_len(n / 10);
        assert(decimal_len(n) == d + 1);
        assert(pow(10, d) == 10 * pow(10, (d - 1) as nat)) by {
            reveal(pow);
        }
        assert(pow(10, d + 1) == 10 * pow(10, d)) by {
            reveal(pow);
        }
        assert(pow(10, d) <= n) by (nonlinear_arith)
            requires
                pow(10, d) == 10 * pow(10, (d - 1) as nat),
                pow(10, (d - 1) as nat) <= n / 10,
        ;
        assert(n < pow(10, d + 1)) by (nonlinear_arith)
            requires
                pow(10, d + 1) == 10 * pow(10, d),
                n / 10 < pow(10, d),
                n >= 10,
        ;
        assert((decimal_len(n) - 1) as nat == d);
    } else {
        assert(pow(10, 0) == 1) by {
            reveal(pow);
        }
        assert(pow(10, 1) == 10) by {
            reveal(pow);
        }
    }
}

/// Law: the largest of the first `k` entries of a row is at least each of
/// them and, where there is any, one of them.
pub proof fn lemma_row_max_is_max(row: Seq<usize>, k: int)
    requires
        0 <= k <= row.len(),
    ensures
        forall|i: int| 0 <= i < k ==> #[trigger] row[i] <= row_max(row, k),
        k > 0 ==> exists|i: int| 0 <= i < k && #[trigger] row[i] == row_max(row, k),
    decreases k,
{
    if k > 0 {
        lemma_row_max_is_max(row, k - 1);
        if k > 1 && row[k - 1] <= row_max(row, k - 1) {
            let i = choose|i: int| 0 <= i < k - 1 && #[trigger] row[i] == row_max(row, k - 1);
            assert(row[i] == row_max(row, k));
        } else {
            assert(row[k - 1] == row_max(row, k));
        }
    }
}

/// Law: the largest entry of the first `k` rows is at least each entry of
/// them.
pub proof fn lemma_matrix_max_bounds(matrix: Seq<Seq<usize>>, k: int)
    requires
        0 <= k <= matrix.len(),
    ensures
        forall|r: int, i: int|
            0 <= r < k && 0 <= i < matrix[r].len() ==> #[trigger] matrix[r][i] <= matrix_max(matrix, k),
    decreases k,
{
    if k > 0 {
        lemma_matrix_max_bounds(matrix, k - 1);
        lemma_row_max_is_max(matrix[k - 1], matrix[k - 1].len() as int);
    }
}

/// Law: the widest of the first `k` names is at least as wide as each of them
/// and, where there is any, as wide as one of them.
pub proof fn lemma_name_width_is_max(names: Seq<Seq<char>>, k: int)
    requires
        0 <= k <= names.len(),
    ensures
        forall|i: int|
            0 <= i < k ==> #[trigger] vstd::utf8::encode_utf8(names[i]).len() <= name_width(names, k),
        k > 0 ==> exists|i: int|
            0 <= i < k && #[trigger] vstd::utf8::encode_utf8(names[i]).len() == name_width(names, k),
    decreases k,
{
    if k > 0 {
        lemma_name_width_is_max(names, k - 1);
        if k > 1 && vstd::utf8::encode_utf8(names[k - 1]).len() <= name_width(names, k - 1) {
            let i = choose|i: int|
                0 <= i < k - 1 && #[trigger] vstd::utf8::encode_utf8(names[i]).len() == name_width(
                    names,
                    k - 1,
                );
            assert(vstd::utf8::encode_utf8(names[i]).len() == name_width(names, k));
        }
    }
}

/// A positive number has at most as many digits as its value.
proof fn lemma_decimal_len_bound(n: nat)
    ensures
        1 <= decimal_len(n),
        n >= 1 ==> decimal_len(n) <= n,
    decreases n,
{
    if n >= 10 {
        lemma_decimal_len_bound(n / 10);
    }
}

/// A larger number has at least as many digits.
proof fn lemma_decimal_len_mono(a: nat, b: nat)
    requires
        a <= b,
    ensures
        decimal_len(a) <= decimal_len(b),
    decreases b,
{
    if a >= 10 {
        lemma_decimal_len_mono(a / 10, b / 10);
    }
}

/// A `usize` has at most twenty decimal digits.
proof fn lemma_decimal_len_usize(n: usize)
    ensures
        decimal_len(n as nat) <= 20,
{
    lemma_decimal_len_mono(n as nat, 18446744073709551615nat);
    assert(decimal_len(18446744073709551615nat) == 20) by {
        reveal_with_fuel(decimal_len, 21);
    }
}

/// The number of decimal digits of `n`.
fn decimal_digits(n: usize) -> (d: usize)
    ensures
        d == decimal_len(n as nat),
{
    proof {
        lemma_decimal_len_usize(n);
    }
    let mut v = n;
    let mut d: usize = 1;
    while v >= 10
        invariant
            d + decimal_len(v as nat) == 1 + decimal_len(n as nat),
            decimal_len(n as nat) <= 20,
        decreases v,
    {
        proof {
            lemma_decimal_len_bound((v / 10) as nat);
        }
        v = v / 10;
        d = d + 1;
    }
    d
}

/// The column widths `(label column, count columns)` with which a confusion
/// matrix of `class_names` is printed as a right-aligned table.
pub fn confusion_column_widths(matrix: &[Vec<usize>], class_names: &[String]) -> (w: (usize, usize))
    requires
        forall|i: int|
            0 <= i < class_names@.len() ==> vstd::utf8::encode_utf8((#[trigger] class_names@[i])@).len() + 5
                <= usize::MAX,
    ensures
        w.0 == label_column_width(class_names@.map_values(|s: String| s@)),
        w.1 == count_column_width(matrix@.map_values(|r: Vec<usize>| r@), class_names@.map_values(|s: String| s@)),
{
    let ghost names = class_names@.map_values(|s: String| s@);
    let ghost rows = matrix@.map_values(|r: Vec<usize>| r@);
    let mut widest: usize = 0;
    let n = class_names.len();
    let mut i: usize = 0;
    while i < n
        invariant
            n == class_names@.len(),
            names == class_names@.map_values(|s: String| s@),
            i <= n,
            widest == name_width(names, i as int),
            i > 0 ==> exists|k: int| 0 <= k < i && widest == vstd::utf8::encode_utf8(#[trigger] names[k]).len(),
            i == 0 ==> widest == 0,
            forall|k: int|
                0 <= k < n ==> vstd::utf8::encode_utf8((#[trigger] class_names@[k])@).len() + 5 <= usize::MAX,
        decreases n - i,
    {
        let len = class_names[i].as_str().as_bytes().len();
        if len > widest {
            widest = len;
        }
        assert(names[i as int] == class_names@[i as int]@);
        i = i + 1;
    }
    let mut largest: usize = 0;
    let m = matrix.len();
    let mut r: usize = 0;
    while r < m
        invariant
            m == matrix@.len(),
            rows == matrix@.map_values(|r: Vec<usize>| r@),
            r <= m,
            largest == matrix_max(rows, r as int),
        decreases m - r,
    {
        let row = &matrix[r];
        assert(rows[r as int] == row@);
        let mut row_largest: usize = 0;
        let c_n = row.len();
        let mut c: usize = 0;
        while c < c_n
            invariant
                c_n == row@.len(),
                c <= c_n,
                row_largest == row_max(row@, c as int),
            decreases c_n - c,
        {
            if row[c] > row_largest {
                row_largest = row[c];
            }
            c = c + 1;
        }
        if row_largest > largest {
            largest = row_largest;
        }
        r = r + 1;
    }
    let digits = decimal_digits(largest);
    proof {
        lemma_decimal_len_usize(largest);
    }
    let label_width = widest + 5;
    let mut col_width: usize = if n > 0 {
        widest + 5
    } else {
        0
    };
    if digits + 2 > col_width {
        col_width = digits + 2;
    }
    (label_width, col_width)
}

} // verus!
