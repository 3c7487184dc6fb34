//! Stratified train/test split of a dataset.
use vstd::prelude::*;
use crate::tensor::{lemma_row_major_index, Matrix, MatrixV};
use crate::training::shuffle::{fy_spec, is_permutation, shuffled_indices, valid_draws};
use super::Dataset;

verus! {

/// The indices, in increasing order, of the samples among the first `k` whose
/// label is `c`.
pub open spec fn class_indices(labels: Seq<usize>, c: int, k: int) -> Seq<usize>
    decreases k,
{
    if k <= 0 {
        Seq::empty()
    } else if labels[k - 1] == c {
        class_indices(labels, c, k - 1).push((k - 1) as usize)
    } else {
        class_indices(labels, c, k - 1)
    }
}

/// The number of samples of class `c`.
pub open spec fn class_size(labels: Seq<usize>, c: int) -> nat {
    class_indices(labels, c, labels.len() as int).len()
}

/// How many samples of class `c` go to the test part when `counts[c]` are
/// asked for: all of them if the class has fewer.
pub open spec fn test_share(labels: Seq<usize>, counts: Seq<usize>, c: int) -> nat {
    if counts[c] <= class_size(labels, c) {
        counts[c] as nat
    } else {
        class_size(labels, c)
    }
}

/// The labels of the test part: for each class in turn, its test share of
/// copies of the class.
pub open spec fn split_test_labels(labels: Seq<usize>, counts: Seq<usize>, c: int) -> Seq<usize>
    decreases c,
{
    if c <= 0 {
        Seq::empty()
    } else {
        split_test_labels(labels, counts, c - 1) + Seq::new(
            test_share(labels, counts, c - 1),
            |q: int| (c - 1) as usize,
        )
    }
}

/// The labels of the training part: for each class in turn, the rest of its
/// samples.
pub open spec fn split_train_labels(labels: Seq<usize>, counts: Seq<usize>, c: int) -> Seq<usize>
    decreases c,
{
    if c <= 0 {
        Seq::empty()
    } else {
        split_train_labels(labels, counts, c - 1) + Seq::new(
            (class_size(labels, c - 1) - test_share(labels, counts, c - 1)) as nat,
            |q: int| (c - 1) as usize,
        )
    }
}

/// The rows `idx` of `x`, one after the other.
pub open spec fn gather_rows<T>(x: MatrixV<T>, idx: Seq<usize>) -> Seq<T>
    decreases idx.len(),
{
    if idx.len() == 0 {
        Seq::empty()
    } else {
        gather_rows(x, idx.drop_last()) + x.data.subrange(
            idx.last() * x.cols,
            idx.last() * x.cols + x.cols,
        )
    }
}

/// `part` holds, in order, the samples of `whole` at `idx`: their features and
/// their labels.
pub open spec fn holds_samples<T>(whole: Dataset<T>, part: Dataset<T>, idx: Seq<usize>) -> bool {
    &&& idx.len() == part.labels@.len()
    &&& part.x.rows == idx.len()
    &&& part.x.cols == whole.x.cols
    &&& part.x.wf()
    &&& forall|k: int| 0 <= k < idx.len() ==> #[trigger] part.labels@[k] == whole.labels@[idx[k] as int]
    &&& forall|k: int, c: int|
        0 <= k < idx.len() && 0 <= c < whole.x.cols ==> #[trigger] part.x.at(k, c) == whole.x.at(
            idx[k] as int,
            c,
        )
}

/// `s` lists every index below `n` exactly once.
pub open spec fn covers_each_once(s: Seq<usize>, n: nat) -> bool {
    &&& s.no_duplicates()
    &&& forall|j: int| 0 <= j < s.len() ==> #[trigger] s[j] < n
    &&& forall|i: usize| i < n ==> #[trigger] s.contains(i)
}

/// The indices of class `c` are increasing, each of class `c`, and every
/// sample of class `c` among the first `k` is listed.
pub proof fn lemma_class_indices(labels: Seq<usize>, c: int, k: int)
    requires
        0 <= k <= labels.len(),
        labels.len() <= usize::MAX,
    ensures
        forall|a: int, b: int|
            0 <= a < b < class_indices(labels, c, k).len() ==> #[trigger] class_indices(labels, c, k)[a]
                < #[trigger] class_indices(labels, c, k)[b],
        forall|a: int|
            0 <= a < class_indices(labels, c, k).len() ==> #[trigger] class_indices(labels, c, k)[a]
                < k && labels[class_indices(labels, c, k)[a] as int] == c,
        forall|i: usize| i < k && labels[i as int] == c ==> #[trigger] class_indices(labels, c, k).contains(i),
        class_indices(labels, c, k).len() <= k,
    decreases k,
{
    if k > 0 {
        lemma_class_indices(labels, c, k - 1);
        let prev = class_indices(labels, c, k - 1);
        if labels[k - 1] == c {
            let cur = prev.push((k - 1) as usize);
            assert(class_indices(labels, c, k) == cur);
            assert forall|a: int, b: int| 0 <= a < b < cur.len() implies #[trigger] cur[a] < #[trigger] cur[b] by {
                assert(cur[a] == prev[a]);
                if b < prev.len() {
                    assert(cur[b] == prev[b]);
                }
            }
            assert forall|a: int| 0 <= a < cur.len() implies #[trigger] cur[a] < k && labels[cur[a] as int] == c by {
                if a < prev.len() {
                    assert(cur[a] == prev[a]);
                }
            }
            assert forall|i: usize| i < k && labels[i as int] == c implies #[trigger] cur.contains(i) by {
                if i == k - 1 {
                    assert(cur[prev.len() as int] == i);
                } else {
                    assert(prev.contains(i));
                    let j = choose|j: int| 0 <= j < prev.len() && prev[j] == i;
                    assert(cur[j] == i);
                }
            }
        } else {
            assert forall|i: usize| i < k && labels[i as int] == c implies #[trigger] prev.contains(
                i,
            ) by {
                assert(i < k - 1);
            }
        }
    }
}

/// The class sizes over the classes below `nc`, added up.
pub open spec fn sizes_below(labels: Seq<usize>, nc: int, k: int) -> int
    decreases nc,
{
    if nc <= 0 {
        0
    } else {
        sizes_below(labels, nc - 1, k) + class_indices(labels, nc - 1, k).len()
    }
}

/// The number of samples among the first `k` whose label is below `nc`.
pub open spec fn count_below(labels: Seq<usize>, nc: int, k: int) -> int
    decreases k,
{
    if k <= 0 {
        0
    } else {
        count_below(labels, nc, k - 1) + if labels[k - 1] < nc {
            1int
        } else {
            0int
        }
    }
}

proof fn lemma_sizes_below_step(labels: Seq<usize>, nc: int, k: int)
    requires
        0 <= nc,
        0 < k <= labels.len(),
    ensures
        sizes_below(labels, nc, k) == sizes_below(labels, nc, k - 1) + if labels[k - 1] < nc {
            1int
        } else {
            0int
        },
    decreases nc,
{
    if nc > 0 {
        lemma_sizes_below_step(labels, nc - 1, k);
    }
}

proof fn lemma_sizes_below_zero(labels: Seq<usize>, nc: int)
    requires
        0 <= nc,
    ensures
        sizes_below(labels, nc, 0) == 0,
    decreases nc,
{
    if nc > 0 {
        lemma_sizes_below_zero(labels, nc - 1);
    }
}

/// The class sizes add up to the number of samples whose label is a class.
pub proof fn lemma_sizes_below_count(labels: Seq<usize>, nc: int, k: int)
    requires
        0 <= nc,
        0 <= k <= labels.len(),
    ensures
        sizes_below(labels, nc, k) == count_below(labels, nc, k),
    decreases k,
{
    if k > 0 {
        lemma_sizes_below_count(labels, nc, k - 1);
        lemma_sizes_below_step(labels, nc, k);
    } else {
        lemma_sizes_below_zero(labels, nc);
    }
}

/// When every label is a class, every sample is counted.
pub proof fn lemma_count_below_all(labels: Seq<usize>, nc: int, k: int)
    requires
        0 <= k <= labels.len(),
        forall|i: int| 0 <= i < labels.len() ==> #[trigger] labels[i] < nc,
    ensures
        count_below(labels, nc, k) == k,
    decreases k,
{
    if k > 0 {
        lemma_count_below_all(labels, nc, k - 1);
        assert(labels[k - 1] < nc);
    }
}

/// The lists of sample indices of each class.
fn class_index_lists(labels: &Vec<usize>, n_classes: usize) -> (r: Vec<Vec<usize>>)
    requires
        forall|i: int| 0 <= i < labels@.len() ==> #[trigger] labels@[i] < n_classes,
    ensures
        r@.len() == n_classes,
        forall|c: int| 0 <= c < n_classes ==> (#[trigger] r@[c])@ == class_indices(
            labels@,
            c,
            labels@.len() as int,
        ),
{
    let mut lists: Vec<Vec<usize>> = Vec::new();
    let mut c: usize = 0;
    while c < n_classes
        invariant
            c <= n_classes,
            lists@.len() == c,
            forall|d: int| 0 <= d < c ==> (#[trigger] lists@[d])@ == class_indices(labels@, d, 0),
        decreases n_classes - c,
    {
        lists.push(Vec::new());
        c = c + 1;
    }
    let n = labels.len();
    let mut i: usize = 0;
    while i < n
        invariant
            n == labels@.len(),
            i <= n,
            lists@.len() == n_classes,
            forall|j: int| 0 <= j < labels@.len() ==> #[trigger] labels@[j] < n_classes,
            forall|d: int| 0 <= d < n_classes ==> (#[trigger] lists@[d])@ == class_indices(
                labels@,
                d,
                i as int,
            ),
        decreases n - i,
    {
        let label = labels[i];
        let ghost before = lists@;
        let mut bucket: Vec<usize> = Vec::new();
        std::mem::swap(&mut lists[label], &mut bucket);
        bucket.push(i);
        lists[label] = bucket;
        proof {
            assert forall|d: int| 0 <= d < n_classes implies (#[trigger] lists@[d])@ == class_indices(
                labels@,
                d,
                i + 1,
            ) by {
                if d != label {
                    assert(lists@[d] == before[d]);
                }
            }
        }
        i = i + 1;
    }
    lists
}

/// The gathered rows hold, at row `k`, row `idx[k]` of `x`.
pub proof fn lemma_gather_rows<T>(x: MatrixV<T>, idx: Seq<usize>)
    requires
        x.wf(),
        forall|j: int| 0 <= j < idx.len() ==> #[trigger] idx[j] < x.rows,
    ensures
        gather_rows(x, idx).len() == idx.len() * x.cols,
        forall|k: int, c: int|
            0 <= k < idx.len() && 0 <= c < x.cols ==> #[trigger] gather_rows(x, idx)[k * x.cols + c]
                == x.data[idx[k] * x.cols + c],
    decreases idx.len(),
{
    if idx.len() > 0 {
        let front = idx.drop_last();
        let cols = x.cols as int;
        let len = idx.len() as int;
        assert forall|j: int| 0 <= j < front.len() implies #[trigger] front[j] < x.rows by {
            assert(front[j] == idx[j]);
        }
        lemma_gather_rows(x, front);
        let last = idx.last() as int;
        assert(idx[len - 1] < x.rows);
        assert(last * cols + cols <= x.rows * cols) by (nonlinear_arith)
            requires
                last < x.rows,
                0 <= cols,
        ;
        assert(0 <= last * cols) by (nonlinear_arith)
            requires
                0 <= last,
                0 <= cols,
        ;
        assert(len * cols == (len - 1) * cols + cols) by (nonlinear_arith);
        let g = gather_rows(x, idx);
        let gf = gather_rows(x, front);
        assert forall|k: int, c: int|
            0 <= k < idx.len() && 0 <= c < x.cols implies #[trigger] gather_rows(x, idx)[k * x.cols + c]
            == x.data[idx[k] * x.cols + c] by {
            if k < len - 1 {
                lemma_row_major_index(k, c, len - 1, cols);
                assert(front[k] == idx[k]);
                assert(g[k * cols + c] == gf[k * cols + c]);
            } else {
                assert(k * cols + c == (len - 1) * cols + c);
            }
        }
    }
}

/// The samples picked for positions `lo..hi` of a class when its index list
/// `cls` is visited in the order `order`.
pub open spec fn picked(cls: Seq<usize>, order: Seq<usize>, lo: int, hi: int) -> Seq<usize> {
    Seq::new((hi - lo) as nat, |q: int| cls[order[lo + q] as int])
}

/// The samples used so far by a split that has handled the classes below `c`:
/// each one below `n` with a label below `c`, none used twice, and every sample
/// with a label below `c` used.
pub open spec fn split_state(labels: Seq<usize>, n: nat, c: int, ti: Seq<usize>, tr: Seq<usize>) -> bool {
    &&& forall|j: int| 0 <= j < ti.len() ==> #[trigger] ti[j] < n && labels[ti[j] as int] < c
    &&& forall|j: int| 0 <= j < tr.len() ==> #[trigger] tr[j] < n && labels[tr[j] as int] < c
    &&& ti.no_duplicates()
    &&& tr.no_duplicates()
    &&& forall|a: int, b: int| 0 <= a < ti.len() && 0 <= b < tr.len() ==> ti[a] != tr[b]
    &&& forall|i: int|
        0 <= i < n && #[trigger] labels[i] < c ==> ti.contains(i as usize) || tr.contains(i as usize)
}

/// Handling class `c` keeps the split state: its first `t` samples in visiting
/// order go to the test part, the others to the training part.
proof fn lemma_split_class_step(
    labels: Seq<usize>,
    c: int,
    ti: Seq<usize>,
    tr: Seq<usize>,
    cls: Seq<usize>,
    order: Seq<usize>,
    t: int,
)
    requires
        labels.len() <= usize::MAX,
        0 <= c,
        split_state(labels, labels.len(), c, ti, tr),
        cls == class_indices(labels, c, labels.len() as int),
        is_permutation(order, cls.len()),
        0 <= t <= cls.len(),
    ensures
        split_state(
            labels,
            labels.len(),
            c + 1,
            ti + picked(cls, order, 0, t),
            tr + picked(cls, order, t, cls.len() as int),
        ),
{
    let n = labels.len();
    let m = cls.len() as int;
    let a = picked(cls, order, 0, t);
    let b = picked(cls, order, t, m);
    let ti2 = ti + a;
    let tr2 = tr + b;
    lemma_class_indices(labels, c, n as int);
    assert forall|q: int| 0 <= q < m implies #[trigger] cls[order[q] as int] < n && labels[cls[order[q] as int] as int] == c by {
        assert(order[q] < m);
    }
    assert forall|q1: int, q2: int| 0 <= q1 < m && 0 <= q2 < m && q1 != q2 implies cls[order[q1] as int]
        != cls[order[q2] as int] by {
        assert(order[q1] != order[q2]);
        if order[q1] < order[q2] {
            assert(cls[order[q1] as int] < cls[order[q2] as int]);
        } else {
            assert(cls[order[q2] as int] < cls[order[q1] as int]);
        }
    }
    assert forall|j: int| 0 <= j < ti2.len() implies #[trigger] ti2[j] < n && labels[ti2[j] as int] < c + 1 by {
        if j >= ti.len() {
            assert(ti2[j] == cls[order[j - ti.len()] as int]);
        }
    }
    assert forall|j: int| 0 <= j < tr2.len() implies #[trigger] tr2[j] < n && labels[tr2[j] as int] < c + 1 by {
        if j >= tr.len() {
            assert(tr2[j] == cls[order[t + (j - tr.len())] as int]);
        }
    }
    assert(a.no_duplicates()) by {
        assert forall|i: int, j: int| 0 <= i < a.len() && 0 <= j < a.len() && i != j implies a[i] != a[j] by {
            assert(a[i] == cls[order[i] as int]);
            assert(a[j] == cls[order[j] as int]);
        }
    }
    assert(b.no_duplicates()) by {
        assert forall|i: int, j: int| 0 <= i < b.len() && 0 <= j < b.len() && i != j implies b[i] != b[j] by {
            assert(b[i] == cls[order[t + i] as int]);
            assert(b[j] == cls[order[t + j] as int]);
        }
    }
    assert forall|i: int, j: int| 0 <= i < ti.len() && 0 <= j < a.len() implies ti[i] != a[j] by {
        assert(a[j] == cls[order[j] as int]);
        assert(labels[ti[i] as int] < c);
    }
    vstd::seq_lib::lemma_no_dup_in_concat(ti, a);
    assert forall|i: int, j: int| 0 <= i < tr.len() && 0 <= j < b.len() implies tr[i] != b[j] by {
        assert(b[j] == cls[order[t + j] as int]);
        assert(labels[tr[i] as int] < c);
    }
    vstd::seq_lib::lemma_no_dup_in_concat(tr, b);
    assert forall|x: int, y: int| 0 <= x < ti2.len() && 0 <= y < tr2.len() implies ti2[x] != tr2[y] by {
        if x < ti.len() && y < tr.len() {
        } else if x < ti.len() {
            assert(tr2[y] == cls[order[t + (y - tr.len())] as int]);
            assert(labels[ti[x] as int] < c);
        } else if y < tr.len() {
            assert(ti2[x] == cls[order[x - ti.len()] as int]);
            assert(labels[tr[y] as int] < c);
        } else {
            assert(ti2[x] == cls[order[x - ti.len()] as int]);
            assert(tr2[y] == cls[order[t + (y - tr.len())] as int]);
        }
    }
    assert forall|i: int| 0 <= i < n && #[trigger] labels[i] < c + 1 implies ti2.contains(i as usize)
        || tr2.contains(i as usize) by {
        if labels[i] < c {
            if ti.contains(i as usize) {
                let j = choose|j: int| 0 <= j < ti.len() && ti[j] == i as usize;
                assert(ti2[j] == i as usize);
            } else {
                let j = choose|j: int| 0 <= j < tr.len() && tr[j] == i as usize;
                assert(tr2[j] == i as usize);
            }
        } else {
            assert(cls.contains(i as usize));
            let p = choose|p: int| 0 <= p < m && cls[p] == i as usize;
            assert(order.contains(p as usize));
            let q = choose|q: int| 0 <= q < m && order[q] == p as usize;
            if q < t {
                assert(ti2[ti.len() + q] == i as usize);
            } else {
                assert(tr2[tr.len() + (q - t)] == i as usize);
            }
        }
    }
}

/// The samples sent to the test part by a split that visits the samples of
/// each class `d < c` in the order `orders[d]` (positions into the class's
/// index list): for each class in turn, the first test-share of them.
pub open spec fn split_test_indices(labels: Seq<usize>, counts: Seq<usize>, orders: Seq<Seq<usize>>, c: int) -> Seq<
    usize,
>
    decreases c,
{
    if c <= 0 {
        Seq::empty()
    } else {
        split_test_indices(labels, counts, orders, c - 1) + picked(
            class_indices(labels, c - 1, labels.len() as int),
            orders[c - 1],
            0,
            test_share(labels, counts, c - 1) as int,
        )
    }
}

/// The samples sent to the training part by the same split: for each class in
/// turn, the rest of them, in visiting order.
pub open spec fn split_train_indices(labels: Seq<usize>, counts: Seq<usize>, orders: Seq<Seq<usize>>, c: int) -> Seq<
    usize,
>
    decreases c,
{
    if c <= 0 {
        Seq::empty()
    } else {
        split_train_indices(labels, counts, orders, c - 1) + picked(
            class_indices(labels, c - 1, labels.len() as int),
            orders[c - 1],
            test_share(labels, counts, c - 1) as int,
            class_size(labels, c - 1) as int,
        )
    }
}

/// Every class `c < n_classes` has in `orders[c]` an ordering of the positions
/// of its samples.
pub open spec fn class_orders(labels: Seq<usize>, orders: Seq<Seq<usize>>, n_classes: int) -> bool {
    &&& orders.len() == n_classes
    &&& forall|c: int| 0 <= c < n_classes ==> is_permutation(#[trigger] orders[c], class_size(labels, c))
}

/// `o` is the Fisher-Yates ordering of `0..m` for some valid run of draws.
pub open spec fn is_fisher_yates_order(o: Seq<usize>, m: nat) -> bool {
    exists|d: Seq<usize>| valid_draws(d, m) && o == fy_spec(m, d)
}

/// Every class `c < n_classes` has in `orders[c]` a Fisher-Yates ordering of
/// the positions of its samples.
pub open spec fn fisher_yates_orders(labels: Seq<usize>, orders: Seq<Seq<usize>>, n_classes: int) -> bool {
    &&& class_orders(labels, orders, n_classes)
    &&& forall|c: int| 0 <= c < n_classes ==> #[trigger] is_fisher_yates_order(orders[c], class_size(labels, c))
}

/// The contents of a list of orders.
pub open spec fn orders_view(orders: Seq<Vec<usize>>) -> Seq<Seq<usize>> {
    orders.map_values(|o: Vec<usize>| o@)
}

/// The sample at position `q` of the visiting order of class `d`.
pub open spec fn visited(labels: Seq<usize>, orders: Seq<Seq<usize>>, d: int, q: int) -> usize {
    class_indices(labels, d, labels.len() as int)[orders[d][q] as int]
}

/// The test part of the classes below `cc` holds exactly the samples at the
/// positions below each class's test share.
proof fn lemma_test_indices_contain(labels: Seq<usize>, counts: Seq<usize>, orders: Seq<Seq<usize>>, cc: int, x: usize)
    requires
        0 <= cc,
    ensures
        split_test_indices(labels, counts, orders, cc).contains(x) <==> exists|d: int, q: int|
            0 <= d < cc && 0 <= q < test_share(labels, counts, d) && #[trigger] visited(labels, orders, d, q)
                == x,
    decreases cc,
{
    if cc > 0 {
        lemma_test_indices_contain(labels, counts, orders, cc - 1, x);
        let a = split_test_indices(labels, counts, orders, cc - 1);
        let t = test_share(labels, counts, cc - 1) as int;
        let p = picked(class_indices(labels, cc - 1, labels.len() as int), orders[cc - 1], 0, t);
        let s = a + p;
        assert(split_test_indices(labels, counts, orders, cc) == s);
        if s.contains(x) {
            let i = choose|i: int| 0 <= i < s.len() && s[i] == x;
            if i < a.len() {
                assert(a[i] == x);
                assert(a.contains(x));
            } else {
                let q = i - a.len();
                assert(p[q] == x);
                assert(visited(labels, orders, cc - 1, q) == x);
            }
        }
        if exists|d: int, q: int|
            0 <= d < cc && 0 <= q < test_share(labels, counts, d) && #[trigger] visited(labels, orders, d, q) == x {
            let (d, q) = choose|d: int, q: int|
                0 <= d < cc && 0 <= q < test_share(labels, counts, d) && #[trigger] visited(labels, orders, d, q)
                    == x;
            if d < cc - 1 {
                let i = choose|i: int| 0 <= i < a.len() && a[i] == x;
                assert(s[i] == x);
            } else {
                assert(p[q] == x);
                assert(s[a.len() + q] == x);
            }
        }
    }
}

/// The training part of the classes below `cc` holds exactly the samples at
/// the positions from each class's test share on.
proof fn lemma_train_indices_contain(labels: Seq<usize>, counts: Seq<usize>, orders: Seq<Seq<usize>>, cc: int, x: usize)
    requires
        0 <= cc,
    ensures
        split_train_indices(labels, counts, orders, cc).contains(x) <==> exists|d: int, q: int|
            0 <= d < cc && test_share(labels, counts, d) <= q < class_size(labels, d) && #[trigger] visited(
                labels,
                orders,
                d,
                q,
            ) == x,
    decreases cc,
{
    if cc > 0 {
        lemma_train_indices_contain(labels, counts, orders, cc - 1, x);
        let a = split_train_indices(labels, counts, orders, cc - 1);
        let t = test_share(labels, counts, cc - 1) as int;
        let m = class_size(labels, cc - 1) as int;
        let p = picked(class_indices(labels, cc - 1, labels.len() as int), orders[cc - 1], t, m);
        let s = a + p;
        assert(split_train_indices(labels, counts, orders, cc) == s);
        if s.contains(x) {
            let i = choose|i: int| 0 <= i < s.len() && s[i] == x;
            if i < a.len() {
                assert(a[i] == x);
                assert(a.contains(x));
            } else {
                let q = i - a.len();
                assert(p[q] == x);
                assert(visited(labels, orders, cc - 1, t + q) == x);
            }
        }
        if exists|d: int, q: int|
            0 <= d < cc && test_share(labels, counts, d) <= q < class_size(labels, d) && #[trigger] visited(
                labels,
                orders,
                d,
                q,
            ) == x {
            let (d, q) = choose|d: int, q: int|
                0 <= d < cc && test_share(labels, counts, d) <= q < class_size(labels, d) && #[trigger] visited(
                    labels,
                    orders,
                    d,
                    q,
                ) == x;
            if d < cc - 1 {
                let i = choose|i: int| 0 <= i < a.len() && a[i] == x;
                assert(s[i] == x);
            } else {
                assert(p[q - t] == x);
                assert(s[a.len() + q - t] == x);
            }
        }
    }
}

/// A sample seen at position `q` of the order of class `d` and at position
/// `k` of the order of class `c` is seen once: `d == c` and `q == k`.
proof fn lemma_visited_once(labels: Seq<usize>, orders: Seq<Seq<usize>>, nc: int, c: int, k: int, d: int, q: int)
    requires
        labels.len() <= usize::MAX,
        class_orders(labels, orders, nc),
        0 <= c < nc,
        0 <= d < nc,
        0 <= k < class_size(labels, c),
        0 <= q < class_size(labels, d),
        visited(labels, orders, d, q) == visited(labels, orders, c, k),
    ensures
        d == c,
        q == k,
{
    let n = labels.len() as int;
    lemma_class_indices(labels, c, n);
    lemma_class_indices(labels, d, n);
    let oc = orders[c];
    let od = orders[d];
    assert(is_permutation(oc, class_size(labels, c)));
    assert(is_permutation(od, class_size(labels, d)));
    assert(oc[k] < class_size(labels, c));
    assert(od[q] < class_size(labels, d));
    let cls_c = class_indices(labels, c, n);
    let cls_d = class_indices(labels, d, n);
    assert(labels[cls_c[oc[k] as int] as int] == c);
    assert(labels[cls_d[od[q] as int] as int] == d);
    assert(d == c);
    if oc[q] != oc[k] {
        let a = oc[q] as int;
        let b = oc[k] as int;
        if a < b {
            assert(cls_c[a] < cls_c[b]);
        } else {
            assert(cls_c[b] < cls_c[a]);
        }
    }
    assert(oc[q] == oc[k]);
}

/// Law (stratified split): the sample at position `k` of the visiting order
/// of class `c` goes to the test part when `k` is below the class's test share
/// (the number asked for, or the class size if that is smaller), and to the
/// training part otherwise; it is never in the part it does not go to.
pub proof fn lemma_split_by_position(
    labels: Seq<usize>,
    counts: Seq<usize>,
    orders: Seq<Seq<usize>>,
    nc: int,
    c: int,
    k: int,
)
    requires
        labels.len() <= usize::MAX,
        class_orders(labels, orders, nc),
        0 <= c < nc,
        0 <= k < class_size(labels, c),
    ensures
        split_test_indices(labels, counts, orders, nc).contains(visited(labels, orders, c, k)) <==> k < min_int(
            counts[c] as int,
            class_size(labels, c) as int,
        ),
        split_train_indices(labels, counts, orders, nc).contains(visited(labels, orders, c, k)) <==> min_int(
            counts[c] as int,
            class_size(labels, c) as int,
        ) <= k,
{
    let x = visited(labels, orders, c, k);
    let t = test_share(labels, counts, c) as int;
    assert(t == min_int(counts[c] as int, class_size(labels, c) as int));
    lemma_test_indices_contain(labels, counts, orders, nc, x);
    lemma_train_indices_contain(labels, counts, orders, nc, x);
    if split_test_indices(labels, counts, orders, nc).contains(x) {
        let (d, q) = choose|d: int, q: int|
            0 <= d < nc && 0 <= q < test_share(labels, counts, d) && #[trigger] visited(labels, orders, d, q) == x;
        lemma_visited_once(labels, orders, nc, c, k, d, q);
    }
    if k < t {
        assert(visited(labels, orders, c, k) == x);
    }
    if split_train_indices(labels, counts, orders, nc).contains(x) {
        let (d, q) = choose|d: int, q: int|
            0 <= d < nc && test_share(labels, counts, d) <= q < class_size(labels, d) && #[trigger] visited(
                labels,
                orders,
                d,
                q,
            ) == x;
        lemma_visited_once(labels, orders, nc, c, k, d, q);
    }
    if t <= k {
        assert(visited(labels, orders, c, k) == x);
    }
}

/// Appends row `row` of `x` to `data`.
fn append_row<T: Copy>(data: &mut Vec<T>, x: &Matrix<T>, row: usize)
    requires
        x.wf(),
        row < x.rows,
    ensures
        final(data)@ == old(data)@ + x.data@.subrange(row * x.cols, row * x.cols + x.cols),
{
    let cols = x.cols;
    let ghost start = data@;
    proof {
        assert(row * cols + cols <= x.rows * cols) by (nonlinear_arith)
            requires
                row < x.rows,
        ;
        assert(0 <= row * cols) by (nonlinear_arith);
        assert(x.data@.subrange(row * cols, row * cols + 0) == Seq::<T>::empty());
        assert(data@ == start + x.data@.subrange(row * cols, row * cols + 0));
    }
    let mut j: usize = 0;
    while j < cols
        invariant
            x.wf(),
            cols == x.cols,
            row < x.rows,
            j <= cols,
            row * cols + cols <= x.data@.len(),
            0 <= row * cols,
            data@ == start + x.data@.subrange(row * cols, row * cols + j),
        decreases cols - j,
    {
        let v = x.get(row, j);
        data.push(v);
        j = j + 1;
        assert(data@ == start + x.data@.subrange(row * cols, row * cols + j));
    }
}

/// A copy of a list of names.
fn clone_names(names: &Vec<String>) -> (r: Vec<String>)
    ensures
        r@.map_values(|s: String| s@) == names@.map_values(|s: String| s@),
{
    let mut out: Vec<String> = Vec::new();
    let n = names.len();
    let mut i: usize = 0;
    while i < n
        invariant
            n == names@.len(),
            i <= n,
            out@.len() == i,
            forall|k: int| 0 <= k < i ==> (#[trigger] out@[k])@ == names@[k]@,
        decreases n - i,
    {
        out.push(names[i].clone());
        i = i + 1;
    }
    assert(out@.map_values(|s: String| s@) == names@.map_values(|s: String| s@));
    out
}

/// The smaller of two integers.
pub open spec fn min_int(a: int, b: int) -> int {
    if a <= b {
        a
    } else {
        b
    }
}

impl<T: Copy> Dataset<T> {
    /// The number of samples of each class.
    pub fn class_sizes(&self) -> (sizes: Vec<usize>)
        requires
            forall|i: int| 0 <= i < self.labels@.len() ==> #[trigger] self.labels@[i] < self.class_names@.len(),
        ensures
            sizes@.len() == self.class_names@.len(),
            forall|c: int| 0 <= c < sizes@.len() ==> #[trigger] sizes@[c] == class_size(self.labels@, c),
    {
        let lists = class_index_lists(&self.labels, self.class_names.len());
        let mut sizes: Vec<usize> = Vec::new();
        let n = lists.len();
        let mut c: usize = 0;
        while c < n
            invariant
                n == lists@.len(),
                n == self.class_names@.len(),
                c <= n,
                sizes@.len() == c,
                forall|d: int| 0 <= d < n ==> (#[trigger] lists@[d])@ == class_indices(
                    self.labels@,
                    d,
                    self.labels@.len() as int,
                ),
                forall|d: int| 0 <= d < c ==> #[trigger] sizes@[d] == class_size(self.labels@, d),
            decreases n - c,
        {
            assert(lists@[c as int]@ == class_indices(self.labels@, c as int, self.labels@.len() as int));
            sizes.push(lists[c].len());
            c = c + 1;
        }
        sizes
    }
}

impl<T: Copy> Dataset<T> {
    /// Splits the samples into a training part and a test part, class by
    /// class: the samples of class `c` are visited in the order `orders[c]`
    /// (positions into the increasing list of its samples), the first
    /// `test_counts[c]` of them (all of them if the class is smaller) go to the
    /// test part and the rest to the training part. Both parts list the classes
    /// in increasing order and keep the class names. Returns `(train, test)`.
    pub fn split_by_orders(&self, test_counts: &Vec<usize>, orders: &Vec<Vec<usize>>) -> (r: (Dataset<T>, Dataset<T>))
        requires
            self.x.wf(),
            self.labels@.len() == self.x.rows,
            forall|i: int| 0 <= i < self.labels@.len() ==> #[trigger] self.labels@[i] < self.class_names@.len(),
            test_counts@.len() == self.class_names@.len(),
            class_orders(self.labels@, orders_view(orders@), self.class_names@.len() as int),
        ensures
            r.0@.class_names == self@.class_names,
            r.1@.class_names == self@.class_names,
            r.1.labels@ == split_test_labels(self.labels@, test_counts@, self.class_names@.len() as int),
            r.0.labels@ == split_train_labels(self.labels@, test_counts@, self.class_names@.len() as int),
            r.0.labels@.len() + r.1.labels@.len() == self.labels@.len(),
            holds_samples(
                *self,
                r.1,
                split_test_indices(
                    self.labels@,
                    test_counts@,
                    orders_view(orders@),
                    self.class_names@.len() as int,
                ),
            ),
            holds_samples(
                *self,
                r.0,
                split_train_indices(
                    self.labels@,
                    test_counts@,
                    orders_view(orders@),
                    self.class_names@.len() as int,
                ),
            ),
            covers_each_once(
                split_test_indices(self.labels@, test_counts@, orders_view(orders@), self.class_names@.len() as int)
                    + split_train_indices(
                    self.labels@,
                    test_counts@,
                    orders_view(orders@),
                    self.class_names@.len() as int,
                ),
                self.labels@.len(),
            ),
    {
        let n_features = self.x.cols;
        let n_classes = self.class_names.len();
        let n = self.labels.len();
        let ghost labels = self.labels@;
        let ghost counts = test_counts@;
        let ghost ov = orders_view(orders@);
        let lists = class_index_lists(&self.labels, n_classes);
        let mut train_data: Vec<T> = Vec::new();
        let mut train_labels: Vec<usize> = Vec::new();
        let mut test_data: Vec<T> = Vec::new();
        let mut test_labels: Vec<usize> = Vec::new();
        let ghost mut ti: Seq<usize> = Seq::empty();
        let ghost mut tr: Seq<usize> = Seq::empty();
        proof {
            lemma_sizes_below_zero(labels, 0);
        }
        let mut class: usize = 0;
        while class < n_classes
            invariant
                n_classes == self.class_names@.len(),
                n == self.labels@.len(),
                n == self.x.rows,
                n_features == self.x.cols,
                labels == self.labels@,
                counts == test_counts@,
                self.x.wf(),
                forall|i: int| 0 <= i < n ==> #[trigger] labels[i] < n_classes,
                counts.len() == n_classes,
                ov == orders_view(orders@),
                class_orders(labels, ov, n_classes as int),
                ti == split_test_indices(labels, counts, ov, class as int),
                tr == split_train_indices(labels, counts, ov, class as int),
                class <= n_classes,
                lists@.len() == n_classes,
                forall|d: int| 0 <= d < n_classes ==> (#[trigger] lists@[d])@ == class_indices(labels, d, n as int),
                split_state(labels, n as nat, class as int, ti, tr),
                ti.len() + tr.len() == sizes_below(labels, class as int, n as int),
                test_labels@ == split_test_labels(labels, counts, class as int),
                train_labels@ == split_train_labels(labels, counts, class as int),
                ti.len() == test_labels@.len(),
                tr.len() == train_labels@.len(),
                forall|j: int| 0 <= j < ti.len() ==> #[trigger] test_labels@[j] == labels[ti[j] as int],
                forall|j: int| 0 <= j < tr.len() ==> #[trigger] train_labels@[j] == labels[tr[j] as int],
                test_data@ == gather_rows(self.x@, ti),
                train_data@ == gather_rows(self.x@, tr),
            decreases n_classes - class,
        {
            let class_list = &lists[class];
            let m = class_list.len();
            let order = &orders[class];
            proof {
                assert(ov[class as int] == order@);
                assert(is_permutation(ov[class as int], class_size(labels, class as int)));
            }
            let n_test = test_counts[class];
            let ghost cls = class_list@;
            let ghost t: int = min_int(n_test as int, m as int);
            let ghost ti0 = ti;
            let ghost tr0 = tr;
            let ghost tl0 = test_labels@;
            let ghost trl0 = train_labels@;
            proof {
                lemma_class_indices(labels, class as int, n as int);
            }
            let mut k: usize = 0;
            while k < m
                invariant
                    n == self.labels@.len(),
                    n == self.x.rows,
                    labels == self.labels@,
                    self.x.wf(),
                    cls == class_indices(labels, class as int, n as int),
                    forall|a: int| 0 <= a < cls.len() ==> #[trigger] cls[a] < n && labels[cls[a] as int] == class,
                    class_list@ == cls,
                    m == cls.len(),
                    is_permutation(order@, m as nat),
                    t == min_int(n_test as int, m as int),
                    k <= m,
                    ti == ti0 + picked(cls, order@, 0, min_int(k as int, t)),
                    tr == tr0 + picked(cls, order@, t, t + (k - min_int(k as int, t))),
                    test_labels@ == tl0 + Seq::new(min_int(k as int, t) as nat, |q: int| class),
                    train_labels@ == trl0 + Seq::new((k - min_int(k as int, t)) as nat, |q: int| class),
                    ti0.len() == tl0.len(),
                    tr0.len() == trl0.len(),
                    forall|j: int| 0 <= j < ti.len() ==> #[trigger] test_labels@[j] == labels[ti[j] as int],
                    forall|j: int| 0 <= j < tr.len() ==> #[trigger] train_labels@[j] == labels[tr[j] as int],
                    test_data@ == gather_rows(self.x@, ti),
                    train_data@ == gather_rows(self.x@, tr),
                decreases m - k,
            {
                let pos = order[k];
                let original_index = class_list[pos];
                let label = self.labels[original_index];
                if k < n_test {
                    append_row(&mut test_data, &self.x, original_index);
                    test_labels.push(label);
                    proof {
                        let old_ti = ti;
                        ti = ti.push(original_index);
                        assert(ti.drop_last() == old_ti);
                        assert(picked(cls, order@, 0, min_int(k + 1, t)) == picked(cls, order@, 0, min_int(k as int, t)).push(original_index));
                        assert(test_labels@ == tl0 + Seq::new(min_int(k + 1, t) as nat, |q: int| class));
                    }
                } else {
                    append_row(&mut train_data, &self.x, original_index);
                    train_labels.push(label);
                    proof {
                        let old_tr = tr;
                        tr = tr.push(original_index);
                        assert(tr.drop_last() == old_tr);
                        assert(picked(cls, order@, t, t + (k + 1 - min_int(k + 1, t))) == picked(cls, order@, t, t + (k - min_int(k as int, t))).push(original_index));
                        assert(train_labels@ == trl0 + Seq::new((k + 1 - min_int(k + 1, t)) as nat, |q: int| class));
                    }
                }
                k = k + 1;
            }
            proof {
                lemma_split_class_step(labels, class as int, ti0, tr0, cls, order@, t);
                assert(class_size(labels, class as int) == m);
                assert(split_test_labels(labels, counts, class + 1) == tl0 + Seq::new(t as nat, |q: int| class));
                assert(split_train_labels(labels, counts, class + 1) == trl0 + Seq::new((m - t) as nat, |q: int| class));
                assert(ti == split_test_indices(labels, counts, ov, class + 1));
                assert(tr == split_train_indices(labels, counts, ov, class + 1));
            }
            class = class + 1;
        }
        let n_test_total = test_labels.len();
        let n_train_total = train_labels.len();
        proof {
            lemma_sizes_below_count(labels, n_classes as int, n as int);
            lemma_count_below_all(labels, n_classes as int, n as int);
            lemma_gather_rows(self.x@, ti);
            lemma_gather_rows(self.x@, tr);
            assert(test_data@.len() == n_test_total * n_features);
            assert(train_data@.len() == n_train_total * n_features);
        }
        let train = Dataset {
            x: Matrix { data: train_data, rows: n_train_total, cols: n_features },
            labels: train_labels,
            class_names: clone_names(&self.class_names),
        };
        let test = Dataset {
            x: Matrix { data: test_data, rows: n_test_total, cols: n_features },
            labels: test_labels,
            class_names: clone_names(&self.class_names),
        };
        proof {
            assert(holds_samples(*self, train, tr));
            assert(holds_samples(*self, test, ti));
            vstd::seq_lib::lemma_no_dup_in_concat(ti, tr);
            let all = ti + tr;
            assert forall|j: int| 0 <= j < all.len() implies #[trigger] all[j] < n by {
                if j < ti.len() {
                    assert(all[j] == ti[j]);
                } else {
                    assert(all[j] == tr[j - ti.len()]);
                }
            }
            assert forall|i: usize| i < n implies #[trigger] all.contains(i) by {
                assert(labels[i as int] < n_classes);
                if ti.contains(i) {
                    let j = choose|j: int| 0 <= j < ti.len() && ti[j] == i;
                    assert(all[j] == i);
                } else {
                    let j = choose|j: int| 0 <= j < tr.len() && tr[j] == i;
                    assert(all[ti.len() + j] == i);
                }
            }
            assert(covers_each_once(all, n as nat));
        }
        (train, test)
    }

    /// Splits the samples into a training part and a test part, class by
    /// class: the samples of each class are visited in a Fisher-Yates order
    /// whose draws come from a generator seeded with a seed derived from `seed`
    /// and the class, the first `test_counts[class]` of them (all of them if
    /// the class is smaller) go to the test part and the rest to the training
    /// part, as `split_by_orders` does. Returns `(train, test)`.
    pub fn train_test_split_counts(&self, test_counts: &Vec<usize>, seed: u64) -> (r: (Dataset<T>, Dataset<T>))
        requires
            self.x.wf(),
            self.labels@.len() == self.x.rows,
            forall|i: int| 0 <= i < self.labels@.len() ==> #[trigger] self.labels@[i] < self.class_names@.len(),
            test_counts@.len() == self.class_names@.len(),
            self.class_names@.len() * 7919 <= u64::MAX,
        ensures
            r.0@.class_names == self@.class_names,
            r.1@.class_names == self@.class_names,
            r.1.labels@ == split_test_labels(self.labels@, test_counts@, self.class_names@.len() as int),
            r.0.labels@ == split_train_labels(self.labels@, test_counts@, self.class_names@.len() as int),
            r.0.labels@.len() + r.1.labels@.len() == self.labels@.len(),
            exists|orders: Seq<Seq<usize>>|
                #![trigger split_test_indices(self.labels@, test_counts@, orders, self.class_names@.len() as int)]
                {
                    &&& fisher_yates_orders(self.labels@, orders, self.class_names@.len() as int)
                    &&& holds_samples(
                        *self,
                        r.1,
                        split_test_indices(self.labels@, test_counts@, orders, self.class_names@.len() as int),
                    )
                    &&& holds_samples(
                        *self,
                        r.0,
                        split_train_indices(self.labels@, test_counts@, orders, self.class_names@.len() as int),
                    )
                    &&& covers_each_once(
                        split_test_indices(self.labels@, test_counts@, orders, self.class_names@.len() as int)
                            + split_train_indices(
                            self.labels@,
                            test_counts@,
                            orders,
                            self.class_names@.len() as int,
                        ),
                        self.labels@.len(),
                    )
                },
    {
        let n_classes = self.class_names.len();
        let sizes = self.class_sizes();
        let mut orders: Vec<Vec<usize>> = Vec::new();
        let mut class: usize = 0;
        while class < n_classes
            invariant
                n_classes == self.class_names@.len(),
                n_classes * 7919 <= u64::MAX,
                sizes@.len() == n_classes,
                forall|c: int| 0 <= c < n_classes ==> #[trigger] sizes@[c] == class_size(self.labels@, c),
                class <= n_classes,
                fisher_yates_orders(self.labels@, orders_view(orders@), class as int),
            decreases n_classes - class,
        {
            proof {
                assert(class * 7919 <= n_classes * 7919) by (nonlinear_arith)
                    requires
                        class <= n_classes,
                ;
            }
            let class_seed = seed.wrapping_mul(1_000_003).wrapping_add(class as u64 * 7919);
            let order = shuffled_indices(sizes[class], class_seed);
            let ghost before = orders_view(orders@);
            orders.push(order);
            proof {
                let ov = orders_view(orders@);
                assert forall|c: int| 0 <= c < class + 1 implies is_permutation(
                    #[trigger] ov[c],
                    class_size(self.labels@, c),
                ) by {
                    if c < class {
                        assert(ov[c] == before[c]);
                    }
                }
                assert forall|c: int| 0 <= c < class + 1 implies #[trigger] is_fisher_yates_order(
                    ov[c],
                    class_size(self.labels@, c),
                ) by {
                    if c < class {
                        assert(ov[c] == before[c]);
                        assert(is_fisher_yates_order(before[c], class_size(self.labels@, c)));
                    } else {
                        assert(ov[c] == order@);
                        let d = choose|d: Seq<usize>| valid_draws(d, sizes@[class as int] as nat) && order@ == fy_spec(
                            sizes@[class as int] as nat,
                            d,
                        );
                        assert(valid_draws(d, class_size(self.labels@, c)) && ov[c] == fy_spec(class_size(self.labels@, c), d));
                    }
                }
                assert(ov.len() == class + 1);
                assert(class_orders(self.labels@, ov, class + 1));
                assert(fisher_yates_orders(self.labels@, ov, class + 1));
            }
            class = class + 1;
        }
        let r = self.split_by_orders(test_counts, &orders);
        proof {
            let ov = orders_view(orders@);
            assert(fisher_yates_orders(self.labels@, ov, n_classes as int));
        }
        r
    }
}

} // verus!
