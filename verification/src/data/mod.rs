//! Labelled datasets: a feature matrix with one row per sample, the class label
//! of each sample and the names of the classes.
pub mod builder;
pub mod classes;
pub mod image;
pub mod loader;
pub mod species;
pub mod split;

use vstd::prelude::*;
use vstd::utf8::*;
use crate::codec::{
    agrees, enc_name, enc_words, le_u32, lemma_take_words_fields, u32_at, words_stored_at, lemma_enc_words_len, lemma_take_name_written,
    lemma_take_u32_written, lemma_take_words_written, put_name, put_u32, put_words, read_name,
    read_u32, read_words, take_name, take_u32, take_words, DecodeError, DecodeErrorV, Parsed,
};
use crate::tensor::{lemma_row_major_index, Matrix, MatrixV};

verus! {

/// A labelled dataset: row `i` of `x` holds the features of sample `i`, whose
/// class is `labels[i]`, an index into `class_names`.
pub struct Dataset<T> {
    pub x: Matrix<T>,
    pub labels: Vec<usize>,
    pub class_names: Vec<String>,
}

/// The mathematical content of a dataset.
pub struct DatasetV<T> {
    pub x: MatrixV<T>,
    pub labels: Seq<usize>,
    pub class_names: Seq<Seq<char>>,
}

impl<T> View for Dataset<T> {
    type V = DatasetV<T>;

    open spec fn view(&self) -> DatasetV<T> {
        DatasetV {
            x: self.x@,
            labels: self.labels@,
            class_names: self.class_names@.map_values(|s: String| s@),
        }
    }
}

impl<T> Dataset<T> {
    /// The number of samples.
    pub fn len(&self) -> (n: usize)
        ensures
            n == self.labels@.len(),
    {
        self.labels.len()
    }

    /// The number of classes.
    pub fn num_classes(&self) -> (n: usize)
        ensures
            n == self.class_names@.len(),
    {
        self.class_names.len()
    }
}

// ---------------------------------------------------------------------------
// Dataset cache file format (no tag, no version):
//   sample count (u32), feature count (u32), class count (u32),
//   each class name (u32 length + UTF-8 bytes), each label (u32),
//   then every feature of every sample in row-major order (32-bit patterns).
// ---------------------------------------------------------------------------

/// Reads `k` names one after the other.
pub open spec fn take_names(b: Seq<u8>, pos: int, k: nat) -> Parsed<Seq<Seq<char>>>
    decreases k,
{
    if k == 0 {
        Ok((Seq::empty(), pos))
    } else {
        match take_names(b, pos, (k - 1) as nat) {
            Ok((ns, p)) => match take_name(b, p) {
                Ok((s, p2)) => Ok((ns.push(s), p2)),
                Err(e) => Err(e),
            },
            Err(e) => Err(e),
        }
    }
}

/// What a dataset cache file holds, or why it cannot be read. Bytes after the
/// features are ignored.
pub open spec fn parse_dataset(b: Seq<u8>) -> Result<DatasetV<u32>, DecodeErrorV> {
    match take_u32(b, 0) {
        Ok((n_samples, p1)) => match take_u32(b, p1) {
            Ok((n_features, p2)) => match take_u32(b, p2) {
                Ok((n_classes, p3)) => match take_names(b, p3, n_classes as nat) {
                    Ok((names, p4)) => match take_words(b, p4, n_samples as int) {
                        Ok((labels, p5)) => match take_words(b, p5, n_samples * n_features) {
                            Ok((data, _)) => Ok(
                                DatasetV {
                                    x: MatrixV {
                                        rows: n_samples as nat,
                                        cols: n_features as nat,
                                        data,
                                    },
                                    labels: labels.map_values(|w: u32| w as usize),
                                    class_names: names,
                                },
                            ),
                            Err(e) => Err(e),
                        },
                        Err(e) => Err(e),
                    },
                    Err(e) => Err(e),
                },
                Err(e) => Err(e),
            },
            Err(e) => Err(e),
        },
        Err(e) => Err(e),
    }
}

/// The bytes of a run of names.
pub open spec fn enc_names(ns: Seq<Seq<char>>) -> Seq<u8>
    decreases ns.len(),
{
    if ns.len() == 0 {
        Seq::empty()
    } else {
        enc_names(ns.drop_last()) + enc_name(ns.last())
    }
}

/// The labels as stored: each truncated to a `u32` word.
pub open spec fn label_words(labels: Seq<usize>) -> Seq<u32> {
    labels.map_values(|l: usize| l as u32)
}

/// The bytes of a dataset cache file.
pub open spec fn enc_dataset(d: DatasetV<u32>) -> Seq<u8> {
    le_u32(d.x.rows as u32) + le_u32(d.x.cols as u32) + le_u32(d.class_names.len() as u32)
        + enc_names(d.class_names) + enc_words(label_words(d.labels)) + enc_words(d.x.data)
}

/// A dataset that the cache file holds and reads back unchanged.
pub open spec fn dataset_fits(d: DatasetV<u32>) -> bool {
    &&& d.x.wf()
    &&& d.x.rows <= u32::MAX
    &&& d.x.cols <= u32::MAX
    &&& d.labels.len() == d.x.rows
    &&& forall|i: int| 0 <= i < d.labels.len() ==> #[trigger] d.labels[i] <= u32::MAX
    &&& d.class_names.len() <= u32::MAX
    &&& forall|i: int|
        0 <= i < d.class_names.len() ==> encode_utf8(#[trigger] d.class_names[i]).len() <= u32::MAX
}

/// Consecutive written names are read back.
pub proof fn lemma_take_names_written(b: Seq<u8>, pos: int, ns: Seq<Seq<char>>)
    requires
        0 <= pos,
        forall|i: int| 0 <= i < ns.len() ==> encode_utf8(#[trigger] ns[i]).len() <= u32::MAX,
        pos + enc_names(ns).len() <= b.len(),
        b.subrange(pos, pos + enc_names(ns).len()) == enc_names(ns),
    ensures
        take_names(b, pos, ns.len()) == Ok::<(Seq<Seq<char>>, int), DecodeErrorV>(
            (ns, pos + enc_names(ns).len()),
        ),
    decreases ns.len(),
{
    if ns.len() > 0 {
        let front = ns.drop_last();
        let ef = enc_names(front);
        let el = enc_name(ns.last());
        let x = ef.len() as int;
        let y = el.len() as int;
        assert(enc_names(ns) == ef + el);
        assert(b.subrange(pos, pos + x) == b.subrange(pos, pos + enc_names(ns).len()).subrange(0, x));
        assert((ef + el).subrange(0, x) == ef);
        assert forall|i: int| 0 <= i < front.len() implies encode_utf8(#[trigger] front[i]).len()
            <= u32::MAX by {
            assert(front[i] == ns[i]);
        }
        lemma_take_names_written(b, pos, front);
        let p = pos + x;
        assert(b.subrange(p, p + y) == b.subrange(pos, pos + enc_names(ns).len()).subrange(x, x + y));
        assert((ef + el).subrange(x, x + y) == el);
        assert(encode_utf8(ns[ns.len() - 1]).len() <= u32::MAX);
        lemma_take_name_written(b, p, ns.last());
        assert(front.push(ns.last()) == ns);
        assert(front.len() == (ns.len() - 1) as nat);
    } else {
        assert(ns == Seq::<Seq<char>>::empty());
    }
}

/// Once reading a run of names fails, reading a longer run fails the same way.
pub proof fn lemma_take_names_err_stays(b: Seq<u8>, pos: int, k: nat, n: nat)
    requires
        k <= n,
        take_names(b, pos, k) is Err,
    ensures
        take_names(b, pos, n) == take_names(b, pos, k),
    decreases n - k,
{
    if k < n {
        lemma_take_names_err_stays(b, pos, k, (n - 1) as nat);
    }
}

/// Law: a dataset written to its cache bytes is read back unchanged, whatever
/// follows it.
pub proof fn lemma_dataset_roundtrip(d: DatasetV<u32>, rest: Seq<u8>)
    requires
        dataset_fits(d),
    ensures
        parse_dataset(enc_dataset(d) + rest) == Ok::<DatasetV<u32>, DecodeErrorV>(d),
{
    let b = enc_dataset(d) + rest;
    let lw = label_words(d.labels);
    let en = enc_names(d.class_names);
    let el = enc_words(lw);
    let ed = enc_words(d.x.data);
    lemma_enc_words_len(lw);
    lemma_enc_words_len(d.x.data);
    let a = en.len() as int;
    let c = el.len() as int;
    let e = ed.len() as int;
    assert(b.subrange(0, 4) == le_u32(d.x.rows as u32));
    lemma_take_u32_written(b, 0, d.x.rows as u32);
    assert(b.subrange(4, 8) == le_u32(d.x.cols as u32));
    lemma_take_u32_written(b, 4, d.x.cols as u32);
    assert(b.subrange(8, 12) == le_u32(d.class_names.len() as u32));
    lemma_take_u32_written(b, 8, d.class_names.len() as u32);
    assert(b.subrange(12, 12 + a) == en);
    lemma_take_names_written(b, 12, d.class_names);
    assert(b.subrange(12 + a, 12 + a + c) == el);
    lemma_take_words_written(b, 12 + a, lw);
    assert(b.subrange(12 + a + c, 12 + a + c + e) == ed);
    lemma_take_words_written(b, 12 + a + c, d.x.data);
    assert(lw.map_values(|w: u32| w as usize) == d.labels);
    assert((d.x.rows as u32) as int * (d.x.cols as u32) as int == d.x.data.len());
}

/// Reading `k` names from `pos` gives `k` names and ends at or after `pos`.
pub proof fn lemma_take_names_fields(b: Seq<u8>, pos: int, k: nat)
    ensures
        take_names(b, pos, k) matches Ok((ns, p)) ==> ns.len() == k && pos <= p,
    decreases k,
{
    if k > 0 {
        lemma_take_names_fields(b, pos, (k - 1) as nat);
    }
}

/// Law (cache layout): the sample count in bytes 0..4, the feature count in
/// bytes 4..8 and the class count in bytes 8..12; the file ends with the label
/// of each sample followed by every feature of every sample, and the class
/// names stand between the counts and the labels.
pub proof fn lemma_dataset_layout(d: DatasetV<u32>)
    ensures
        ({
            let e = enc_dataset(d);
            let l: int = 4 * (d.labels.len() as int);
            let f: int = 4 * (d.x.data.len() as int);
            let m: int = e.len() - l - f;
            &&& 12 <= m
            &&& e.subrange(0, 4) == le_u32(d.x.rows as u32)
            &&& e.subrange(4, 8) == le_u32(d.x.cols as u32)
            &&& e.subrange(8, 12) == le_u32(d.class_names.len() as u32)
            &&& e.subrange(12, m) == enc_names(d.class_names)
            &&& e.subrange(m, m + l) == enc_words(label_words(d.labels))
            &&& e.subrange(m + l, e.len() as int) == enc_words(d.x.data)
        }),
{
    let lw = label_words(d.labels);
    lemma_enc_words_len(lw);
    lemma_enc_words_len(d.x.data);
    let e = enc_dataset(d);
    let a = enc_names(d.class_names).len() as int;
    let l: int = 4 * (d.labels.len() as int);
    let f: int = 4 * (d.x.data.len() as int);
    let parts = le_u32(d.x.rows as u32) + le_u32(d.x.cols as u32) + le_u32(d.class_names.len() as u32)
        + enc_names(d.class_names) + enc_words(lw) + enc_words(d.x.data);
    assert(e =~= parts);
    assert(e.len() == 12 + a + l + f);
    assert(e.subrange(0, 4) =~= le_u32(d.x.rows as u32));
    assert(e.subrange(4, 8) =~= le_u32(d.x.cols as u32));
    assert(e.subrange(8, 12) =~= le_u32(d.class_names.len() as u32));
    assert(e.subrange(12, 12 + a) =~= enc_names(d.class_names));
    assert(e.subrange(12 + a, 12 + a + l) =~= enc_words(lw));
    assert(e.subrange(12 + a + l, e.len() as int) =~= enc_words(d.x.data));
}

/// From byte `p` of `b` stand one label word per sample of `d`, then every
/// feature of every sample of `d` in row-major order.
pub open spec fn labels_then_features_at(b: Seq<u8>, p: int, d: DatasetV<u32>) -> bool {
    &&& p + 4 * d.labels.len() + 4 * d.x.data.len() <= b.len()
    &&& forall|i: int| 0 <= i < d.labels.len() ==> #[trigger] d.labels[i] == u32_at(b, p + 4 * i) as usize
    &&& words_stored_at(b, p + 4 * d.labels.len(), d.x.data)
}

/// Law (reading a cache): the sample count is the word at byte 0, the feature
/// count the word at byte 4 and the class count the word at byte 8; after the
/// class names come one label word per sample, then the features of every
/// sample in row-major order.
pub proof fn lemma_dataset_fields(b: Seq<u8>)
    ensures
        parse_dataset(b) matches Ok(d) ==> {
            &&& 12 <= b.len()
            &&& d.x.rows == u32_at(b, 0)
            &&& d.x.cols == u32_at(b, 4)
            &&& d.class_names.len() == u32_at(b, 8)
            &&& d.labels.len() == d.x.rows
            &&& d.x.data.len() == d.x.rows * d.x.cols
            &&& exists|p: int| 12 <= p && #[trigger] labels_then_features_at(b, p, d)
        },
{
    if parse_dataset(b) is Ok {
        let n = u32_at(b, 0);
        let f = u32_at(b, 4);
        let k = u32_at(b, 8);
        lemma_take_names_fields(b, 12, k as nat);
        let p4 = take_names(b, 12, k as nat)->Ok_0.1;
        lemma_take_words_fields(b, p4, n as int);
        let lw = take_words(b, p4, n as int)->Ok_0.0;
        lemma_take_words_fields(b, p4 + 4 * n, n * f);
        let d = parse_dataset(b)->Ok_0;
        assert forall|i: int| 0 <= i < d.labels.len() implies #[trigger] d.labels[i] == u32_at(
            b,
            p4 + 4 * i,
        ) as usize by {
            assert(d.labels[i] == lw[i] as usize);
        }
        assert(labels_then_features_at(b, p4, d));
    }
}

impl Dataset<u32> {
    /// The cache file bytes of this dataset (features as 32-bit patterns).
    pub fn to_bytes(&self) -> (b: Vec<u8>)
        ensures
            b@ == enc_dataset(self@),
            ({
                let l: int = 4 * (self.labels@.len() as int);
                let f: int = 4 * (self.x.data@.len() as int);
                let m: int = b@.len() - l - f;
                &&& 12 <= m
                &&& b@.subrange(0, 4) == le_u32(self.x.rows as u32)
                &&& b@.subrange(4, 8) == le_u32(self.x.cols as u32)
                &&& b@.subrange(8, 12) == le_u32(self.class_names@.len() as u32)
                &&& b@.subrange(12, m) == enc_names(self@.class_names)
                &&& b@.subrange(m, m + l) == enc_words(label_words(self.labels@))
                &&& b@.subrange(m + l, b@.len() as int) == enc_words(self.x.data@)
            }),
    {
        proof {
            lemma_dataset_layout(self@);
        }
        let mut buf: Vec<u8> = Vec::new();
        put_u32(&mut buf, self.x.rows as u32);
        put_u32(&mut buf, self.x.cols as u32);
        put_u32(&mut buf, self.class_names.len() as u32);
        let ghost start = buf@;
        let ghost names = self@.class_names;
        let n = self.class_names.len();
        let mut i: usize = 0;
        while i < n
            invariant
                n == self.class_names@.len(),
                names == self@.class_names,
                i <= n,
                buf@ == start + enc_names(names.subrange(0, i as int)),
            decreases n - i,
        {
            put_name(&mut buf, self.class_names[i].as_str());
            proof {
                let s = names.subrange(0, i + 1);
                assert(s.drop_last() == names.subrange(0, i as int));
                assert(s.last() == self.class_names@[i as int]@);
            }
            i = i + 1;
        }
        assert(names.subrange(0, n as int) == names);
        let mut words: Vec<u32> = Vec::new();
        let m = self.labels.len();
        let mut j: usize = 0;
        while j < m
            invariant
                m == self.labels@.len(),
                j <= m,
                words@ == label_words(self.labels@.subrange(0, j as int)),
            decreases m - j,
        {
            words.push(self.labels[j] as u32);
            j = j + 1;
            assert(words@ == label_words(self.labels@.subrange(0, j as int)));
        }
        assert(self.labels@.subrange(0, m as int) == self.labels@);
        put_words(&mut buf, &words);
        put_words(&mut buf, &self.x.data);
        buf
    }

    /// Reads a dataset cache file.
    pub fn from_bytes(b: &[u8]) -> (r: Result<Dataset<u32>, DecodeError>)
        ensures
            match r {
                Ok(d) => parse_dataset(b@) == Ok::<DatasetV<u32>, DecodeErrorV>(d@) && d.x.wf(),
                Err(e) => parse_dataset(b@) == Err::<DatasetV<u32>, DecodeErrorV>(e@),
            },
            r matches Ok(d) ==> {
                &&& 12 <= b@.len()
                &&& d@.x.rows == u32_at(b@, 0)
                &&& d@.x.cols == u32_at(b@, 4)
                &&& d@.class_names.len() == u32_at(b@, 8)
                &&& d@.labels.len() == d@.x.rows
                &&& d@.x.data.len() == d@.x.rows * d@.x.cols
                &&& exists|p: int| 12 <= p && #[trigger] labels_then_features_at(b@, p, d@)
            },
    {
        proof {
            lemma_dataset_fields(b@);
        }
        let (n_samples, p1) = match read_u32(b, 0) {
            Ok(x) => x,
            Err(e) => {
                return Err(e);
            },
        };
        let (n_features, p2) = match read_u32(b, p1) {
            Ok(x) => x,
            Err(e) => {
                return Err(e);
            },
        };
        let (n_classes, p3) = match read_u32(b, p2) {
            Ok(x) => x,
            Err(e) => {
                return Err(e);
            },
        };
        let mut class_names: Vec<String> = Vec::new();
        let mut pos = p3;
        let mut i: u32 = 0;
        assert(class_names@.map_values(|s: String| s@) == Seq::<Seq<char>>::empty());
        while i < n_classes
            invariant
                i <= n_classes,
                take_u32(b@, 0) == Ok::<(u32, int), DecodeErrorV>((n_samples, p1 as int)),
                take_u32(b@, p1 as int) == Ok::<(u32, int), DecodeErrorV>((n_features, p2 as int)),
                take_u32(b@, p2 as int) == Ok::<(u32, int), DecodeErrorV>((n_classes, p3 as int)),
                take_names(b@, p3 as int, i as nat) == Ok::<(Seq<Seq<char>>, int), DecodeErrorV>(
                    (class_names@.map_values(|s: String| s@), pos as int),
                ),
            decreases n_classes - i,
        {
            let ghost prev = class_names@.map_values(|s: String| s@);
            let name = match read_name(b, pos) {
                Ok((s, p)) => {
                    pos = p;
                    s
                },
                Err(e) => {
                    proof {
                        lemma_take_names_err_stays(b@, p3 as int, (i + 1) as nat, n_classes as nat);
                    }
                    return Err(e);
                },
            };
            class_names.push(name);
            proof {
                assert(class_names@.map_values(|s: String| s@) == prev.push(name@));
            }
            i = i + 1;
        }
        let (words, p5) = match read_words(b, pos, n_samples as u64) {
            Ok(x) => x,
            Err(e) => {
                return Err(e);
            },
        };
        let mut labels: Vec<usize> = Vec::new();
        let k = words.len();
        let mut j: usize = 0;
        while j < k
            invariant
                k == words@.len(),
                j <= k,
                labels@ == words@.subrange(0, j as int).map_values(|w: u32| w as usize),
            decreases k - j,
        {
            labels.push(words[j] as usize);
            j = j + 1;
            assert(labels@ == words@.subrange(0, j as int).map_values(|w: u32| w as usize));
        }
        assert(words@.subrange(0, k as int) == words@);
        proof {
            assert(n_samples as u64 * n_features as u64 <= u64::MAX) by (nonlinear_arith)
                requires
                    n_samples <= u32::MAX,
                    n_features <= u32::MAX,
            ;
        }
        let (data, _) = match read_words(b, p5, n_samples as u64 * n_features as u64) {
            Ok(x) => x,
            Err(e) => {
                return Err(e);
            },
        };
        Ok(
            Dataset {
                x: Matrix { data, rows: n_samples as usize, cols: n_features as usize },
                labels,
                class_names,
            },
        )
    }
}

/// The one-hot coding of `labels` over `n_classes` classes: row `i` holds `on`
/// in column `labels[i]` and `off` in every other column.
pub fn one_hot_encode<T: Copy>(labels: &[usize], n_classes: usize, on: T, off: T) -> (m: Matrix<T>)
    requires
        labels@.len() * n_classes <= usize::MAX,
    ensures
        m.wf(),
        m.rows == labels@.len(),
        m.cols == n_classes,
        forall|i: int, j: int|
            0 <= i < labels@.len() && 0 <= j < n_classes ==> #[trigger] m.at(i, j) == if labels@[i] == j {
                on
            } else {
                off
            },
{
    let n = labels.len();
    let mut data: Vec<T> = Vec::new();
    let mut i: usize = 0;
    while i < n
        invariant
            n == labels@.len(),
            n * n_classes <= usize::MAX,
            i <= n,
            data@.len() == i * n_classes,
            forall|a: int, j: int|
                0 <= a < i && 0 <= j < n_classes ==> #[trigger] data@[a * n_classes + j] == if labels@[a] == j {
                    on
                } else {
                    off
                },
        decreases n - i,
    {
        proof {
            assert((i + 1) * n_classes <= n * n_classes) by (nonlinear_arith)
                requires
                    i < n,
            ;
            assert((i + 1) * n_classes == i * n_classes + n_classes) by (nonlinear_arith);
        }
        let label = labels[i];
        let ghost start = data@;
        let mut j: usize = 0;
        while j < n_classes
            invariant
                i < n,
                n == labels@.len(),
                label == labels@[i as int],
                (i + 1) * n_classes <= usize::MAX,
                j <= n_classes,
                start.len() == i * n_classes,
                data@.len() == i * n_classes + j,
                data@.subrange(0, start.len() as int) == start,
                forall|k: int| 0 <= k < j ==> #[trigger] data@[i * n_classes + k] == if label == k {
                    on
                } else {
                    off
                },
            decreases n_classes - j,
        {
            if j == label {
                data.push(on);
            } else {
                data.push(off);
            }
            j = j + 1;
        }
        proof {
            assert forall|a: int, c: int|
                0 <= a < i + 1 && 0 <= c < n_classes implies #[trigger] data@[a * n_classes + c] == if labels@[a]
                == c {
                on
            } else {
                off
            } by {
                if a < i {
                    lemma_row_major_index(a, c, i as int, n_classes as int);
                    assert(data@[a * n_classes + c] == data@.subrange(0, start.len() as int)[a * n_classes + c]);
                }
            }
        }
        i = i + 1;
    }
    let m = Matrix { data, rows: n, cols: n_classes };
    assert forall|a: int, c: int|
        0 <= a < n && 0 <= c < n_classes implies #[trigger] m.at(a, c) == if labels@[a] == c {
            on
        } else {
            off
        } by {
        assert(m.at(a, c) == data@[a * n_classes + c]);
    }
    m
}

} // verus!
