//! Reading an image folder class by class: the classes are its subdirectories
//! in string order, each class contributes at most a given number of samples,
//! and the samples are kept in class order.
use vstd::prelude::*;
use super::builder::SampleCollector;
use super::classes::{discover_classes, name_views, names_sorted, no_class_message};
use super::Dataset;
use crate::training::metrics::label_count;

verus! {

/// `count` samples respect the per-class limit (no limit: `None`).
pub open spec fn within_limit(count: nat, limit: Option<usize>) -> bool {
    match limit {
        Some(l) => count <= l,
        None => true,
    }
}

/// Every label is a class index, the labels never decrease, and no class has
/// more samples than the limit.
pub open spec fn class_ordered(labels: Seq<usize>, n_classes: nat, limit: Option<usize>) -> bool {
    &&& forall|i: int| 0 <= i < labels.len() ==> #[trigger] labels[i] < n_classes
    &&& forall|i: int, j: int| 0 <= i < j < labels.len() ==> #[trigger] labels[i] <= #[trigger] labels[j]
    &&& forall|c: int| #[trigger] within_limit(label_count(labels, c, labels.len() as int), limit)
}

/// Counting over a prefix does not see what comes after it.
proof fn lemma_label_count_prefix(s: Seq<usize>, x: usize, c: int, k: int)
    requires
        0 <= k <= s.len(),
    ensures
        label_count(s.push(x), c, k) == label_count(s, c, k),
    decreases k,
{
    if k > 0 {
        lemma_label_count_prefix(s, x, c, k - 1);
        assert(s.push(x)[k - 1] == s[k - 1]);
    }
}

/// Appending a label adds one to its own count and leaves the others.
proof fn lemma_label_count_push(s: Seq<usize>, x: usize, c: int)
    ensures
        label_count(s.push(x), c, s.len() + 1int) == label_count(s, c, s.len() as int) + if x == c {
            1nat
        } else {
            0nat
        },
{
    lemma_label_count_prefix(s, x, c, s.len() as int);
    assert(s.push(x)[s.len() as int] == x);
}

/// A count over the first `k` samples is at most `k`.
proof fn lemma_label_count_bound(s: Seq<usize>, c: int, k: int)
    requires
        0 <= k <= s.len(),
    ensures
        label_count(s, c, k) <= k,
    decreases k,
{
    if k > 0 {
        lemma_label_count_bound(s, c, k - 1);
    }
}

/// A class none of whose samples occur has count zero.
proof fn lemma_label_count_absent(s: Seq<usize>, c: int, k: int)
    requires
        0 <= k <= s.len(),
        forall|i: int| 0 <= i < k ==> s[i] != c,
    ensures
        label_count(s, c, k) == 0,
    decreases k,
{
    if k > 0 {
        lemma_label_count_absent(s, c, k - 1);
    }
}

/// The state of reading a folder: its classes, the limit per class, the class
/// being read (`class_index`, equal to the class count once every class is
/// done), how many samples it gave so far, and the samples read.
pub struct DatasetLoader<T> {
    pub class_names: Vec<String>,
    pub samples_per_class: Option<usize>,
    pub class_index: usize,
    pub loaded_for_class: usize,
    pub samples: SampleCollector<T>,
}

impl<T> DatasetLoader<T> {
    /// The samples are well formed, come in class order up to the class being
    /// read, respect the limit, and the class being read has given
    /// `loaded_for_class` of them.
    pub open spec fn wf(&self) -> bool {
        let labels = self.samples.labels@;
        &&& self.samples.wf()
        &&& self.class_index <= self.class_names@.len()
        &&& class_ordered(labels, self.class_names@.len(), self.samples_per_class)
        &&& forall|i: int| 0 <= i < labels.len() ==> #[trigger] labels[i] <= self.class_index
        &&& label_count(labels, self.class_index as int, labels.len() as int) == self.loaded_for_class
    }

    /// Whether the class being read may give one more sample.
    pub open spec fn accepts(&self) -> bool {
        &&& self.class_index < self.class_names@.len()
        &&& match self.samples_per_class {
            Some(l) => self.loaded_for_class < l,
            None => true,
        }
    }
}

impl<T: Copy> DatasetLoader<T> {
    /// Starts reading the folder `root` whose subdirectories are `dir_names`:
    /// the classes are those names in string order, and reading starts with
    /// the first. A folder without subdirectory is refused.
    pub fn new(dir_names: Vec<String>, root: &str, samples_per_class: Option<usize>) -> (r: Result<Self, String>)
        ensures
            match r {
                Ok(l) => {
                    &&& dir_names@.len() > 0
                    &&& l.wf()
                    &&& names_sorted(name_views(l.class_names@))
                    &&& l.class_names@.to_multiset() == dir_names@.to_multiset()
                    &&& l.samples_per_class == samples_per_class
                    &&& l.class_index == 0
                    &&& l.samples.labels@.len() == 0
                    &&& l.samples.x_data@.len() == 0
                    &&& l.samples.n_features is None
                },
                Err(msg) => dir_names@.len() == 0 && msg@ == no_class_message(root@),
            },
    {
        let class_names = match discover_classes(dir_names, root) {
            Ok(names) => names,
            Err(msg) => {
                return Err(msg);
            },
        };
        let l = DatasetLoader {
            class_names,
            samples_per_class,
            class_index: 0,
            loaded_for_class: 0,
            samples: SampleCollector::new(),
        };
        assert(label_count(l.samples.labels@, 0, 0) == 0);
        Ok(l)
    }

    /// Whether the class being read takes one more sample.
    pub fn wants_more(&self) -> (r: bool)
        ensures
            r == self.accepts(),
    {
        if self.class_index >= self.class_names.len() {
            return false;
        }
        match self.samples_per_class {
            Some(limit) => self.loaded_for_class < limit,
            None => true,
        }
    }

    /// Adds a sample of the class being read. A sample whose feature length
    /// differs from the first one's is refused with `Err((its length, the
    /// fixed length))`, and nothing changes.
    pub fn add_sample(&mut self, features: &Vec<T>) -> (r: Result<(), (usize, usize)>)
        requires
            old(self).wf(),
            old(self).accepts(),
            old(self).samples.x_data@.len() + features@.len() <= usize::MAX,
        ensures
            final(self).wf(),
            final(self).class_names == old(self).class_names,
            final(self).samples_per_class == old(self).samples_per_class,
            final(self).class_index == old(self).class_index,
            match old(self).samples.n_features {
                Some(f) if f != features@.len() => r == Err::<(), (usize, usize)>((features@.len() as usize, f))
                    && *final(self) == *old(self),
                _ => {
                    &&& r is Ok
                    &&& final(self).samples.x_data@ == old(self).samples.x_data@ + features@
                    &&& final(self).samples.labels@ == old(self).samples.labels@.push(old(self).class_index)
                    &&& final(self).loaded_for_class == old(self).loaded_for_class + 1
                },
            },
    {
        let ghost labels0 = self.samples.labels@;
        let ghost ci = self.class_index;
        let ghost n = self.class_names@.len();
        let ghost limit = self.samples_per_class;
        let r = self.samples.add_sample(features, self.class_index);
        if r.is_err() {
            return r;
        }
        let count = self.samples.labels.len();
        proof {
            lemma_label_count_push(labels0, ci, ci as int);
            lemma_label_count_bound(self.samples.labels@, ci as int, count as int);
        }
        self.loaded_for_class = self.loaded_for_class + 1;
        proof {
            let labels = self.samples.labels@;
            assert(labels == labels0.push(ci));
            assert forall|c: int| #[trigger] within_limit(label_count(labels, c, labels.len() as int), limit) by {
                lemma_label_count_push(labels0, ci, c);
                assert(within_limit(label_count(labels0, c, labels0.len() as int), limit));
            }
            assert forall|i: int, j: int| 0 <= i < j < labels.len() implies #[trigger] labels[i]
                <= #[trigger] labels[j] by {
                if j == labels0.len() {
                    assert(labels0[i] <= ci);
                } else {
                    assert(labels0[i] <= labels0[j]);
                }
            }
            assert forall|i: int| 0 <= i < labels.len() implies #[trigger] labels[i] < n && labels[i] <= ci by {
                if i < labels0.len() {
                    assert(labels0[i] < n);
                }
            }
            lemma_label_count_push(labels0, ci, ci as int);
        }
        r
    }

    /// The class being read is done: reading moves on to the next class.
    pub fn finish_class(&mut self)
        requires
            old(self).wf(),
            old(self).class_index < old(self).class_names@.len(),
        ensures
            final(self).wf(),
            final(self).class_names == old(self).class_names,
            final(self).samples_per_class == old(self).samples_per_class,
            final(self).samples == old(self).samples,
            final(self).class_index == old(self).class_index + 1,
            final(self).loaded_for_class == 0,
    {
        let n = self.class_names.len();
        assert(self.class_index < n);
        self.class_index = self.class_index + 1;
        self.loaded_for_class = 0;
        proof {
            let labels = self.samples.labels@;
            lemma_label_count_absent(labels, self.class_index as int, labels.len() as int);
        }
    }

    /// The dataset read: the classes in string order, and the samples in
    /// class order, each labelled with its class index, at most the limit per
    /// class.
    pub fn into_dataset(self) -> (d: Dataset<T>)
        requires
            self.wf(),
        ensures
            d.x.wf(),
            d.class_names@ == self.class_names@,
            d.labels@ == self.samples.labels@,
            d.x.data@ == self.samples.x_data@,
            d.x.rows == d.labels@.len(),
            d.x.cols == match self.samples.n_features {
                Some(f) => f,
                None => 0,
            },
            class_ordered(d.labels@, d.class_names@.len(), self.samples_per_class),
    {
        self.samples.into_dataset(self.class_names)
    }
}

} // verus!
