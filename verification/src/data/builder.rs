//! Accumulating the samples of a dataset as they are read.
use vstd::prelude::*;
use crate::tensor::Matrix;
use super::Dataset;

verus! {

/// The samples read so far: their features one after the other and their
/// labels. `n_features` is the feature length fixed by the first sample.
pub struct SampleCollector<T> {
    pub x_data: Vec<T>,
    pub labels: Vec<usize>,
    pub n_features: Option<usize>,
}

impl<T> SampleCollector<T> {
    /// The features fill whole rows, one per label, of the fixed length.
    pub open spec fn wf(&self) -> bool {
        match self.n_features {
            Some(f) => self.x_data@.len() == self.labels@.len() * f,
            None => self.x_data@.len() == 0 && self.labels@.len() == 0,
        }
    }
}

impl<T: Copy> SampleCollector<T> {
    /// No sample yet.
    pub fn new() -> (c: Self)
        ensures
            c.wf(),
            c.x_data@.len() == 0,
            c.labels@.len() == 0,
            c.n_features is None,
    {
        SampleCollector { x_data: Vec::new(), labels: Vec::new(), n_features: None }
    }

    /// Adds a sample of class `label`. The first sample fixes the feature
    /// length; a later sample of another length is refused with
    /// `Err((its length, the fixed length))` and nothing is added.
    pub fn add_sample(&mut self, features: &Vec<T>, label: usize) -> (r: Result<(), (usize, usize)>)
        requires
            old(self).wf(),
            old(self).x_data@.len() + features@.len() <= usize::MAX,
        ensures
            final(self).wf(),
            match old(self).n_features {
                Some(f) if f != features@.len() => r == Err::<(), (usize, usize)>((features@.len() as usize, f))
                    && *final(self) == *old(self),
                _ => r is Ok && final(self).n_features == Some(features@.len() as usize) && final(self).x_data@
                    == old(self).x_data@ + features@ && final(self).labels@ == old(self).labels@.push(
                    label,
                ),
            },
    {
        let len = features.len();
        match self.n_features {
            Some(f) => {
                if f != len {
                    return Err((len, f));
                }
            },
            None => {
                self.n_features = Some(len);
            },
        }
        let ghost start = self.x_data@;
        let ghost labels0 = self.labels@;
        let ghost nf = self.n_features;
        assert(nf == Some(len));
        let mut i: usize = 0;
        while i < len
            invariant
                len == features@.len(),
                self.labels@ == labels0,
                self.n_features == nf,
                i <= len,
                start.len() + len <= usize::MAX,
                self.x_data@ == start + features@.subrange(0, i as int),
            decreases len - i,
        {
            self.x_data.push(features[i]);
            i = i + 1;
            assert(self.x_data@ == start + features@.subrange(0, i as int));
        }
        assert(features@.subrange(0, len as int) == features@);
        self.labels.push(label);
        proof {
            let f = len as int;
            let k = old(self).labels@.len() as int;
            if old(self).n_features is Some {
                assert(start.len() == k * f);
            } else {
                assert(k == 0);
            }
            assert((k + 1) * f == k * f + f) by (nonlinear_arith);
        }
        Ok(())
    }

    /// The dataset of the collected samples: one row per sample, as many
    /// columns as the fixed feature length (none if there is no sample).
    pub fn into_dataset(self, class_names: Vec<String>) -> (d: Dataset<T>)
        requires
            self.wf(),
        ensures
            d.x.wf(),
            d.x.rows == self.labels@.len(),
            d.x.cols == match self.n_features {
                Some(f) => f,
                None => 0,
            },
            d.x.data@ == self.x_data@,
            d.labels@ == self.labels@,
            d.class_names@ == class_names@,
    {
        let n_samples = self.labels.len();
        let n_features = match self.n_features {
            Some(f) => f,
            None => 0,
        };
        Dataset {
            x: Matrix { data: self.x_data, rows: n_samples, cols: n_features },
            labels: self.labels,
            class_names,
        }
    }
}

} // verus!
