//! Where k-means starts: `k` samples spread evenly through the dataset,
//! shifted by a seed.
use vstd::prelude::*;

verus! {

/// The spacing between the starting samples of `k` centers among `rows`.
pub open spec fn center_stride(rows: usize, k: usize) -> int {
    if k > 0 {
        rows as int / k as int
    } else {
        1
    }
}

/// The sample that center `c` starts from.
pub open spec fn initial_index(rows: usize, k: usize, seed: u64, c: int) -> int {
    (c * center_stride(rows, k) + (seed as usize)) % (rows as int)
}

/// The indices of the samples the `k` centers start from: center `c` starts
/// from sample `(c * (rows / k) + seed) % rows`.
pub fn kmeans_initial_indices(rows: usize, k: usize, seed: u64) -> (idx: Vec<usize>)
    requires
        k == 0 || rows > 0,
        k == 0 || (k - 1) * center_stride(rows, k) + (seed as usize) <= usize::MAX,
    ensures
        idx@.len() == k,
        forall|c: int| 0 <= c < k ==> #[trigger] idx@[c] == initial_index(rows, k, seed, c),
        forall|c: int| 0 <= c < k ==> #[trigger] idx@[c] < rows,
        forall|c: int|
            0 <= c < k ==> #[trigger] idx@[c] as int == (c * (rows as int / k as int) + (seed as usize) as int)
                % (rows as int),
{
    let stride: usize = if k > 0 {
        rows / k
    } else {
        1
    };
    let shift = seed as usize;
    let mut idx: Vec<usize> = Vec::new();
    let mut c: usize = 0;
    while c < k
        invariant
            c <= k,
            k > 0 ==> rows > 0,
            stride == center_stride(rows, k),
            shift == seed as usize,
            k == 0 || (k - 1) * stride + shift <= usize::MAX,
            idx@.len() == c,
            forall|a: int| 0 <= a < c ==> #[trigger] idx@[a] == initial_index(rows, k, seed, a),
            forall|a: int| 0 <= a < c ==> #[trigger] idx@[a] < rows,
        decreases k - c,
    {
        proof {
            assert(c * stride <= (k - 1) * stride) by (nonlinear_arith)
                requires
                    c <= k - 1,
                    0 <= stride,
            ;
        }
        let v = (c * stride + shift) % rows;
        idx.push(v);
        c = c + 1;
    }
    idx
}

} // verus!
