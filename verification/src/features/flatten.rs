//! Raw-pixel features: every channel value of every pixel.
use vstd::prelude::*;
use crate::data::image::{LoadedImage, IMAGE_SIZE};

verus! {

/// The channel values of `image`, in storage order.
pub fn flatten<T: Copy>(image: &LoadedImage<T>) -> (features: Vec<T>)
    ensures
        features@ == image.pixels@,
{
    let mut out: Vec<T> = Vec::new();
    let n = image.pixels.len();
    let mut i: usize = 0;
    while i < n
        invariant
            n == image.pixels@.len(),
            i <= n,
            out@ == image.pixels@.subrange(0, i as int),
        decreases n - i,
    {
        out.push(image.pixels[i]);
        i = i + 1;
        assert(out@ == image.pixels@.subrange(0, i as int));
    }
    assert(image.pixels@.subrange(0, n as int) == image.pixels@);
    out
}

/// The number of raw-pixel features of an `IMAGE_SIZE x IMAGE_SIZE` RGB image.
pub fn feature_count() -> (n: usize)
    ensures
        n == IMAGE_SIZE * IMAGE_SIZE * 3,
        n == 3072,
{
    (IMAGE_SIZE * IMAGE_SIZE * 3) as usize
}

} // verus!
