//! A radial-basis-function network: its centers, output weights and kernel
//! width, and its model file format.
pub mod centers;

use vstd::prelude::*;
use crate::codec::{
    enc_words, lemma_enc_words_len, lemma_take_matrix_fields, matrix_stored_at, u32_at,
    enc_header, enc_matrix, le_u32, lemma_header_written, lemma_take_matrix_written,
    lemma_take_u32_written, matrix_fits, put_header, put_matrix, put_u32, read_magic,
    read_matrix, read_u32, read_version, take_magic, take_matrix, take_u32, take_version,
    DecodeError, DecodeErrorV,
};
use crate::tensor::{Matrix, MatrixV};

verus! {

/// A trained RBF network: `centers` is `k x n_features`, `weights` is
/// `k x n_outputs`, and `gamma` is the width of the Gaussian basis.
pub struct RBFN<T> {
    pub centers: Matrix<T>,
    pub weights: Matrix<T>,
    pub gamma: T,
}

/// The mathematical content of an RBF network.
pub struct RbfnV<T> {
    pub centers: MatrixV<T>,
    pub weights: MatrixV<T>,
    pub gamma: T,
}

impl<T: Copy> View for RBFN<T> {
    type V = RbfnV<T>;

    open spec fn view(&self) -> RbfnV<T> {
        RbfnV { centers: self.centers@, weights: self.weights@, gamma: self.gamma }
    }
}

// ---------------------------------------------------------------------------
// Model file format:
//   "RBFv", version 1 (u32), gamma (32-bit pattern), centers (rows u32,
//   cols u32, elements), weights (rows u32, cols u32, elements).
// ---------------------------------------------------------------------------

/// The tag that starts an RBF network model file: "RBFv".
pub open spec fn rbfn_magic() -> Seq<u8> {
    seq![0x52u8, 0x42u8, 0x46u8, 0x76u8]
}

/// What an RBF network model file holds, or why it cannot be read. Bytes after
/// the weights are ignored.
pub open spec fn parse_rbfn(b: Seq<u8>) -> Result<RbfnV<u32>, DecodeErrorV> {
    match take_magic(b, rbfn_magic()) {
        Ok((_, p0)) => match take_version(b, p0) {
            Ok((_, p1)) => match take_u32(b, p1) {
                Ok((gamma, p2)) => match take_matrix(b, p2) {
                    Ok((centers, p3)) => match take_matrix(b, p3) {
                        Ok((weights, _)) => Ok(RbfnV { centers, weights, gamma }),
                        Err(e) => Err(e),
                    },
                    Err(e) => Err(e),
                },
                Err(e) => Err(e),
            },
            Err(e) => Err(e),
        },
        Err(e) => Err(e),
    }
}

/// The bytes of an RBF network model file.
pub open spec fn enc_rbfn(r: RbfnV<u32>) -> Seq<u8> {
    enc_header(rbfn_magic()) + le_u32(r.gamma) + enc_matrix(r.centers) + enc_matrix(r.weights)
}

/// Law: an RBF network written to bytes is read back unchanged, whatever
/// follows it, provided both matrix shapes fit in `u32` words.
pub proof fn lemma_rbfn_roundtrip(r: RbfnV<u32>, rest: Seq<u8>)
    requires
        matrix_fits(r.centers),
        matrix_fits(r.weights),
    ensures
        parse_rbfn(enc_rbfn(r) + rest) == Ok::<RbfnV<u32>, DecodeErrorV>(r),
{
    let b = enc_rbfn(r) + rest;
    let ec = enc_matrix(r.centers);
    let ew = enc_matrix(r.weights);
    let c = ec.len() as int;
    let w = ew.len() as int;
    assert(b.subrange(0, 8) == enc_header(rbfn_magic()));
    lemma_header_written(b, rbfn_magic());
    assert(b.subrange(8, 12) == le_u32(r.gamma));
    lemma_take_u32_written(b, 8, r.gamma);
    assert(b.subrange(12, 12 + c) == ec);
    lemma_take_matrix_written(b, 12, r.centers);
    assert(b.subrange(12 + c, 12 + c + w) == ew);
    lemma_take_matrix_written(b, 12 + c, r.weights);
}

/// Law (file layout, as the format documents it): the tag "RBFv", version 1,
/// gamma, then the centers' row count, column count and elements, then the
/// weights' row count, column count and elements.
pub proof fn lemma_rbfn_layout(r: RbfnV<u32>)
    ensures
        ({
            let b = enc_rbfn(r);
            let c: int = 4 * (r.centers.data.len() as int);
            let w: int = 4 * (r.weights.data.len() as int);
            &&& b.len() == 28 + c + w
            &&& b.subrange(0, 4) == seq![0x52u8, 0x42u8, 0x46u8, 0x76u8]
            &&& b.subrange(4, 8) == le_u32(1)
            &&& b.subrange(8, 12) == le_u32(r.gamma)
            &&& b.subrange(12, 16) == le_u32(r.centers.rows as u32)
            &&& b.subrange(16, 20) == le_u32(r.centers.cols as u32)
            &&& b.subrange(20, 20 + c) == enc_words(r.centers.data)
            &&& b.subrange(20 + c, 24 + c) == le_u32(r.weights.rows as u32)
            &&& b.subrange(24 + c, 28 + c) == le_u32(r.weights.cols as u32)
            &&& b.subrange(28 + c, 28 + c + w) == enc_words(r.weights.data)
        }),
{
    lemma_enc_words_len(r.centers.data);
    lemma_enc_words_len(r.weights.data);
    let b = enc_rbfn(r);
    let c: int = 4 * (r.centers.data.len() as int);
    let w: int = 4 * (r.weights.data.len() as int);
    let parts = seq![0x52u8, 0x42u8, 0x46u8, 0x76u8] + le_u32(1) + le_u32(r.gamma) + le_u32(r.centers.rows as u32)
        + le_u32(r.centers.cols as u32) + enc_words(r.centers.data) + le_u32(r.weights.rows as u32) + le_u32(
        r.weights.cols as u32,
    ) + enc_words(r.weights.data);
    assert(b =~= parts);
    assert(b.subrange(0, 4) =~= seq![0x52u8, 0x42u8, 0x46u8, 0x76u8]);
    assert(b.subrange(4, 8) =~= le_u32(1));
    assert(b.subrange(8, 12) =~= le_u32(r.gamma));
    assert(b.subrange(12, 16) =~= le_u32(r.centers.rows as u32));
    assert(b.subrange(16, 20) =~= le_u32(r.centers.cols as u32));
    assert(b.subrange(20, 20 + c) =~= enc_words(r.centers.data));
    assert(b.subrange(20 + c, 24 + c) =~= le_u32(r.weights.rows as u32));
    assert(b.subrange(24 + c, 28 + c) =~= le_u32(r.weights.cols as u32));
    assert(b.subrange(28 + c, 28 + c + w) =~= enc_words(r.weights.data));
}

/// Law (reading, as the format documents it): a network read from `b` has the
/// tag "RBFv" and version 1 in front, its gamma from bytes 8..12, its centers
/// stored from byte 12 and its weights stored right after the centers.
pub proof fn lemma_rbfn_fields(b: Seq<u8>)
    ensures
        parse_rbfn(b) matches Ok(m) ==> {
            &&& b.subrange(0, 4) == seq![0x52u8, 0x42u8, 0x46u8, 0x76u8]
            &&& u32_at(b, 4) == 1
            &&& 12 <= b.len()
            &&& m.gamma == u32_at(b, 8)
            &&& matrix_stored_at(b, 12, m.centers)
            &&& matrix_stored_at(b, 20 + 4 * (m.centers.data.len() as int), m.weights)
        },
{
    lemma_take_matrix_fields(b, 12);
    match take_matrix(b, 12) {
        Ok((c, p)) => {
            lemma_take_matrix_fields(b, p);
        },
        Err(_) => {},
    }
}

impl RBFN<u32> {
    /// The model file bytes of this network (values as 32-bit patterns).
    pub fn to_bytes(&self) -> (b: Vec<u8>)
        ensures
            b@ == enc_rbfn(self@),
            ({
                let c: int = 4 * (self.centers.data@.len() as int);
                let w: int = 4 * (self.weights.data@.len() as int);
                &&& b@.len() == 28 + c + w
                &&& b@.subrange(0, 4) == seq![0x52u8, 0x42u8, 0x46u8, 0x76u8]
                &&& b@.subrange(4, 8) == le_u32(1)
                &&& b@.subrange(8, 12) == le_u32(self.gamma)
                &&& b@.subrange(12, 16) == le_u32(self.centers.rows as u32)
                &&& b@.subrange(16, 20) == le_u32(self.centers.cols as u32)
                &&& b@.subrange(20, 20 + c) == enc_words(self.centers.data@)
                &&& b@.subrange(20 + c, 24 + c) == le_u32(self.weights.rows as u32)
                &&& b@.subrange(24 + c, 28 + c) == le_u32(self.weights.cols as u32)
                &&& b@.subrange(28 + c, 28 + c + w) == enc_words(self.weights.data@)
            }),
    {
        proof {
            lemma_rbfn_layout(self@);
        }
        let mut buf: Vec<u8> = Vec::new();
        put_header(&mut buf, &[0x52u8, 0x42u8, 0x46u8, 0x76u8]);
        assert([0x52u8, 0x42u8, 0x46u8, 0x76u8]@ == rbfn_magic());
        put_u32(&mut buf, self.gamma);
        put_matrix(&mut buf, &self.centers);
        put_matrix(&mut buf, &self.weights);
        buf
    }

    /// Reads an RBF network model file.
    pub fn from_bytes(b: &[u8]) -> (r: Result<RBFN<u32>, DecodeError>)
        ensures
            match r {
                Ok(m) => parse_rbfn(b@) == Ok::<RbfnV<u32>, DecodeErrorV>(m@) && m.centers.wf()
                    && m.weights.wf(),
                Err(e) => parse_rbfn(b@) == Err::<RbfnV<u32>, DecodeErrorV>(e@),
            },
            r matches Ok(m) ==> {
                &&& b@.subrange(0, 4) == seq![0x52u8, 0x42u8, 0x46u8, 0x76u8]
                &&& u32_at(b@, 4) == 1
                &&& m.gamma == u32_at(b@, 8)
                &&& matrix_stored_at(b@, 12, m.centers@)
                &&& matrix_stored_at(b@, 20 + 4 * (m.centers.data@.len() as int), m.weights@)
            },
    {
        proof {
            lemma_rbfn_fields(b@);
        }
        let (_, p0) = match read_magic(b, &[0x52u8, 0x42u8, 0x46u8, 0x76u8]) {
            Ok(x) => x,
            Err(e) => {
                return Err(e);
            },
        };
        assert([0x52u8, 0x42u8, 0x46u8, 0x76u8]@ == rbfn_magic());
        let (_, p1) = match read_version(b, p0) {
            Ok(x) => x,
            Err(e) => {
                return Err(e);
            },
        };
        let (gamma, p2) = match read_u32(b, p1) {
            Ok(x) => x,
            Err(e) => {
                return Err(e);
            },
        };
        let (centers, p3) = match read_matrix(b, p2) {
            Ok(x) => x,
            Err(e) => {
                return Err(e);
            },
        };
        let (weights, _) = match read_matrix(b, p3) {
            Ok(x) => x,
            Err(e) => {
                return Err(e);
            },
        };
        Ok(RBFN { centers, weights, gamma })
    }
}

} // verus!
