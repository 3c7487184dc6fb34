//! Binary support vector machines: their support vectors, weights, bias and
//! kernel, and the byte layout of one machine inside a model file.
pub mod kernel;
pub mod multiclass;

use vstd::prelude::*;
use crate::codec::{
    agrees, enc_words, le_u32, lemma_take_words_fields, u32_at, words_stored_at, lemma_enc_words_len, lemma_take_u32_written,
    lemma_take_words_written, put_u32, put_words, read_u32, read_u8, read_words, take_u32,
    take_u8, take_words, DecodeError, DecodeErrorV, Parsed,
};
use crate::tensor::{Matrix, MatrixV};
use self::kernel::Kernel;

verus! {

/// A trained binary SVM: one row of `support_vectors` per support vector,
/// with its signed weight `alpha * y` in `sv_weights`.
pub struct SVM<T> {
    pub support_vectors: Matrix<T>,
    pub sv_weights: Vec<T>,
    pub bias: T,
    pub kernel: Kernel<T>,
}

/// The mathematical content of an SVM.
pub struct SvmV<T> {
    pub support_vectors: MatrixV<T>,
    pub sv_weights: Seq<T>,
    pub bias: T,
    pub kernel: Kernel<T>,
}

impl<T> View for SVM<T> {
    type V = SvmV<T>;

    open spec fn view(&self) -> SvmV<T> {
        SvmV {
            support_vectors: self.support_vectors@,
            sv_weights: self.sv_weights@,
            bias: self.bias,
            kernel: self.kernel,
        }
    }
}

impl<T> SVM<T> {
    /// The number of support vectors kept.
    pub fn n_support_vectors(&self) -> (n: usize)
        ensures
            n == self.support_vectors.rows,
    {
        self.support_vectors.rows
    }
}

// ---------------------------------------------------------------------------
// Layout of one machine:
//   kernel tag (u8: 0 linear, 1 RBF), gamma (32-bit pattern, 0 for linear),
//   bias, support vector count n (u32), feature count f (u32),
//   n weights, then the n x f support vectors.
// ---------------------------------------------------------------------------

/// Reads one machine.
pub open spec fn take_svm(b: Seq<u8>, pos: int) -> Parsed<SvmV<u32>> {
    match take_u8(b, pos) {
        Ok((tag, p1)) => match take_u32(b, p1) {
            Ok((gamma, p2)) => match take_u32(b, p2) {
                Ok((bias, p3)) => if tag != 0 && tag != 1 {
                    Err(DecodeErrorV::UnknownKernel(tag))
                } else {
                    match take_u32(b, p3) {
                        Ok((n_sv, p4)) => match take_u32(b, p4) {
                            Ok((n_features, p5)) => match take_words(b, p5, n_sv as int) {
                                Ok((w, p6)) => match take_words(b, p6, n_sv * n_features) {
                                    Ok((data, p7)) => Ok(
                                        (
                                            SvmV {
                                                support_vectors: MatrixV {
                                                    rows: n_sv as nat,
                                                    cols: n_features as nat,
                                                    data,
                                                },
                                                sv_weights: w,
                                                bias,
                                                kernel: if tag == 0 {
                                                    Kernel::Linear
                                                } else {
                                                    Kernel::Rbf { gamma }
                                                },
                                            },
                                            p7,
                                        ),
                                    ),
                                    Err(e) => Err(e),
                                },
                                Err(e) => Err(e),
                            },
                            Err(e) => Err(e),
                        },
                        Err(e) => Err(e),
                    }
                },
                Err(e) => Err(e),
            },
            Err(e) => Err(e),
        },
        Err(e) => Err(e),
    }
}

/// The tag and gamma stored for a kernel.
pub open spec fn kernel_tag(k: Kernel<u32>) -> u8 {
    match k {
        Kernel::Linear => 0,
        Kernel::Rbf { .. } => 1,
    }
}

/// The gamma word stored for a kernel.
pub open spec fn kernel_gamma(k: Kernel<u32>) -> u32 {
    match k {
        Kernel::Linear => 0,
        Kernel::Rbf { gamma } => gamma,
    }
}

/// The bytes of one machine.
pub open spec fn enc_svm(s: SvmV<u32>) -> Seq<u8> {
    seq![kernel_tag(s.kernel)] + le_u32(kernel_gamma(s.kernel)) + le_u32(s.bias) + le_u32(
        s.support_vectors.rows as u32,
    ) + le_u32(s.support_vectors.cols as u32) + enc_words(s.sv_weights) + enc_words(
        s.support_vectors.data,
    )
}

/// A machine that the layout holds and reads back unchanged.
pub open spec fn svm_fits(s: SvmV<u32>) -> bool {
    &&& s.support_vectors.wf()
    &&& s.support_vectors.rows <= u32::MAX
    &&& s.support_vectors.cols <= u32::MAX
    &&& s.sv_weights.len() == s.support_vectors.rows
}

/// A written machine is read back.
pub proof fn lemma_take_svm_written(b: Seq<u8>, pos: int, s: SvmV<u32>)
    requires
        0 <= pos,
        svm_fits(s),
        pos + enc_svm(s).len() <= b.len(),
        b.subrange(pos, pos + enc_svm(s).len()) == enc_svm(s),
    ensures
        take_svm(b, pos) == Ok::<(SvmV<u32>, int), DecodeErrorV>((s, pos + enc_svm(s).len())),
{
    let whole = b.subrange(pos, pos + enc_svm(s).len());
    let e = enc_svm(s);
    lemma_enc_words_len(s.sv_weights);
    lemma_enc_words_len(s.support_vectors.data);
    let w = 4 * s.sv_weights.len() as int;
    let d = 4 * s.support_vectors.data.len() as int;
    assert(b[pos] == whole[0]);
    assert(e[0] == kernel_tag(s.kernel));
    assert(b.subrange(pos + 1, pos + 5) == whole.subrange(1, 5));
    assert(e.subrange(1, 5) == le_u32(kernel_gamma(s.kernel)));
    lemma_take_u32_written(b, pos + 1, kernel_gamma(s.kernel));
    assert(b.subrange(pos + 5, pos + 9) == whole.subrange(5, 9));
    assert(e.subrange(5, 9) == le_u32(s.bias));
    lemma_take_u32_written(b, pos + 5, s.bias);
    assert(b.subrange(pos + 9, pos + 13) == whole.subrange(9, 13));
    assert(e.subrange(9, 13) == le_u32(s.support_vectors.rows as u32));
    lemma_take_u32_written(b, pos + 9, s.support_vectors.rows as u32);
    assert(b.subrange(pos + 13, pos + 17) == whole.subrange(13, 17));
    assert(e.subrange(13, 17) == le_u32(s.support_vectors.cols as u32));
    lemma_take_u32_written(b, pos + 13, s.support_vectors.cols as u32);
    assert(b.subrange(pos + 17, pos + 17 + w) == whole.subrange(17, 17 + w));
    assert(e.subrange(17, 17 + w) == enc_words(s.sv_weights));
    lemma_take_words_written(b, pos + 17, s.sv_weights);
    assert(b.subrange(pos + 17 + w, pos + 17 + w + d) == whole.subrange(17 + w, 17 + w + d));
    assert(e.subrange(17 + w, 17 + w + d) == enc_words(s.support_vectors.data));
    lemma_take_words_written(b, pos + 17 + w, s.support_vectors.data);
    assert((s.support_vectors.rows as u32) as int * (s.support_vectors.cols as u32) as int
        == s.support_vectors.data.len());
    match s.kernel {
        Kernel::Linear => {},
        Kernel::Rbf { gamma } => {},
    }
}

/// Law (layout of one machine): the kernel tag (0 linear, 1 RBF) in byte 0,
/// the RBF gamma (0 for a linear kernel) in bytes 1..5, the bias in bytes
/// 5..9, the support vector count and feature count, the weights, then the
/// support vectors row by row.
pub proof fn lemma_svm_layout(s: SvmV<u32>)
    ensures
        ({
            let e = enc_svm(s);
            let w: int = 4 * (s.sv_weights.len() as int);
            let d: int = 4 * (s.support_vectors.data.len() as int);
            &&& e.len() == 17 + w + d
            &&& (s.kernel matches Kernel::Linear ==> e[0] == 0 && e.subrange(1, 5) == le_u32(0))
            &&& (s.kernel matches Kernel::Rbf { gamma } ==> e[0] == 1 && e.subrange(1, 5) == le_u32(
                gamma,
            ))
            &&& e.subrange(5, 9) == le_u32(s.bias)
            &&& e.subrange(9, 13) == le_u32(s.support_vectors.rows as u32)
            &&& e.subrange(13, 17) == le_u32(s.support_vectors.cols as u32)
            &&& e.subrange(17, 17 + w) == enc_words(s.sv_weights)
            &&& e.subrange(17 + w, 17 + w + d) == enc_words(s.support_vectors.data)
        }),
{
    lemma_enc_words_len(s.sv_weights);
    lemma_enc_words_len(s.support_vectors.data);
    let e = enc_svm(s);
    let w: int = 4 * (s.sv_weights.len() as int);
    let d: int = 4 * (s.support_vectors.data.len() as int);
    let g: u32 = match s.kernel {
        Kernel::Linear => 0,
        Kernel::Rbf { gamma } => gamma,
    };
    let t: u8 = match s.kernel {
        Kernel::Linear => 0,
        Kernel::Rbf { .. } => 1,
    };
    let parts = seq![t] + le_u32(g) + le_u32(s.bias) + le_u32(s.support_vectors.rows as u32) + le_u32(
        s.support_vectors.cols as u32,
    ) + enc_words(s.sv_weights) + enc_words(s.support_vectors.data);
    assert(e =~= parts);
    assert(e.subrange(1, 5) =~= le_u32(g));
    assert(e.subrange(5, 9) =~= le_u32(s.bias));
    assert(e.subrange(9, 13) =~= le_u32(s.support_vectors.rows as u32));
    assert(e.subrange(13, 17) =~= le_u32(s.support_vectors.cols as u32));
    assert(e.subrange(17, 17 + w) =~= enc_words(s.sv_weights));
    assert(e.subrange(17 + w, 17 + w + d) =~= enc_words(s.support_vectors.data));
}

/// Law (reading one machine at `pos`): byte `pos` is the kernel tag, 0 for a
/// linear kernel and 1 for an RBF kernel whose gamma is the word at `pos + 1`;
/// the bias is the word at `pos + 5`; the support vector count and feature
/// count are the words at `pos + 9` and `pos + 13`; the weights are stored from
/// `pos + 17` and the support vectors right after them; reading ends after the
/// support vectors.
pub proof fn lemma_svm_fields(b: Seq<u8>, pos: int)
    ensures
        take_svm(b, pos) matches Ok((s, p)) ==> {
            let n = s.support_vectors.rows as int;
            let f = s.support_vectors.cols as int;
            &&& 0 <= pos
            &&& pos + 17 <= b.len()
            &&& (b[pos] == 0 && s.kernel == Kernel::<u32>::Linear) || (b[pos] == 1 && s.kernel
                == Kernel::Rbf { gamma: u32_at(b, pos + 1) })
            &&& s.bias == u32_at(b, pos + 5)
            &&& n == u32_at(b, pos + 9)
            &&& f == u32_at(b, pos + 13)
            &&& s.sv_weights.len() == n
            &&& words_stored_at(b, pos + 17, s.sv_weights)
            &&& s.support_vectors.data.len() == n * f
            &&& words_stored_at(b, pos + 17 + 4 * n, s.support_vectors.data)
            &&& p == pos + 17 + 4 * n + 4 * (n * f)
        },
{
    if take_svm(b, pos) is Ok {
        let n = u32_at(b, pos + 9);
        let f = u32_at(b, pos + 13);
        lemma_take_words_fields(b, pos + 17, n as int);
        lemma_take_words_fields(b, pos + 17 + 4 * n, n * f);
    }
}

impl SVM<u32> {
    /// Appends the bytes of this machine.
    pub fn write_to(&self, buf: &mut Vec<u8>)
        ensures
            final(buf)@ == old(buf)@ + enc_svm(self@),
            ({
                let b = final(buf)@;
                let at: int = old(buf)@.len() as int;
                let w: int = 4 * (self.sv_weights@.len() as int);
                let d: int = 4 * (self.support_vectors.data@.len() as int);
                &&& b.len() == at + 17 + w + d
                &&& b.subrange(0, at) == old(buf)@
                &&& (self.kernel matches Kernel::Linear ==> b[at] == 0 && b.subrange(at + 1, at + 5)
                    == le_u32(0))
                &&& (self.kernel matches Kernel::Rbf { gamma } ==> b[at] == 1 && b.subrange(
                    at + 1,
                    at + 5,
                ) == le_u32(gamma))
                &&& b.subrange(at + 5, at + 9) == le_u32(self.bias)
                &&& b.subrange(at + 9, at + 13) == le_u32(self.support_vectors.rows as u32)
                &&& b.subrange(at + 13, at + 17) == le_u32(self.support_vectors.cols as u32)
                &&& b.subrange(at + 17, at + 17 + w) == enc_words(self.sv_weights@)
                &&& b.subrange(at + 17 + w, at + 17 + w + d) == enc_words(self.support_vectors.data@)
            }),
    {
        let (tag, gamma): (u8, u32) = match self.kernel {
            Kernel::Linear => (0, 0),
            Kernel::Rbf { gamma } => (1, gamma),
        };
        buf.push(tag);
        put_u32(buf, gamma);
        put_u32(buf, self.bias);
        put_u32(buf, self.support_vectors.rows as u32);
        put_u32(buf, self.support_vectors.cols as u32);
        put_words(buf, &self.sv_weights);
        put_words(buf, &self.support_vectors.data);
        assert(final(buf)@ == old(buf)@ + enc_svm(self@)) by {
            assert(seq![tag] + le_u32(gamma) + le_u32(self.bias) + le_u32(self.support_vectors.rows as u32)
                + le_u32(self.support_vectors.cols as u32) + enc_words(self.sv_weights@) + enc_words(
                self.support_vectors.data@,
            ) == enc_svm(self@));
        }
        proof {
            let b = buf@;
            let at: int = old(buf)@.len() as int;
            let e = enc_svm(self@);
            lemma_svm_layout(self@);
            assert(b.subrange(0, at) =~= old(buf)@);
            assert(b.subrange(at, b.len() as int) =~= e);
            assert forall|i: int, j: int| 0 <= i <= j <= e.len() implies b.subrange(at + i, at + j)
                == #[trigger] e.subrange(i, j) by {
                assert(b.subrange(at + i, at + j) =~= e.subrange(i, j));
            }
            assert(b[at] == e[0]);
        }
    }

    /// Reads one machine at `pos`.
    pub fn read_from(b: &[u8], pos: usize) -> (r: Result<(SVM<u32>, usize), DecodeError>)
        ensures
            agrees(r, take_svm(b@, pos as int)),
            r matches Ok((s, _)) ==> s.support_vectors.wf(),
            r matches Ok((s, p)) ==> {
                let at: int = pos as int;
                let n = s.support_vectors.rows as int;
                let f = s.support_vectors.cols as int;
                &&& at + 17 <= b@.len()
                &&& (b@[at] == 0 && s.kernel == Kernel::<u32>::Linear) || (b@[at] == 1 && s.kernel
                    == Kernel::Rbf { gamma: u32_at(b@, at + 1) })
                &&& s.bias == u32_at(b@, at + 5)
                &&& n == u32_at(b@, at + 9)
                &&& f == u32_at(b@, at + 13)
                &&& s.sv_weights@.len() == n
                &&& words_stored_at(b@, at + 17, s.sv_weights@)
                &&& s.support_vectors.data@.len() == n * f
                &&& words_stored_at(b@, at + 17 + 4 * n, s.support_vectors.data@)
                &&& p == at + 17 + 4 * n + 4 * (n * f)
            },
    {
        proof {
            lemma_svm_fields(b@, pos as int);
        }
        let (tag, p1) = match read_u8(b, pos) {
            Ok(x) => x,
            Err(e) => {
                return Err(e);
            },
        };
        let (gamma, p2) = match read_u32(b, p1) {
            Ok(x) => x,
            Err(e) => {
                return Err(e);
            },
        };
        let (bias, p3) = match read_u32(b, p2) {
            Ok(x) => x,
            Err(e) => {
                return Err(e);
            },
        };
        let kernel = if tag == 0 {
            Kernel::Linear
        } else if tag == 1 {
            Kernel::Rbf { gamma }
        } else {
            return Err(DecodeError::UnknownKernel(tag));
        };
        let (n_sv, p4) = match read_u32(b, p3) {
            Ok(x) => x,
            Err(e) => {
                return Err(e);
            },
        };
        let (n_features, p5) = match read_u32(b, p4) {
            Ok(x) => x,
            Err(e) => {
                return Err(e);
            },
        };
        let (sv_weights, p6) = match read_words(b, p5, n_sv as u64) {
            Ok(x) => x,
            Err(e) => {
                return Err(e);
            },
        };
        proof {
            assert(n_sv as u64 * n_features as u64 <= u64::MAX) by (nonlinear_arith)
                requires
                    n_sv <= u32::MAX,
                    n_features <= u32::MAX,
            ;
        }
        let (data, p7) = match read_words(b, p6, n_sv as u64 * n_features as u64) {
            Ok(x) => x,
            Err(e) => {
                return Err(e);
            },
        };
        let svm = SVM {
            support_vectors: Matrix { data, rows: n_sv as usize, cols: n_features as usize },
            sv_weights,
            bias,
            kernel,
        };
        Ok((svm, p7))
    }
}

} // verus!
