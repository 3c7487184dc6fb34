//! Model file format of the three-class perceptron classifier:
//!   "RBLC", version 1 (u32), then for the cat, cheetah and lion perceptrons in
//!   that order: a seed (u64), the learning rate and the bias (32-bit
//!   patterns), weight rows (u32), weight columns (u32), the weights.
use vstd::prelude::*;
use crate::codec::{
    enc_header, enc_matrix, enc_words, le_u32, le_u64, lemma_enc_words_len,
    lemma_take_matrix_fields, matrix_stored_at, u32_at, u64_at, lemma_header_written, lemma_take_matrix_written,
    lemma_take_u32_written, lemma_take_u64_written, matrix_fits, put_header, put_matrix,
    put_u32, put_u64, read_magic, read_matrix, read_u32, read_u64, read_version, take_magic,
    take_matrix, take_u32, take_u64, take_version, DecodeError, DecodeErrorV, Parsed,
};
use super::{Rosenblatt, RosenblattClassifier, RosenblattClassifierV, RosenblattV};

verus! {

/// The tag that starts a perceptron classifier model file: "RBLC".
pub open spec fn rblc_magic() -> Seq<u8> {
    seq![0x52u8, 0x42u8, 0x4Cu8, 0x43u8]
}

/// Reads one perceptron and the seed stored with it.
pub open spec fn take_perceptron(b: Seq<u8>, pos: int) -> Parsed<(u64, RosenblattV<u32>)> {
    match take_u64(b, pos) {
        Ok((seed, p1)) => match take_u32(b, p1) {
            Ok((lr, p2)) => match take_u32(b, p2) {
                Ok((bias, p3)) => match take_matrix(b, p3) {
                    Ok((w, p4)) => Ok(((seed, RosenblattV { learning_rate: lr, weights: w, bias }), p4)),
                    Err(e) => Err(e),
                },
                Err(e) => Err(e),
            },
            Err(e) => Err(e),
        },
        Err(e) => Err(e),
    }
}

/// What a perceptron classifier model file holds, or why it cannot be read.
///
/// The perceptrons are stored as cat, cheetah, lion with seeds `s0, s1, s2`;
/// the seeds are handed back in the order `[s0, s2, s1]`.
pub open spec fn parse_rblc(b: Seq<u8>) -> Result<(RosenblattClassifierV<u32>, Seq<u64>), DecodeErrorV> {
    match take_magic(b, rblc_magic()) {
        Ok((_, p0)) => match take_version(b, p0) {
            Ok((_, p1)) => match take_perceptron(b, p1) {
                Ok(((s0, cat), p2)) => match take_perceptron(b, p2) {
                    Ok(((s1, cheetah), p3)) => match take_perceptron(b, p3) {
                        Ok(((s2, lion), _)) => Ok(
                            (RosenblattClassifierV { cat, lion, cheetah }, seq![s0, s2, s1]),
                        ),
                        Err(e) => Err(e),
                    },
                    Err(e) => Err(e),
                },
                Err(e) => Err(e),
            },
            Err(e) => Err(e),
        },
        Err(e) => Err(e),
    }
}

/// The bytes of one perceptron with its seed.
pub open spec fn enc_perceptron(seed: u64, r: RosenblattV<u32>) -> Seq<u8> {
    le_u64(seed) + le_u32(r.learning_rate) + le_u32(r.bias) + enc_matrix(r.weights)
}

/// The bytes of a perceptron classifier model file with the given seeds.
pub open spec fn enc_rblc(c: RosenblattClassifierV<u32>, seeds: Seq<u64>) -> Seq<u8> {
    enc_header(rblc_magic()) + enc_perceptron(seeds[0], c.cat) + enc_perceptron(seeds[1], c.cheetah)
        + enc_perceptron(seeds[2], c.lion)
}

/// A written perceptron is read back.
pub proof fn lemma_take_perceptron_written(b: Seq<u8>, pos: int, seed: u64, r: RosenblattV<u32>)
    requires
        0 <= pos,
        matrix_fits(r.weights),
        pos + enc_perceptron(seed, r).len() <= b.len(),
        b.subrange(pos, pos + enc_perceptron(seed, r).len()) == enc_perceptron(seed, r),
    ensures
        take_perceptron(b, pos) == Ok::<((u64, RosenblattV<u32>), int), DecodeErrorV>(
            ((seed, r), pos + enc_perceptron(seed, r).len()),
        ),
{
    let e = enc_perceptron(seed, r);
    let whole = b.subrange(pos, pos + e.len());
    let m = enc_matrix(r.weights).len() as int;
    assert(b.subrange(pos, pos + 8) == whole.subrange(0, 8));
    assert(e.subrange(0, 8) == le_u64(seed));
    lemma_take_u64_written(b, pos, seed);
    assert(b.subrange(pos + 8, pos + 12) == whole.subrange(8, 12));
    assert(e.subrange(8, 12) == le_u32(r.learning_rate));
    lemma_take_u32_written(b, pos + 8, r.learning_rate);
    assert(b.subrange(pos + 12, pos + 16) == whole.subrange(12, 16));
    assert(e.subrange(12, 16) == le_u32(r.bias));
    lemma_take_u32_written(b, pos + 12, r.bias);
    assert(b.subrange(pos + 16, pos + 16 + m) == whole.subrange(16, 16 + m));
    assert(e.subrange(16, 16 + m) == enc_matrix(r.weights));
    lemma_take_matrix_written(b, pos + 16, r.weights);
}

/// Law: a classifier saved with seeds `[a, b, c]` is read back unchanged, with
/// the seeds `[a, c, b]`, whatever follows it.
pub proof fn lemma_rblc_roundtrip(c: RosenblattClassifierV<u32>, seeds: Seq<u64>, rest: Seq<u8>)
    requires
        seeds.len() == 3,
        matrix_fits(c.cat.weights),
        matrix_fits(c.lion.weights),
        matrix_fits(c.cheetah.weights),
    ensures
        parse_rblc(enc_rblc(c, seeds) + rest) == Ok::<
            (RosenblattClassifierV<u32>, Seq<u64>),
            DecodeErrorV,
        >((c, seq![seeds[0], seeds[2], seeds[1]])),
{
    let b = enc_rblc(c, seeds) + rest;
    let e0 = enc_perceptron(seeds[0], c.cat);
    let e1 = enc_perceptron(seeds[1], c.cheetah);
    let e2 = enc_perceptron(seeds[2], c.lion);
    let x = e0.len() as int;
    let y = e1.len() as int;
    let z = e2.len() as int;
    assert(b.subrange(0, 8) == enc_header(rblc_magic()));
    lemma_header_written(b, rblc_magic());
    assert(b.subrange(8, 8 + x) == e0);
    lemma_take_perceptron_written(b, 8, seeds[0], c.cat);
    assert(b.subrange(8 + x, 8 + x + y) == e1);
    lemma_take_perceptron_written(b, 8 + x, seeds[1], c.cheetah);
    assert(b.subrange(8 + x + y, 8 + x + y + z) == e2);
    lemma_take_perceptron_written(b, 8 + x + y, seeds[2], c.lion);
}

/// Law (layout of one perceptron): its seed in bytes 0..8, its learning rate
/// in 8..12, its bias in 12..16, its weight matrix's row and column counts in
/// 16..24, then the weights row by row.
pub proof fn lemma_perceptron_layout(seed: u64, r: RosenblattV<u32>)
    ensures
        ({
            let e = enc_perceptron(seed, r);
            let w: int = 4 * (r.weights.data.len() as int);
            &&& e.len() == 24 + w
            &&& e.subrange(0, 8) == le_u64(seed)
            &&& e.subrange(8, 12) == le_u32(r.learning_rate)
            &&& e.subrange(12, 16) == le_u32(r.bias)
            &&& e.subrange(16, 20) == le_u32(r.weights.rows as u32)
            &&& e.subrange(20, 24) == le_u32(r.weights.cols as u32)
            &&& e.subrange(24, 24 + w) == enc_words(r.weights.data)
        }),
{
    lemma_enc_words_len(r.weights.data);
    let e = enc_perceptron(seed, r);
    let w: int = 4 * (r.weights.data.len() as int);
    let parts = le_u64(seed) + le_u32(r.learning_rate) + le_u32(r.bias) + le_u32(r.weights.rows as u32)
        + le_u32(r.weights.cols as u32) + enc_words(r.weights.data);
    assert(e =~= parts);
    assert(e.subrange(0, 8) =~= le_u64(seed));
    assert(e.subrange(8, 12) =~= le_u32(r.learning_rate));
    assert(e.subrange(12, 16) =~= le_u32(r.bias));
    assert(e.subrange(16, 20) =~= le_u32(r.weights.rows as u32));
    assert(e.subrange(20, 24) =~= le_u32(r.weights.cols as u32));
    assert(e.subrange(24, 24 + w) =~= enc_words(r.weights.data));
}

/// Law (reading one perceptron at `pos`): the seed is the 64-bit word at
/// `pos`, the learning rate the word at `pos + 8`, the bias the word at
/// `pos + 12`, and the weight matrix is stored from `pos + 16`; reading ends
/// after the weights.
pub proof fn lemma_perceptron_fields(b: Seq<u8>, pos: int)
    ensures
        take_perceptron(b, pos) matches Ok(((seed, r), p)) ==> {
            &&& 0 <= pos
            &&& seed == u64_at(b, pos)
            &&& r.learning_rate == u32_at(b, pos + 8)
            &&& r.bias == u32_at(b, pos + 12)
            &&& matrix_stored_at(b, pos + 16, r.weights)
            &&& p == pos + 24 + 4 * r.weights.data.len()
        },
{
    lemma_take_matrix_fields(b, pos + 16);
}

/// Law (classifier file layout): the tag "RBLC" and version 1, then the cat
/// perceptron with the first seed, the cheetah perceptron with the second
/// seed and the lion perceptron with the third seed, one after the other.
pub proof fn lemma_rblc_layout(c: RosenblattClassifierV<u32>, seeds: Seq<u64>)
    requires
        seeds.len() == 3,
    ensures
        ({
            let e = enc_rblc(c, seeds);
            let x: int = 24 + 4 * (c.cat.weights.data.len() as int);
            let y: int = 24 + 4 * (c.cheetah.weights.data.len() as int);
            let z: int = 24 + 4 * (c.lion.weights.data.len() as int);
            &&& e.len() == 8 + x + y + z
            &&& e.subrange(0, 4) == seq![0x52u8, 0x42u8, 0x4Cu8, 0x43u8]
            &&& e.subrange(4, 8) == le_u32(1)
            &&& e.subrange(8, 8 + x) == enc_perceptron(seeds[0], c.cat)
            &&& e.subrange(8 + x, 8 + x + y) == enc_perceptron(seeds[1], c.cheetah)
            &&& e.subrange(8 + x + y, 8 + x + y + z) == enc_perceptron(seeds[2], c.lion)
        }),
{
    lemma_perceptron_layout(seeds[0], c.cat);
    lemma_perceptron_layout(seeds[1], c.cheetah);
    lemma_perceptron_layout(seeds[2], c.lion);
    let e = enc_rblc(c, seeds);
    let x: int = 24 + 4 * (c.cat.weights.data.len() as int);
    let y: int = 24 + 4 * (c.cheetah.weights.data.len() as int);
    let z: int = 24 + 4 * (c.lion.weights.data.len() as int);
    let e0 = enc_perceptron(seeds[0], c.cat);
    let e1 = enc_perceptron(seeds[1], c.cheetah);
    let e2 = enc_perceptron(seeds[2], c.lion);
    assert(e =~= seq![0x52u8, 0x42u8, 0x4Cu8, 0x43u8] + le_u32(1) + e0 + e1 + e2);
    assert(e.subrange(0, 4) =~= seq![0x52u8, 0x42u8, 0x4Cu8, 0x43u8]);
    assert(e.subrange(4, 8) =~= le_u32(1));
    assert(e.subrange(8, 8 + x) =~= e0);
    assert(e.subrange(8 + x, 8 + x + y) =~= e1);
    assert(e.subrange(8 + x + y, 8 + x + y + z) =~= e2);
}

/// Law (reading a classifier file): the tag "RBLC" and version 1 in front;
/// from byte 8 the cat perceptron with its seed, then the cheetah perceptron,
/// then the lion perceptron, each read where the one before it ended. The
/// seeds come back as `[cat seed, lion seed, cheetah seed]`.
pub proof fn lemma_rblc_fields(b: Seq<u8>)
    ensures
        parse_rblc(b) matches Ok((c, seeds)) ==> {
            let p1: int = 32 + 4 * (c.cat.weights.data.len() as int);
            let p2: int = p1 + 24 + 4 * (c.cheetah.weights.data.len() as int);
            &&& 8 <= b.len()
            &&& b.subrange(0, 4) == seq![0x52u8, 0x42u8, 0x4Cu8, 0x43u8]
            &&& u32_at(b, 4) == 1
            &&& seeds.len() == 3
            &&& take_perceptron(b, 8) == Ok::<((u64, RosenblattV<u32>), int), DecodeErrorV>(
                ((seeds[0], c.cat), p1),
            )
            &&& take_perceptron(b, p1) == Ok::<((u64, RosenblattV<u32>), int), DecodeErrorV>(
                ((seeds[2], c.cheetah), p2),
            )
            &&& take_perceptron(b, p2) matches Ok(((s, lion), _)) && s == seeds[1] && lion == c.lion
        },
{
    lemma_perceptron_fields(b, 8);
    if take_perceptron(b, 8) is Ok {
        let p1 = take_perceptron(b, 8)->Ok_0.1;
        lemma_perceptron_fields(b, p1);
    }
}

/// Appends one perceptron with its seed.
fn put_perceptron(buf: &mut Vec<u8>, seed: u64, r: &Rosenblatt<u32>)
    ensures
        final(buf)@ == old(buf)@ + enc_perceptron(seed, r@),
{
    put_u64(buf, seed);
    put_u32(buf, r.learning_rate);
    put_u32(buf, r.bias);
    put_matrix(buf, &r.weights);
}

/// Reads one perceptron and its seed at `pos`.
fn read_perceptron(b: &[u8], pos: usize) -> (r: Result<((u64, Rosenblatt<u32>), usize), DecodeError>)
    ensures
        match r {
            Ok(((seed, p), n)) => take_perceptron(b@, pos as int) == Ok::<
                ((u64, RosenblattV<u32>), int),
                DecodeErrorV,
            >(((seed, p@), n as int)) && p.weights.wf(),
            Err(e) => take_perceptron(b@, pos as int) == Err::<
                ((u64, RosenblattV<u32>), int),
                DecodeErrorV,
            >(e@),
        },
{
    let (seed, p1) = match read_u64(b, pos) {
        Ok(x) => x,
        Err(e) => {
            return Err(e);
        },
    };
    let (learning_rate, p2) = match read_u32(b, p1) {
        Ok(x) => x,
        Err(e) => {
            return Err(e);
        },
    };
    let (bias, p3) = match read_u32(b, p2) {
        Ok(x) => x,
        Err(e) => {
            return Err(e);
        },
    };
    let (weights, p4) = match read_matrix(b, p3) {
        Ok(x) => x,
        Err(e) => {
            return Err(e);
        },
    };
    Ok(((seed, Rosenblatt { learning_rate, weights, bias }), p4))
}

impl RosenblattClassifier<u32> {
    /// The model file bytes of this classifier with the seeds of its cat,
    /// cheetah and lion perceptrons.
    pub fn to_bytes(&self, seeds: [u64; 3]) -> (b: Vec<u8>)
        ensures
            b@ == enc_rblc(self@, seeds@),
            ({
                let x: int = 24 + 4 * (self.cat.weights.data@.len() as int);
                let y: int = 24 + 4 * (self.cheetah.weights.data@.len() as int);
                let z: int = 24 + 4 * (self.lion.weights.data@.len() as int);
                &&& b@.len() == 8 + x + y + z
                &&& b@.subrange(0, 4) == seq![0x52u8, 0x42u8, 0x4Cu8, 0x43u8]
                &&& b@.subrange(4, 8) == le_u32(1)
                &&& b@.subrange(8, 8 + x) == enc_perceptron(seeds[0], self.cat@)
                &&& b@.subrange(8 + x, 8 + x + y) == enc_perceptron(seeds[1], self.cheetah@)
                &&& b@.subrange(8 + x + y, 8 + x + y + z) == enc_perceptron(seeds[2], self.lion@)
            }),
    {
        proof {
            lemma_rblc_layout(self@, seeds@);
        }
        let mut buf: Vec<u8> = Vec::new();
        put_header(&mut buf, &[0x52u8, 0x42u8, 0x4Cu8, 0x43u8]);
        assert([0x52u8, 0x42u8, 0x4Cu8, 0x43u8]@ == rblc_magic());
        put_perceptron(&mut buf, seeds[0], &self.cat);
        put_perceptron(&mut buf, seeds[1], &self.cheetah);
        put_perceptron(&mut buf, seeds[2], &self.lion);
        buf
    }

    /// Reads a perceptron classifier model file: the classifier and the seeds
    /// `[cat seed, lion seed as stored third, cheetah seed as stored second]`.
    pub fn from_bytes(b: &[u8]) -> (r: Result<(RosenblattClassifier<u32>, [u64; 3]), DecodeError>)
        ensures
            match r {
                Ok((c, seeds)) => parse_rblc(b@) == Ok::<
                    (RosenblattClassifierV<u32>, Seq<u64>),
                    DecodeErrorV,
                >((c@, seeds@)),
                Err(e) => parse_rblc(b@) == Err::<(RosenblattClassifierV<u32>, Seq<u64>), DecodeErrorV>(
                    e@,
                ),
            },
            r matches Ok((c, seeds)) ==> {
                let p1: int = 32 + 4 * (c.cat.weights.data@.len() as int);
                let p2: int = p1 + 24 + 4 * (c.cheetah.weights.data@.len() as int);
                &&& b@.subrange(0, 4) == seq![0x52u8, 0x42u8, 0x4Cu8, 0x43u8]
                &&& u32_at(b@, 4) == 1
                &&& take_perceptron(b@, 8) == Ok::<((u64, RosenblattV<u32>), int), DecodeErrorV>(
                    ((seeds[0], c.cat@), p1),
                )
                &&& take_perceptron(b@, p1) == Ok::<((u64, RosenblattV<u32>), int), DecodeErrorV>(
                    ((seeds[2], c.cheetah@), p2),
                )
                &&& take_perceptron(b@, p2) matches Ok(((s, lion), _)) && s == seeds[1] && lion
                    == c.lion@
            },
    {
        proof {
            lemma_rblc_fields(b@);
        }
        let (_, p0) = match read_magic(b, &[0x52u8, 0x42u8, 0x4Cu8, 0x43u8]) {
            Ok(x) => x,
            Err(e) => {
                return Err(e);
            },
        };
        assert([0x52u8, 0x42u8, 0x4Cu8, 0x43u8]@ == rblc_magic());
        let (_, p1) = match read_version(b, p0) {
            Ok(x) => x,
            Err(e) => {
                return Err(e);
            },
        };
        let ((s0, cat), p2) = match read_perceptron(b, p1) {
            Ok(x) => x,
            Err(e) => {
                return Err(e);
            },
        };
        let ((s1, cheetah), p3) = match read_perceptron(b, p2) {
            Ok(x) => x,
            Err(e) => {
                return Err(e);
            },
        };
        let ((s2, lion), _) = match read_perceptron(b, p3) {
            Ok(x) => x,
            Err(e) => {
                return Err(e);
            },
        };
        let seeds: [u64; 3] = [s0, s2, s1];
        assert(seeds@ == seq![s0, s2, s1]);
        Ok((RosenblattClassifier { cat, lion, cheetah }, seeds))
    }
}

} // verus!
