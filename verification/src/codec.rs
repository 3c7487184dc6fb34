//! Little-endian byte encoding shared by every model and dataset file format.
//!
//! Decoding is specified by `take_*` spec functions that read from a byte
//! sequence at a position and give back the value and the position after it,
//! or the reason the bytes cannot be read.
use vstd::prelude::*;
use vstd::utf8::*;
use crate::tensor::{Matrix, MatrixV};

verus! {

/// Why a byte buffer could not be decoded.
#[derive(Debug)]
pub enum DecodeError {
    /// The buffer ended before the value being read.
    Truncated,
    /// The file does not start with the expected four-byte tag.
    BadMagic([u8; 4]),
    /// The format version stored in the file is not the supported one.
    UnsupportedVersion(u32),
    /// A stored name is not valid UTF-8.
    InvalidUtf8,
    /// A stored activation name is not one the library knows.
    UnknownActivation(String),
    /// A stored kernel tag is not one the library knows.
    UnknownKernel(u8),
}

/// The mathematical content of a `DecodeError`.
pub enum DecodeErrorV {
    Truncated,
    BadMagic(Seq<u8>),
    UnsupportedVersion(u32),
    InvalidUtf8,
    UnknownActivation(Seq<char>),
    UnknownKernel(u8),
}

impl View for DecodeError {
    type V = DecodeErrorV;

    open spec fn view(&self) -> DecodeErrorV {
        match self {
            DecodeError::Truncated => DecodeErrorV::Truncated,
            DecodeError::BadMagic(m) => DecodeErrorV::BadMagic(m@),
            DecodeError::UnsupportedVersion(v) => DecodeErrorV::UnsupportedVersion(*v),
            DecodeError::InvalidUtf8 => DecodeErrorV::InvalidUtf8,
            DecodeError::UnknownActivation(s) => DecodeErrorV::UnknownActivation(s@),
            DecodeError::UnknownKernel(k) => DecodeErrorV::UnknownKernel(*k),
        }
    }
}

/// A value read at some position, with the position just after it.
pub type Parsed<V> = Result<(V, int), DecodeErrorV>;

/// An executable read result agrees with its specification.
pub open spec fn agrees<X: View>(r: Result<(X, usize), DecodeError>, p: Parsed<X::V>) -> bool {
    match r {
        Ok((x, n)) => p == Ok::<(X::V, int), DecodeErrorV>((x@, n as int)),
        Err(e) => p == Err::<(X::V, int), DecodeErrorV>(e@),
    }
}

/// The four little-endian bytes of `v`.
pub open spec fn le_u32(v: u32) -> Seq<u8> {
    seq![
        (v & 0xff) as u8,
        ((v >> 8u32) & 0xff) as u8,
        ((v >> 16u32) & 0xff) as u8,
        ((v >> 24u32) & 0xff) as u8,
    ]
}

/// The `u32` whose little-endian bytes are `b0 b1 b2 b3`.
pub open spec fn u32_from_le(b0: u8, b1: u8, b2: u8, b3: u8) -> u32 {
    (b0 as u32) | ((b1 as u32) << 8u32) | ((b2 as u32) << 16u32) | ((b3 as u32) << 24u32)
}

/// The eight little-endian bytes of `v`.
pub open spec fn le_u64(v: u64) -> Seq<u8> {
    seq![
        (v & 0xff) as u8,
        ((v >> 8u64) & 0xff) as u8,
        ((v >> 16u64) & 0xff) as u8,
        ((v >> 24u64) & 0xff) as u8,
        ((v >> 32u64) & 0xff) as u8,
        ((v >> 40u64) & 0xff) as u8,
        ((v >> 48u64) & 0xff) as u8,
        ((v >> 56u64) & 0xff) as u8,
    ]
}

/// The `u64` whose little-endian bytes start at `b[pos]`.
pub open spec fn u64_at(b: Seq<u8>, pos: int) -> u64 {
    (b[pos] as u64) | ((b[pos + 1] as u64) << 8u64) | ((b[pos + 2] as u64) << 16u64) | ((b[pos
        + 3] as u64) << 24u64) | ((b[pos + 4] as u64) << 32u64) | ((b[pos + 5] as u64) << 40u64)
        | ((b[pos + 6] as u64) << 48u64) | ((b[pos + 7] as u64) << 56u64)
}

/// The `u32` whose little-endian bytes start at `b[pos]`.
pub open spec fn u32_at(b: Seq<u8>, pos: int) -> u32 {
    u32_from_le(b[pos], b[pos + 1], b[pos + 2], b[pos + 3])
}

/// Reads one byte.
pub open spec fn take_u8(b: Seq<u8>, pos: int) -> Parsed<u8> {
    if 0 <= pos && pos + 1 <= b.len() {
        Ok((b[pos], pos + 1))
    } else {
        Err(DecodeErrorV::Truncated)
    }
}

/// Reads a little-endian `u32`.
pub open spec fn take_u32(b: Seq<u8>, pos: int) -> Parsed<u32> {
    if 0 <= pos && pos + 4 <= b.len() {
        Ok((u32_at(b, pos), pos + 4))
    } else {
        Err(DecodeErrorV::Truncated)
    }
}

/// Reads a little-endian `u64`.
pub open spec fn take_u64(b: Seq<u8>, pos: int) -> Parsed<u64> {
    if 0 <= pos && pos + 8 <= b.len() {
        Ok((u64_at(b, pos), pos + 8))
    } else {
        Err(DecodeErrorV::Truncated)
    }
}

/// Reads `n` consecutive little-endian `u32` words.
pub open spec fn take_words(b: Seq<u8>, pos: int, n: int) -> Parsed<Seq<u32>> {
    if 0 <= pos && 0 <= n && pos + 4 * n <= b.len() {
        Ok((Seq::new(n as nat, |i: int| u32_at(b, pos + 4 * i)), pos + 4 * n))
    } else {
        Err(DecodeErrorV::Truncated)
    }
}

/// The encoding of a sequence of words, one after the other.
pub open spec fn enc_words(s: Seq<u32>) -> Seq<u8>
    decreases s.len(),
{
    if s.len() == 0 {
        Seq::empty()
    } else {
        enc_words(s.drop_last()) + le_u32(s.last())
    }
}

/// Decoding the bytes of `v` gives back `v`.
pub proof fn lemma_u32_roundtrip(v: u32)
    ensures
        le_u32(v).len() == 4,
        u32_from_le(le_u32(v)[0], le_u32(v)[1], le_u32(v)[2], le_u32(v)[3]) == v,
{
    assert(((v & 0xff) as u8 as u32) | ((((v >> 8u32) & 0xff) as u8 as u32) << 8u32) | ((((v
        >> 16u32) & 0xff) as u8 as u32) << 16u32) | ((((v >> 24u32) & 0xff) as u8 as u32) << 24u32)
        == v) by (bit_vector);
}

/// Law (little-endian order): byte `k` of the encoding of `v` is digit `k`
/// of `v` written in base 256, least significant first.
pub proof fn lemma_le_u32_digits(v: u32)
    ensures
        le_u32(v).len() == 4,
        le_u32(v)[0] as int == v as int % 256,
        le_u32(v)[1] as int == (v as int / 256) % 256,
        le_u32(v)[2] as int == (v as int / 65536) % 256,
        le_u32(v)[3] as int == v as int / 16777216,
{
    assert(v & 0xff == v % 256) by (bit_vector);
    assert((v >> 8u32) & 0xff == (v / 256) % 256) by (bit_vector);
    assert((v >> 16u32) & 0xff == (v / 65536) % 256) by (bit_vector);
    assert((v >> 24u32) & 0xff == v / 16777216) by (bit_vector);
}

/// Law (little-endian order): the word at `pos` is the base-256 number whose
/// digits, least significant first, are the bytes `pos .. pos + 4`.
pub proof fn lemma_u32_at_digits(b: Seq<u8>, pos: int)
    requires
        0 <= pos,
        pos + 4 <= b.len(),
    ensures
        u32_at(b, pos) as int == b[pos] as int + 256 * (b[pos + 1] as int) + 65536 * (b[pos + 2] as int)
            + 16777216 * (b[pos + 3] as int),
{
    let b0 = b[pos] as u32;
    let b1 = b[pos + 1] as u32;
    let b2 = b[pos + 2] as u32;
    let b3 = b[pos + 3] as u32;
    assert(b0 < 256 && b1 < 256 && b2 < 256 && b3 < 256);
    assert(b0 | (b1 << 8u32) | (b2 << 16u32) | (b3 << 24u32) == ((b0 + (b1 * 256u32) as u32) as u32 + (b2
        * 65536u32) as u32) as u32 + (b3 * 16777216u32) as u32) by (bit_vector)
        requires
            b0 < 256 && b1 < 256 && b2 < 256 && b3 < 256,
    ;
}

/// Law (little-endian order): byte `k` of the eight-byte encoding of `v` is
/// digit `k` of `v` written in base 256, least significant first.
pub proof fn lemma_le_u64_digits(v: u64)
    ensures
        le_u64(v).len() == 8,
        le_u64(v)[0] as int == v as int % 0x100,
        le_u64(v)[1] as int == (v as int / 0x100) % 0x100,
        le_u64(v)[2] as int == (v as int / 0x10000) % 0x100,
        le_u64(v)[3] as int == (v as int / 0x1000000) % 0x100,
        le_u64(v)[4] as int == (v as int / 0x100000000) % 0x100,
        le_u64(v)[5] as int == (v as int / 0x10000000000) % 0x100,
        le_u64(v)[6] as int == (v as int / 0x1000000000000) % 0x100,
        le_u64(v)[7] as int == v as int / 0x100000000000000,
{
    assert(v & 0xff == v % 0x100) by (bit_vector);
    assert((v >> 8u64) & 0xff == (v / 0x100) % 0x100) by (bit_vector);
    assert((v >> 16u64) & 0xff == (v / 0x10000) % 0x100) by (bit_vector);
    assert((v >> 24u64) & 0xff == (v / 0x1000000) % 0x100) by (bit_vector);
    assert((v >> 32u64) & 0xff == (v / 0x100000000) % 0x100) by (bit_vector);
    assert((v >> 40u64) & 0xff == (v / 0x10000000000) % 0x100) by (bit_vector);
    assert((v >> 48u64) & 0xff == (v / 0x1000000000000) % 0x100) by (bit_vector);
    assert((v >> 56u64) & 0xff == v / 0x100000000000000) by (bit_vector);
}

/// Decoding the bytes of `v` gives back `v`.
pub proof fn lemma_u64_roundtrip(v: u64)
    ensures
        le_u64(v).len() == 8,
        u64_at(le_u64(v), 0) == v,
{
    assert(((v & 0xff) as u8 as u64) | ((((v >> 8u64) & 0xff) as u8 as u64) << 8u64) | ((((v
        >> 16u64) & 0xff) as u8 as u64) << 16u64) | ((((v >> 24u64) & 0xff) as u8 as u64)
        << 24u64) | ((((v >> 32u64) & 0xff) as u8 as u64) << 32u64) | ((((v >> 40u64) & 0xff) as u8
        as u64) << 40u64) | ((((v >> 48u64) & 0xff) as u8 as u64) << 48u64) | ((((v >> 56u64)
        & 0xff) as u8 as u64) << 56u64) == v) by (bit_vector);
}

/// A word written at `pos` is read back there.
pub proof fn lemma_take_u32_written(b: Seq<u8>, pos: int, v: u32)
    requires
        0 <= pos,
        pos + 4 <= b.len(),
        b.subrange(pos, pos + 4) == le_u32(v),
    ensures
        take_u32(b, pos) == Ok::<(u32, int), DecodeErrorV>((v, pos + 4)),
{
    lemma_u32_roundtrip(v);
    assert(b[pos] == b.subrange(pos, pos + 4)[0]);
    assert(b[pos + 1] == b.subrange(pos, pos + 4)[1]);
    assert(b[pos + 2] == b.subrange(pos, pos + 4)[2]);
    assert(b[pos + 3] == b.subrange(pos, pos + 4)[3]);
}

/// A `u64` written at `pos` is read back there.
pub proof fn lemma_take_u64_written(b: Seq<u8>, pos: int, v: u64)
    requires
        0 <= pos,
        pos + 8 <= b.len(),
        b.subrange(pos, pos + 8) == le_u64(v),
    ensures
        take_u64(b, pos) == Ok::<(u64, int), DecodeErrorV>((v, pos + 8)),
{
    lemma_u64_roundtrip(v);
    let w = le_u64(v);
    assert forall|k: int| 0 <= k < 8 implies b[pos + k] == w[k] by {
        assert(b[pos + k] == b.subrange(pos, pos + 8)[k]);
    }
    assert(u64_at(b, pos) == u64_at(w, 0));
}

/// The encoding of `s` has four bytes per word.
pub proof fn lemma_enc_words_len(s: Seq<u32>)
    ensures
        enc_words(s).len() == 4 * s.len(),
    decreases s.len(),
{
    if s.len() > 0 {
        lemma_enc_words_len(s.drop_last());
    }
}

/// Words written at `pos` are read back there.
pub proof fn lemma_take_words_written(b: Seq<u8>, pos: int, s: Seq<u32>)
    requires
        0 <= pos,
        pos + 4 * s.len() <= b.len(),
        b.subrange(pos, pos + 4 * s.len()) == enc_words(s),
    ensures
        take_words(b, pos, s.len() as int) == Ok::<(Seq<u32>, int), DecodeErrorV>((s, pos + 4 * s.len())),
    decreases s.len(),
{
    lemma_enc_words_len(s);
    if s.len() > 0 {
        let n = s.len() - 1;
        let front = s.drop_last();
        lemma_enc_words_len(front);
        assert(b.subrange(pos, pos + 4 * n) == b.subrange(pos, pos + 4 * s.len()).subrange(0, 4 * n));
        assert(enc_words(s).subrange(0, 4 * n) == enc_words(front));
        lemma_take_words_written(b, pos, front);
        assert(b.subrange(pos + 4 * n, pos + 4 * n + 4) == b.subrange(pos, pos + 4 * s.len()).subrange(
            4 * n,
            4 * n + 4,
        ));
        assert(enc_words(s).subrange(4 * n, 4 * n + 4) == le_u32(s.last()));
        lemma_take_u32_written(b, pos + 4 * n, s.last());
        let got = Seq::new(s.len(), |i: int| u32_at(b, pos + 4 * i));
        assert forall|i: int| 0 <= i < s.len() implies got[i] == s[i] by {
            if i < n {
                let prev = Seq::new(n as nat, |k: int| u32_at(b, pos + 4 * k));
                assert(prev[i] == front[i]);
            }
        }
        assert(got == s);
    } else {
        assert(Seq::new(0, |i: int| u32_at(b, pos + 4 * i)) == s);
    }
}

/// Appends the four little-endian bytes of `v`.
pub fn put_u32(buf: &mut Vec<u8>, v: u32)
    ensures
        final(buf)@ == old(buf)@ + le_u32(v),
{
    buf.push((v & 0xff) as u8);
    buf.push(((v >> 8u32) & 0xff) as u8);
    buf.push(((v >> 16u32) & 0xff) as u8);
    buf.push(((v >> 24u32) & 0xff) as u8);
    assert(buf@ == old(buf)@ + le_u32(v));
}

/// Appends the eight little-endian bytes of `v`.
pub fn put_u64(buf: &mut Vec<u8>, v: u64)
    ensures
        final(buf)@ == old(buf)@ + le_u64(v),
{
    buf.push((v & 0xff) as u8);
    buf.push(((v >> 8u64) & 0xff) as u8);
    buf.push(((v >> 16u64) & 0xff) as u8);
    buf.push(((v >> 24u64) & 0xff) as u8);
    buf.push(((v >> 32u64) & 0xff) as u8);
    buf.push(((v >> 40u64) & 0xff) as u8);
    buf.push(((v >> 48u64) & 0xff) as u8);
    buf.push(((v >> 56u64) & 0xff) as u8);
    assert(buf@ == old(buf)@ + le_u64(v));
}

/// Appends every word of `words`.
pub fn put_words(buf: &mut Vec<u8>, words: &Vec<u32>)
    ensures
        final(buf)@ == old(buf)@ + enc_words(words@),
{
    let n = words.len();
    let mut i: usize = 0;
    while i < n
        invariant
            n == words@.len(),
            i <= n,
            buf@ == old(buf)@ + enc_words(words@.subrange(0, i as int)),
        decreases n - i,
    {
        put_u32(buf, words[i]);
        proof {
            let s = words@.subrange(0, i + 1);
            assert(s.drop_last() == words@.subrange(0, i as int));
            assert(s.last() == words@[i as int]);
        }
        i = i + 1;
    }
    assert(words@.subrange(0, n as int) == words@);
}

/// Reads one byte at `pos`.
pub fn read_u8(b: &[u8], pos: usize) -> (r: Result<(u8, usize), DecodeError>)
    ensures
        agrees(r, take_u8(b@, pos as int)),
{
    if pos < b.len() {
        Ok((b[pos], pos + 1))
    } else {
        Err(DecodeError::Truncated)
    }
}

/// Reads a little-endian `u32` at `pos`.
pub fn read_u32(b: &[u8], pos: usize) -> (r: Result<(u32, usize), DecodeError>)
    ensures
        agrees(r, take_u32(b@, pos as int)),
{
    if pos <= b.len() && b.len() - pos >= 4 {
        let v = (b[pos] as u32) | ((b[pos + 1] as u32) << 8u32) | ((b[pos + 2] as u32) << 16u32)
            | ((b[pos + 3] as u32) << 24u32);
        Ok((v, pos + 4))
    } else {
        Err(DecodeError::Truncated)
    }
}

/// Reads a little-endian `u64` at `pos`.
pub fn read_u64(b: &[u8], pos: usize) -> (r: Result<(u64, usize), DecodeError>)
    ensures
        agrees(r, take_u64(b@, pos as int)),
{
    if pos <= b.len() && b.len() - pos >= 8 {
        let v = (b[pos] as u64) | ((b[pos + 1] as u64) << 8u64) | ((b[pos + 2] as u64) << 16u64)
            | ((b[pos + 3] as u64) << 24u64) | ((b[pos + 4] as u64) << 32u64) | ((b[pos + 5] as u64)
            << 40u64) | ((b[pos + 6] as u64) << 48u64) | ((b[pos + 7] as u64) << 56u64);
        Ok((v, pos + 8))
    } else {
        Err(DecodeError::Truncated)
    }
}

/// Reads `n` little-endian words at `pos`.
pub fn read_words(b: &[u8], pos: usize, n: u64) -> (r: Result<(Vec<u32>, usize), DecodeError>)
    ensures
        agrees(r, take_words(b@, pos as int, n as int)),
{
    if pos > b.len() {
        return Err(DecodeError::Truncated);
    }
    let avail: usize = b.len() - pos;
    if n > (avail / 4) as u64 {
        return Err(DecodeError::Truncated);
    }
    let count: usize = n as usize;
    let mut out: Vec<u32> = Vec::new();
    let mut i: usize = 0;
    let mut p: usize = pos;
    while i < count
        invariant
            pos <= b@.len(),
            4 * count <= b@.len() - pos,
            count == n,
            i <= count,
            p == pos + 4 * i,
            out@ == Seq::new(i as nat, |k: int| u32_at(b@, pos + 4 * k)),
        decreases count - i,
    {
        let (v, np) = match read_u32(b, p) {
            Ok(x) => x,
            Err(e) => {
                return Err(e);
            },
        };
        out.push(v);
        p = np;
        i = i + 1;
        assert(out@ == Seq::new(i as nat, |k: int| u32_at(b@, pos + 4 * k)));
    }
    Ok((out, p))
}

/// Reads a name: a `u32` byte length, then that many bytes of UTF-8.
pub open spec fn take_name(b: Seq<u8>, pos: int) -> Parsed<Seq<char>> {
    match take_u32(b, pos) {
        Ok((len, p)) => if p + len <= b.len() {
            let bytes = b.subrange(p, p + len);
            if valid_utf8(bytes) {
                Ok((decode_utf8(bytes), p + len))
            } else {
                Err(DecodeErrorV::InvalidUtf8)
            }
        } else {
            Err(DecodeErrorV::Truncated)
        },
        Err(e) => Err(e),
    }
}

/// The encoding of a name: its UTF-8 byte length, then its UTF-8 bytes.
pub open spec fn enc_name(s: Seq<char>) -> Seq<u8> {
    le_u32(encode_utf8(s).len() as u32) + encode_utf8(s)
}

/// Reads a matrix: `u32` rows, `u32` columns, then `rows * cols` words.
pub open spec fn take_matrix(b: Seq<u8>, pos: int) -> Parsed<MatrixV<u32>> {
    match take_u32(b, pos) {
        Ok((rows, p1)) => match take_u32(b, p1) {
            Ok((cols, p2)) => match take_words(b, p2, rows * cols) {
                Ok((data, p3)) => Ok((MatrixV { rows: rows as nat, cols: cols as nat, data }, p3)),
                Err(e) => Err(e),
            },
            Err(e) => Err(e),
        },
        Err(e) => Err(e),
    }
}

/// The encoding of a matrix: its shape as two `u32`, then its words.
pub open spec fn enc_matrix(m: MatrixV<u32>) -> Seq<u8> {
    le_u32(m.rows as u32) + le_u32(m.cols as u32) + enc_words(m.data)
}

/// A matrix that the format can hold: its shape fits in `u32` words.
pub open spec fn matrix_fits(m: MatrixV<u32>) -> bool {
    &&& m.wf()
    &&& m.rows <= u32::MAX
    &&& m.cols <= u32::MAX
}

/// The encoding of a name read back is the name.
pub proof fn lemma_take_name_written(b: Seq<u8>, pos: int, s: Seq<char>)
    requires
        0 <= pos,
        encode_utf8(s).len() <= u32::MAX,
        pos + enc_name(s).len() <= b.len(),
        b.subrange(pos, pos + enc_name(s).len()) == enc_name(s),
    ensures
        take_name(b, pos) == Ok::<(Seq<char>, int), DecodeErrorV>((s, pos + enc_name(s).len())),
{
    let bytes = encode_utf8(s);
    let n = bytes.len() as int;
    assert(enc_name(s).subrange(0, 4) == le_u32(n as u32));
    assert(b.subrange(pos, pos + 4) == b.subrange(pos, pos + enc_name(s).len()).subrange(0, 4));
    lemma_take_u32_written(b, pos, n as u32);
    assert(b.subrange(pos + 4, pos + 4 + n) == b.subrange(pos, pos + enc_name(s).len()).subrange(
        4,
        4 + n,
    ));
    assert(enc_name(s).subrange(4, 4 + n) == bytes);
    encode_utf8_valid_utf8(s);
    encode_utf8_decode_utf8(s);
}

/// The encoding of a matrix read back is the matrix.
pub proof fn lemma_take_matrix_written(b: Seq<u8>, pos: int, m: MatrixV<u32>)
    requires
        0 <= pos,
        matrix_fits(m),
        pos + enc_matrix(m).len() <= b.len(),
        b.subrange(pos, pos + enc_matrix(m).len()) == enc_matrix(m),
    ensures
        enc_matrix(m).len() == 8 + 4 * m.data.len(),
        take_matrix(b, pos) == Ok::<(MatrixV<u32>, int), DecodeErrorV>((m, pos + enc_matrix(m).len())),
{
    lemma_enc_words_len(m.data);
    let whole = b.subrange(pos, pos + enc_matrix(m).len());
    assert(b.subrange(pos, pos + 4) == whole.subrange(0, 4));
    assert(enc_matrix(m).subrange(0, 4) == le_u32(m.rows as u32));
    lemma_take_u32_written(b, pos, m.rows as u32);
    assert(b.subrange(pos + 4, pos + 8) == whole.subrange(4, 8));
    assert(enc_matrix(m).subrange(4, 8) == le_u32(m.cols as u32));
    lemma_take_u32_written(b, pos + 4, m.cols as u32);
    let k = m.data.len() as int;
    assert(b.subrange(pos + 8, pos + 8 + 4 * k) == whole.subrange(8, 8 + 4 * k));
    assert(enc_matrix(m).subrange(8, 8 + 4 * k) == enc_words(m.data));
    lemma_take_words_written(b, pos + 8, m.data);
    assert((m.rows as u32) as int * (m.cols as u32) as int == k);
}

/// The words `s` are stored one after the other from byte `pos` of `b`:
/// word `k` is the little-endian word at `pos + 4 * k`.
pub open spec fn words_stored_at(b: Seq<u8>, pos: int, s: Seq<u32>) -> bool {
    &&& 0 <= pos
    &&& pos + 4 * s.len() <= b.len()
    &&& forall|k: int| 0 <= k < s.len() ==> #[trigger] s[k] == u32_at(b, pos + 4 * k)
}

/// The matrix `m` is stored from byte `pos` of `b`: its row count, then its
/// column count, then its `rows * cols` elements in row-major order.
pub open spec fn matrix_stored_at(b: Seq<u8>, pos: int, m: MatrixV<u32>) -> bool {
    &&& pos + 8 <= b.len()
    &&& m.rows == u32_at(b, pos)
    &&& m.cols == u32_at(b, pos + 4)
    &&& m.data.len() == m.rows * m.cols
    &&& words_stored_at(b, pos + 8, m.data)
}

/// Reading words takes word `k` from `pos + 4 * k`.
pub proof fn lemma_take_words_fields(b: Seq<u8>, pos: int, n: int)
    ensures
        take_words(b, pos, n) matches Ok((s, p)) ==> s.len() == n && p == pos + 4 * n && words_stored_at(
            b,
            pos,
            s,
        ),
{
}

/// Reading a matrix takes its shape from the two words at `pos` and its
/// elements from the words after them.
pub proof fn lemma_take_matrix_fields(b: Seq<u8>, pos: int)
    ensures
        take_matrix(b, pos) matches Ok((m, p)) ==> matrix_stored_at(b, pos, m) && p == pos + 8 + 4
            * m.data.len(),
{
    if take_u32(b, pos) is Ok && take_u32(b, pos + 4) is Ok {
        let rows = u32_at(b, pos);
        let cols = u32_at(b, pos + 4);
        lemma_take_words_fields(b, pos + 8, rows * cols);
    }
}

/// The words `s` encoded, word `k` at bytes `4 * k .. 4 * k + 4`.
pub proof fn lemma_enc_words_at(s: Seq<u32>, k: int)
    requires
        0 <= k < s.len(),
    ensures
        enc_words(s).len() == 4 * s.len(),
        enc_words(s).subrange(4 * k, 4 * k + 4) == le_u32(s[k]),
    decreases s.len(),
{
    lemma_enc_words_len(s);
    lemma_enc_words_len(s.drop_last());
    if k < s.len() - 1 {
        lemma_enc_words_at(s.drop_last(), k);
        assert(enc_words(s).subrange(4 * k, 4 * k + 4) == enc_words(s.drop_last()).subrange(4 * k, 4 * k + 4));
        assert(s.drop_last()[k] == s[k]);
    } else {
        assert(enc_words(s).subrange(4 * k, 4 * k + 4) == le_u32(s.last()));
    }
}

/// `String::from_utf8` from std: it succeeds exactly when the bytes are valid
/// UTF-8, and the string then holds the characters that the bytes encode.
#[verifier::external_body]
fn string_from_utf8(bytes: Vec<u8>) -> (r: Option<String>)
    ensures
        r is Some <==> valid_utf8(bytes@),
        r matches Some(s) ==> s@ == decode_utf8(bytes@),
{
    String::from_utf8(bytes).ok()
}

/// Reads a name at `pos`.
pub fn read_name(b: &[u8], pos: usize) -> (r: Result<(String, usize), DecodeError>)
    ensures
        agrees(r, take_name(b@, pos as int)),
{
    let (len, p) = match read_u32(b, pos) {
        Ok(x) => x,
        Err(e) => {
            return Err(e);
        },
    };
    if (len as usize) > b.len() - p {
        return Err(DecodeError::Truncated);
    }
    let end: usize = p + len as usize;
    let mut bytes: Vec<u8> = Vec::new();
    let mut i: usize = p;
    while i < end
        invariant
            p <= i <= end,
            end <= b@.len(),
            bytes@ == b@.subrange(p as int, i as int),
        decreases end - i,
    {
        bytes.push(b[i]);
        i = i + 1;
        assert(bytes@ == b@.subrange(p as int, i as int));
    }
    match string_from_utf8(bytes) {
        Some(s) => Ok((s, end)),
        None => Err(DecodeError::InvalidUtf8),
    }
}

/// Appends the encoding of the name `s`.
pub fn put_name(buf: &mut Vec<u8>, s: &str)
    ensures
        final(buf)@ == old(buf)@ + enc_name(s@),
{
    let bytes = s.as_bytes();
    let n = bytes.len();
    put_u32(buf, n as u32);
    let ghost start = buf@;
    let mut i: usize = 0;
    while i < n
        invariant
            n == bytes@.len(),
            bytes@ == encode_utf8(s@),
            i <= n,
            buf@ == start + bytes@.subrange(0, i as int),
        decreases n - i,
    {
        buf.push(bytes[i]);
        i = i + 1;
        assert(buf@ == start + bytes@.subrange(0, i as int));
    }
    assert(bytes@.subrange(0, n as int) == bytes@);
}

/// Reads a matrix at `pos`.
pub fn read_matrix(b: &[u8], pos: usize) -> (r: Result<(Matrix<u32>, usize), DecodeError>)
    ensures
        agrees(r, take_matrix(b@, pos as int)),
        r matches Ok((m, _)) ==> m.wf(),
{
    let (rows, p1) = match read_u32(b, pos) {
        Ok(x) => x,
        Err(e) => {
            return Err(e);
        },
    };
    let (cols, p2) = match read_u32(b, p1) {
        Ok(x) => x,
        Err(e) => {
            return Err(e);
        },
    };
    proof {
        assert(rows as u64 * cols as u64 <= u64::MAX) by (nonlinear_arith)
            requires
                rows <= u32::MAX,
                cols <= u32::MAX,
        ;
    }
    let n: u64 = rows as u64 * cols as u64;
    let (data, p3) = match read_words(b, p2, n) {
        Ok(x) => x,
        Err(e) => {
            return Err(e);
        },
    };
    Ok((Matrix { data, rows: rows as usize, cols: cols as usize }, p3))
}

/// Appends the encoding of `m`: its shape as `u32` words (truncating a larger
/// shape), then its elements.
pub fn put_matrix(buf: &mut Vec<u8>, m: &Matrix<u32>)
    ensures
        final(buf)@ == old(buf)@ + enc_matrix(m@),
{
    put_u32(buf, m.rows as u32);
    put_u32(buf, m.cols as u32);
    put_words(buf, &m.data);
    assert(buf@ == old(buf)@ + enc_matrix(m@));
}

/// Checks the four-byte tag at the start of a file.
pub open spec fn take_magic(b: Seq<u8>, magic: Seq<u8>) -> Parsed<()> {
    if b.len() < 4 {
        Err(DecodeErrorV::Truncated)
    } else if b.subrange(0, 4) != magic {
        Err(DecodeErrorV::BadMagic(b.subrange(0, 4)))
    } else {
        Ok(((), 4))
    }
}

/// Reads the format version, which must be 1.
pub open spec fn take_version(b: Seq<u8>, pos: int) -> Parsed<()> {
    match take_u32(b, pos) {
        Ok((v, p)) => if v == 1 {
            Ok(((), p))
        } else {
            Err(DecodeErrorV::UnsupportedVersion(v))
        },
        Err(e) => Err(e),
    }
}

/// The header of a tagged file: its tag, then version 1.
pub open spec fn enc_header(magic: Seq<u8>) -> Seq<u8> {
    magic + le_u32(1)
}

/// A written header is read back.
pub proof fn lemma_header_written(b: Seq<u8>, magic: Seq<u8>)
    requires
        magic.len() == 4,
        8 <= b.len(),
        b.subrange(0, 8) == enc_header(magic),
    ensures
        take_magic(b, magic) == Ok::<((), int), DecodeErrorV>(((), 4)),
        take_version(b, 4) == Ok::<((), int), DecodeErrorV>(((), 8)),
{
    assert(b.subrange(0, 4) == b.subrange(0, 8).subrange(0, 4));
    assert(enc_header(magic).subrange(0, 4) == magic);
    assert(b.subrange(4, 8) == b.subrange(0, 8).subrange(4, 8));
    assert(enc_header(magic).subrange(4, 8) == le_u32(1));
    lemma_take_u32_written(b, 4, 1);
}

/// Checks the tag at the start of `b`.
pub fn read_magic(b: &[u8], magic: &[u8; 4]) -> (r: Result<((), usize), DecodeError>)
    ensures
        agrees(r, take_magic(b@, magic@)),
{
    if b.len() < 4 {
        return Err(DecodeError::Truncated);
    }
    let found: [u8; 4] = [b[0], b[1], b[2], b[3]];
    assert(found@ == b@.subrange(0, 4));
    if b[0] == magic[0] && b[1] == magic[1] && b[2] == magic[2] && b[3] == magic[3] {
        assert(b@.subrange(0, 4) == magic@);
        Ok(((), 4))
    } else {
        Err(DecodeError::BadMagic(found))
    }
}

/// Reads the version word at `pos` and checks that it is 1.
pub fn read_version(b: &[u8], pos: usize) -> (r: Result<((), usize), DecodeError>)
    ensures
        agrees(r, take_version(b@, pos as int)),
{
    let (v, p) = match read_u32(b, pos) {
        Ok(x) => x,
        Err(e) => {
            return Err(e);
        },
    };
    if v == 1 {
        Ok(((), p))
    } else {
        Err(DecodeError::UnsupportedVersion(v))
    }
}

/// Appends a tagged header: the tag, then version 1.
pub fn put_header(buf: &mut Vec<u8>, magic: &[u8; 4])
    ensures
        final(buf)@ == old(buf)@ + enc_header(magic@),
{
    buf.push(magic[0]);
    buf.push(magic[1]);
    buf.push(magic[2]);
    buf.push(magic[3]);
    put_u32(buf, 1);
    assert(buf@ == old(buf)@ + enc_header(magic@));
}

} // verus!
