//! One-vs-rest multi-class SVM: one binary machine per class, and its model
//! file format.
use vstd::prelude::*;
use crate::codec::{
    enc_header, le_u32, lemma_header_written, u32_at, lemma_take_u32_written, put_header, put_u32,
    read_magic, read_u32, read_version, take_magic, take_u32, take_version, DecodeError,
    DecodeErrorV, Parsed,
};
use super::{enc_svm, lemma_take_svm_written, svm_fits, take_svm, SvmV, SVM};

verus! {

/// One binary SVM per class; classifier `c` separates class `c` from the rest.
pub struct MulticlassSVM<T> {
    pub classifiers: Vec<SVM<T>>,
}

impl<T> View for MulticlassSVM<T> {
    type V = Seq<SvmV<T>>;

    open spec fn view(&self) -> Seq<SvmV<T>> {
        self.classifiers@.map_values(|s: SVM<T>| s@)
    }
}

// ---------------------------------------------------------------------------
// Model file format:
//   "SVM1", version 1 (u32), class count (u32), then each machine.
// ---------------------------------------------------------------------------

/// The tag that starts a multi-class SVM model file: "SVM1".
pub open spec fn svm_magic() -> Seq<u8> {
    seq![0x53u8, 0x56u8, 0x4Du8, 0x31u8]
}

/// Reads `k` machines one after the other.
pub open spec fn take_svms(b: Seq<u8>, pos: int, k: nat) -> Parsed<Seq<SvmV<u32>>>
    decreases k,
{
    if k == 0 {
        Ok((Seq::empty(), pos))
    } else {
        match take_svms(b, pos, (k - 1) as nat) {
            Ok((ss, p)) => match take_svm(b, p) {
                Ok((s, p2)) => Ok((ss.push(s), p2)),
                Err(e) => Err(e),
            },
            Err(e) => Err(e),
        }
    }
}

/// What a multi-class SVM model file holds, or why it cannot be read. Bytes
/// after the last machine are ignored.
pub open spec fn parse_multiclass(b: Seq<u8>) -> Result<Seq<SvmV<u32>>, DecodeErrorV> {
    match take_magic(b, svm_magic()) {
        Ok((_, p0)) => match take_version(b, p0) {
            Ok((_, p1)) => match take_u32(b, p1) {
                Ok((n, p2)) => match take_svms(b, p2, n as nat) {
                    Ok((ss, _)) => Ok(ss),
                    Err(e) => Err(e),
                },
                Err(e) => Err(e),
            },
            Err(e) => Err(e),
        },
        Err(e) => Err(e),
    }
}

/// The bytes of a run of machines.
pub open spec fn enc_svms(ss: Seq<SvmV<u32>>) -> Seq<u8>
    decreases ss.len(),
{
    if ss.len() == 0 {
        Seq::empty()
    } else {
        enc_svms(ss.drop_last()) + enc_svm(ss.last())
    }
}

/// The bytes of a multi-class SVM model file.
pub open spec fn enc_multiclass(ss: Seq<SvmV<u32>>) -> Seq<u8> {
    enc_header(svm_magic()) + le_u32(ss.len() as u32) + enc_svms(ss)
}

/// Consecutive written machines are read back.
pub proof fn lemma_take_svms_written(b: Seq<u8>, pos: int, ss: Seq<SvmV<u32>>)
    requires
        0 <= pos,
        forall|i: int| 0 <= i < ss.len() ==> svm_fits(#[trigger] ss[i]),
        pos + enc_svms(ss).len() <= b.len(),
        b.subrange(pos, pos + enc_svms(ss).len()) == enc_svms(ss),
    ensures
        take_svms(b, pos, ss.len()) == Ok::<(Seq<SvmV<u32>>, int), DecodeErrorV>(
            (ss, pos + enc_svms(ss).len()),
        ),
    decreases ss.len(),
{
    if ss.len() > 0 {
        let front = ss.drop_last();
        let ef = enc_svms(front);
        let el = enc_svm(ss.last());
        let x = ef.len() as int;
        let y = el.len() as int;
        assert(enc_svms(ss) == ef + el);
        assert(b.subrange(pos, pos + x) == b.subrange(pos, pos + enc_svms(ss).len()).subrange(0, x));
        assert((ef + el).subrange(0, x) == ef);
        assert forall|i: int| 0 <= i < front.len() implies svm_fits(#[trigger] front[i]) by {
            assert(front[i] == ss[i]);
        }
        lemma_take_svms_written(b, pos, front);
        let p = pos + x;
        assert(b.subrange(p, p + y) == b.subrange(pos, pos + enc_svms(ss).len()).subrange(x, x + y));
        assert((ef + el).subrange(x, x + y) == el);
        assert(svm_fits(ss[ss.len() - 1]));
        lemma_take_svm_written(b, p, ss.last());
        assert(front.push(ss.last()) == ss);
        assert(front.len() == (ss.len() - 1) as nat);
    } else {
        assert(ss == Seq::<SvmV<u32>>::empty());
    }
}

/// Once reading a run of machines fails, reading a longer run fails the same
/// way.
pub proof fn lemma_take_svms_err_stays(b: Seq<u8>, pos: int, k: nat, n: nat)
    requires
        k <= n,
        take_svms(b, pos, k) is Err,
    ensures
        take_svms(b, pos, n) == take_svms(b, pos, k),
    decreases n - k,
{
    if k < n {
        lemma_take_svms_err_stays(b, pos, k, (n - 1) as nat);
    }
}

/// Law: a multi-class SVM written to bytes is read back unchanged, whatever
/// follows it.
pub proof fn lemma_multiclass_roundtrip(ss: Seq<SvmV<u32>>, rest: Seq<u8>)
    requires
        ss.len() <= u32::MAX,
        forall|i: int| 0 <= i < ss.len() ==> svm_fits(#[trigger] ss[i]),
    ensures
        parse_multiclass(enc_multiclass(ss) + rest) == Ok::<Seq<SvmV<u32>>, DecodeErrorV>(ss),
{
    let b = enc_multiclass(ss) + rest;
    let es = enc_svms(ss);
    assert(b.subrange(0, 8) == enc_header(svm_magic()));
    lemma_header_written(b, svm_magic());
    assert(b.subrange(8, 12) == le_u32(ss.len() as u32));
    lemma_take_u32_written(b, 8, ss.len() as u32);
    assert(b.subrange(12, 12 + es.len() as int) == es);
    lemma_take_svms_written(b, 12, ss);
}

/// Law: the bytes of a run of machines are the bytes of each machine, in
/// order; the bytes of two runs one after the other are those of the first
/// run, then those of the second.
pub proof fn lemma_enc_svms_concat(a: Seq<SvmV<u32>>, c: Seq<SvmV<u32>>)
    ensures
        enc_svms(a + c) == enc_svms(a) + enc_svms(c),
        forall|s: SvmV<u32>| #[trigger] enc_svms(seq![s]) == enc_svm(s),
    decreases c.len(),
{
    assert forall|s: SvmV<u32>| #[trigger] enc_svms(seq![s]) == enc_svm(s) by {
        let one = seq![s];
        assert(one.drop_last() =~= Seq::<SvmV<u32>>::empty());
        assert(one.last() == s);
        assert(enc_svms(Seq::<SvmV<u32>>::empty()) == Seq::<u8>::empty());
        assert(enc_svms(one) == enc_svms(one.drop_last()) + enc_svm(one.last()));
        assert(Seq::<u8>::empty() + enc_svm(s) =~= enc_svm(s));
    }
    if c.len() == 0 {
        assert(a + c =~= a);
        assert(enc_svms(a) + Seq::<u8>::empty() =~= enc_svms(a));
    } else {
        lemma_enc_svms_concat(a, c.drop_last());
        assert((a + c).drop_last() =~= a + c.drop_last());
        assert((a + c).last() == c.last());
        assert(enc_svms(a + c) =~= enc_svms(a) + enc_svms(c));
    }
}

/// Machine `i` of `ss` is read at `ps[i]` and ends at `ps[i + 1]`; the first
/// is read at `pos` and the last ends at `end`.
pub open spec fn svms_read_in_turn(b: Seq<u8>, pos: int, ss: Seq<SvmV<u32>>, end: int) -> bool {
    exists|ps: Seq<int>|
        {
            &&& #[trigger] ps.len() == ss.len() + 1
            &&& ps[0] == pos
            &&& ps[ss.len() as int] == end
            &&& forall|i: int|
                0 <= i < ss.len() ==> #[trigger] take_svm(b, ps[i]) == Ok::<(SvmV<u32>, int), DecodeErrorV>(
                    (ss[i], ps[i + 1]),
                )
        }
}

/// Law: a run of `k` machines read from `pos` holds `k` machines, read one
/// after the other.
pub proof fn lemma_take_svms_fields(b: Seq<u8>, pos: int, k: nat)
    ensures
        take_svms(b, pos, k) matches Ok((ss, p)) ==> ss.len() == k && svms_read_in_turn(b, pos, ss, p),
    decreases k,
{
    if k == 0 {
        let ps = seq![pos];
        assert(ps.len() == 0 + 1);
    } else {
        lemma_take_svms_fields(b, pos, (k - 1) as nat);
        if take_svms(b, pos, k) is Ok {
            let (front, p) = take_svms(b, pos, (k - 1) as nat)->Ok_0;
            let (s, p2) = take_svm(b, p)->Ok_0;
            let ps = choose|ps: Seq<int>|
                {
                    &&& #[trigger] ps.len() == front.len() + 1
                    &&& ps[0] == pos
                    &&& ps[front.len() as int] == p
                    &&& forall|i: int|
                        0 <= i < front.len() ==> #[trigger] take_svm(b, ps[i]) == Ok::<
                            (SvmV<u32>, int),
                            DecodeErrorV,
                        >((front[i], ps[i + 1]))
                };
            let ss = front.push(s);
            let qs = ps.push(p2);
            assert(qs.len() == ss.len() + 1);
            assert forall|i: int| 0 <= i < ss.len() implies #[trigger] take_svm(b, qs[i]) == Ok::<
                (SvmV<u32>, int),
                DecodeErrorV,
            >((ss[i], qs[i + 1])) by {
                if i < front.len() {
                    assert(qs[i] == ps[i] && qs[i + 1] == ps[i + 1] && ss[i] == front[i]);
                }
            }
        }
    }
}

/// Law (multi-class file layout): the tag "SVM1", version 1, the class count,
/// then each machine in order.
pub proof fn lemma_multiclass_layout(ss: Seq<SvmV<u32>>)
    ensures
        ({
            let e = enc_multiclass(ss);
            &&& 12 <= e.len()
            &&& e.subrange(0, 4) == seq![0x53u8, 0x56u8, 0x4Du8, 0x31u8]
            &&& e.subrange(4, 8) == le_u32(1)
            &&& e.subrange(8, 12) == le_u32(ss.len() as u32)
            &&& e.subrange(12, e.len() as int) == enc_svms(ss)
        }),
{
    let e = enc_multiclass(ss);
    assert(e =~= seq![0x53u8, 0x56u8, 0x4Du8, 0x31u8] + le_u32(1) + le_u32(ss.len() as u32) + enc_svms(ss));
    assert(e.subrange(0, 4) =~= seq![0x53u8, 0x56u8, 0x4Du8, 0x31u8]);
    assert(e.subrange(4, 8) =~= le_u32(1));
    assert(e.subrange(8, 12) =~= le_u32(ss.len() as u32));
    assert(e.subrange(12, e.len() as int) =~= enc_svms(ss));
}

/// Law (reading a multi-class file): the tag "SVM1" and version 1 in front,
/// the class count in bytes 8..12, and the machines read one after the other
/// from byte 12.
pub proof fn lemma_multiclass_fields(b: Seq<u8>)
    ensures
        parse_multiclass(b) matches Ok(ss) ==> {
            &&& 12 <= b.len()
            &&& b.subrange(0, 4) == seq![0x53u8, 0x56u8, 0x4Du8, 0x31u8]
            &&& u32_at(b, 4) == 1
            &&& ss.len() == u32_at(b, 8)
            &&& exists|end: int| #[trigger] svms_read_in_turn(b, 12, ss, end)
        },
{
    lemma_take_svms_fields(b, 12, u32_at(b, 8) as nat);
    if parse_multiclass(b) is Ok {
        let end = take_svms(b, 12, u32_at(b, 8) as nat)->Ok_0.1;
        assert(svms_read_in_turn(b, 12, parse_multiclass(b)->Ok_0, end));
    }
}

impl MulticlassSVM<u32> {
    /// The model file bytes of this classifier (values as 32-bit patterns).
    pub fn to_bytes(&self) -> (b: Vec<u8>)
        ensures
            b@ == enc_multiclass(self@),
            12 <= b@.len(),
            b@.subrange(0, 4) == seq![0x53u8, 0x56u8, 0x4Du8, 0x31u8],
            b@.subrange(4, 8) == le_u32(1),
            b@.subrange(8, 12) == le_u32(self.classifiers@.len() as u32),
            b@.subrange(12, b@.len() as int) == enc_svms(self@),
    {
        proof {
            lemma_multiclass_layout(self@);
        }
        let mut buf: Vec<u8> = Vec::new();
        put_header(&mut buf, &[0x53u8, 0x56u8, 0x4Du8, 0x31u8]);
        assert([0x53u8, 0x56u8, 0x4Du8, 0x31u8]@ == svm_magic());
        put_u32(&mut buf, self.classifiers.len() as u32);
        let ghost start = buf@;
        let n = self.classifiers.len();
        let mut i: usize = 0;
        while i < n
            invariant
                n == self.classifiers@.len(),
                i <= n,
                buf@ == start + enc_svms(self@.subrange(0, i as int)),
            decreases n - i,
        {
            self.classifiers[i].write_to(&mut buf);
            proof {
                let s = self@.subrange(0, i + 1);
                assert(s.drop_last() == self@.subrange(0, i as int));
                assert(s.last() == self.classifiers@[i as int]@);
            }
            i = i + 1;
        }
        assert(self@.subrange(0, n as int) == self@);
        buf
    }

    /// Reads a multi-class SVM model file.
    pub fn from_bytes(b: &[u8]) -> (r: Result<MulticlassSVM<u32>, DecodeError>)
        ensures
            match r {
                Ok(m) => parse_multiclass(b@) == Ok::<Seq<SvmV<u32>>, DecodeErrorV>(m@),
                Err(e) => parse_multiclass(b@) == Err::<Seq<SvmV<u32>>, DecodeErrorV>(e@),
            },
            r matches Ok(m) ==> {
                &&& 12 <= b@.len()
                &&& b@.subrange(0, 4) == seq![0x53u8, 0x56u8, 0x4Du8, 0x31u8]
                &&& u32_at(b@, 4) == 1
                &&& m@.len() == u32_at(b@, 8)
                &&& exists|end: int| #[trigger] svms_read_in_turn(b@, 12, m@, end)
            },
    {
        proof {
            lemma_multiclass_fields(b@);
        }
        let (_, p0) = match read_magic(b, &[0x53u8, 0x56u8, 0x4Du8, 0x31u8]) {
            Ok(x) => x,
            Err(e) => {
                return Err(e);
            },
        };
        assert([0x53u8, 0x56u8, 0x4Du8, 0x31u8]@ == svm_magic());
        let (_, p1) = match read_version(b, p0) {
            Ok(x) => x,
            Err(e) => {
                return Err(e);
            },
        };
        let (n, p2) = match read_u32(b, p1) {
            Ok(x) => x,
            Err(e) => {
                return Err(e);
            },
        };
        let mut classifiers: Vec<SVM<u32>> = Vec::new();
        let mut pos = p2;
        let mut i: u32 = 0;
        assert(classifiers@.map_values(|s: SVM<u32>| s@) == Seq::<SvmV<u32>>::empty());
        while i < n
            invariant
                i <= n,
                take_svms(b@, p2 as int, i as nat) == Ok::<(Seq<SvmV<u32>>, int), DecodeErrorV>(
                    (classifiers@.map_values(|s: SVM<u32>| s@), pos as int),
                ),
                parse_multiclass(b@) == match take_svms(b@, p2 as int, n as nat) {
                    Ok((ss, _)) => Ok(ss),
                    Err(e) => Err::<Seq<SvmV<u32>>, DecodeErrorV>(e),
                },
            decreases n - i,
        {
            let ghost prev = classifiers@.map_values(|s: SVM<u32>| s@);
            let svm = match SVM::<u32>::read_from(b, pos) {
                Ok((s, p)) => {
                    pos = p;
                    s
                },
                Err(e) => {
                    proof {
                        lemma_take_svms_err_stays(b@, p2 as int, (i + 1) as nat, n as nat);
                    }
                    return Err(e);
                },
            };
            classifiers.push(svm);
            proof {
                assert(classifiers@.map_values(|s: SVM<u32>| s@) == prev.push(svm@));
            }
            i = i + 1;
        }
        Ok(MulticlassSVM { classifiers })
    }
}

} // verus!
