//! Classes of an image folder: the names of its class subdirectories, ordered
//! as strings are (by their UTF-8 bytes), give the labels `0, 1, 2, ...`.
use vstd::prelude::*;
use vstd::multiset::Multiset;
use vstd::utf8::*;

verus! {

/// `a` comes no later than `b` in lexicographic byte order, comparing from
/// position `i` on.
pub open spec fn bytes_le_from(a: Seq<u8>, b: Seq<u8>, i: int) -> bool
    decreases a.len() - i,
{
    if i >= a.len() {
        true
    } else if i >= b.len() {
        false
    } else if a[i] < b[i] {
        true
    } else if a[i] > b[i] {
        false
    } else {
        bytes_le_from(a, b, i + 1)
    }
}

/// String order: `a` sorts no later than `b` when its UTF-8 bytes do.
pub open spec fn name_le(a: Seq<char>, b: Seq<char>) -> bool {
    bytes_le_from(encode_utf8(a), encode_utf8(b), 0)
}

/// The contents of a run of strings.
pub open spec fn name_views(s: Seq<String>) -> Seq<Seq<char>> {
    s.map_values(|n: String| n@)
}

/// The names are in string order.
pub open spec fn names_sorted(s: Seq<Seq<char>>) -> bool {
    forall|i: int, j: int| 0 <= i < j < s.len() ==> name_le(#[trigger] s[i], #[trigger] s[j])
}

/// The message given when a folder has no class subdirectory.
pub open spec fn no_class_message(root: Seq<char>) -> Seq<char> {
    "No class subdirectories found in "@ + root
}

/// Any two byte strings are ordered one way or the other.
pub proof fn lemma_bytes_le_total(a: Seq<u8>, b: Seq<u8>, i: int)
    ensures
        bytes_le_from(a, b, i) || bytes_le_from(b, a, i),
    decreases a.len() - i,
{
    if i < a.len() && i < b.len() && a[i] == b[i] {
        lemma_bytes_le_total(a, b, i + 1);
    }
}

/// Byte order is transitive.
pub proof fn lemma_bytes_le_trans(a: Seq<u8>, b: Seq<u8>, c: Seq<u8>, i: int)
    requires
        bytes_le_from(a, b, i),
        bytes_le_from(b, c, i),
    ensures
        bytes_le_from(a, c, i),
    decreases a.len() - i,
{
    if i < a.len() && a[i] == b[i] && b[i] == c[i] {
        lemma_bytes_le_trans(a, b, c, i + 1);
    }
}

/// From `j` on, a string sorts no later than any string that it starts.
proof fn lemma_bytes_le_prefix(a: Seq<u8>, b: Seq<u8>, j: int)
    requires
        0 <= j,
        a.len() <= b.len(),
        forall|k: int| j <= k < a.len() ==> a[k] == b[k],
    ensures
        bytes_le_from(a, b, j),
    decreases a.len() - j,
{
    if j < a.len() {
        lemma_bytes_le_prefix(a, b, j + 1);
    }
}

/// From `j` on, the first byte where two strings differ decides their order.
proof fn lemma_bytes_le_first_difference(a: Seq<u8>, b: Seq<u8>, j: int, i: int)
    requires
        0 <= j <= i,
        i < a.len(),
        i < b.len(),
        forall|k: int| j <= k < i ==> a[k] == b[k],
        a[i] < b[i],
    ensures
        bytes_le_from(a, b, j),
        !bytes_le_from(b, a, j),
    decreases i - j,
{
    if j < i {
        lemma_bytes_le_first_difference(a, b, j + 1, i);
    }
}

/// Law (string order): a string sorts no later than every string that starts
/// with it; otherwise, at the first byte where two strings differ, the one
/// with the smaller byte sorts first and the other does not.
pub proof fn lemma_bytes_order(a: Seq<u8>, b: Seq<u8>)
    ensures
        a.len() <= b.len() && a == b.subrange(0, a.len() as int) ==> bytes_le_from(a, b, 0),
        forall|i: int|
            0 <= i < a.len() && i < b.len() && a.subrange(0, i) == b.subrange(0, i) && #[trigger] a[i]
                < b[i] ==> bytes_le_from(a, b, 0) && !bytes_le_from(b, a, 0),
{
    if a.len() <= b.len() && a == b.subrange(0, a.len() as int) {
        assert forall|k: int| 0 <= k < a.len() implies a[k] == b[k] by {
            assert(a[k] == b.subrange(0, a.len() as int)[k]);
        }
        lemma_bytes_le_prefix(a, b, 0);
    }
    assert forall|i: int|
        0 <= i < a.len() && i < b.len() && a.subrange(0, i) == b.subrange(0, i) && #[trigger] a[i]
            < b[i] implies bytes_le_from(a, b, 0) && !bytes_le_from(b, a, 0) by {
        assert forall|k: int| 0 <= k < i implies a[k] == b[k] by {
            assert(a[k] == a.subrange(0, i)[k]);
            assert(b[k] == b.subrange(0, i)[k]);
        }
        lemma_bytes_le_first_difference(a, b, 0, i);
    }
}

/// An empty sequence holds nothing.
proof fn lemma_empty_to_multiset<A>(s: Seq<A>)
    requires
        s.len() == 0,
    ensures
        s.to_multiset() =~= Multiset::empty(),
{
    vstd::seq_lib::to_multiset_len(s);
    vstd::multiset::lemma_multiset_empty_len(s.to_multiset());
}

/// Compares two byte strings in lexicographic order.
fn bytes_le(a: &[u8], b: &[u8]) -> (r: bool)
    ensures
        r == bytes_le_from(a@, b@, 0),
{
    let mut i: usize = 0;
    while i < a.len() && i < b.len()
        invariant
            i <= a@.len(),
            i <= b@.len(),
            bytes_le_from(a@, b@, 0) == bytes_le_from(a@, b@, i as int),
        decreases a@.len() - i,
    {
        if a[i] < b[i] {
            return true;
        }
        if a[i] > b[i] {
            return false;
        }
        i = i + 1;
    }
    i == a.len()
}

/// Whether `a` sorts no later than `b`.
fn name_le_exec(a: &String, b: &String) -> (r: bool)
    ensures
        r == name_le(a@, b@),
{
    bytes_le(a.as_str().as_bytes(), b.as_str().as_bytes())
}

/// The names in string order (an insertion sort).
pub fn sort_names(names: Vec<String>) -> (sorted: Vec<String>)
    ensures
        names_sorted(name_views(sorted@)),
        sorted@.to_multiset() == names@.to_multiset(),
{
    let ghost all = names@;
    let mut rest = names;
    let mut out: Vec<String> = Vec::new();
    proof {
        lemma_empty_to_multiset(out@);
        broadcast use vstd::multiset::group_multiset_axioms;
        assert(out@.to_multiset().add(rest@.to_multiset()) =~= all.to_multiset());
    }
    while rest.len() > 0
        invariant
            names_sorted(name_views(out@)),
            out@.to_multiset().add(rest@.to_multiset()) == all.to_multiset(),
        decreases rest@.len(),
    {
        let ghost before = rest@;
        let s = rest.pop().unwrap();
        assert(before == rest@.push(s));
        let mut pos: usize = 0;
        while pos < out.len() && name_le_exec(&out[pos], &s)
            invariant
                pos <= out@.len(),
                forall|k: int| 0 <= k < pos ==> name_le((#[trigger] out@[k])@, s@),
            decreases out@.len() - pos,
        {
            pos = pos + 1;
        }
        let ghost old_out = out@;
        out.insert(pos, s);
        proof {
            let v = name_views(out@);
            let ov = name_views(old_out);
            assert(v.len() == ov.len() + 1);
            if pos < old_out.len() {
                lemma_bytes_le_total(encode_utf8(ov[pos as int]), encode_utf8(s@), 0);
            }
            assert forall|i: int, j: int| 0 <= i < j < v.len() implies name_le(#[trigger] v[i], #[trigger] v[j]) by {
                if j < pos {
                    assert(v[i] == ov[i] && v[j] == ov[j]);
                } else if j == pos {
                    assert(v[i] == ov[i] && v[j] == s@);
                    assert(name_le(old_out[i]@, s@));
                } else if i > pos {
                    assert(v[i] == ov[i - 1] && v[j] == ov[j - 1]);
                } else if i == pos {
                    assert(v[i] == s@ && v[j] == ov[j - 1]);
                    if j - 1 > pos {
                        assert(name_le(ov[pos as int], ov[j - 1]));
                        lemma_bytes_le_trans(
                            encode_utf8(s@),
                            encode_utf8(ov[pos as int]),
                            encode_utf8(ov[j - 1]),
                            0,
                        );
                    }
                } else {
                    assert(v[i] == ov[i] && v[j] == ov[j - 1]);
                }
            }
            vstd::seq_lib::to_multiset_build(rest@, s);
            vstd::seq_lib::to_multiset_insert(old_out, pos as int, s);
            assert(out@.to_multiset().add(rest@.to_multiset()) =~= old_out.to_multiset().add(
                before.to_multiset(),
            ));
        }
    }
    proof {
        lemma_empty_to_multiset(rest@);
        broadcast use vstd::multiset::group_multiset_axioms;
        assert(out@.to_multiset().add(rest@.to_multiset()) =~= out@.to_multiset());
    }
    out
}

/// The class names of an image folder, given the names of its
/// subdirectories: in string order, so that the class at index `i` gets label
/// `i`. A folder without subdirectory is refused.
pub fn discover_classes(dir_names: Vec<String>, root: &str) -> (r: Result<Vec<String>, String>)
    ensures
        match r {
            Ok(names) => {
                &&& dir_names@.len() > 0
                &&& names_sorted(name_views(names@))
                &&& names@.to_multiset() == dir_names@.to_multiset()
            },
            Err(msg) => dir_names@.len() == 0 && msg@ == no_class_message(root@),
        },
{
    if dir_names.len() == 0 {
        let mut msg = String::from_str("No class subdirectories found in ");
        msg.append(root);
        proof {
            reveal_strlit("No class subdirectories found in ");
        }
        return Err(msg);
    }
    Ok(sort_names(dir_names))
}

} // verus!
