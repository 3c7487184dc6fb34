//! Reproducible shuffling of sample indices.
use vstd::prelude::*;
use rand::rngs::StdRng;
use rand::seq::SliceRandom;
use rand::{RngExt, SeedableRng};

verus! {

#[verifier::external_type_specification]
#[verifier::external_body]
pub struct ExStdRng(StdRng);

/// `StdRng::seed_from_u64` (rand): a generator seeded from `seed`. Nothing is
/// stated of the generator's state.
#[verifier::external_body]
fn seeded_rng(seed: u64) -> StdRng {
    StdRng::seed_from_u64(seed)
}

/// `RngExt::random_range` (rand) on the range `0..=hi`: a value drawn from
/// the range, so at most `hi`. Which value is drawn is not stated.
#[verifier::external_body]
fn random_index(rng: &mut StdRng, hi: usize) -> (j: usize)
    ensures
        j <= hi,
{
    rng.random_range(0..=hi)
}

/// `s` is an ordering of `0..n`: it has `n` entries, each below `n`, no two
/// alike, and every value below `n` occurs in it.
pub open spec fn is_permutation(s: Seq<usize>, n: nat) -> bool {
    &&& s.len() == n
    &&& forall|k: int| 0 <= k < n ==> #[trigger] s[k] < n
    &&& forall|a: int, b: int| 0 <= a < n && 0 <= b < n && a != b ==> s[a] != s[b]
    &&& forall|v: usize| v < n ==> #[trigger] s.contains(v)
}

/// `s` with the entries at `a` and `b` exchanged.
pub open spec fn swap_spec(s: Seq<usize>, a: int, b: int) -> Seq<usize> {
    s.update(a, s[b]).update(b, s[a])
}

/// The number of draws a Fisher-Yates shuffle of `n` indices makes: one for
/// each position from `n - 1` down to `1`.
pub open spec fn draw_count(n: nat) -> nat {
    if n == 0 {
        0
    } else {
        (n - 1) as nat
    }
}

/// `d` is a valid run of draws for shuffling `n` indices: draw `k` picks the
/// partner of position `n - 1 - k`, among positions `0 ..= n - 1 - k`.
pub open spec fn valid_draws(d: Seq<usize>, n: nat) -> bool {
    &&& d.len() == draw_count(n)
    &&& forall|k: int| 0 <= k < d.len() ==> #[trigger] d[k] <= n - 1 - k
}

/// The order of `0..n` after the first `k` swaps of a Fisher-Yates shuffle
/// with draws `d`: swap `k` exchanges positions `n - 1 - k` and `d[k]`.
pub open spec fn fy_prefix(n: nat, d: Seq<usize>, k: nat) -> Seq<usize>
    decreases k,
{
    if k == 0 {
        Seq::new(n, |i: int| i as usize)
    } else {
        swap_spec(fy_prefix(n, d, (k - 1) as nat), n - k, d[k - 1] as int)
    }
}

/// The order of `0..n` that a Fisher-Yates shuffle with draws `d` produces.
pub open spec fn fy_spec(n: nat, d: Seq<usize>) -> Seq<usize> {
    fy_prefix(n, d, d.len())
}

/// Once position `n - 1` has had its swap, it keeps what it got.
proof fn lemma_fy_prefix_last(n: nat, d: Seq<usize>, k: nat)
    requires
        n >= 2,
        valid_draws(d, n),
        1 <= k <= d.len(),
    ensures
        fy_prefix(n, d, k).len() == n,
        fy_prefix(n, d, k)[n - 1] == d[0],
    decreases k,
{
    lemma_fy_prefix_len(n, d, k);
    if k > 1 {
        lemma_fy_prefix_last(n, d, (k - 1) as nat);
        assert(d[k - 1] <= n - 1 - (k - 1));
    } else {
        lemma_fy_prefix_len(n, d, 0);
        assert(d[0] <= n - 1);
    }
}

/// Every stage of the shuffle has `n` entries.
proof fn lemma_fy_prefix_len(n: nat, d: Seq<usize>, k: nat)
    requires
        valid_draws(d, n),
        k <= d.len(),
    ensures
        fy_prefix(n, d, k).len() == n,
    decreases k,
{
    if k > 0 {
        lemma_fy_prefix_len(n, d, (k - 1) as nat);
    }
}

/// Law: the last position is swapped first and never again, so it ends up
/// holding the first draw.
pub proof fn lemma_fy_last_is_first_draw(n: nat, d: Seq<usize>)
    requires
        n >= 2,
        valid_draws(d, n),
    ensures
        fy_spec(n, d)[n - 1] == d[0],
{
    lemma_fy_prefix_last(n, d, d.len());
}

/// Law: when every draw picks the position being filled, nothing moves and
/// the order is `0..n`.
pub proof fn lemma_fy_draws_in_place(n: nat, d: Seq<usize>)
    requires
        valid_draws(d, n),
        forall|k: int| 0 <= k < d.len() ==> #[trigger] d[k] == n - 1 - k,
    ensures
        fy_spec(n, d) == Seq::new(n, |i: int| i as usize),
{
    lemma_fy_in_place_prefix(n, d, d.len());
}

proof fn lemma_fy_in_place_prefix(n: nat, d: Seq<usize>, k: nat)
    requires
        valid_draws(d, n),
        forall|q: int| 0 <= q < d.len() ==> #[trigger] d[q] == n - 1 - q,
        k <= d.len(),
    ensures
        fy_prefix(n, d, k) == Seq::new(n, |i: int| i as usize),
    decreases k,
{
    if k > 0 {
        lemma_fy_in_place_prefix(n, d, (k - 1) as nat);
        let s = fy_prefix(n, d, (k - 1) as nat);
        assert(d[k - 1] == n - k);
        assert(swap_spec(s, n - k, d[k - 1] as int) =~= s);
    }
}

/// The indices `0..n` shuffled by Fisher-Yates with the given draws: for each
/// position `i` from `n - 1` down to `1`, in turn, the entries at `i` and at
/// the next draw are exchanged.
pub fn fisher_yates(n: usize, draws: &Vec<usize>) -> (order: Vec<usize>)
    requires
        valid_draws(draws@, n as nat),
    ensures
        order@ == fy_spec(n as nat, draws@),
        is_permutation(order@, n as nat),
{
    let mut indices: Vec<usize> = Vec::new();
    let mut k: usize = 0;
    while k < n
        invariant
            k <= n,
            indices@.len() == k,
            forall|a: int| 0 <= a < k ==> #[trigger] indices@[a] == a,
        decreases n - k,
    {
        indices.push(k);
        k = k + 1;
    }
    assert(indices@ == fy_prefix(n as nat, draws@, 0));
    let ghost mut inv: Seq<usize> = indices@;
    let m = draws.len();
    let mut step: usize = 0;
    while step < m
        invariant
            m == draws@.len(),
            valid_draws(draws@, n as nat),
            step <= m,
            indices@ == fy_prefix(n as nat, draws@, step as nat),
            indices@.len() == n,
            inv.len() == n,
            forall|a: int| 0 <= a < n ==> #[trigger] indices@[a] < n,
            forall|v: int| 0 <= v < n ==> #[trigger] inv[v] < n,
            forall|a: int| 0 <= a < n ==> inv[#[trigger] indices@[a] as int] == a,
            forall|v: int| 0 <= v < n ==> indices@[#[trigger] inv[v] as int] == v,
        decreases m - step,
    {
        let i = n - 1 - step;
        let j = draws[step];
        assert(j <= i);
        let a = indices[i];
        let b = indices[j];
        indices[i] = b;
        indices[j] = a;
        proof {
            let old_inv = inv;
            inv = inv.update(a as int, j).update(b as int, i);
            assert forall|x: int| 0 <= x < n implies inv[#[trigger] indices@[x] as int] == x by {
                if x == i {
                } else if x == j {
                } else {
                    assert(indices@[x] != a && indices@[x] != b);
                }
            }
            assert forall|v: int| 0 <= v < n implies indices@[#[trigger] inv[v] as int] == v by {
                if v == a {
                } else if v == b {
                } else {
                    assert(old_inv[v] != i && old_inv[v] != j);
                }
            }
        }
        step = step + 1;
    }
    proof {
        assert forall|x: int, y: int|
            0 <= x < n && 0 <= y < n && x != y implies indices@[x] != indices@[y] by {
            if indices@[x] == indices@[y] {
                assert(inv[indices@[x] as int] == x);
                assert(inv[indices@[y] as int] == y);
            }
        }
        assert forall|v: usize| v < n implies #[trigger] indices@.contains(v) by {
            assert(indices@[inv[v as int] as int] == v);
        }
    }
    indices
}

/// The indices `0..n` in a Fisher-Yates order whose draws come from a
/// generator seeded with `seed`: the draw for position `i` is taken from
/// `0 ..= i`, for `i` from `n - 1` down to `1`. Which values are drawn is the
/// generator's.
pub fn shuffled_indices(n: usize, seed: u64) -> (order: Vec<usize>)
    ensures
        is_permutation(order@, n as nat),
        exists|d: Seq<usize>| valid_draws(d, n as nat) && order@ == fy_spec(n as nat, d),
{
    let mut rng = seeded_rng(seed);
    let mut draws: Vec<usize> = Vec::new();
    let mut i: usize = n;
    while i > 1
        invariant
            1 <= i <= n || (i == n && n <= 1),
            n > 0 ==> draws@.len() == n - i,
            n == 0 ==> draws@.len() == 0,
            forall|k: int| 0 <= k < draws@.len() ==> #[trigger] draws@[k] <= n - 1 - k,
        decreases i,
    {
        i = i - 1;
        let j = random_index(&mut rng, i);
        draws.push(j);
    }
    let order = fisher_yates(n, &draws);
    assert(valid_draws(draws@, n as nat) && order@ == fy_spec(n as nat, draws@));
    order
}

/// `SliceRandom::shuffle` (rand) on the whole of `v`, with the thread-local
/// generator `rand::rng()`. Stated: the entries are rearranged, each kept as
/// often as it was. Which arrangement comes out is the generator's.
#[verifier::external_body]
fn shuffle_in_place<T>(v: &mut Vec<T>)
    ensures
        final(v)@.to_multiset() == old(v)@.to_multiset(),
{
    v.as_mut_slice().shuffle(&mut rand::rng());
}

/// A sequence holding the same entries as `0..n` is an ordering of `0..n`.
proof fn lemma_permutation_of_multiset(s: Seq<usize>, n: nat)
    requires
        n <= usize::MAX,
        s.to_multiset() == Seq::new(n, |i: int| i as usize).to_multiset(),
    ensures
        is_permutation(s, n),
{
    let t = Seq::new(n, |i: int| i as usize);
    vstd::seq_lib::to_multiset_len(s);
    vstd::seq_lib::to_multiset_len(t);
    assert forall|i: int, j: int| 0 <= i < t.len() && 0 <= j < t.len() && i != j implies t[i] != t[j] by {
        assert(t[i] == i as usize && t[j] == j as usize);
    }
    assert(t.no_duplicates());
    t.lemma_multiset_has_no_duplicates();
    s.lemma_multiset_has_no_duplicates_conv();
    assert forall|k: int| 0 <= k < n implies #[trigger] s[k] < n by {
        vstd::seq_lib::to_multiset_contains(s, s[k]);
        vstd::seq_lib::to_multiset_contains(t, s[k]);
        assert(s.contains(s[k]));
    }
    assert forall|v: usize| v < n implies #[trigger] s.contains(v) by {
        vstd::seq_lib::to_multiset_contains(s, v);
        vstd::seq_lib::to_multiset_contains(t, v);
        assert(t[v as int] == v);
    }
}

/// The indices `0..n` in an order drawn by the thread-local generator (a
/// fresh, unseeded order on every call).
pub fn randomly_ordered_indices(n: usize) -> (order: Vec<usize>)
    ensures
        is_permutation(order@, n as nat),
{
    let mut order: Vec<usize> = Vec::new();
    let mut k: usize = 0;
    while k < n
        invariant
            k <= n,
            order@ == Seq::new(k as nat, |i: int| i as usize),
        decreases n - k,
    {
        order.push(k);
        k = k + 1;
    }
    shuffle_in_place(&mut order);
    proof {
        lemma_permutation_of_multiset(order@, n as nat);
    }
    order
}

} // verus!
