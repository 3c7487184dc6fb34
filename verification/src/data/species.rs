//! The three-species image set: the samples of the cat, lion and cheetah
//! folders, mixed into one randomly ordered list with their species.
use vstd::prelude::*;
use crate::training::shuffle::{is_permutation, randomly_ordered_indices};

verus! {

/// The samples of the cat, lion and cheetah folders, one after the other.
pub open spec fn species_samples<T>(cat: Seq<Vec<T>>, lion: Seq<Vec<T>>, cheetah: Seq<Vec<T>>) -> Seq<Seq<T>> {
    (cat + lion + cheetah).map_values(|v: Vec<T>| v@)
}

/// The species of sample `i` of that list: 0 for a cat, 1 for a lion, 2 for a
/// cheetah.
pub open spec fn species_of(n_cat: nat, n_lion: nat, i: int) -> u8 {
    if i < n_cat {
        0
    } else if i < n_cat + n_lion {
        1
    } else {
        2
    }
}

/// Entry `k` of `samples` and `species` is the sample at position `order[k]`
/// of the cat, lion, cheetah list, with its species.
pub open spec fn placed<T>(
    cat: Seq<Vec<T>>,
    lion: Seq<Vec<T>>,
    cheetah: Seq<Vec<T>>,
    order: Seq<usize>,
    samples: Seq<Vec<T>>,
    species: Seq<u8>,
    k: int,
) -> bool {
    &&& samples[k]@ == species_samples(cat, lion, cheetah)[order[k] as int]
    &&& species[k] == species_of(cat.len(), lion.len(), order[k] as int)
}

/// `samples` and `species` list the samples of the three folders in the order
/// `order` (positions into the cat, lion, cheetah list) with their species.
pub open spec fn arranged<T>(
    cat: Seq<Vec<T>>,
    lion: Seq<Vec<T>>,
    cheetah: Seq<Vec<T>>,
    order: Seq<usize>,
    samples: Seq<Vec<T>>,
    species: Seq<u8>,
) -> bool {
    &&& samples.len() == order.len()
    &&& species.len() == order.len()
    &&& forall|k: int| 0 <= k < order.len() ==> #[trigger] placed(cat, lion, cheetah, order, samples, species, k)
}

/// Entry `k` of `samples` and `species` is cat `i` with species 0, lion `i`
/// with species 1 or cheetah `i` with species 2, where `order[k]` counts `i`
/// from the start of the cats, of the lions after the cats, or of the
/// cheetahs after the lions.
pub open spec fn from_its_folder<T>(
    cat: Seq<Vec<T>>,
    lion: Seq<Vec<T>>,
    cheetah: Seq<Vec<T>>,
    o: int,
    sample: Seq<T>,
    sp: u8,
) -> bool {
    ||| (sp == 0 && 0 <= o < cat.len() && sample == cat[o]@)
    ||| (sp == 1 && cat.len() <= o < cat.len() + lion.len() && sample == lion[o - cat.len()]@)
    ||| (sp == 2 && cat.len() + lion.len() <= o < cat.len() + lion.len() + cheetah.len() && sample
        == cheetah[o - cat.len() - lion.len()]@)
}

/// Some entry of `samples` is `x`, with species `sp`.
pub open spec fn stands_in<T>(samples: Seq<Vec<T>>, species: Seq<u8>, x: Seq<T>, sp: u8) -> bool {
    exists|k: int| 0 <= k < samples.len() && k < species.len() && #[trigger] samples[k]@ == x && species[k] == sp
}

/// Law: in an arrangement of the three folders, each entry is a cat with
/// species 0, a lion with species 1 or a cheetah with species 2, and every
/// cat, lion and cheetah stands at some entry with its species.
pub proof fn lemma_arranged_species<T>(
    cat: Seq<Vec<T>>,
    lion: Seq<Vec<T>>,
    cheetah: Seq<Vec<T>>,
    order: Seq<usize>,
    samples: Seq<Vec<T>>,
    species: Seq<u8>,
)
    requires
        cat.len() + lion.len() + cheetah.len() <= usize::MAX,
        is_permutation(order, cat.len() + lion.len() + cheetah.len()),
        arranged(cat, lion, cheetah, order, samples, species),
    ensures
        forall|k: int|
            0 <= k < order.len() ==> #[trigger] from_its_folder(
                cat,
                lion,
                cheetah,
                order[k] as int,
                samples[k]@,
                species[k],
            ),
        forall|i: int| 0 <= i < cat.len() ==> #[trigger] stands_in(samples, species, cat[i]@, 0),
        forall|i: int| 0 <= i < lion.len() ==> #[trigger] stands_in(samples, species, lion[i]@, 1),
        forall|i: int| 0 <= i < cheetah.len() ==> #[trigger] stands_in(samples, species, cheetah[i]@, 2),
{
    let joined = cat + lion + cheetah;
    let nc = cat.len() as int;
    let nl = lion.len() as int;
    let total = cat.len() + lion.len() + cheetah.len();
    assert forall|k: int| 0 <= k < order.len() implies #[trigger] from_its_folder(
        cat,
        lion,
        cheetah,
        order[k] as int,
        samples[k]@,
        species[k],
    ) by {
        assert(placed(cat, lion, cheetah, order, samples, species, k));
        let o = order[k] as int;
        assert(o < total);
        assert(species_samples(cat, lion, cheetah)[o] == joined[o]@);
        if o < nc {
            assert(joined[o] == cat[o]);
        } else if o < nc + nl {
            assert(joined[o] == lion[o - nc]);
        } else {
            assert(joined[o] == cheetah[o - nc - nl]);
        }
    }
    assert forall|i: int| 0 <= i < cat.len() implies #[trigger] stands_in(samples, species, cat[i]@, 0) by {
        assert(order.contains(i as usize));
        let k = choose|k: int| 0 <= k < order.len() && order[k] == i as usize;
        assert(from_its_folder(cat, lion, cheetah, order[k] as int, samples[k]@, species[k]));
    }
    assert forall|i: int| 0 <= i < lion.len() implies #[trigger] stands_in(samples, species, lion[i]@, 1) by {
        assert(order.contains((nc + i) as usize));
        let k = choose|k: int| 0 <= k < order.len() && order[k] == (nc + i) as usize;
        assert(from_its_folder(cat, lion, cheetah, order[k] as int, samples[k]@, species[k]));
    }
    assert forall|i: int| 0 <= i < cheetah.len() implies #[trigger] stands_in(samples, species, cheetah[i]@, 2) by {
        assert(order.contains((nc + nl + i) as usize));
        let k = choose|k: int| 0 <= k < order.len() && order[k] == (nc + nl + i) as usize;
        assert(from_its_folder(cat, lion, cheetah, order[k] as int, samples[k]@, species[k]));
    }
}

/// A copy of a vector.
fn copy_vec<T: Copy>(v: &Vec<T>) -> (r: Vec<T>)
    ensures
        r@ == v@,
{
    let mut out: Vec<T> = Vec::new();
    let n = v.len();
    let mut i: usize = 0;
    while i < n
        invariant
            n == v@.len(),
            i <= n,
            out@ == v@.subrange(0, i as int),
        decreases n - i,
    {
        out.push(v[i]);
        i = i + 1;
        assert(out@ == v@.subrange(0, i as int));
    }
    assert(v@.subrange(0, n as int) == v@);
    out
}

/// The samples of the three folders in the order `order`, each with its
/// species.
pub fn arrange_species<T: Copy>(
    cat: &Vec<Vec<T>>,
    lion: &Vec<Vec<T>>,
    cheetah: &Vec<Vec<T>>,
    order: &Vec<usize>,
) -> (r: (Vec<Vec<T>>, Vec<u8>))
    requires
        cat@.len() + lion@.len() + cheetah@.len() <= usize::MAX,
        is_permutation(order@, (cat@.len() + lion@.len() + cheetah@.len()) as nat),
    ensures
        arranged(cat@, lion@, cheetah@, order@, r.0@, r.1@),
{
    let n_cat = cat.len();
    let n_lion = lion.len();
    let n_cheetah = cheetah.len();
    let total = n_cat + n_lion + n_cheetah;
    let ghost all = species_samples(cat@, lion@, cheetah@);
    let mut samples: Vec<Vec<T>> = Vec::new();
    let mut species: Vec<u8> = Vec::new();
    let mut k: usize = 0;
    while k < total
        invariant
            total == cat@.len() + lion@.len() + cheetah@.len(),
            n_cat == cat@.len(),
            n_lion == lion@.len(),
            n_cheetah == cheetah@.len(),
            all == species_samples(cat@, lion@, cheetah@),
            is_permutation(order@, total as nat),
            k <= total,
            samples@.len() == k,
            species@.len() == k,
            forall|q: int| 0 <= q < k ==> #[trigger] placed(cat@, lion@, cheetah@, order@, samples@, species@, q),
        decreases total - k,
    {
        let i = order[k];
        assert(i < total);
        let ghost joined = cat@ + lion@ + cheetah@;
        let ghost prev_samples = samples@;
        let ghost prev_species = species@;
        assert(all[i as int] == joined[i as int]@);
        if i < n_cat {
            assert(joined[i as int] == cat@[i as int]);
            samples.push(copy_vec(&cat[i]));
            species.push(0);
        } else if i < n_cat + n_lion {
            assert(joined[i as int] == lion@[i - n_cat]);
            samples.push(copy_vec(&lion[i - n_cat]));
            species.push(1);
        } else {
            assert(joined[i as int] == cheetah@[i - n_cat - n_lion]);
            samples.push(copy_vec(&cheetah[i - n_cat - n_lion]));
            species.push(2);
        }
        assert(samples@[k as int]@ == all[i as int]);
        assert(species@[k as int] == species_of(cat@.len(), lion@.len(), i as int));
        proof {
            assert forall|q: int| 0 <= q < k + 1 implies #[trigger] placed(
                cat@,
                lion@,
                cheetah@,
                order@,
                samples@,
                species@,
                q,
            ) by {
                if q < k {
                    assert(placed(cat@, lion@, cheetah@, order@, prev_samples, prev_species, q));
                    assert(samples@[q] == prev_samples[q]);
                    assert(species@[q] == prev_species[q]);
                }
            }
        }
        k = k + 1;
    }
    assert(order@.len() == total);
    (samples, species)
}

/// The samples of the three folders in a random order drawn by the
/// thread-local generator, each with its species (0 cat, 1 lion, 2 cheetah).
pub fn shuffle_species<T: Copy>(cat: &Vec<Vec<T>>, lion: &Vec<Vec<T>>, cheetah: &Vec<Vec<T>>) -> (r: (
    Vec<Vec<T>>,
    Vec<u8>,
))
    requires
        cat@.len() + lion@.len() + cheetah@.len() <= usize::MAX,
    ensures
        exists|order: Seq<usize>|
            is_permutation(order, (cat@.len() + lion@.len() + cheetah@.len()) as nat) && arranged(
                cat@,
                lion@,
                cheetah@,
                order,
                r.0@,
                r.1@,
            ),
        r.0@.len() == cat@.len() + lion@.len() + cheetah@.len(),
        r.1@.len() == r.0@.len(),
        forall|i: int| 0 <= i < cat@.len() ==> #[trigger] stands_in(r.0@, r.1@, cat@[i]@, 0),
        forall|i: int| 0 <= i < lion@.len() ==> #[trigger] stands_in(r.0@, r.1@, lion@[i]@, 1),
        forall|i: int| 0 <= i < cheetah@.len() ==> #[trigger] stands_in(r.0@, r.1@, cheetah@[i]@, 2),
{
    let total = cat.len() + lion.len() + cheetah.len();
    let order = randomly_ordered_indices(total);
    let r = arrange_species(cat, lion, cheetah, &order);
    assert(is_permutation(order@, total as nat) && arranged(cat@, lion@, cheetah@, order@, r.0@, r.1@));
    proof {
        lemma_arranged_species(cat@, lion@, cheetah@, order@, r.0@, r.1@);
    }
    r
}

} // verus!
