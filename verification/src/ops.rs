use vstd::prelude::*;
use crate::geom::{fitness, tour_len, Fitness, Point};
use crate::perm::{is_permutation, lemma_multiset_permutation, lemma_swap_permutation};
use crate::rng::{rand_below, shuffle};

verus! {

/// Copies a candidate tour into a fresh, independently owned vector.
pub fn clone_candidate(v: &Vec<usize>) -> (r: Vec<usize>)
    ensures
        r@ == v@,
{
    let mut r: Vec<usize> = Vec::new();
    let mut i: usize = 0;
    while i < v.len()
        invariant
            i <= v@.len(),
            r@ == v@.take(i as int),
        decreases v@.len() - i,
    {
        r.push(v[i]);
        proof {
            assert(r@ =~= v@.take(i as int + 1));
        }
        i = i + 1;
    }
    proof {
        assert(r@ =~= v@);
    }
    r
}

/// Builds the initial population: `pop_size` candidates, each an
/// independently shuffled random permutation of the cities `0..candidate_len`.
pub fn init_population(
    rng: &mut rand::rngs::StdRng,
    pop_size: usize,
    candidate_len: usize,
) -> (r: Vec<Vec<usize>>)
    ensures
        r@.len() == pop_size,
        forall|k: int| 0 <= k < r@.len() ==> is_permutation(
            (#[trigger] r@[k])@,
            candidate_len as nat,
        ),
{
    let mut base: Vec<usize> = Vec::new();
    let mut i: usize = 0;
    while i < candidate_len
        invariant
            i <= candidate_len,
            base@.len() == i,
            forall|j: int| 0 <= j < i ==> (#[trigger] base@[j]) == j,
        decreases candidate_len - i,
    {
        base.push(i);
        i = i + 1;
    }
    assert(is_permutation(base@, candidate_len as nat));
    let mut out: Vec<Vec<usize>> = Vec::new();
    let mut k: usize = 0;
    while k < pop_size
        invariant
            k <= pop_size,
            out@.len() == k,
            is_permutation(base@, candidate_len as nat),
            forall|t: int| 0 <= t < k ==> is_permutation(
                (#[trigger] out@[t])@,
                candidate_len as nat,
            ),
        decreases pop_size - k,
    {
        let ghost prev = base@;
        shuffle(rng, &mut base);
        proof {
            lemma_multiset_permutation(prev, base@, candidate_len as nat);
        }
        let copy = clone_candidate(&base);
        out.push(copy);
        k = k + 1;
    }
    out
}

/// Applies one swap mutation: two distinct positions, drawn uniformly, have
/// their cities exchanged. A transposition of a valid tour is a valid tour.
pub fn mutate(rng: &mut rand::rngs::StdRng, individual: &mut Vec<usize>)
    requires
        old(individual)@.len() >= 2,
    ensures
        final(individual)@.len() == old(individual)@.len(),
        exists|i: int, j: int|
            0 <= i < old(individual)@.len() && 0 <= j < old(individual)@.len() && i != j
                && final(individual)@ == old(individual)@.update(i, old(individual)@[j]).update(
                j,
                old(individual)@[i],
            ),
        forall|n: nat| is_permutation(old(individual)@, n) ==> is_permutation(
            final(individual)@,
            n,
        ),
{
    let l = individual.len();
    let idx0 = rand_below(rng, l);
    // A uniform draw over the positions other than `idx0`: draw among the
    // remaining count and shift past `idx0`.
    let mut idx1 = rand_below(rng, l - 1);
    if idx1 >= idx0 {
        idx1 = idx1 + 1;
    }
    let a = individual[idx0];
    let b = individual[idx1];
    individual.set(idx0, b);
    individual.set(idx1, a);
    proof {
        let s = old(individual)@;
        let i = idx0 as int;
        let j = idx1 as int;
        assert(individual@ == s.update(i, s[j]).update(j, s[i]));
        assert forall|n: nat| is_permutation(s, n) implies is_permutation(individual@, n) by {
            lemma_swap_permutation(s, n, i, j);
        }
    }
}

/// The candidate with the cities at positions `i` and `j` exchanged.
pub open spec fn swapped(s: Seq<usize>, i: int, j: int) -> Seq<usize> {
    s.update(i, s[j]).update(j, s[i])
}

/// A tour is locally optimal for the refiner when no single pair swap
/// yields a strictly shorter tour.
pub open spec fn is_local_optimum(s: Seq<usize>, pts: Seq<Point>) -> bool {
    forall|i: int, j: int|
        0 <= i < j < s.len() ==> tour_len(#[trigger] swapped(s, i, j), pts) >= tour_len(s, pts)
}

/// One scan of the local-search refiner: walks all position pairs `(i, j)`
/// with `i < j` in row-major order; at the first pair whose swap yields a
/// strictly fitter (strictly shorter) tour, applies that swap, records the
/// new fitness, and reports an improvement. Reports none when a full scan
/// finds no improving pair, leaving the tour and fitness unchanged.
fn improve_once(individual: &mut Vec<usize>, locations: &Vec<Point>, best: &mut Fitness) -> (improved:
    bool)
    requires
        forall|k: int| 0 <= k < old(individual)@.len() ==> (#[trigger] old(individual)@[k])
            < locations@.len(),
        old(best).tour_len == tour_len(old(individual)@, locations@),
    ensures
        final(individual)@.len() == old(individual)@.len(),
        forall|k: int| 0 <= k < final(individual)@.len() ==> (#[trigger] final(individual)@[k])
            < locations@.len(),
        final(best).tour_len == tour_len(final(individual)@, locations@),
        forall|n: nat| is_permutation(old(individual)@, n) ==> is_permutation(
            final(individual)@,
            n,
        ),
        improved ==> final(best).tour_len < old(best).tour_len,
        !improved ==> final(individual)@ == old(individual)@ && *final(best) == *old(best)
            && is_local_optimum(final(individual)@, locations@),
        is_local_optimum(old(individual)@, locations@) ==> !improved,
{
    let len = individual.len();
    let mut i: usize = 0;
    while i < len
        invariant
            i <= len,
            len == individual@.len(),
            individual@ == old(individual)@,
            *best == *old(best),
            forall|k: int| 0 <= k < individual@.len() ==> (#[trigger] individual@[k])
                < locations@.len(),
            old(best).tour_len == tour_len(old(individual)@, locations@),
            forall|a: int, b: int|
                0 <= a < i && a < b < len ==> tour_len(#[trigger] swapped(individual@, a, b),
                locations@) >= tour_len(individual@, locations@),
        decreases len - i,
    {
        let mut j: usize = i + 1;
        while j < len
            invariant
                i < j,
                j <= len,
                len == individual@.len(),
                individual@ == old(individual)@,
                *best == *old(best),
                forall|k: int| 0 <= k < individual@.len() ==> (#[trigger] individual@[k])
                    < locations@.len(),
                old(best).tour_len == tour_len(old(individual)@, locations@),
                forall|a: int, b: int|
                    0 <= a < i && a < b < len ==> tour_len(#[trigger] swapped(individual@, a, b),
                    locations@) >= tour_len(individual@, locations@),
                forall|b: int|
                    i < b < j ==> tour_len(#[trigger] swapped(individual@, i as int, b),
                    locations@) >= tour_len(individual@, locations@),
            decreases len - j,
        {
            let mut cand = clone_candidate(individual);
            let a = cand[i];
            let b = cand[j];
            cand.set(i, b);
            cand.set(j, a);
            let f = fitness(&cand, locations);
            if f.is_fitter(best) {
                let ghost s = old(individual)@;
                proof {
                    assert(cand@ == swapped(s, i as int, j as int));
                    if is_local_optimum(s, locations@) {
                        assert(tour_len(swapped(s, i as int, j as int), locations@) >= tour_len(
                            s,
                            locations@,
                        ));
                        assert(false);
                    }
                }
                *individual = cand;
                *best = f;
                proof {
                    assert(individual@ == s.update(i as int, s[j as int]).update(
                        j as int,
                        s[i as int],
                    ));
                    assert forall|n: nat| is_permutation(s, n) implies is_permutation(
                        individual@,
                        n,
                    ) by {
                        lemma_swap_permutation(s, n, i as int, j as int);
                    }
                }
                return true;
            }
            proof {
                assert(cand@ == swapped(individual@, i as int, j as int));
            }
            j = j + 1;
        }
        i = i + 1;
    }
    false
}

/// The local-search refiner: repeatedly applies the first improving pair
/// swap found by a row-major scan, restarting the scan after each applied
/// swap, until a full scan finds no improvement. The result is never less
/// fit than the input tour, it is locally optimal (no single pair swap
/// shortens it further), and a valid tour stays valid. Refinement is
/// idempotent: an input that is already locally optimal comes back
/// unchanged, since the first scan finds no improving pair.
pub fn apply2opt(individual: Vec<usize>, locations: &Vec<Point>) -> (r: Vec<usize>)
    requires
        forall|k: int| 0 <= k < individual@.len() ==> (#[trigger] individual@[k])
            < locations@.len(),
    ensures
        r@.len() == individual@.len(),
        tour_len(r@, locations@) <= tour_len(individual@, locations@),
        is_local_optimum(r@, locations@),
        is_local_optimum(individual@, locations@) ==> r@ == individual@,
        forall|k: int| 0 <= k < r@.len() ==> (#[trigger] r@[k]) < locations@.len(),
        forall|n: nat| is_permutation(individual@, n) ==> is_permutation(r@, n),
{
    let ghost orig = individual@;
    let mut ind = individual;
    let mut best = fitness(&ind, locations);
    let mut improved = true;
    while improved
        invariant
            ind@.len() == orig.len(),
            forall|k: int| 0 <= k < ind@.len() ==> (#[trigger] ind@[k]) < locations@.len(),
            best.tour_len == tour_len(ind@, locations@),
            tour_len(ind@, locations@) <= tour_len(orig, locations@),
            forall|n: nat| is_permutation(orig, n) ==> is_permutation(ind@, n),
            !improved ==> is_local_optimum(ind@, locations@),
            is_local_optimum(orig, locations@) ==> ind@ == orig,
        decreases best.tour_len, (if improved { 1int } else { 0int }),
    {
        improved = improve_once(&mut ind, locations, &mut best);
    }
    ind
}

} // verus!
