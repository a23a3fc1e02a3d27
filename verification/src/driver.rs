use vstd::prelude::*;
use crate::alg::AlgType;
use crate::crossover::{bred_from, generate_offspring};
use crate::geom::{fitness, tour_len, Fitness, Point};
use crate::ops::{clone_candidate, init_population, is_local_optimum};
use crate::perm::is_permutation;
use crate::rng::{rand_below, seed_rng};
use rayon::iter::IntoParallelIterator;
use rayon::iter::ParallelIterator;

verus! {

/// Everything one complete run yields: one fitness record per generation
/// (oldest first), and the population snapshots from generation 0 through
/// the final generation, inclusive.
#[derive(Debug, Clone, PartialEq)]
pub struct RunResult {
    pub fitness_hist: Vec<Vec<Fitness>>,
    pub pop_hist: Vec<Vec<Vec<usize>>>,
}

/// The structural contract of one run: `epochs` fitness records and
/// `epochs + 1` population snapshots; every snapshot holds exactly
/// `pop_size` candidates; every candidate is a valid tour over the given
/// cities; and each fitness record entry is exactly the evaluation of the
/// matching candidate of the matching snapshot.
pub open spec fn run_result_ok(
    r: RunResult,
    locations: Seq<Point>,
    pop_size: int,
    epochs: int,
) -> bool {
    &&& r.fitness_hist@.len() == epochs
    &&& r.pop_hist@.len() == epochs + 1
    &&& forall|g: int|
        0 <= g < r.pop_hist@.len() ==> (#[trigger] r.pop_hist@[g])@.len() == pop_size
    &&& forall|g: int|
        0 <= g < r.fitness_hist@.len() ==> (#[trigger] r.fitness_hist@[g])@.len() == pop_size
    &&& forall|g: int, k: int|
        0 <= g < r.pop_hist@.len() && 0 <= k < pop_size ==> is_permutation(
            (#[trigger] r.pop_hist@[g]@[k])@,
            locations.len() as nat,
        )
    &&& forall|g: int, k: int|
        0 <= g < r.fitness_hist@.len() && 0 <= k < pop_size ==> (
        #[trigger] r.fitness_hist@[g]@[k]).tour_len == tour_len(r.pop_hist@[g]@[k]@, locations)
}

/// The extra contract of a memetic run: every bred candidate, that is,
/// every candidate of every snapshot after generation 0, is locally optimal
/// for the refiner.
pub open spec fn run_result_refined(r: RunResult, locations: Seq<Point>, pop_size: int) -> bool {
    forall|g: int, k: int|
        1 <= g < r.pop_hist@.len() && 0 <= k < pop_size ==> is_local_optimum(
            (#[trigger] r.pop_hist@[g]@[k])@,
            locations,
        )
}

/// Whether a candidate equals some candidate of the given snapshot.
pub open spec fn in_snapshot(cand: Seq<usize>, snapshot: Vec<Vec<usize>>, pop_size: int) -> bool {
    exists|u: int| 0 <= u < pop_size && cand == (#[trigger] snapshot@[u])@
}

/// Whether a candidate was bred from some candidate of the given snapshot:
/// it equals that candidate or carries exactly one transposition of it.
pub open spec fn bred_from_snapshot(
    cand: Seq<usize>,
    snapshot: Vec<Vec<usize>>,
    pop_size: int,
) -> bool {
    exists|u: int| 0 <= u < pop_size && bred_from(cand, (#[trigger] snapshot@[u])@)
}

/// The lineage contract of a plain evolutionary run: every candidate of
/// every snapshot after generation 0 was bred from some candidate of the
/// snapshot before it — it equals that candidate or carries exactly one
/// transposition of it.
pub open spec fn run_result_bred(r: RunResult, pop_size: int) -> bool {
    forall|g: int, k: int|
        1 <= g < r.pop_hist@.len() && 0 <= k < pop_size ==> bred_from_snapshot(
            (#[trigger] r.pop_hist@[g]@[k])@,
            r.pop_hist@[g - 1],
            pop_size,
        )
}

/// One complete evolutionary run, driven by the random stream that the seed
/// starts: build generation 0, then, for each generation, record every
/// candidate's fitness, select a mating pool by binary tournament, breed a
/// replacement population pair by pair, and append it to the history. The
/// population size never changes, the history lengths are fixed by the
/// epoch count, and every recorded candidate is a valid tour. In the plain
/// variant every candidate after generation 0 was bred from some candidate
/// of the snapshot before it; in the memetic variant every such candidate
/// is locally optimal for the refiner.
pub fn run(
    locations: &Vec<Point>,
    pop_size: usize,
    epochs: usize,
    p_mut_num: u32,
    p_mut_den: u32,
    alg: AlgType,
    seed: u64,
) -> (r: RunResult)
    requires
        locations@.len() >= 2,
        pop_size >= 2,
        pop_size % 2 == 0,
        p_mut_den >= 1,
        p_mut_num <= p_mut_den,
    ensures
        run_result_ok(r, locations@, pop_size as int, epochs as int),
        alg == AlgType::Ea ==> run_result_bred(r, pop_size as int),
        alg == AlgType::Ma ==> run_result_refined(r, locations@, pop_size as int),
{
    let ghost n = locations@.len() as nat;
    let mut rng = seed_rng(seed);
    let population = init_population(&mut rng, pop_size, locations.len());
    let mut pop_hist: Vec<Vec<Vec<usize>>> = Vec::new();
    let mut fitness_hist: Vec<Vec<Fitness>> = Vec::new();
    pop_hist.push(population);
    let mut e: usize = 0;
    while e < epochs
        invariant
            e <= epochs,
            pop_hist@.len() == e + 1,
            fitness_hist@.len() == e,
            n == locations@.len(),
            locations@.len() >= 2,
            pop_size >= 2,
            pop_size % 2 == 0,
            p_mut_den >= 1,
            p_mut_num <= p_mut_den,
            forall|g: int| 0 <= g < pop_hist@.len() ==> (#[trigger] pop_hist@[g])@.len()
                == pop_size,
            forall|g: int| 0 <= g < fitness_hist@.len() ==> (#[trigger] fitness_hist@[g])@.len()
                == pop_size,
            forall|g: int, k: int|
                0 <= g < pop_hist@.len() && 0 <= k < pop_size ==> is_permutation(
                    (#[trigger] pop_hist@[g]@[k])@,
                    n,
                ),
            forall|g: int, k: int|
                0 <= g < fitness_hist@.len() && 0 <= k < pop_size ==> (
                #[trigger] fitness_hist@[g]@[k]).tour_len == tour_len(
                    pop_hist@[g]@[k]@,
                    locations@,
                ),
            alg == AlgType::Ea ==> forall|g: int, k: int|
                1 <= g < pop_hist@.len() && 0 <= k < pop_size ==> bred_from_snapshot(
                    (#[trigger] pop_hist@[g]@[k])@,
                    pop_hist@[g - 1],
                    pop_size as int,
                ),
            alg == AlgType::Ma ==> forall|g: int, k: int|
                1 <= g < pop_hist@.len() && 0 <= k < pop_size ==> is_local_optimum(
                    (#[trigger] pop_hist@[g]@[k])@,
                    locations@,
                ),
        decreases epochs - e,
    {
        let cur = pop_hist.len() - 1;
        // Evaluate the whole current population, recording one fitness per
        // candidate.
        let mut fitness_values: Vec<Fitness> = Vec::new();
        let mut k: usize = 0;
        while k < pop_size
            invariant
                k <= pop_size,
                fitness_values@.len() == k,
                n == locations@.len(),
                0 <= cur < pop_hist@.len(),
                pop_hist@[cur as int]@.len() == pop_size,
                forall|t: int| 0 <= t < pop_size ==> is_permutation(
                    (#[trigger] pop_hist@[cur as int]@[t])@,
                    n,
                ),
                forall|t: int| 0 <= t < k ==> (#[trigger] fitness_values@[t]).tour_len
                    == tour_len(pop_hist@[cur as int]@[t]@, locations@),
            decreases pop_size - k,
        {
            let f = fitness(&pop_hist[cur][k], locations);
            fitness_values.push(f);
            k = k + 1;
        }
        // Binary tournament selection: per pool slot, draw two distinct
        // indices uniformly and keep the candidate whose fitness is strictly
        // greater; ties go to the second index. Comparing the raw fitness
        // values orders the candidates exactly as comparing the
        // total-normalized values does.
        let mut mating_pool: Vec<Vec<usize>> = Vec::new();
        let mut s: usize = 0;
        while s < pop_size
            invariant
                s <= pop_size,
                mating_pool@.len() == s,
                pop_size >= 2,
                n == locations@.len(),
                0 <= cur < pop_hist@.len(),
                pop_hist@[cur as int]@.len() == pop_size,
                fitness_values@.len() == pop_size,
                forall|t: int| 0 <= t < pop_size ==> is_permutation(
                    (#[trigger] pop_hist@[cur as int]@[t])@,
                    n,
                ),
                forall|t: int| 0 <= t < s ==> is_permutation((#[trigger] mating_pool@[t])@, n),
                forall|t: int| 0 <= t < s ==> in_snapshot(
                    (#[trigger] mating_pool@[t])@,
                    pop_hist@[cur as int],
                    pop_size as int,
                ),
            decreases pop_size - s,
        {
            let p1_idx = rand_below(&mut rng, pop_size);
            // A uniform draw over the indices other than `p1_idx`: draw
            // among the remaining count and shift past `p1_idx`.
            let mut p2_idx = rand_below(&mut rng, pop_size - 1);
            if p2_idx >= p1_idx {
                p2_idx = p2_idx + 1;
            }
            let chosen = if fitness_values[p1_idx].is_fitter(&fitness_values[p2_idx]) {
                p1_idx
            } else {
                p2_idx
            };
            let picked = clone_candidate(&pop_hist[cur][chosen]);
            mating_pool.push(picked);
            proof {
                assert((mating_pool@[s as int])@ == (pop_hist@[cur as int]@[chosen as int])@);
                assert(in_snapshot(
                    (mating_pool@[s as int])@,
                    pop_hist@[cur as int],
                    pop_size as int,
                ));
            }
            s = s + 1;
        }
        // Breed: consecutive non-overlapping pairs of the mating pool each
        // yield two children. The replacement population provably has the
        // configured size again.
        let mut new_population: Vec<Vec<usize>> = Vec::new();
        let mut c: usize = 0;
        while c + 1 < pop_size
            invariant
                c % 2 == 0,
                c <= pop_size,
                new_population@.len() == c,
                n == locations@.len(),
                locations@.len() >= 2,
                pop_size >= 2,
                p_mut_den >= 1,
                p_mut_num <= p_mut_den,
                mating_pool@.len() == pop_size,
                0 <= cur < pop_hist@.len(),
                forall|t: int| 0 <= t < pop_size ==> is_permutation(
                    (#[trigger] mating_pool@[t])@,
                    n,
                ),
                forall|t: int| 0 <= t < pop_size ==> in_snapshot(
                    (#[trigger] mating_pool@[t])@,
                    pop_hist@[cur as int],
                    pop_size as int,
                ),
                forall|t: int| 0 <= t < c ==> is_permutation(
                    (#[trigger] new_population@[t])@,
                    n,
                ),
                alg == AlgType::Ea ==> forall|t: int|
                    0 <= t < c ==> bred_from_snapshot(
                        (#[trigger] new_population@[t])@,
                        pop_hist@[cur as int],
                        pop_size as int,
                    ),
                alg == AlgType::Ma ==> forall|t: int|
                    0 <= t < c ==> is_local_optimum((#[trigger] new_population@[t])@, locations@),
            decreases pop_size - c,
        {
            let (offspring1, offspring2) = generate_offspring(
                &mut rng,
                &mating_pool[c],
                &mating_pool[c + 1],
                locations,
                p_mut_num,
                p_mut_den,
                alg,
            );
            new_population.push(offspring1);
            new_population.push(offspring2);
            proof {
                if alg == AlgType::Ea {
                    let snap = pop_hist@[cur as int];
                    let u1 = choose|u: int|
                        0 <= u < pop_size && (mating_pool@[c as int])@ == (#[trigger] snap@[u])@;
                    let u2 = choose|u: int|
                        0 <= u < pop_size && (mating_pool@[c as int + 1])@ == (
                        #[trigger] snap@[u])@;
                    assert(bred_from((new_population@[c as int])@, snap@[u2]@));
                    assert(bred_from_snapshot(
                        (new_population@[c as int])@,
                        snap,
                        pop_size as int,
                    ));
                    assert(bred_from((new_population@[c as int + 1])@, snap@[u1]@));
                    assert(bred_from_snapshot(
                        (new_population@[c as int + 1])@,
                        snap,
                        pop_size as int,
                    ));
                }
            }
            c = c + 2;
        }
        assert(new_population@.len() == pop_size);
        fitness_hist.push(fitness_values);
        pop_hist.push(new_population);
        e = e + 1;
    }
    RunResult { fitness_hist, pop_hist }
}

/// Executes the runs one after the other, one per seed, and returns their
/// results in seed order. Each run owns its own random stream and shares
/// nothing with the others.
pub fn run_all(
    locations: &Vec<Point>,
    pop_size: usize,
    epochs: usize,
    p_mut_num: u32,
    p_mut_den: u32,
    alg: AlgType,
    seeds: &Vec<u64>,
) -> (r: Vec<RunResult>)
    requires
        locations@.len() >= 2,
        pop_size >= 2,
        pop_size % 2 == 0,
        p_mut_den >= 1,
        p_mut_num <= p_mut_den,
    ensures
        r@.len() == seeds@.len(),
        forall|i: int| 0 <= i < r@.len() ==> run_result_ok(
            #[trigger] r@[i],
            locations@,
            pop_size as int,
            epochs as int,
        ),
        alg == AlgType::Ea ==> forall|i: int|
            0 <= i < r@.len() ==> run_result_bred(#[trigger] r@[i], pop_size as int),
        alg == AlgType::Ma ==> forall|i: int|
            0 <= i < r@.len() ==> run_result_refined(#[trigger] r@[i], locations@, pop_size as int),
{
    let mut results: Vec<RunResult> = Vec::new();
    let mut i: usize = 0;
    while i < seeds.len()
        invariant
            i <= seeds@.len(),
            results@.len() == i,
            locations@.len() >= 2,
            pop_size >= 2,
            pop_size % 2 == 0,
            p_mut_den >= 1,
            p_mut_num <= p_mut_den,
            forall|t: int| 0 <= t < i ==> run_result_ok(
                #[trigger] results@[t],
                locations@,
                pop_size as int,
                epochs as int,
            ),
            alg == AlgType::Ea ==> forall|t: int|
                0 <= t < i ==> run_result_bred(#[trigger] results@[t], pop_size as int),
            alg == AlgType::Ma ==> forall|t: int|
                0 <= t < i ==> run_result_refined(
                    #[trigger] results@[t],
                    locations@,
                    pop_size as int,
                ),
        decreases seeds@.len() - i,
    {
        let one = run(locations, pop_size, epochs, p_mut_num, p_mut_den, alg, seeds[i]);
        results.push(one);
        i = i + 1;
    }
    results
}

/// Fans the runs out to parallel workers, one per seed, and gathers their
/// results in seed order regardless of completion order. Relies on rayon's
/// `into_par_iter().map(..).collect()` over an indexed range, which is
/// documented to collect the mapped results in the index order of the
/// range; each element is the result of one call of the verified `run`, so
/// each element meets `run`'s postcondition.
#[verifier::external_body]
fn fan_out_runs(
    locations: &Vec<Point>,
    pop_size: usize,
    epochs: usize,
    p_mut_num: u32,
    p_mut_den: u32,
    alg: AlgType,
    seeds: &Vec<u64>,
) -> (r: Vec<RunResult>)
    requires
        locations@.len() >= 2,
        pop_size >= 2,
        pop_size % 2 == 0,
        p_mut_den >= 1,
        p_mut_num <= p_mut_den,
    ensures
        r@.len() == seeds@.len(),
        forall|i: int| 0 <= i < r@.len() ==> run_result_ok(
            #[trigger] r@[i],
            locations@,
            pop_size as int,
            epochs as int,
        ),
        alg == AlgType::Ea ==> forall|i: int|
            0 <= i < r@.len() ==> run_result_bred(#[trigger] r@[i], pop_size as int),
        alg == AlgType::Ma ==> forall|i: int|
            0 <= i < r@.len() ==> run_result_refined(#[trigger] r@[i], locations@, pop_size as int),
{
    (0..seeds.len())
        .into_par_iter()
        .map(|i| run(locations, pop_size, epochs, p_mut_num, p_mut_den, alg, seeds[i]))
        .collect()
}

/// Executes the runs concurrently, one per seed, with no shared state
/// beyond the final gathering: the results come back in seed order
/// regardless of which run finishes first, and each one meets the same
/// structural contract as a sequential run.
pub fn run_all_parallel(
    locations: &Vec<Point>,
    pop_size: usize,
    epochs: usize,
    p_mut_num: u32,
    p_mut_den: u32,
    alg: AlgType,
    seeds: &Vec<u64>,
) -> (r: Vec<RunResult>)
    requires
        locations@.len() >= 2,
        pop_size >= 2,
        pop_size % 2 == 0,
        p_mut_den >= 1,
        p_mut_num <= p_mut_den,
    ensures
        r@.len() == seeds@.len(),
        forall|i: int| 0 <= i < r@.len() ==> run_result_ok(
            #[trigger] r@[i],
            locations@,
            pop_size as int,
            epochs as int,
        ),
        alg == AlgType::Ea ==> forall|i: int|
            0 <= i < r@.len() ==> run_result_bred(#[trigger] r@[i], pop_size as int),
        alg == AlgType::Ma ==> forall|i: int|
            0 <= i < r@.len() ==> run_result_refined(#[trigger] r@[i], locations@, pop_size as int),
{
    fan_out_runs(locations, pop_size, epochs, p_mut_num, p_mut_den, alg, seeds)
}

} // verus!
