use memetic_tsp::crossover::{crossover_pair, cut_interval, generate_offspring};
use memetic_tsp::geom::{fitness, Point};
use memetic_tsp::ops::{apply2opt, init_population, mutate};
use memetic_tsp::rng::seed_rng;
use memetic_tsp::alg::AlgType;

fn is_perm(candidate: &Vec<usize>, n: usize) -> bool {
    if candidate.len() != n {
        return false;
    }
    let mut seen = vec![false; n];
    for &c in candidate {
        if c >= n || seen[c] {
            return false;
        }
        seen[c] = true;
    }
    true
}

fn square_points(side: u32) -> Vec<Point> {
    vec![
        Point { x: 0, y: 0 },
        Point { x: side, y: 0 },
        Point { x: side, y: side },
        Point { x: 0, y: side },
    ]
}

#[test]
fn init_population_yields_permutations() {
    let mut rng = seed_rng(7);
    for &n in &[2usize, 5, 50] {
        let pop = init_population(&mut rng, 8, n);
        assert_eq!(pop.len(), 8);
        for cand in &pop {
            assert!(is_perm(cand, n));
        }
    }
}

#[test]
fn init_population_actually_shuffles() {
    // With fifty cities and eight candidates, at least one shuffled
    // candidate differs from the identity order.
    let mut rng = seed_rng(13);
    let n = 50usize;
    let identity: Vec<usize> = (0..n).collect();
    let pop = init_population(&mut rng, 8, n);
    assert!(pop.iter().any(|cand| cand != &identity));
}

#[test]
fn zero_mutation_rate_never_mutates() {
    // With the empty copied window the crossover alone returns the parents
    // swapped; a mutation probability of zero must leave them exactly so.
    let p1: Vec<usize> = vec![0, 3, 1, 2];
    let p2: Vec<usize> = vec![2, 1, 3, 0];
    let locations = square_points(1000);
    let mut rng = seed_rng(31);
    for _ in 0..20 {
        let (o1, o2) = generate_offspring(&mut rng, &p1, &p2, &locations, 0, 1, AlgType::Ea);
        assert_eq!(o1, p2);
        assert_eq!(o2, p1);
    }
}

#[test]
fn certain_mutation_rate_always_mutates() {
    // A mutation probability of one must apply exactly one transposition to
    // each child on top of the parent swap.
    let p1: Vec<usize> = vec![0, 1, 2, 3, 4];
    let p2: Vec<usize> = vec![4, 3, 2, 1, 0];
    let locations = vec![
        Point { x: 0, y: 0 },
        Point { x: 100, y: 0 },
        Point { x: 200, y: 0 },
        Point { x: 300, y: 0 },
        Point { x: 400, y: 0 },
    ];
    let mut rng = seed_rng(37);
    for _ in 0..20 {
        let (o1, o2) = generate_offspring(&mut rng, &p1, &p2, &locations, 1, 1, AlgType::Ea);
        let d1 = o1.iter().zip(p2.iter()).filter(|(a, b)| a != b).count();
        let d2 = o2.iter().zip(p1.iter()).filter(|(a, b)| a != b).count();
        assert_eq!(d1, 2);
        assert_eq!(d2, 2);
        assert!(is_perm(&o1, 5));
        assert!(is_perm(&o2, 5));
    }
}

#[test]
fn mutate_swaps_two_positions() {
    let mut rng = seed_rng(11);
    for &n in &[2usize, 5, 50] {
        let original: Vec<usize> = (0..n).collect();
        let mut cand = original.clone();
        mutate(&mut rng, &mut cand);
        assert!(is_perm(&cand, n));
        let differing = original
            .iter()
            .zip(cand.iter())
            .filter(|(a, b)| a != b)
            .count();
        assert_eq!(differing, 2);
    }
}

#[test]
fn cut_interval_window_is_always_empty() {
    // The cut rule orders the draws so that the copied window runs from the
    // larger index up to the smaller one: over every pair of draws the
    // window is empty, so the crossover always behaves as full replacement.
    for c1 in 0..10usize {
        for c2 in 0..10usize {
            let (start, end) = cut_interval(c1, c2);
            assert!(start >= end);
            assert_eq!(start, c1.max(c2));
            assert_eq!(end, c1.min(c2));
        }
    }
}

#[test]
fn crossover_with_empty_window_swaps_parents() {
    let p1: Vec<usize> = vec![0, 1, 2, 3, 4];
    let p2: Vec<usize> = vec![4, 2, 0, 3, 1];
    let (c1, c2) = crossover_pair(&p1, &p2, 3, 3);
    assert_eq!(c1, p2);
    assert_eq!(c2, p1);
}

#[test]
fn crossover_with_real_window_repairs_from_other_parent() {
    let p1: Vec<usize> = vec![0, 1, 2, 3];
    let p2: Vec<usize> = vec![3, 2, 1, 0];
    let (c1, c2) = crossover_pair(&p1, &p2, 1, 3);
    assert_eq!(c1, vec![3, 1, 2, 0]);
    assert_eq!(c2, vec![0, 2, 1, 3]);
    assert!(is_perm(&c1, 4));
    assert!(is_perm(&c2, 4));
}

#[test]
fn crossover_yields_permutations() {
    let mut rng = seed_rng(3);
    for &n in &[2usize, 5, 50] {
        let pop = init_population(&mut rng, 2, n);
        for start in 0..n.min(6) {
            for end in 0..n.min(6) {
                let (c1, c2) = crossover_pair(&pop[0], &pop[1], start, end);
                assert!(is_perm(&c1, n));
                assert!(is_perm(&c2, n));
            }
        }
    }
}

#[test]
fn generate_offspring_yields_permutations() {
    let locations = square_points(1000);
    let mut rng = seed_rng(19);
    let pop = init_population(&mut rng, 2, locations.len());
    for &alg in &[AlgType::Ea, AlgType::Ma] {
        for _ in 0..20 {
            let (o1, o2) = generate_offspring(&mut rng, &pop[0], &pop[1], &locations, 1, 2, alg);
            assert!(is_perm(&o1, locations.len()));
            assert!(is_perm(&o2, locations.len()));
        }
    }
}

#[test]
fn refiner_never_regresses_fitness() {
    let locations = square_points(1000);
    let mut rng = seed_rng(23);
    let pop = init_population(&mut rng, 6, locations.len());
    for cand in pop {
        let before = fitness(&cand, &locations);
        let refined = apply2opt(cand, &locations);
        let after = fitness(&refined, &locations);
        assert!(after.tour_len <= before.tour_len);
        assert!(is_perm(&refined, locations.len()));
    }
}

#[test]
fn zero_rate_parent_swap_exact_instance() {
    // The deterministic face of the breeding step: with three cities, a
    // zero mutation rate and the plain variant, each child is exactly the
    // opposite parent.
    let p1: Vec<usize> = vec![0, 1, 2];
    let p2: Vec<usize> = vec![2, 0, 1];
    let locations = vec![
        Point { x: 0, y: 0 },
        Point { x: 500, y: 0 },
        Point { x: 0, y: 500 },
    ];
    let mut rng = seed_rng(41);
    let (o1, o2) = generate_offspring(&mut rng, &p1, &p2, &locations, 0, 1, AlgType::Ea);
    assert_eq!(o1, vec![2, 0, 1]);
    assert_eq!(o2, vec![0, 1, 2]);
}

#[test]
fn refiner_is_idempotent() {
    // Refining a locally optimal tour returns it unchanged: the first scan
    // finds no improving pair.
    let locations = square_points(1000);
    let mut rng = seed_rng(43);
    let pop = init_population(&mut rng, 6, locations.len());
    for cand in pop {
        let once = apply2opt(cand, &locations);
        let twice = apply2opt(once.clone(), &locations);
        assert_eq!(twice, once);
    }
}

#[test]
fn refiner_finds_square_optimum() {
    let locations = square_points(1000);
    // The path corner-diagonal-corner-diagonal is the worst order; the
    // refiner must reach an all-sides path of length 3000.
    let refined = apply2opt(vec![0, 2, 1, 3], &locations);
    assert_eq!(fitness(&refined, &locations).tour_len, 3000);
}
