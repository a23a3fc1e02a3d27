use memetic_tsp::alg::AlgType;
use memetic_tsp::driver::{run, run_all, run_all_parallel};
use memetic_tsp::geom::{fitness, Point};

fn square_points(side: u32) -> Vec<Point> {
    vec![
        Point { x: 0, y: 0 },
        Point { x: side, y: 0 },
        Point { x: side, y: side },
        Point { x: 0, y: side },
    ]
}

fn is_perm(candidate: &Vec<usize>, n: usize) -> bool {
    if candidate.len() != n {
        return false;
    }
    let mut seen = vec![false; n];
    for &c in candidate {
        if c >= n || seen[c] {
            return false;
        }
        seen[c] = true;
    }
    true
}

#[test]
fn history_lengths_and_population_sizes_are_invariant() {
    let locations = square_points(1000);
    let pop_size = 10usize;
    let epochs = 12usize;
    let result = run(&locations, pop_size, epochs, 1, 10, AlgType::Ea, 42);
    assert_eq!(result.pop_hist.len(), epochs + 1);
    assert_eq!(result.fitness_hist.len(), epochs);
    for snapshot in &result.pop_hist {
        assert_eq!(snapshot.len(), pop_size);
        for cand in snapshot {
            assert!(is_perm(cand, locations.len()));
        }
    }
    for record in &result.fitness_hist {
        assert_eq!(record.len(), pop_size);
    }
}

#[test]
fn fitness_records_match_their_snapshots() {
    let locations = square_points(1000);
    let result = run(&locations, 4, 6, 1, 4, AlgType::Ma, 99);
    for g in 0..result.fitness_hist.len() {
        for k in 0..result.fitness_hist[g].len() {
            let expected = fitness(&result.pop_hist[g][k], &locations);
            assert_eq!(result.fitness_hist[g][k], expected);
        }
    }
}

#[test]
fn identical_seed_reproduces_identical_history() {
    let locations = square_points(1000);
    let a = run(&locations, 6, 15, 1, 3, AlgType::Ea, 2024);
    let b = run(&locations, 6, 15, 1, 3, AlgType::Ea, 2024);
    assert_eq!(a, b);
    let c = run(&locations, 6, 15, 1, 3, AlgType::Ma, 77);
    let d = run(&locations, 6, 15, 1, 3, AlgType::Ma, 77);
    assert_eq!(c, d);
}

#[test]
fn concurrent_runs_match_sequential_runs() {
    let locations = square_points(1000);
    let seeds: Vec<u64> = vec![11, 22, 33];
    let sequential = run_all(&locations, 6, 10, 1, 10, AlgType::Ma, &seeds);
    let concurrent = run_all_parallel(&locations, 6, 10, 1, 10, AlgType::Ma, &seeds);
    assert_eq!(sequential.len(), 3);
    assert_eq!(concurrent.len(), 3);
    assert_eq!(sequential, concurrent);
}

#[test]
fn memetic_run_finds_square_optimum() {
    // Four corners of a square: the optimal open path walks three sides.
    // With the refiner on, every recorded candidate of every generation
    // after the first breeding is already optimal.
    let locations = square_points(1000);
    let result = run(&locations, 10, 50, 1, 10, AlgType::Ma, 5);
    let last = result.pop_hist.last().unwrap();
    let best = last
        .iter()
        .map(|cand| fitness(cand, &locations).tour_len)
        .min()
        .unwrap();
    assert_eq!(best, 3000);
}
