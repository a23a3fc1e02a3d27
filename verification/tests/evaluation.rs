use memetic_tsp::geom::{dist, fitness, Fitness, Point};

#[test]
fn distance_is_rounded_euclidean() {
    let a = Point { x: 0, y: 0 };
    let b = Point { x: 3, y: 4 };
    assert_eq!(dist(a, b), 5);
    let c = Point { x: 1000, y: 0 };
    let d = Point { x: 0, y: 1000 };
    // sqrt(2_000_000) = 1414.21..., rounded down to the grid.
    assert_eq!(dist(c, d), 1414);
    assert_eq!(dist(a, a), 0);
}

#[test]
fn fitness_sums_consecutive_pairs_only() {
    let locations = vec![
        Point { x: 0, y: 0 },
        Point { x: 3, y: 4 },
        Point { x: 3, y: 0 },
    ];
    // Open path: 0 -> 1 -> 2 is 5 + 4; the edge back to the start is not
    // counted.
    let f = fitness(&vec![0, 1, 2], &locations);
    assert_eq!(f.tour_len, 9);
    // A different order gives a different length: 1 -> 0 -> 2 is 5 + 3.
    let g = fitness(&vec![1, 0, 2], &locations);
    assert_eq!(g.tour_len, 8);
    assert!(g.is_fitter(&f));
    assert!(!f.is_fitter(&g));
}

#[test]
fn fitness_is_positive_with_distinct_points() {
    let locations = vec![Point { x: 0, y: 0 }, Point { x: 7, y: 0 }];
    let f = fitness(&vec![0, 1], &locations);
    assert!(f.tour_len > 0);
    assert_eq!(f.tour_len, 7);
}

#[test]
fn coincident_points_hit_the_zero_length_boundary() {
    // All points coincide: the total distance is zero, which stands for the
    // infinite-fitness boundary and compares above every finite fitness.
    let locations = vec![
        Point { x: 5, y: 5 },
        Point { x: 5, y: 5 },
        Point { x: 5, y: 5 },
    ];
    let f = fitness(&vec![2, 0, 1], &locations);
    assert_eq!(f.tour_len, 0);
    assert!(f.is_fitter(&Fitness { tour_len: 1 }));
    assert!(!Fitness { tour_len: 1 }.is_fitter(&f));
    assert!(!f.is_fitter(&f));
}

#[test]
fn single_point_tour_has_no_edges() {
    let locations = vec![Point { x: 9, y: 9 }];
    let f = fitness(&vec![0], &locations);
    assert_eq!(f.tour_len, 0);
}
