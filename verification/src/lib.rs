//! An evolutionary optimizer for the traveling salesman problem: it evolves
//! a population of visiting orders toward shorter open-path tours, with
//! tournament selection, order-style crossover, swap mutation, and an
//! optional local-search refinement of every offspring (the memetic
//! variant). Coordinates are fixed-point integers, and a tour's fitness,
//! conceptually the reciprocal of its length, is represented exactly by the
//! length itself with the comparison order reversed.

pub mod alg;
pub mod crossover;
pub mod driver;
pub mod geom;
pub mod ops;
pub mod perm;
pub mod rng;
