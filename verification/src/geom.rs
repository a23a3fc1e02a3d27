use vstd::prelude::*;
use crate::perm::{is_permutation, lemma_permutation_contains};

verus! {

/// A city location in fixed-point coordinates. Callers normalize their
/// coordinates into a bounded range and scale them to integers before
/// handing them to the optimizer; any `u32` value is accepted.
#[derive(Clone, Copy, Debug, PartialEq, Eq, Structural)]
pub struct Point {
    pub x: u32,
    pub y: u32,
}

/// The quality of a candidate tour. Conceptually fitness is the reciprocal
/// of the total path length, so it is represented exactly by the length
/// itself, with the order reversed: a strictly shorter tour is strictly
/// fitter. A total length of zero (all visited points coincide, or fewer
/// than two points) stands for the boundary case of infinite fitness and
/// compares above every finite fitness.
#[derive(Clone, Copy, Debug, PartialEq, Eq, Structural)]
pub struct Fitness {
    /// Total length of the open path, in the fixed-point unit of `Point`.
    pub tour_len: u128,
}

pub open spec fn sq(a: int) -> int {
    a * a
}

pub proof fn lemma_sq_nonneg(a: int)
    ensures
        sq(a) >= 0,
{
    assert(a * a >= 0) by (nonlinear_arith);
}

pub proof fn lemma_sq_lt(a: int, b: int)
    requires
        0 <= a < b,
    ensures
        sq(a) < sq(b),
{
    assert(a * a < b * b) by (nonlinear_arith)
        requires 0 <= a < b;
}

/// The integer square root: the greatest `r` with `r * r <= v`.
pub open spec fn isqrt_spec(v: nat) -> nat
    decreases v,
{
    if v == 0 {
        0
    } else {
        let r = isqrt_spec((v - 1) as nat);
        if sq(r as int + 1) <= v {
            r + 1
        } else {
            r
        }
    }
}

pub proof fn lemma_isqrt_bounds(v: nat)
    ensures
        sq(isqrt_spec(v) as int) <= v,
        v < sq(isqrt_spec(v) as int + 1),
    decreases v,
{
    if v == 0 {
        assert(isqrt_spec(0) == 0);
        assert(sq(0) == 0);
        assert(sq(1) == 1);
    } else {
        lemma_isqrt_bounds((v - 1) as nat);
        let r = isqrt_spec((v - 1) as nat) as int;
        assert(sq(r) <= v - 1);
        assert(v - 1 < sq(r + 1));
        if sq(r + 1) <= v {
            assert(isqrt_spec(v) == r + 1);
            assert(v <= sq(r + 1));
            lemma_sq_lt(r + 1, r + 2);
            assert(v < sq(r + 2));
        } else {
            assert(isqrt_spec(v) == r);
            assert(sq(r) <= v);
            assert(v < sq(r + 1));
        }
    }
}

pub proof fn lemma_isqrt_unique(v: nat, r: nat)
    requires
        sq(r as int) <= v,
        v < sq(r as int + 1),
    ensures
        r == isqrt_spec(v),
{
    lemma_isqrt_bounds(v);
    let s = isqrt_spec(v);
    if r as int + 1 <= s as int {
        lemma_sq_lt(r as int, r as int + 1);
        if r as int + 1 < s as int {
            lemma_sq_lt(r as int + 1, s as int);
        }
        assert(false);
    }
    if s as int + 1 <= r as int {
        lemma_sq_lt(s as int, s as int + 1);
        if s as int + 1 < r as int {
            lemma_sq_lt(s as int + 1, r as int);
        }
        assert(false);
    }
}

/// Computes the integer square root of `v` by binary search.
fn isqrt(v: u128) -> (r: u64)
    requires
        v < 0x4_0000_0000_0000_0000u128,
    ensures
        r == isqrt_spec(v as nat),
        r < 0x2_0000_0000u64,
{
    let mut lo: u64 = 0;
    let mut hi: u64 = 0x2_0000_0000u64;
    assert(sq(0x2_0000_0000) == 0x4_0000_0000_0000_0000);
    while lo + 1 < hi
        invariant
            lo < hi <= 0x2_0000_0000u64,
            sq(lo as int) <= v,
            v < sq(hi as int),
        decreases hi - lo,
    {
        let mid = lo + (hi - lo) / 2;
        proof {
            assert(((mid as int) * (mid as int)) <= 0x2_0000_0000 * 0x2_0000_0000)
                by (nonlinear_arith)
                requires 0 <= (mid as int) && (mid as int) <= 0x2_0000_0000;
            assert(sq(mid as int) == ((mid as int) * (mid as int)));
        }
        if (mid as u128) * (mid as u128) <= v {
            lo = mid;
        } else {
            hi = mid;
        }
    }
    proof {
        lemma_isqrt_unique(v as nat, lo as nat);
    }
    lo
}

/// The Euclidean distance between two points, rounded down to the
/// fixed-point grid: the integer square root of the sum of the squared
/// coordinate differences.
pub open spec fn dist_spec(p: Point, q: Point) -> nat {
    isqrt_spec((sq(p.x - q.x) + sq(p.y - q.y)) as nat)
}

/// Two points at distance zero coincide.
pub proof fn lemma_dist_zero(p: Point, q: Point)
    requires
        dist_spec(p, q) == 0,
    ensures
        p == q,
{
    let dx = p.x - q.x;
    let dy = p.y - q.y;
    lemma_sq_nonneg(dx);
    lemma_sq_nonneg(dy);
    let v = (sq(dx) + sq(dy)) as nat;
    lemma_isqrt_bounds(v);
    assert(sq(1) == 1);
    assert(sq(dx) + sq(dy) == 0);
    assert(dx * dx == 0 && dy * dy == 0);
    assert(dx == 0 && dy == 0) by (nonlinear_arith)
        requires dx * dx == 0, dy * dy == 0;
    assert(p.x == q.x && p.y == q.y);
}

pub proof fn lemma_dist_bound(p: Point, q: Point)
    ensures
        dist_spec(p, q) < 0x2_0000_0000u64,
{
    let dx = p.x - q.x;
    let dy = p.y - q.y;
    lemma_sq_nonneg(dx);
    lemma_sq_nonneg(dy);
    assert(dx * dx < 0x1_0000_0000_0000_0000 && dy * dy < 0x1_0000_0000_0000_0000)
        by (nonlinear_arith)
        requires -0x1_0000_0000 < dx < 0x1_0000_0000, -0x1_0000_0000 < dy < 0x1_0000_0000;
    let v = (sq(dx) + sq(dy)) as nat;
    lemma_isqrt_bounds(v);
    let r = isqrt_spec(v);
    if r >= 0x2_0000_0000u64 {
        lemma_sq_lt(0x1_ffff_ffff, 0x2_0000_0000);
        if 0x2_0000_0000 < r as int {
            lemma_sq_lt(0x2_0000_0000, r as int);
        }
        assert(sq(0x2_0000_0000) == 0x2_0000_0000 * 0x2_0000_0000);
        assert(false);
    }
}

/// Computes the rounded-down Euclidean distance between two points.
pub fn dist(p: Point, q: Point) -> (r: u64)
    ensures
        r == dist_spec(p, q),
        r < 0x2_0000_0000u64,
{
    let dx: u64 = if p.x >= q.x {
        (p.x - q.x) as u64
    } else {
        (q.x - p.x) as u64
    };
    let dy: u64 = if p.y >= q.y {
        (p.y - q.y) as u64
    } else {
        (q.y - p.y) as u64
    };
    proof {
        assert(((dx as int) * (dx as int)) == (p.x - q.x) * (p.x - q.x)) by (nonlinear_arith)
            requires dx == p.x - q.x || dx == q.x - p.x;
        assert(((dy as int) * (dy as int)) == (p.y - q.y) * (p.y - q.y)) by (nonlinear_arith)
            requires dy == p.y - q.y || dy == q.y - p.y;
        assert(((dx as int) * (dx as int)) < 0x1_0000_0000_0000_0000) by (nonlinear_arith)
            requires 0 <= (dx as int) && (dx as int) < 0x1_0000_0000;
        assert(((dy as int) * (dy as int)) < 0x1_0000_0000_0000_0000) by (nonlinear_arith)
            requires 0 <= (dy as int) && (dy as int) < 0x1_0000_0000;
        lemma_dist_bound(p, q);
    }
    let v: u128 = (dx as u128) * (dx as u128) + (dy as u128) * (dy as u128);
    isqrt(v)
}

/// The total length of the first `k` cities of the candidate, visited as an
/// open path: the sum of the distances between consecutive pairs. The edge
/// from the last city back to the first is not counted.
pub open spec fn path_len_prefix(cand: Seq<usize>, pts: Seq<Point>, k: int) -> int
    decreases k,
{
    if k <= 1 {
        0
    } else {
        path_len_prefix(cand, pts, k - 1) + dist_spec(
            pts[cand[k - 2] as int],
            pts[cand[k - 1] as int],
        )
    }
}

/// The total length of the whole candidate tour, as an open path.
pub open spec fn tour_len(cand: Seq<usize>, pts: Seq<Point>) -> int {
    path_len_prefix(cand, pts, cand.len() as int)
}

pub proof fn lemma_path_len_nonneg(cand: Seq<usize>, pts: Seq<Point>, k: int)
    ensures
        path_len_prefix(cand, pts, k) >= 0,
    decreases k,
{
    if k > 1 {
        lemma_path_len_nonneg(cand, pts, k - 1);
    }
}

impl Fitness {
    /// A fitness is strictly better exactly when its tour is strictly
    /// shorter (fitness is the reciprocal of the length).
    pub open spec fn is_fitter_spec(self, other: Fitness) -> bool {
        self.tour_len < other.tour_len
    }

    /// Decides whether `self` is a strictly greater fitness than `other`.
    pub fn is_fitter(&self, other: &Fitness) -> (r: bool)
        ensures
            r == self.is_fitter_spec(*other),
    {
        self.tour_len < other.tour_len
    }
}

/// Evaluates a candidate tour: its fitness is the reciprocal of the summed
/// consecutive-pair distances, represented exactly by that sum.
pub fn fitness(candidate: &Vec<usize>, locations: &Vec<Point>) -> (r: Fitness)
    requires
        forall|i: int| 0 <= i < candidate@.len() ==> (#[trigger] candidate@[i]) < locations@.len(),
    ensures
        r.tour_len == tour_len(candidate@, locations@),
{
    let n = candidate.len();
    if n < 2 {
        return Fitness { tour_len: 0 };
    }
    let mut total: u128 = 0;
    let mut i: usize = 1;
    proof {
        assert(0x2_0000_0000u128 * 0x1_0000_0000_0000_0000u128 < u128::MAX);
    }
    while i < n
        invariant
            1 <= i,
            i <= n,
            n == candidate@.len(),
            forall|k: int| 0 <= k < candidate@.len() ==> (#[trigger] candidate@[k])
                < locations@.len(),
            total == path_len_prefix(candidate@, locations@, i as int),
            total <= 0x2_0000_0000u128 * (i - 1) as u128,
        decreases n - i,
    {
        let d = dist(locations[candidate[i - 1]], locations[candidate[i]]);
        proof {
            assert(total + d <= 0x2_0000_0000u128 * i as u128) by (nonlinear_arith)
                requires
                    total <= 0x2_0000_0000u128 * (i - 1) as u128,
                    d < 0x2_0000_0000u128,
                    i >= 1;
            assert(0x2_0000_0000u128 * i as u128 <= 0x2_0000_0000u128
                * 0x1_0000_0000_0000_0000u128) by (nonlinear_arith)
                requires i as u128 <= 0x1_0000_0000_0000_0000u128;
        }
        total = total + (d as u128);
        i = i + 1;
    }
    Fitness { tour_len: total }
}

/// If the candidate's tour length is zero, every pair of consecutively
/// visited points coincides, and so the whole visited chain coincides.
proof fn lemma_zero_len_chain(cand: Seq<usize>, pts: Seq<Point>, k: int)
    requires
        forall|i: int| 0 <= i < cand.len() ==> (#[trigger] cand[i]) < pts.len(),
        tour_len(cand, pts) == 0,
        0 <= k < cand.len(),
    ensures
        pts[cand[0] as int] == pts[cand[k] as int],
    decreases k,
{
    lemma_prefix_zero(cand, pts, cand.len() as int, k + 1);
    if k > 0 {
        lemma_zero_len_chain(cand, pts, k - 1);
        lemma_dist_zero(pts[cand[k - 1] as int], pts[cand[k] as int]);
    }
}

/// If a whole path has length zero, so does each of its prefixes, and in
/// particular each consecutive step has distance zero.
proof fn lemma_prefix_zero(cand: Seq<usize>, pts: Seq<Point>, k: int, m: int)
    requires
        path_len_prefix(cand, pts, k) == 0,
        m <= k,
    ensures
        path_len_prefix(cand, pts, m) == 0,
        m >= 2 ==> dist_spec(pts[cand[m - 2] as int], pts[cand[m - 1] as int]) == 0,
    decreases k - m,
{
    lemma_path_len_nonneg(cand, pts, m);
    lemma_path_len_nonneg(cand, pts, m - 1);
    if m < k {
        lemma_prefix_zero(cand, pts, k, m + 1);
    }
}

/// The boundary case: over an all-coincident point set every distance is
/// zero, so any tour's total length is zero, which stands for infinite
/// fitness.
pub proof fn lemma_fitness_zero_when_coincident(cand: Seq<usize>, pts: Seq<Point>)
    requires
        forall|i: int| 0 <= i < cand.len() ==> (#[trigger] cand[i]) < pts.len(),
        forall|i: int, j: int| 0 <= i < pts.len() && 0 <= j < pts.len() ==> pts[i] == pts[j],
    ensures
        tour_len(cand, pts) == 0,
{
    lemma_coincident_prefix(cand, pts, cand.len() as int);
}

proof fn lemma_coincident_prefix(cand: Seq<usize>, pts: Seq<Point>, k: int)
    requires
        k <= cand.len(),
        forall|i: int| 0 <= i < cand.len() ==> (#[trigger] cand[i]) < pts.len(),
        forall|i: int, j: int| 0 <= i < pts.len() && 0 <= j < pts.len() ==> pts[i] == pts[j],
    ensures
        path_len_prefix(cand, pts, k) == 0,
    decreases k,
{
    if k > 1 {
        lemma_coincident_prefix(cand, pts, k - 1);
        let p = pts[cand[k - 2] as int];
        let q = pts[cand[k - 1] as int];
        assert(p == q);
        assert(sq(p.x - q.x) == 0 && sq(p.y - q.y) == 0);
        assert(isqrt_spec(0) == 0);
    }
}

/// Fitness positivity: a valid tour over a point set holding at least one
/// pair of distinct points has a positive total length, so its fitness is
/// finite and positive. Only an all-coincident point set (or one with fewer
/// than two points) yields the zero-length boundary case.
pub proof fn lemma_fitness_positive(cand: Seq<usize>, pts: Seq<Point>)
    requires
        pts.len() <= usize::MAX,
        is_permutation(cand, pts.len() as nat),
        exists|i: int, j: int| 0 <= i < pts.len() && 0 <= j < pts.len() && pts[i] != pts[j],
    ensures
        tour_len(cand, pts) > 0,
{
    lemma_path_len_nonneg(cand, pts, cand.len() as int);
    if tour_len(cand, pts) == 0 {
        let (i, j) = choose|i: int, j: int|
            0 <= i < pts.len() && 0 <= j < pts.len() && pts[i] != pts[j];
        lemma_permutation_contains(cand, pts.len() as nat, i as usize);
        lemma_permutation_contains(cand, pts.len() as nat, j as usize);
        let a = choose|a: int| 0 <= a < cand.len() && cand[a] == i as usize;
        let b = choose|b: int| 0 <= b < cand.len() && cand[b] == j as usize;
        lemma_zero_len_chain(cand, pts, a);
        lemma_zero_len_chain(cand, pts, b);
        assert(pts[cand[a] as int] == pts[cand[b] as int]);
        assert(cand[a] as int == i);
        assert(cand[b] as int == j);
        assert(false);
    }
}

} // verus!
