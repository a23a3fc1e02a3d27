use vstd::prelude::*;
use crate::alg::AlgType;
use crate::geom::Point;
use crate::ops::{apply2opt, is_local_optimum, mutate, swapped};
use crate::perm::{is_permutation, lemma_permutation_contains};
use crate::rng::{coin, rand_below};
use vstd::seq_lib::seq_to_set_is_finite;

verus! {

/// The marker for a child position that the copied window has not filled.
/// City ids are always below their candidate's length, so no city collides
/// with the marker.
pub const UNFILLED: usize = usize::MAX;

/// How many positions of a partially built child are still unfilled.
pub open spec fn count_unfilled(s: Seq<usize>) -> int
    decreases s.len(),
{
    if s.len() == 0 {
        0
    } else {
        count_unfilled(s.drop_last()) + if s.last() == UNFILLED {
            1int
        } else {
            0int
        }
    }
}

/// The cities of `other`, kept in `other`'s order, that do not occur in
/// `taken`: the repair list of the order-style crossover.
pub open spec fn complement_in_order(other: Seq<usize>, taken: Seq<usize>) -> Seq<usize>
    decreases other.len(),
{
    if other.len() == 0 {
        Seq::empty()
    } else {
        let rest = complement_in_order(other.drop_last(), taken);
        if taken.contains(other.last()) {
            rest
        } else {
            rest.push(other.last())
        }
    }
}

/// The partially built child: the parent's cities inside the copied window
/// `cut_start..cut_end`, the marker everywhere else.
pub open spec fn masked(parent: Seq<usize>, cut_start: int, cut_end: int) -> Seq<usize> {
    Seq::new(
        parent.len(),
        |i: int|
            if cut_start <= i < cut_end {
                parent[i]
            } else {
                UNFILLED
            },
    )
}

/// One child of the order-style crossover: the window is copied from one
/// parent, and the remaining positions are filled, left to right, with the
/// cities missing from the window, in the other parent's order.
pub open spec fn ox_child(pa: Seq<usize>, pb: Seq<usize>, cut_start: int, cut_end: int) -> Seq<
    usize,
> {
    let m = masked(pa, cut_start, cut_end);
    let miss = complement_in_order(pb, m);
    Seq::new(
        pa.len(),
        |i: int|
            if cut_start <= i < cut_end {
                pa[i]
            } else {
                miss[count_unfilled(m.take(i))]
            },
    )
}

proof fn lemma_count_unfilled_take_succ(s: Seq<usize>, i: int)
    requires
        0 <= i < s.len(),
    ensures
        count_unfilled(s.take(i + 1)) == count_unfilled(s.take(i)) + if s[i] == UNFILLED {
            1int
        } else {
            0int
        },
{
    assert(s.take(i + 1).drop_last() =~= s.take(i));
    assert(s.take(i + 1).last() == s[i]);
}

proof fn lemma_count_unfilled_take_mono(s: Seq<usize>, a: int, b: int)
    requires
        0 <= a <= b <= s.len(),
    ensures
        count_unfilled(s.take(a)) <= count_unfilled(s.take(b)),
    decreases b - a,
{
    if a < b {
        lemma_count_unfilled_take_succ(s, b - 1);
        lemma_count_unfilled_take_mono(s, a, b - 1);
    }
}

/// A value occurs in a sequence exactly when it occurs before the last
/// position or at it.
proof fn lemma_contains_split(s: Seq<usize>, v: usize)
    requires
        s.len() > 0,
    ensures
        s.contains(v) <==> (s.drop_last().contains(v) || s.last() == v),
{
    if s.drop_last().contains(v) {
        let i = choose|i: int| 0 <= i < s.drop_last().len() && s.drop_last()[i] == v;
        assert(s[i] == v);
    }
    if s.last() == v {
        assert(s[s.len() - 1] == v);
    }
    if s.contains(v) {
        let i = choose|i: int| 0 <= i < s.len() && s[i] == v;
        if i < s.len() - 1 {
            assert(s.drop_last()[i] == v);
        }
    }
}

proof fn lemma_complement_membership(other: Seq<usize>, taken: Seq<usize>, v: usize)
    ensures
        complement_in_order(other, taken).contains(v) <==> (other.contains(v)
            && !taken.contains(v)),
    decreases other.len(),
{
    if other.len() > 0 {
        lemma_complement_membership(other.drop_last(), taken, v);
        lemma_contains_split(other, v);
        let rest = complement_in_order(other.drop_last(), taken);
        if !taken.contains(other.last()) {
            lemma_contains_split(rest.push(other.last()), v);
            assert(rest.push(other.last()).drop_last() =~= rest);
        }
    }
}

proof fn lemma_complement_no_dup(other: Seq<usize>, taken: Seq<usize>)
    requires
        other.no_duplicates(),
    ensures
        complement_in_order(other, taken).no_duplicates(),
    decreases other.len(),
{
    if other.len() > 0 {
        assert(other.drop_last().no_duplicates());
        lemma_complement_no_dup(other.drop_last(), taken);
        let rest = complement_in_order(other.drop_last(), taken);
        if !taken.contains(other.last()) {
            lemma_complement_membership(other.drop_last(), taken, other.last());
            assert(!other.drop_last().contains(other.last())) by {
                if other.drop_last().contains(other.last()) {
                    let i = choose|i: int|
                        0 <= i < other.drop_last().len() && other.drop_last()[i] == other.last();
                    assert(other[i] == other[other.len() - 1]);
                }
            }
            assert(rest.push(other.last()).no_duplicates()) by {
                assert(forall|i: int|
                    0 <= i < rest.len() ==> rest.push(other.last())[i] == rest[i]);
                assert(rest.push(other.last())[rest.len() as int] == other.last());
                assert(!rest.contains(other.last()));
                assert(forall|i: int|
                    0 <= i < rest.len() ==> rest[i] != other.last()) by {
                    assert forall|i: int| 0 <= i < rest.len() implies rest[i] != other.last() by {
                        if rest[i] == other.last() {
                            assert(rest.contains(other.last()));
                        }
                    }
                }
            }
        }
    }
}

/// Removing a subset from a finite set leaves exactly the difference of the
/// cardinalities.
proof fn lemma_len_diff_subset(a: Set<usize>, b: Set<usize>)
    requires
        a.finite(),
        b.finite(),
        b.subset_of(a),
    ensures
        a.difference(b).len() == a.len() - b.len(),
    decreases b.len(),
{
    if b.is_empty() {
        assert(a.difference(b) =~= a);
    } else {
        let x = b.choose();
        assert(b.contains(x));
        assert(b.remove(x).subset_of(a.remove(x)));
        lemma_len_diff_subset(a.remove(x), b.remove(x));
        assert(a.remove(x).difference(b.remove(x)) =~= a.difference(b));
    }
}

/// How many positions below `k` lie inside the window `cut_start..cut_end`.
spec fn window_below(cut_start: int, cut_end: int, k: int) -> int {
    let m = if cut_end <= k {
        cut_end
    } else {
        k
    };
    if cut_start < m {
        m - cut_start
    } else {
        0
    }
}

proof fn lemma_count_masked(parent: Seq<usize>, cut_start: int, cut_end: int, k: int)
    requires
        0 <= k <= parent.len(),
        0 <= cut_start,
        parent.len() <= usize::MAX,
        forall|i: int| 0 <= i < parent.len() ==> (#[trigger] parent[i]) < parent.len(),
    ensures
        count_unfilled(masked(parent, cut_start, cut_end).take(k)) == k - window_below(
            cut_start,
            cut_end,
            k,
        ),
    decreases k,
{
    let m = masked(parent, cut_start, cut_end);
    if k == 0 {
        assert(m.take(0).len() == 0);
    } else {
        lemma_count_masked(parent, cut_start, cut_end, k - 1);
        lemma_count_unfilled_take_succ(m, k - 1);
        assert(m[k - 1] == UNFILLED <==> !(cut_start <= k - 1 < cut_end));
    }
}

/// The repair list is exactly long enough: it holds one city for every
/// unfilled position of the partially built child.
proof fn lemma_missing_len(p1: Seq<usize>, p2: Seq<usize>, cut_start: int, cut_end: int, n: nat)
    requires
        is_permutation(p1, n),
        is_permutation(p2, n),
        0 <= cut_start <= n,
        0 <= cut_end <= n,
        n <= usize::MAX,
    ensures
        complement_in_order(p2, masked(p1, cut_start, cut_end)).len() == count_unfilled(
            masked(p1, cut_start, cut_end),
        ),
{
    broadcast use seq_to_set_is_finite;

    let m = masked(p1, cut_start, cut_end);
    let miss = complement_in_order(p2, m);
    let w = if cut_start < cut_end {
        cut_end - cut_start
    } else {
        0
    };
    let (lo, hi) = if cut_start < cut_end {
        (cut_start, cut_end)
    } else {
        (0int, 0int)
    };
    let seg = p1.subrange(lo, hi);

    lemma_count_masked(p1, cut_start, cut_end, n as int);
    assert(m.take(n as int) =~= m);
    assert(count_unfilled(m) == n - w);

    assert(p2.no_duplicates()) by {
        assert forall|i: int, j: int|
            0 <= i < p2.len() && 0 <= j < p2.len() && i != j implies p2[i] != p2[j] by {
            if i < j {
                assert(p2[i] != p2[j]);
            } else {
                assert(p2[j] != p2[i]);
            }
        }
    }
    assert(seg.no_duplicates()) by {
        assert forall|i: int, j: int|
            0 <= i < seg.len() && 0 <= j < seg.len() && i != j implies seg[i] != seg[j] by {
            assert(seg[i] == p1[lo + i] && seg[j] == p1[lo + j]);
        }
    }
    lemma_complement_no_dup(p2, m);
    miss.unique_seq_to_set();
    seg.unique_seq_to_set();
    p2.unique_seq_to_set();

    // A city is in the partially built child exactly when it is in the
    // copied segment.
    assert forall|v: usize| v < n implies (m.contains(v) <==> seg.contains(v)) by {
        if m.contains(v) {
            let i = choose|i: int| 0 <= i < m.len() && m[i] == v;
            assert(cut_start <= i < cut_end);
            assert(seg[i - lo] == v);
            assert(seg.contains(v));
        }
        if seg.contains(v) {
            let k = choose|k: int| 0 <= k < seg.len() && seg[k] == v;
            assert(m[lo + k] == v);
            assert(m.contains(v));
        }
    }

    assert(miss.to_set() =~= p2.to_set().difference(seg.to_set())) by {
        assert forall|v: usize| miss.to_set().contains(v) implies p2.to_set().contains(v)
            && !seg.to_set().contains(v) by {
            lemma_complement_membership(p2, m, v);
            let i = choose|i: int| 0 <= i < p2.len() && p2[i] == v;
            assert(v < n);
        }
        assert forall|v: usize|
            p2.to_set().contains(v) && !seg.to_set().contains(v) implies miss.to_set().contains(
            v,
        ) by {
            lemma_complement_membership(p2, m, v);
            let i = choose|i: int| 0 <= i < p2.len() && p2[i] == v;
            assert(v < n);
        }
    }
    assert(seg.to_set().subset_of(p2.to_set())) by {
        assert forall|v: usize| seg.to_set().contains(v) implies p2.to_set().contains(v) by {
            let k = choose|k: int| 0 <= k < seg.len() && seg[k] == v;
            assert(v < n);
            lemma_permutation_contains(p2, n, v);
        }
    }
    lemma_len_diff_subset(p2.to_set(), seg.to_set());
    assert(seg.len() == w);
    assert(miss.len() == n - w);
}

/// A filled child is a valid tour: the window holds distinct cities of the
/// range, the repair list holds exactly the other cities, each exactly once,
/// and filling puts each repair city at exactly one position.
proof fn lemma_filled_child_perm(mseq: Seq<usize>, miss: Seq<usize>, result: Seq<usize>, n: nat)
    requires
        mseq.len() == n,
        result.len() == n,
        count_unfilled(mseq) == miss.len(),
        forall|i: int| 0 <= i < n && (#[trigger] mseq[i]) != UNFILLED ==> mseq[i] < n,
        forall|i: int, j: int|
            0 <= i < j < n && mseq[i] != UNFILLED && mseq[j] != UNFILLED ==> mseq[i] != mseq[j],
        miss.no_duplicates(),
        forall|i: int| 0 <= i < miss.len() ==> (#[trigger] miss[i]) < n,
        forall|i: int| 0 <= i < miss.len() ==> !mseq.contains(#[trigger] miss[i]),
        forall|i: int| 0 <= i < n && (#[trigger] mseq[i]) != UNFILLED ==> result[i] == mseq[i],
        forall|i: int|
            0 <= i < n && (#[trigger] mseq[i]) == UNFILLED ==> result[i] == miss[count_unfilled(
                mseq.take(i),
            )],
    ensures
        is_permutation(result, n),
{
    assert forall|i: int| 0 <= i < n && mseq[i] == UNFILLED implies 0 <= count_unfilled(
        #[trigger] mseq.take(i),
    ) < miss.len() by {
        lemma_count_unfilled_take_mono(mseq, 0, i);
        assert(count_unfilled(mseq.take(0)) == 0);
        lemma_count_unfilled_take_succ(mseq, i);
        lemma_count_unfilled_take_mono(mseq, i + 1, n as int);
        assert(mseq.take(n as int) =~= mseq);
    }
    assert forall|i: int, j: int|
        0 <= i < n && 0 <= j < n && mseq[i] == UNFILLED && mseq[j] == UNFILLED && i < j implies
        count_unfilled(mseq.take(i)) < count_unfilled(mseq.take(j)) by {
        lemma_count_unfilled_take_succ(mseq, i);
        lemma_count_unfilled_take_mono(mseq, i + 1, j);
    }
    assert forall|i: int| 0 <= i < result.len() implies (#[trigger] result[i]) < n by {
        if mseq[i] != UNFILLED {
        } else {
        }
    }
    assert forall|i: int, j: int| 0 <= i < j < result.len() implies result[i] != result[j] by {
        if mseq[i] != UNFILLED && mseq[j] != UNFILLED {
        } else if mseq[i] != UNFILLED && mseq[j] == UNFILLED {
            assert(mseq.contains(mseq[i]));
        } else if mseq[i] == UNFILLED && mseq[j] != UNFILLED {
            assert(mseq.contains(mseq[j]));
        } else {
        }
    }
}

/// Decides whether a candidate holds the given city.
fn vec_contains(v: &Vec<usize>, x: usize) -> (r: bool)
    ensures
        r == v@.contains(x),
{
    let mut i: usize = 0;
    while i < v.len()
        invariant
            i <= v@.len(),
            forall|j: int| 0 <= j < i ==> v@[j] != x,
        decreases v@.len() - i,
    {
        if v[i] == x {
            return true;
        }
        i = i + 1;
    }
    false
}

/// Builds the partially filled child for one parent and one copied window.
fn build_masked(parent: &Vec<usize>, cut_start: usize, cut_end: usize) -> (r: Vec<usize>)
    ensures
        r@ == masked(parent@, cut_start as int, cut_end as int),
{
    let mut r: Vec<usize> = Vec::new();
    let mut i: usize = 0;
    while i < parent.len()
        invariant
            i <= parent@.len(),
            r@.len() == i,
            forall|j: int| 0 <= j < i ==> r@[j] == masked(
                parent@,
                cut_start as int,
                cut_end as int,
            )[j],
        decreases parent@.len() - i,
    {
        if cut_start <= i && i < cut_end {
            r.push(parent[i]);
        } else {
            r.push(UNFILLED);
        }
        i = i + 1;
    }
    proof {
        assert(r@ =~= masked(parent@, cut_start as int, cut_end as int));
    }
    r
}

/// Collects the cities absent from the partially built child, ordered by
/// their position of occurrence in the other parent.
fn missing_cities(other: &Vec<usize>, taken: &Vec<usize>) -> (r: Vec<usize>)
    ensures
        r@ == complement_in_order(other@, taken@),
{
    let mut r: Vec<usize> = Vec::new();
    let mut i: usize = 0;
    while i < other.len()
        invariant
            i <= other@.len(),
            r@ == complement_in_order(other@.take(i as int), taken@),
        decreases other@.len() - i,
    {
        proof {
            assert(other@.take(i as int + 1).drop_last() =~= other@.take(i as int));
            assert(other@.take(i as int + 1).last() == other@[i as int]);
        }
        if !vec_contains(taken, other[i]) {
            r.push(other[i]);
        }
        i = i + 1;
    }
    proof {
        assert(other@.take(other@.len() as int) =~= other@);
    }
    r
}

/// Fills the unfilled positions of the child, left to right, with the repair
/// cities in order.
fn fill_missing(offspring: &mut Vec<usize>, missing_ordered: &Vec<usize>)
    requires
        count_unfilled(old(offspring)@) == missing_ordered@.len(),
    ensures
        final(offspring)@.len() == old(offspring)@.len(),
        forall|i: int|
            0 <= i < old(offspring)@.len() && (#[trigger] old(offspring)@[i]) != UNFILLED
                ==> final(offspring)@[i] == old(offspring)@[i],
        forall|i: int|
            0 <= i < old(offspring)@.len() && (#[trigger] old(offspring)@[i]) == UNFILLED
                ==> final(offspring)@[i] == missing_ordered@[count_unfilled(
                old(offspring)@.take(i),
            )],
{
    let ghost orig = old(offspring)@;
    let mut miss_idx: usize = 0;
    let mut i: usize = 0;
    let len = offspring.len();
    // Reading the length binds the repair list's length to the machine's
    // range, which the loop invariant carries.
    let _miss_len = missing_ordered.len();
    proof {
        assert(orig.take(0) =~= Seq::<usize>::empty());
        assert(orig.take(len as int) =~= orig);
    }
    while i < len
        invariant
            i <= len,
            missing_ordered@.len() <= usize::MAX,
            miss_idx <= missing_ordered@.len(),
            len == offspring@.len(),
            orig.len() == len,
            count_unfilled(orig) == missing_ordered@.len(),
            miss_idx == count_unfilled(orig.take(i as int)),
            forall|j: int| i <= j < len ==> offspring@[j] == orig[j],
            forall|j: int|
                0 <= j < i && (#[trigger] orig[j]) != UNFILLED ==> offspring@[j] == orig[j],
            forall|j: int|
                0 <= j < i && (#[trigger] orig[j]) == UNFILLED ==> offspring@[j]
                    == missing_ordered@[count_unfilled(orig.take(j))],
        decreases len - i,
    {
        proof {
            lemma_count_unfilled_take_succ(orig, i as int);
            lemma_count_unfilled_take_mono(orig, i as int + 1, len as int);
            assert(orig.take(len as int) =~= orig);
        }
        if offspring[i] == UNFILLED {
            proof {
                assert(orig[i as int] == UNFILLED);
                assert(count_unfilled(orig.take(i as int + 1)) == miss_idx + 1);
                assert(miss_idx < missing_ordered@.len());
            }
            let c = missing_ordered[miss_idx];
            offspring.set(i, c);
            miss_idx = miss_idx + 1;
        }
        i = i + 1;
    }
}

/// A repair list built against an entirely unfilled child keeps every city
/// of the other parent, in order.
proof fn lemma_complement_keeps_all(other: Seq<usize>, taken: Seq<usize>)
    requires
        forall|k: int| 0 <= k < taken.len() ==> (#[trigger] taken[k]) == UNFILLED,
        forall|k: int| 0 <= k < other.len() ==> (#[trigger] other[k]) != UNFILLED,
    ensures
        complement_in_order(other, taken) == other,
    decreases other.len(),
{
    if other.len() == 0 {
        assert(complement_in_order(other, taken) =~= other);
    } else {
        lemma_complement_keeps_all(other.drop_last(), taken);
        assert(!taken.contains(other.last())) by {
            if taken.contains(other.last()) {
                let k = choose|k: int| 0 <= k < taken.len() && taken[k] == other.last();
            }
        }
        assert(other.drop_last().push(other.last()) =~= other);
    }
}

/// In an entirely unfilled child, the number of unfilled slots below any
/// position is that position itself.
proof fn lemma_count_unfilled_all(s: Seq<usize>, i: int)
    requires
        0 <= i <= s.len(),
        forall|k: int| 0 <= k < s.len() ==> (#[trigger] s[k]) == UNFILLED,
    ensures
        count_unfilled(s.take(i)) == i,
    decreases i,
{
    if i > 0 {
        lemma_count_unfilled_all(s, i - 1);
        lemma_count_unfilled_take_succ(s, i - 1);
    }
}

/// With an empty copied window the order-style crossover is a full
/// replacement: the child equals the other parent exactly.
pub proof fn lemma_ox_child_empty_window(
    pa: Seq<usize>,
    pb: Seq<usize>,
    cut_start: int,
    cut_end: int,
    n: nat,
)
    requires
        is_permutation(pa, n),
        is_permutation(pb, n),
        pa.len() == pb.len(),
        cut_end <= cut_start,
        n <= usize::MAX,
    ensures
        ox_child(pa, pb, cut_start, cut_end) == pb,
{
    let m = masked(pa, cut_start, cut_end);
    assert(forall|k: int| 0 <= k < m.len() ==> (#[trigger] m[k]) == UNFILLED);
    assert(forall|k: int| 0 <= k < pb.len() ==> (#[trigger] pb[k]) != UNFILLED);
    lemma_complement_keeps_all(pb, m);
    assert forall|i: int| 0 <= i < n implies ox_child(pa, pb, cut_start, cut_end)[i] == pb[i] by {
        lemma_count_unfilled_all(m, i);
    }
    assert(ox_child(pa, pb, cut_start, cut_end) =~= pb);
}

/// The cut rule of the recombination operator: the window runs from the
/// larger of the two drawn indices up to the smaller one, so the copied
/// window `cut_start..cut_end` is always empty and every gene of each child
/// is filled from the other parent's order. This full-replacement behaviour
/// is deliberate; the rule stands on its own so that the window it yields
/// can be inspected directly.
pub fn cut_interval(c1: usize, c2: usize) -> (r: (usize, usize))
    ensures
        r.0 == if c2 > c1 { c2 } else { c1 },
        r.1 == if c2 > c1 { c1 } else { c2 },
        r.1 <= r.0,
{
    if c2 > c1 {
        (c2, c1)
    } else {
        (c1, c2)
    }
}

/// The order-style crossover: copies each parent's cities inside the window
/// `cut_start..cut_end` into the corresponding child, then fills the other
/// positions, left to right, with the missing cities in the other parent's
/// order. Both children are valid tours, whatever window is given.
pub fn crossover_pair(p1: &Vec<usize>, p2: &Vec<usize>, cut_start: usize, cut_end: usize) -> (r: (
    Vec<usize>,
    Vec<usize>,
))
    requires
        is_permutation(p1@, p1@.len() as nat),
        is_permutation(p2@, p2@.len() as nat),
        p1@.len() == p2@.len(),
        cut_start <= p1@.len(),
        cut_end <= p1@.len(),
    ensures
        r.0@ == ox_child(p1@, p2@, cut_start as int, cut_end as int),
        r.1@ == ox_child(p2@, p1@, cut_start as int, cut_end as int),
        is_permutation(r.0@, p1@.len() as nat),
        is_permutation(r.1@, p1@.len() as nat),
{
    let o1 = crossover_child(p1, p2, cut_start, cut_end);
    let o2 = crossover_child(p2, p1, cut_start, cut_end);
    (o1, o2)
}

/// Builds one child of the crossover: window from `pa`, repair order from
/// `pb`.
fn crossover_child(pa: &Vec<usize>, pb: &Vec<usize>, cut_start: usize, cut_end: usize) -> (r: Vec<
    usize,
>)
    requires
        is_permutation(pa@, pa@.len() as nat),
        is_permutation(pb@, pb@.len() as nat),
        pa@.len() == pb@.len(),
        cut_start <= pa@.len(),
        cut_end <= pa@.len(),
    ensures
        r@ == ox_child(pa@, pb@, cut_start as int, cut_end as int),
        is_permutation(r@, pa@.len() as nat),
{
    let ghost n = pa@.len() as nat;
    let ghost cs = cut_start as int;
    let ghost ce = cut_end as int;
    // Reading the length binds the candidate length to the machine's range.
    let _len = pa.len();
    let mut child = build_masked(pa, cut_start, cut_end);
    let ghost m = child@;
    let miss = missing_cities(pb, &child);
    proof {
        lemma_missing_len(pa@, pb@, cs, ce, n);
    }
    fill_missing(&mut child, &miss);
    proof {
        assert forall|i: int| 0 <= i < miss@.len() implies (#[trigger] miss@[i]) < n
            && !m.contains(miss@[i]) by {
            assert(miss@.contains(miss@[i]));
            lemma_complement_membership(pb@, m, miss@[i]);
            let w = choose|w: int| 0 <= w < pb@.len() && pb@[w] == miss@[i];
        }
        assert(miss@.no_duplicates()) by {
            assert(pb@.no_duplicates()) by {
                assert forall|i: int, j: int|
                    0 <= i < pb@.len() && 0 <= j < pb@.len() && i != j implies pb@[i] != pb@[j] by {
                    if i < j {
                        assert(pb@[i] != pb@[j]);
                    } else {
                        assert(pb@[j] != pb@[i]);
                    }
                }
            }
            lemma_complement_no_dup(pb@, m);
        }
        lemma_filled_child_perm(m, miss@, child@, n);
        assert forall|i: int| 0 <= i < n implies child@[i] == ox_child(pa@, pb@, cs, ce)[i] by {
            if cs <= i < ce {
                assert(m[i] == pa@[i]);
                assert(pa@[i] < n);
                assert(m[i] != UNFILLED);
            } else {
                assert(m[i] == UNFILLED);
            }
        }
        assert(child@ =~= ox_child(pa@, pb@, cs, ce));
    }
    child
}

/// Whether a child of the plain evolutionary variant is what one breeding
/// step can make of its base: either the base itself (the mutation coin came
/// up false) or the base with exactly one transposition (it came up true).
pub open spec fn bred_from(child: Seq<usize>, base: Seq<usize>) -> bool {
    child == base || exists|i: int, j: int|
        0 <= i < base.len() && 0 <= j < base.len() && i != j && child == swapped(base, i, j)
}

/// Breeds two offspring from two parent tours: the crossover above, then an
/// independent mutation coin flip for each child, and, in the memetic
/// variant, the local-search refinement of both children. Whatever the
/// random draws, both offspring are valid tours. Because the cut rule's
/// copied window is always empty, each pre-mutation child equals the other
/// parent exactly; so in the plain variant each child is the other parent
/// or one transposition of it — the other parent exactly when the mutation
/// probability is zero, a transposition of it always when the probability
/// is one. In the memetic variant both children are locally optimal.
pub fn generate_offspring(
    rng: &mut rand::rngs::StdRng,
    p1: &Vec<usize>,
    p2: &Vec<usize>,
    locations: &Vec<Point>,
    p_mut_num: u32,
    p_mut_den: u32,
    alg: AlgType,
) -> (r: (Vec<usize>, Vec<usize>))
    requires
        locations@.len() >= 2,
        is_permutation(p1@, locations@.len() as nat),
        is_permutation(p2@, locations@.len() as nat),
        p_mut_den >= 1,
        p_mut_num <= p_mut_den,
    ensures
        is_permutation(r.0@, locations@.len() as nat),
        is_permutation(r.1@, locations@.len() as nat),
        alg == AlgType::Ea ==> bred_from(r.0@, p2@) && bred_from(r.1@, p1@),
        alg == AlgType::Ea && p_mut_num == 0 ==> r.0@ == p2@ && r.1@ == p1@,
        alg == AlgType::Ea && p_mut_num == p_mut_den ==> (exists|i: int, j: int|
            0 <= i < p2@.len() && 0 <= j < p2@.len() && i != j && r.0@ == swapped(p2@, i, j))
            && (exists|i: int, j: int|
            0 <= i < p1@.len() && 0 <= j < p1@.len() && i != j && r.1@ == swapped(p1@, i, j)),
        alg == AlgType::Ma ==> is_local_optimum(r.0@, locations@) && is_local_optimum(
            r.1@,
            locations@,
        ),
{
    let ghost n = locations@.len() as nat;
    let length = p1.len();
    let c1 = rand_below(rng, length);
    let c2 = rand_below(rng, length);
    let (cut_start, cut_end) = cut_interval(c1, c2);
    let (mut offspring1, mut offspring2) = crossover_pair(p1, p2, cut_start, cut_end);
    proof {
        lemma_ox_child_empty_window(p1@, p2@, cut_start as int, cut_end as int, n);
        lemma_ox_child_empty_window(p2@, p1@, cut_start as int, cut_end as int, n);
        assert(offspring1@ == p2@);
        assert(offspring2@ == p1@);
    }
    let mutated1 = coin(rng, p_mut_num, p_mut_den);
    if mutated1 {
        mutate(rng, &mut offspring1);
        proof {
            let (i, j) = choose|i: int, j: int|
                0 <= i < p2@.len() && 0 <= j < p2@.len() && i != j && offspring1@ == p2@.update(
                    i,
                    p2@[j],
                ).update(j, p2@[i]);
            assert(offspring1@ == swapped(p2@, i, j));
        }
    }
    let mutated2 = coin(rng, p_mut_num, p_mut_den);
    if mutated2 {
        mutate(rng, &mut offspring2);
        proof {
            let (i, j) = choose|i: int, j: int|
                0 <= i < p1@.len() && 0 <= j < p1@.len() && i != j && offspring2@ == p1@.update(
                    i,
                    p1@[j],
                ).update(j, p1@[i]);
            assert(offspring2@ == swapped(p1@, i, j));
        }
    }
    match alg {
        AlgType::Ea => (offspring1, offspring2),
        AlgType::Ma => {
            proof {
                assert(forall|k: int|
                    0 <= k < offspring1@.len() ==> (#[trigger] offspring1@[k])
                        < locations@.len());
                assert(forall|k: int|
                    0 <= k < offspring2@.len() ==> (#[trigger] offspring2@[k])
                        < locations@.len());
            }
            let r1 = apply2opt(offspring1, locations);
            let r2 = apply2opt(offspring2, locations);
            (r1, r2)
        },
    }
}

} // verus!
