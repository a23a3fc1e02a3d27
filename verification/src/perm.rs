use vstd::prelude::*;
use vstd::set_lib::{lemma_int_range, lemma_len_subset, lemma_subset_equality, set_int_range};

verus! {

/// A candidate tour is valid when it visits each of the `n` cities exactly
/// once: it has length `n`, every entry is a city id below `n`, and no city
/// occurs twice.
pub open spec fn is_permutation(s: Seq<usize>, n: nat) -> bool {
    &&& s.len() == n
    &&& forall|i: int| 0 <= i < s.len() ==> (#[trigger] s[i]) < n
    &&& forall|i: int, j: int| 0 <= i < j < s.len() ==> s[i] != s[j]
}

/// A valid tour visits every city: each city id below `n` occurs somewhere.
pub proof fn lemma_permutation_contains(s: Seq<usize>, n: nat, v: usize)
    requires
        is_permutation(s, n),
        v < n,
    ensures
        exists|i: int| 0 <= i < s.len() && s[i] == v,
{
    let si = s.map_values(|x: usize| x as int);
    assert(si.no_duplicates());
    si.unique_seq_to_set();
    let range = set_int_range(0, n as int);
    lemma_int_range(0, n as int);
    assert forall|x: int| si.to_set().contains(x) implies range.contains(x) by {
        let i = choose|i: int| 0 <= i < si.len() && si[i] == x;
        assert(s[i] < n);
    }
    lemma_len_subset(si.to_set(), range);
    lemma_subset_equality(si.to_set(), range);
    assert(range.contains(v as int));
    assert(si.to_set().contains(v as int));
    assert(si.contains(v as int));
    let i = choose|i: int| 0 <= i < si.len() && si[i] == v as int;
    assert(s[i] == v);
}

/// Exchanging two entries of a valid tour yields a valid tour: a
/// transposition of a permutation is a permutation.
pub proof fn lemma_swap_permutation(s: Seq<usize>, n: nat, i: int, j: int)
    requires
        is_permutation(s, n),
        0 <= i < s.len(),
        0 <= j < s.len(),
    ensures
        is_permutation(s.update(i, s[j]).update(j, s[i]), n),
{
}

/// Rearranging the entries of a valid tour (keeping the same multiset of
/// entries) yields a valid tour.
pub proof fn lemma_multiset_permutation(s1: Seq<usize>, s2: Seq<usize>, n: nat)
    requires
        is_permutation(s1, n),
        s1.to_multiset() == s2.to_multiset(),
    ensures
        is_permutation(s2, n),
{
    broadcast use vstd::seq_lib::group_to_multiset_ensures;

    assert(s2.len() == s2.to_multiset().len());
    assert(s1.len() == s1.to_multiset().len());
    assert forall|i: int| 0 <= i < s2.len() implies (#[trigger] s2[i]) < n by {
        assert(s2.contains(s2[i]));
        assert(s2.to_multiset().count(s2[i]) > 0);
        assert(s1.contains(s2[i]));
        let w = choose|w: int| 0 <= w < s1.len() && s1[w] == s2[i];
        assert(s1[w] < n);
    }
    s1.lemma_multiset_has_no_duplicates();
    assert(forall|x: usize| s2.to_multiset().contains(x) ==> s2.to_multiset().count(x) == 1);
    s2.lemma_multiset_has_no_duplicates_conv();
}

} // verus!
