use vstd::prelude::*;

verus! {

/// Declares `rand::rngs::StdRng`, the seedable random source that every
/// run owns, so that it can stand in signatures. Its state is opaque here;
/// all draws go through the wrappers below.
#[verifier::external_type_specification]
#[verifier::external_body]
pub struct ExStdRng(rand::rngs::StdRng);

/// Builds the random source for one run. Relies on
/// `rand::SeedableRng::seed_from_u64`, which derives the generator's initial
/// state from the seed alone.
#[verifier::external_body]
pub fn seed_rng(seed: u64) -> rand::rngs::StdRng {
    rand::SeedableRng::seed_from_u64(seed)
}

/// Draws an index below `n`, uniformly. Relies on `rand::Rng::gen_range`
/// over `0..n`: the result lies in the range; the call panics only on an
/// empty range, which the precondition rules out.
#[verifier::external_body]
pub fn rand_below(rng: &mut rand::rngs::StdRng, n: usize) -> (r: usize)
    requires
        n >= 1,
    ensures
        r < n,
{
    rand::Rng::gen_range(rng, 0..n)
}

/// Flips a coin that is true with probability `num / den`. Relies on
/// `rand::Rng::gen_ratio`, which documents that the result is always false
/// when `num == 0` and always true when `num == den`, and that the call
/// panics when `den == 0` or `num > den`, which the precondition rules out.
#[verifier::external_body]
pub fn coin(rng: &mut rand::rngs::StdRng, num: u32, den: u32) -> (r: bool)
    requires
        den >= 1,
        num <= den,
    ensures
        num == 0 ==> r == false,
        num == den ==> r == true,
{
    rand::Rng::gen_ratio(rng, num, den)
}

/// Rearranges the entries of `v` in a random order. Relies on
/// `rand::seq::SliceRandom::shuffle`, a Fisher-Yates shuffle that only ever
/// swaps elements of the slice in place, so the multiset of entries is
/// unchanged.
#[verifier::external_body]
pub fn shuffle(rng: &mut rand::rngs::StdRng, v: &mut Vec<usize>)
    ensures
        final(v)@.to_multiset() == old(v)@.to_multiset(),
{
    rand::seq::SliceRandom::shuffle(v.as_mut_slice(), rng)
}

} // verus!
