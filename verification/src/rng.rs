use vstd::prelude::*;

verus! {

// rand's standard generator, declared so that values of it can be threaded
// through the search.
#[verifier::external_type_specification]
#[verifier::external_body]
pub struct ExStdRng(rand::rngs::StdRng);

/// Relies on rand::Rng::gen_range over `0..n`: returns a uniform draw below
/// `n`. The call panics on an empty range, so `n` must be positive.
#[verifier::external_body]
pub(crate) fn rand_below(rng: &mut rand::rngs::StdRng, n: usize) -> (r: usize)
    requires
        1 <= n,
    ensures
        r < n,
{
    rand::Rng::gen_range(rng, 0..n)
}

/// Relies on rand::Rng::gen_range over `0..n` at 128 bits: returns a uniform
/// draw below `n`. The call panics on an empty range, so `n` must be
/// positive.
#[verifier::external_body]
pub(crate) fn rand_below_u128(rng: &mut rand::rngs::StdRng, n: u128) -> (r: u128)
    requires
        1 <= n,
    ensures
        r < n,
{
    rand::Rng::gen_range(rng, 0..n)
}

/// Relies on rand::seq::SliceRandom::shuffle: reorders the elements in place
/// (a Fisher-Yates pass), so the multiset of elements is unchanged.
#[verifier::external_body]
pub(crate) fn shuffle(rng: &mut rand::rngs::StdRng, v: &mut Vec<usize>)
    ensures
        final(v)@.to_multiset() == old(v)@.to_multiset(),
{
    rand::seq::SliceRandom::shuffle(v.as_mut_slice(), rng)
}

} // verus!
