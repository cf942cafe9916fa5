//! Random choices, drawn from the thread-local generator of `rand`.

use vstd::prelude::*;
use rand::Rng;
use rand::seq::SliceRandom;

verus! {

/// Draws an index uniformly from `0..n` with `rand::Rng::gen_range` on
/// `rand::thread_rng()`. The contract claims only that the result lies in the
/// range: which value comes back rests on chance.
#[verifier::external_body]
pub(crate) fn random_below(n: usize) -> (r: usize)
    requires
        n > 0,
    ensures
        r < n,
{
    rand::thread_rng().gen_range(0..n)
}

/// Draws an index uniformly from `0..=m` with `rand::Rng::gen_range` on
/// `rand::thread_rng()`. The contract claims only that the result lies in the
/// range.
#[verifier::external_body]
pub(crate) fn random_at_most(m: usize) -> (r: usize)
    ensures
        r <= m,
{
    rand::thread_rng().gen_range(0..=m)
}

/// Shuffles `v` in place with `rand::seq::SliceRandom::shuffle` on
/// `rand::thread_rng()`. The contract claims that the result is a permutation
/// of the input (same length, same multiset of items); which permutation comes
/// out rests on chance.
#[verifier::external_body]
pub(crate) fn shuffle<T>(v: &mut Vec<T>)
    ensures
        final(v)@.len() == old(v)@.len(),
        final(v)@.to_multiset() == old(v)@.to_multiset(),
{
    v.shuffle(&mut rand::thread_rng());
}

} // verus!

verus! {

/// A random `usize` from `rand::random::<usize>()`. Nothing is claimed of the
/// value: it rests on chance.
#[verifier::external_body]
pub(crate) fn random_usize() -> usize {
    rand::random::<usize>()
}

} // verus!
