//! Chance: the two things that the engine asks of the random number
//! generator. Nothing is known of what comes back but its range.

use rand::seq::SliceRandom;
use rand::Rng;
use vstd::prelude::*;

verus! {

/// `gen_range(0..bound)` of `rand::Rng`, on the thread's generator: some
/// number from 0 up to, and not including, `bound`. An empty range makes the
/// generator panic, so `bound` must not be 0.
#[verifier::external_body]
pub(crate) fn random_below(bound: usize) -> (n: usize)
    requires
        bound > 0,
    ensures
        n < bound,
{
    rand::thread_rng().gen_range(0..bound)
}

/// `shuffle` of `rand::seq::SliceRandom`, on the thread's generator: the
/// elements change places, none is lost and none is added.
#[verifier::external_body]
pub(crate) fn shuffle(deck: &mut Vec<usize>)
    ensures
        final(deck)@.to_multiset() == old(deck)@.to_multiset(),
{
    deck.shuffle(&mut rand::thread_rng());
}

} // verus!
