//! The one boundary to the random number generator: shuffling a pile of
//! cards in place.

use vstd::prelude::*;

use crate::card::Card;

verus! {

/// Relies on rand's `SliceRandom::shuffle`, which reorders the slice in
/// place by a Fisher-Yates walk: the cards after the call are exactly the
/// cards before it, in some order. Nothing more is assumed of the order,
/// so every caller is verified for every possible shuffle.
#[verifier::external_body]
pub(crate) fn shuffle_cards(v: &mut Vec<Card>)
    ensures
        final(v)@.len() == old(v)@.len(),
        final(v)@.to_multiset() == old(v)@.to_multiset(),
{
    rand::seq::SliceRandom::shuffle(v.as_mut_slice(), &mut rand::rng());
}

} // verus!
