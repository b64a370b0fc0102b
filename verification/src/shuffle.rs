//! The random number generator that drives every random choice, and the one
//! random operation the library performs itself: shuffling a list of tiles.
use rand::seq::SliceRandom;
use rand_chacha::ChaCha8Rng;
use vstd::prelude::*;

verus! {

/// `rand_chacha::ChaCha8Rng`, carried through the library as an opaque value.
#[verifier::external_type_specification]
#[verifier::external_body]
pub struct ExChaCha8Rng(ChaCha8Rng);

/// Shuffles `items` in place with `rand`'s `SliceRandom::shuffle`, driven by
/// `rng`. That method performs a Fisher-Yates shuffle, a sequence of swaps,
/// so the result holds the same items with the same multiplicities; this is
/// all that is claimed. Which permutation comes out depends on the state of
/// `rng`, and nothing is said of it or of the new state of `rng`.
#[verifier::external_body]
pub(crate) fn shuffle_in_place(items: &mut Vec<usize>, rng: &mut ChaCha8Rng)
    ensures
        final(items)@.to_multiset() == old(items)@.to_multiset(),
{
    items.shuffle(rng);
}

} // verus!
