use vstd::prelude::*;
use rand::rngs::ThreadRng;
use rand::seq::SliceRandom;

verus! {

/// The random number generator of the current thread, from the `rand` crate.
#[verifier::external_type_specification]
#[verifier::external_body]
pub struct ExThreadRng(ThreadRng);

/// Calls `rand::thread_rng`, which hands out the random number generator of
/// the current thread. Nothing is stated of the generator.
#[verifier::external_body]
pub(crate) fn thread_rng() -> ThreadRng {
    rand::thread_rng()
}

/// Calls `SliceRandom::shuffle` of the `rand` crate on `bag`, which permutes
/// it at random by swapping its entries. Claimed: the result holds the same
/// pieces, each as often as before. Which permutation comes out is not stated.
#[verifier::external_body]
pub(crate) fn shuffle_bag(bag: &mut [u8; 14], rng: &mut ThreadRng)
    ensures
        final(bag)@.to_multiset() == old(bag)@.to_multiset(),
{
    bag.shuffle(rng)
}

} // verus!
