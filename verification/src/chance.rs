//! Randomness for assembling exams (the `rand` crate).

use rand::rngs::ThreadRng;
use rand::seq::SliceRandom;
use rand::Rng;

use vstd::prelude::*;

verus! {

/// The thread-local random generator of `rand`.
#[verifier::external_type_specification]
#[verifier::external_body]
pub struct ExThreadRng(ThreadRng);

/// A handle to the thread-local generator (`rand::rng`). Nothing is claimed
/// of it.
#[verifier::external_body]
pub(crate) fn thread_rng() -> ThreadRng {
    rand::rng()
}

/// Shuffles the list in place (`SliceRandom::shuffle`, which swaps items).
/// Claimed: the result holds the same items as before, each as often.
#[verifier::external_body]
pub(crate) fn shuffle(v: &mut Vec<usize>, rng: &mut ThreadRng)
    ensures
        final(v)@.to_multiset() == old(v)@.to_multiset(),
{
    v.shuffle(rng);
}

/// A random 32-bit number (`Rng::random::<u32>`). Nothing is claimed of it.
#[verifier::external_body]
pub(crate) fn random_u32(rng: &mut ThreadRng) -> u32 {
    rng.random::<u32>()
}

} // verus!
