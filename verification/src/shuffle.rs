//! The random source: a generator of the current thread, and a shuffle.

use vstd::prelude::*;
use rand::seq::SliceRandom;

verus! {

/// `rand::rngs::ThreadRng`, the handle to a thread's random number generator.
/// The proofs see nothing inside it.
#[verifier::external_type_specification]
#[verifier::external_body]
pub struct ExThreadRng(rand::rngs::ThreadRng);

/// Calls `rand::thread_rng`, which hands out the generator of the current
/// thread, seeded by the system. Nothing is claimed of it.
#[verifier::external_body]
pub(crate) fn thread_rng() -> (rng: rand::rngs::ThreadRng) {
    rand::thread_rng()
}

/// Calls `SliceRandom::shuffle` on the vector's slice. The shuffle only swaps
/// elements, so the claim is that the vector afterwards holds the same
/// elements, each as often as before; nothing is claimed of their order.
#[verifier::external_body]
pub(crate) fn shuffle<T>(items: &mut Vec<T>, rng: &mut rand::rngs::ThreadRng)
    ensures
        final(items)@.to_multiset() == old(items)@.to_multiset(),
{
    items.shuffle(rng)
}

} // verus!
