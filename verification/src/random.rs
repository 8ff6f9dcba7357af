//! The random source: the thread-local generator of `rand`.

use rand::rngs::ThreadRng;
use rand::seq::SliceRandom;
use vstd::prelude::*;

verus! {

/// `rand::rngs::ThreadRng`, the handle to the thread's generator.  Nothing of
/// what it holds is seen here.
#[verifier::external_type_specification]
#[verifier::external_body]
pub struct ExThreadRng(ThreadRng);

/// `rand::thread_rng` hands out the thread's generator, which the system
/// seeds.  Nothing is claimed of it.
pub assume_specification[ rand::thread_rng ]() -> (rng: ThreadRng);

/// Calls `rand::seq::SliceRandom::shuffle` on the vector's slice.  Trusted:
/// the shuffle only swaps elements of the slice, so afterwards the vector
/// holds the same values, each as often as before.
#[verifier::external_body]
pub(crate) fn shuffle(ids: &mut Vec<i32>, rng: &mut ThreadRng)
    ensures
        final(ids)@.to_multiset() == old(ids)@.to_multiset(),
{
    ids.shuffle(rng);
}

/// Calls `rand::seq::SliceRandom::choose` on the vector's slice.  Trusted: it
/// yields nothing for an empty slice and one of the slice's elements
/// otherwise.
#[verifier::external_body]
pub(crate) fn pick_pair(pairs: &Vec<(i32, i32)>, rng: &mut ThreadRng) -> (picked: Option<
    (i32, i32),
>)
    ensures
        match picked {
            Some(p) => pairs@.contains(p),
            None => pairs.len() == 0,
        },
{
    match pairs.choose(rng) {
        Some(p) => Some(*p),
        None => None,
    }
}

} // verus!
