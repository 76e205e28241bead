//! The random numbers that the hash set draws and the shuffles of the
//! benchmark inputs come from the `rand` crate; this module holds the only
//! calls into it.

use rand::Rng;
use rand::seq::SliceRandom;
use rand::rngs::ThreadRng;
use vstd::prelude::*;

verus! {

/// The thread-local generator of `rand`, opaque to the proofs.
#[verifier::external_type_specification]
#[verifier::external_body]
pub struct ExThreadRng(rand::rngs::ThreadRng);

/// Calls `rand::thread_rng`. Nothing is stated of the generator it returns.
/// It panics only when the operating system's random source cannot seed the
/// generator, which no argument controls.
#[verifier::external_body]
pub(crate) fn thread_rng() -> ThreadRng {
    rand::thread_rng()
}

/// Calls `Rng::gen_range(low..high)` on `u64`s. `rand` panics on an empty
/// range, so `low < high` is required; the value it draws lies in
/// `low..high`, and nothing more is stated of it (it is random).
#[verifier::external_body]
pub(crate) fn gen_range_u64(rng: &mut ThreadRng, low: u64, high: u64) -> (r: u64)
    requires
        low < high,
    ensures
        low <= r < high,
{
    rng.gen_range(low..high)
}

/// Calls `SliceRandom::shuffle` on the elements of `values`. The shuffle only
/// swaps elements, so the result is a permutation of the input; which
/// permutation is left unsaid (it is random).
#[verifier::external_body]
pub(crate) fn shuffle_usize(values: &mut Vec<usize>, rng: &mut ThreadRng)
    ensures
        final(values)@.len() == old(values)@.len(),
        final(values)@.to_multiset() == old(values)@.to_multiset(),
{
    values.shuffle(rng)
}

} // verus!
