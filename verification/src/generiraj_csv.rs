//! Helpers of the benchmark that compares the AVL tree with the
//! Bentley-Saxe hash set: timing a computation and drawing the keys.

use std::time::{Duration, Instant};
use vstd::prelude::*;
use crate::nakljucno::{shuffle_usize, thread_rng};

verus! {

/// A point in time of the monotonic clock, opaque to the proofs.
#[verifier::external_type_specification]
#[verifier::external_body]
pub struct ExInstant(std::time::Instant);

/// Calls `Instant::now`. Nothing is stated of the instant: it is the clock's reading.
#[verifier::external_body]
fn instant_now() -> Instant {
    Instant::now()
}

/// Calls `Instant::elapsed`. Nothing is stated of the duration: it depends on the clock.
#[verifier::external_body]
fn elapsed_since(start: &Instant) -> Duration {
    start.elapsed()
}

/// Runs `function` and returns its result with the time that it took.
pub fn time_function<F, T>(function: F) -> (r: (T, Duration)) where F: FnOnce() -> T
    requires
        function.requires(()),
    ensures
        function.ensures((), r.0),
{
    let start = instant_now();
    let result = function();
    (result, elapsed_since(&start))
}

/// The numbers `1, 2, ..., n`.
pub open spec fn one_to(n: nat) -> Seq<usize> {
    Seq::new(n, |i: int| (i + 1) as usize)
}

/// The numbers from 1 to `n` inclusive, in random order.
pub fn generate_random_numbers(n: usize) -> (numbers: Vec<usize>)
    ensures
        numbers@.len() == n,
        numbers@.to_multiset() == one_to(n as nat).to_multiset(),
{
    let mut numbers: Vec<usize> = Vec::new();
    let mut i: usize = 0;
    while i < n
        invariant
            i <= n,
            numbers@ == one_to(i as nat),
        decreases n - i,
    {
        numbers.push(i + 1);
        i += 1;
        proof {
            assert(numbers@ =~= one_to(i as nat));
        }
    }
    let mut rng = thread_rng();
    shuffle_usize(&mut numbers, &mut rng);
    numbers
}

} // verus!
