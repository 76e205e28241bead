//! The keys of the comparison that the program runs.

use vstd::prelude::*;
use crate::nakljucno::{shuffle_usize, thread_rng};

verus! {

/// The numbers `0, 1, ..., n - 1`.
pub open spec fn zero_to(n: nat) -> Seq<usize> {
    Seq::new(n, |i: int| i as usize)
}

/// `n` distinct numbers: those from 0 to `n - 1`, in random order.
pub fn generate_random_numbers(n: usize) -> (numbers: Vec<usize>)
    ensures
        numbers@.len() == n,
        numbers@.to_multiset() == zero_to(n as nat).to_multiset(),
{
    let mut numbers: Vec<usize> = Vec::new();
    let mut i: usize = 0;
    while i < n
        invariant
            i <= n,
            numbers@ == zero_to(i as nat),
        decreases n - i,
    {
        numbers.push(i);
        i += 1;
        proof {
            assert(numbers@ =~= zero_to(i as nat));
        }
    }
    let mut rng = thread_rng();
    shuffle_usize(&mut numbers, &mut rng);
    numbers
}

} // verus!
