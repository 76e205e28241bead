use dynamic_sets::generiraj_csv::{generate_random_numbers, time_function};
use dynamic_sets::primerjava;

#[test]
fn random_numbers_are_a_permutation_from_one() {
    let mut numbers = generate_random_numbers(100);
    assert_eq!(numbers.len(), 100);
    numbers.sort();
    assert_eq!(numbers, (1..=100).collect::<Vec<usize>>());
    assert!(generate_random_numbers(0).is_empty());
}

#[test]
fn random_numbers_are_a_permutation_from_zero() {
    let mut numbers = primerjava::generate_random_numbers(50);
    numbers.sort();
    assert_eq!(numbers, (0..50).collect::<Vec<usize>>());
}

#[test]
fn time_function_returns_the_result() {
    let (value, _elapsed) = time_function(|| 6 * 7);
    assert_eq!(value, 42);
}

#[test]
fn random_numbers_are_shuffled() {
    // The identity order comes out with probability 1/100!.
    let numbers = generate_random_numbers(100);
    assert_ne!(numbers, (1..=100).collect::<Vec<usize>>());
}
