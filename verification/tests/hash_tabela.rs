use dynamic_sets::hash_tabela::{
    build_bucket, partition, try_bucket_table, try_top_level, Bucket, PerfectHashSet,
    UniversalHash, PRIME,
};

#[test]
fn universal_hash_formula() {
    let h = UniversalHash::new(3, 5, 10);
    assert_eq!(h.apply(7), 6);
    let h = UniversalHash::new(PRIME - 1, PRIME - 2, 1000);
    assert_eq!(h.apply(u64::MAX), 942);
    let h = UniversalHash::new(123456789, 42, 97);
    assert_eq!(h.apply(987654321), 48);
}

#[test]
fn universal_hash_of_empty_table_is_zero() {
    let h = UniversalHash::new(3, 5, 0);
    assert_eq!(h.apply(7), 0);
}

#[test]
fn perfect_hash_set_membership() {
    let keys = [5u64, 17, 3, 99, 42, 17, 1_000_000_007, 0, u64::MAX];
    let set = PerfectHashSet::new(&keys).expect("construction");
    for key in keys {
        assert!(set.contains(key));
    }
    for key in [1u64, 2, 4, 6, 100, u64::MAX - 1] {
        assert!(!set.contains(key));
    }
    assert!(!set.is_empty());
}

#[test]
fn perfect_hash_set_extracts_sorted_unique_keys() {
    let set = PerfectHashSet::new(&[9, 1, 9, 4, 1]).expect("construction");
    assert_eq!(set.extract_keys(), vec![1, 4, 9]);
}

#[test]
fn empty_perfect_hash_set() {
    let set = PerfectHashSet::new(&[]).expect("an empty set is always built");
    assert!(set.is_empty());
    assert!(!set.contains(0));
    assert_eq!(set.extract_keys(), Vec::<u64>::new());
}

#[test]
fn perfect_hash_set_of_many_keys() {
    let keys: Vec<u64> = (0..2000u64).map(|k| k * 7919).collect();
    let set = PerfectHashSet::new(&keys).expect("construction");
    for k in 0..2000u64 {
        assert!(set.contains(k * 7919));
        assert!(!set.contains(k * 7919 + 1));
    }
}

#[test]
fn partition_by_slot() {
    // h(x) = ((1 * x + 0) mod p) mod 3 = x mod 3
    let h = UniversalHash::new(1, 0, 3);
    let parts = partition(&vec![1, 2, 3, 4, 5, 6, 7], &h);
    assert_eq!(parts, vec![vec![3, 6], vec![1, 4, 7], vec![2, 5]]);
}

#[test]
fn bucket_table_without_collisions() {
    // x mod 4: slots 1, 2, 3
    let h = UniversalHash::new(1, 0, 4);
    let bucket = try_bucket_table(&[5, 2, 7], h).expect("no collision");
    match &bucket {
        Bucket::Table { slots, .. } => {
            assert_eq!(slots, &vec![None, Some(5), Some(2), Some(7)]);
        }
        _ => panic!("a table was expected"),
    }
    assert!(bucket.contains(5));
    assert!(bucket.contains(2));
    assert!(bucket.contains(7));
    assert!(!bucket.contains(1));
    assert!(!bucket.contains(9));
}

#[test]
fn bucket_table_with_collision_fails() {
    // 1 and 5 share slot 1 of x mod 4
    let h = UniversalHash::new(1, 0, 4);
    assert!(try_bucket_table(&[1, 2, 5], h).is_none());
}

#[test]
fn small_buckets() {
    assert!(!Bucket::Empty.contains(0));
    assert!(Bucket::Single(4).contains(4));
    assert!(!Bucket::Single(4).contains(5));
}

#[test]
fn one_distinct_key_always_builds() {
    let set = PerfectHashSet::new(&[5, 5, 5]).expect("one distinct key always builds");
    assert!(set.contains(5));
    assert!(!set.contains(6));
    assert_eq!(set.extract_keys(), vec![5]);
}

#[test]
fn keys_congruent_mod_prime_cannot_be_hashed_perfectly() {
    assert!(PerfectHashSet::new(&[0, PRIME]).is_err());
    assert!(PerfectHashSet::new(&[5, 9, PRIME + 9]).is_err());
}

#[test]
fn top_level_hash_with_one_key_per_bucket_is_kept() {
    // x mod 3 sends 1, 2, 3 to slots 1, 2, 0
    let h = UniversalHash::new(1, 0, 3);
    let buckets = try_top_level(&vec![1, 2, 3], &h).expect("one key per bucket");
    assert_eq!(buckets.len(), 3);
    assert!(buckets[0].contains(3) && buckets[1].contains(1) && buckets[2].contains(2));
    assert!(!buckets[0].contains(1));
}

#[test]
fn overloaded_top_level_hash_is_rejected() {
    // x mod 5 sends all five keys to slot 0: 25 > 4 * 5
    let h = UniversalHash::new(1, 0, 5);
    assert!(try_top_level(&vec![0, 5, 10, 15, 20], &h).is_none());
}

#[test]
fn congruent_keys_in_a_bucket_are_rejected() {
    let h = UniversalHash::new(1, 0, 2);
    assert!(try_top_level(&vec![0, PRIME], &h).is_none());
}

#[test]
fn build_bucket_shapes() {
    assert!(matches!(build_bucket(&[]), Some(Bucket::Empty)));
    assert!(matches!(build_bucket(&[42]), Some(Bucket::Single(42))));
    assert!(build_bucket(&[7, 7]).is_none());
    let b = build_bucket(&[3, 8, 13]).expect("three distinct keys");
    match &b {
        Bucket::Table { slots, .. } => assert_eq!(slots.len(), 9),
        _ => panic!("a table was expected"),
    }
    assert!(b.contains(3) && b.contains(8) && b.contains(13) && !b.contains(4));
}
