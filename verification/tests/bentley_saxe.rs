use dynamic_sets::bentley_saxe::{BentleySaxe, BentleySaxeDynamicHashSet, DynamicStructure};
use dynamic_sets::hash_tabela::PerfectHashSet;

#[test]
fn insert_and_search_in_dynamic_hash_set() {
    let mut set = BentleySaxeDynamicHashSet::new();
    for key in [10u64, 20, 30, 40, 50, 25] {
        set.insert(key).expect("construction");
    }
    assert!(set.search(25));
    assert!(set.search(10));
    assert!(!set.search(99));
}

#[test]
fn duplicate_insert_keeps_the_set() {
    let mut set: BentleySaxe<PerfectHashSet> = BentleySaxe::new();
    set.insert(7).expect("construction");
    set.insert(7).expect("a present key needs no construction");
    assert!(set.search(7));
    assert!(!set.search(8));
}

#[test]
fn empty_dynamic_set() {
    let set = BentleySaxeDynamicHashSet::new();
    assert!(!set.search(0));
}

#[test]
fn many_inserts_merge_levels() {
    let mut set = BentleySaxeDynamicHashSet::new();
    for key in 0..1000u64 {
        set.insert(key * 3).expect("construction");
        assert!(set.search(key * 3));
    }
    for key in 0..1000u64 {
        assert!(set.search(key * 3));
        assert!(!set.search(key * 3 + 1));
    }
}

#[test]
fn static_structure_interface() {
    let s = <PerfectHashSet as DynamicStructure>::from_keys(&[3, 1, 2]).expect("construction");
    assert!(DynamicStructure::contains(&s, 2));
    assert!(!DynamicStructure::contains(&s, 4));
    assert!(!DynamicStructure::is_empty(&s));
    assert_eq!(s.get_elements(), vec![1, 2, 3]);
    let e = <PerfectHashSet as DynamicStructure>::from_keys(&[]).expect("construction");
    assert!(DynamicStructure::is_empty(&e));
}

#[test]
fn failed_insert_keeps_the_set() {
    let mut set = BentleySaxeDynamicHashSet::new();
    set.insert(0).expect("one key always builds");
    // 0 and PRIME collide under every hash, so the merged level cannot be built.
    assert!(set.insert(dynamic_sets::hash_tabela::PRIME).is_err());
    assert!(set.search(0));
    assert!(!set.search(dynamic_sets::hash_tabela::PRIME));
    set.insert(1).expect("construction");
    assert!(set.search(1));
}
