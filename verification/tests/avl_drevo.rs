use dynamic_sets::avl_drevo::AvlTree;

#[test]
fn insert_and_search_work() {
    let mut tree = AvlTree::new();
    let values = [10, 20, 30, 40, 50, 25];

    for value in values {
        tree.insert(value);
    }

    assert!(tree.search(25));
    assert!(tree.search(10));
    assert!(!tree.search(99));
}

#[test]
fn duplicate_insert_is_ignored() {
    let mut tree = AvlTree::new();
    tree.insert(7);
    tree.insert(7);

    assert!(tree.search(7));
    assert!(!tree.search(8));
}

#[test]
fn empty_tree_finds_nothing() {
    let tree = AvlTree::new();
    assert!(!tree.search(0));
    assert!(!tree.search(usize::MAX));
    let tree = AvlTree::default();
    assert!(!tree.search(1));
}

#[test]
fn ascending_inserts_need_rotations() {
    let mut tree = AvlTree::new();
    for key in 0..1000usize {
        tree.insert(key);
    }
    for key in 0..1000usize {
        assert!(tree.search(key));
    }
    assert!(!tree.search(1000));
}

#[test]
fn descending_and_zigzag_inserts() {
    let mut tree = AvlTree::new();
    for key in (0..500usize).rev() {
        tree.insert(key * 2);
    }
    // double rotations: keys that fall between existing ones
    for key in [3usize, 1, 2, 999, 997, 998] {
        tree.insert(key);
    }
    for key in [0usize, 1, 2, 3, 4, 996, 997, 998, 999] {
        assert!(tree.search(key));
    }
    assert!(!tree.search(5));
    assert!(!tree.search(1001));
}

#[test]
fn extreme_keys() {
    let mut tree = AvlTree::new();
    tree.insert(usize::MAX);
    tree.insert(0);
    assert!(tree.search(usize::MAX));
    assert!(tree.search(0));
    assert!(!tree.search(usize::MAX - 1));
}

#[test]
fn search_after_insert_sees_every_key_inserted() {
    let mut tree = AvlTree::new();
    let keys = [50usize, 10, 70, 5, 15, 60, 80, 12, 14, 13];
    for (count, key) in keys.iter().enumerate() {
        tree.insert(*key);
        for (j, other) in keys.iter().enumerate() {
            assert_eq!(tree.search(*other), j <= count);
        }
    }
}
