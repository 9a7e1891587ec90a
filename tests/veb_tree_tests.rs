use veb_tree::{VEBTree, VebError, ABSENT};

fn tree_with(universe: i64, values: &[i64]) -> VEBTree {
    let mut t = VEBTree::new(universe).unwrap();
    for &v in values {
        t.insert(v).unwrap();
    }
    t
}

fn successor_chain(t: &VEBTree) -> Vec<i64> {
    let mut out = Vec::new();
    let mut cur = t.minimum();
    if cur == ABSENT {
        return out;
    }
    out.push(cur);
    while let Some(n) = t.find_next(cur) {
        out.push(n);
        cur = n;
    }
    out
}

#[test]
fn test_cretion() {
    assert!(VEBTree::new(50).is_ok());
}

#[test]
fn test_creation_fail() {
    assert!(VEBTree::new(1).is_err());
}

#[test]
fn creation_errors_are_named() {
    assert_eq!(VEBTree::new(1).err(), Some(VebError::InvalidUniverse));
    assert_eq!(VEBTree::new(0).err(), Some(VebError::InvalidUniverse));
    assert_eq!(VEBTree::new(-5).err(), Some(VebError::InvalidUniverse));
    if (isize::MAX as i128) < (i64::MAX as i128) {
        assert_eq!(VEBTree::new(i64::MAX).err(), Some(VebError::UniverseTooLarge));
    }
}

#[test]
fn new_tree_is_empty() {
    for u in [2i64, 3, 4, 5, 16, 17, 50, 1000] {
        let t = VEBTree::new(u).unwrap();
        assert_eq!(t.minimum(), ABSENT);
        assert_eq!(t.maximum(), ABSENT);
        assert_eq!(t.universe(), u);
        assert_eq!(t.find_next(-1), None);
        for x in -1..u + 1 {
            assert!(!t.has(x));
        }
    }
}

#[test]
fn very_large_universe_is_accepted() {
    let mut t = VEBTree::new(1i64 << 40).unwrap();
    t.insert((1i64 << 40) - 1).unwrap();
    t.insert(12345).unwrap();
    assert_eq!(t.minimum(), 12345);
    assert_eq!(t.maximum(), (1i64 << 40) - 1);
    assert_eq!(t.find_next(12345), Some((1i64 << 40) - 1));
    assert!(!t.has(1i64 << 40));
}

#[test]
fn scenario_universe_sixteen() {
    let mut t = tree_with(16, &[2, 3, 4, 5, 7, 14, 15]);
    assert_eq!(t.minimum(), 2);
    assert_eq!(t.maximum(), 15);
    assert_eq!(t.find_next(4), Some(5));
    assert_eq!(t.find_next(5), Some(7));
    assert!(!t.has(6));
    t.delete(2).unwrap();
    assert_eq!(t.minimum(), 3);
    let mut guard = 0;
    while t.minimum() != ABSENT {
        let m = t.minimum();
        t.delete(m).unwrap();
        guard += 1;
        assert!(guard < 20);
    }
    assert_eq!(t.minimum(), ABSENT);
    assert_eq!(t.maximum(), ABSENT);
    t.delete(3).unwrap();
    assert_eq!(t.minimum(), ABSENT);
}

#[test]
fn scenario_universe_two() {
    let mut t = tree_with(2, &[0]);
    assert!(t.has(0));
    assert!(!t.has(1));
    assert_eq!(t.find_next(0), None);
    t.insert(1).unwrap();
    assert_eq!(t.find_next(0), Some(1));
    assert_eq!(t.minimum(), 0);
    assert_eq!(t.maximum(), 1);
    t.delete(0).unwrap();
    assert_eq!(t.minimum(), 1);
    assert_eq!(t.maximum(), 1);
    assert!(!t.has(0));
}

#[test]
fn inserted_values_are_found_and_others_are_not() {
    let vals = [0i64, 1, 9, 17, 31, 33, 48, 49];
    let t = tree_with(50, &vals);
    for x in -3..60 {
        assert_eq!(t.has(x), vals.contains(&x), "probe {}", x);
    }
}

#[test]
fn insert_twice_is_insert_once() {
    let once = tree_with(64, &[5, 40, 41]);
    let twice = tree_with(64, &[5, 40, 41, 40, 5]);
    for x in 0..64 {
        assert_eq!(once.has(x), twice.has(x));
    }
    assert_eq!(successor_chain(&once), successor_chain(&twice));
    assert_eq!(once.minimum(), twice.minimum());
    assert_eq!(once.maximum(), twice.maximum());
}

#[test]
fn insert_then_delete_restores_the_set() {
    let before = tree_with(100, &[3, 27, 64, 99]);
    for x in [0i64, 4, 28, 50, 98] {
        let mut t = tree_with(100, &[3, 27, 64, 99]);
        t.insert(x).unwrap();
        assert!(t.has(x));
        t.delete(x).unwrap();
        for y in 0..100 {
            assert_eq!(t.has(y), before.has(y));
        }
        assert_eq!(t.minimum(), before.minimum());
        assert_eq!(t.maximum(), before.maximum());
    }
}

#[test]
fn find_next_is_the_least_greater_element() {
    let vals = [1i64, 8, 9, 30, 200, 255];
    let t = tree_with(256, &vals);
    for x in -2..260 {
        let expected = vals.iter().copied().filter(|&v| v > x).min();
        assert_eq!(t.find_next(x), expected, "probe {}", x);
    }
    assert!(t.minimum() <= t.maximum());
}

#[test]
fn successor_chain_is_sorted_contents() {
    let vals = [77i64, 3, 150, 12, 4, 99, 0, 511];
    let t = tree_with(512, &vals);
    let mut sorted = vals.to_vec();
    sorted.sort();
    assert_eq!(successor_chain(&t), sorted);
}

#[test]
fn out_of_range_mutations_are_refused() {
    let mut t = tree_with(10, &[4]);
    assert_eq!(t.insert(10), Err(VebError::OutOfRange));
    assert_eq!(t.insert(-1), Err(VebError::OutOfRange));
    assert_eq!(t.delete(10), Err(VebError::OutOfRange));
    assert_eq!(t.delete(-1), Err(VebError::OutOfRange));
    assert!(t.has(4));
    assert_eq!(t.minimum(), 4);
    assert!(!t.has(10));
    assert!(!t.has(-1));
}

#[test]
fn delete_of_absent_value_is_a_no_op() {
    let mut t = tree_with(20, &[2, 11]);
    t.delete(5).unwrap();
    assert_eq!(successor_chain(&t), vec![2, 11]);
    let mut e = VEBTree::new(20).unwrap();
    e.delete(3).unwrap();
    assert_eq!(e.minimum(), ABSENT);
}

#[test]
fn delete_maximum_and_minimum_update_caches() {
    let mut t = tree_with(1000, &[10, 500, 999, 37]);
    t.delete(999).unwrap();
    assert_eq!(t.maximum(), 500);
    t.delete(10).unwrap();
    assert_eq!(t.minimum(), 37);
    t.delete(500).unwrap();
    assert_eq!(t.minimum(), 37);
    assert_eq!(t.maximum(), 37);
    t.delete(37).unwrap();
    assert_eq!(t.maximum(), ABSENT);
}

#[test]
fn every_subset_of_a_small_universe() {
    for u in [3i64, 5, 8] {
        for mask in 0u32..(1u32 << u) {
            let vals: Vec<i64> = (0..u).filter(|&i| mask & (1 << i) != 0).collect();
            let mut t = tree_with(u, &vals);
            assert_eq!(successor_chain(&t), vals);
            for &v in &vals {
                t.delete(v).unwrap();
                assert!(!t.has(v));
            }
            assert_eq!(t.minimum(), ABSENT);
        }
    }
}

#[test]
fn clone_is_an_independent_deep_copy() {
    let mut a = tree_with(64, &[1, 20, 21, 63]);
    let b = a.clone();
    a.delete(20).unwrap();
    a.insert(40).unwrap();
    assert_eq!(successor_chain(&b), vec![1, 20, 21, 63]);
    assert_eq!(successor_chain(&a), vec![1, 21, 40, 63]);
    assert_eq!(b.universe(), 64);
}

#[test]
fn probes_beyond_the_universe_find_nothing() {
    let t = tree_with(50, &[0, 13, 49]);
    assert!(!t.has(50));
    assert!(!t.has(63));
    assert!(!t.has(i64::MAX));
    assert!(!t.has(-1));
    assert_eq!(t.find_next(49), None);
    assert_eq!(t.find_next(63), None);
    assert_eq!(t.find_next(i64::MAX), None);
    assert_eq!(t.find_next(48), Some(49));
    assert_eq!(t.find_next(i64::MIN), Some(0));
}
