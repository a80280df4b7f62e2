use near_sdk_pure::Bound;
use near_sdk_pure::Cursor;
use near_sdk_pure::Error;
use near_sdk_pure::Store;
use near_sdk_pure::TreeMap;

fn keys_of(entries: &[(u64, u64)]) -> Vec<u64> {
    entries.iter().map(|e| e.0).collect()
}

#[test]
fn round_trip_insert_get() {
    let mut st = Store::new();
    let mut map = TreeMap::new(vec![b't']);
    assert_eq!(map.insert(&mut st, 3, 30), None);
    assert_eq!(map.get(&st, 3), Some(30));
    // overwriting a key keeps the tree's node count constant
    let len_before = map.len();
    assert_eq!(map.insert(&mut st, 3, 31), Some(30));
    assert_eq!(map.get(&st, 3), Some(31));
    assert_eq!(map.len(), len_before);
    assert_eq!(map.get(&st, 4), None);
}

#[test]
fn removing_absent_key_is_a_no_op() {
    let mut st = Store::new();
    let mut map = TreeMap::new(vec![b't']);
    map.insert(&mut st, 1, 10);
    map.insert(&mut st, 2, 20);
    let before = map.to_vec(&st);
    let height_before = map.height(&st);
    assert_eq!(map.remove(&mut st, 99), None);
    assert!(map.check_invariants(&st));
    assert_eq!(map.to_vec(&st), before);
    assert_eq!(map.height(&st), height_before);
    assert_eq!(map.len(), 2);
}

#[test]
fn scenario_seven_keys() {
    let mut st = Store::new();
    let mut map = TreeMap::new(vec![b't']);
    for k in [5u64, 3, 8, 1, 4, 7, 9] {
        map.insert(&mut st, k, k * 10);
        assert!(map.check_invariants(&st));
    }
    assert_eq!(map.min(&st), Some(1));
    assert_eq!(map.max(&st), Some(9));
    assert_eq!(map.higher(&st, 4), Some(5));
    assert_eq!(map.lower(&st, 5), Some(4));
    assert_eq!(keys_of(&map.iter(&st)), vec![1, 3, 4, 5, 7, 8, 9]);
}

#[test]
fn scenario_remove_keeps_balance() {
    let mut st = Store::new();
    let mut map = TreeMap::new(vec![b't']);
    for k in 1u64..=7 {
        map.insert(&mut st, k, k);
    }
    assert_eq!(map.remove(&mut st, 4), Some(4));
    assert!(!map.contains_key(&st, 4));
    assert_eq!(map.len(), 6);
    assert_eq!(keys_of(&map.iter(&st)), vec![1, 2, 3, 5, 6, 7]);
    // ceil(1.44 * log2(6)) == 4
    assert!(map.height(&st) <= 4);
    assert!(map.check_invariants(&st));
}

#[test]
fn iteration_is_ordered_both_ways() {
    let mut st = Store::new();
    let mut map = TreeMap::new(vec![b't']);
    for k in [12u64, 2, 8, 0, 33, 17, 4] {
        map.insert(&mut st, k, k + 1);
    }
    let asc = map.iter(&st);
    assert_eq!(asc.len() as u64, map.len());
    assert_eq!(keys_of(&asc), vec![0, 2, 4, 8, 12, 17, 33]);
    let desc = map.iter_rev(&st);
    assert_eq!(keys_of(&desc), vec![33, 17, 12, 8, 4, 2, 0]);
    assert_eq!(keys_of(&map.iter_from(&st, 8)), vec![12, 17, 33]);
    assert_eq!(keys_of(&map.iter_rev_from(&st, 8)), vec![4, 2, 0]);
    for w in asc.windows(2) {
        assert!(w[0].0 < w[1].0);
    }
}

#[test]
fn scenario_range_included_excluded() {
    let mut st = Store::new();
    let mut map = TreeMap::new(vec![b't']);
    for k in [1u64, 3, 5, 7, 9] {
        map.insert(&mut st, k, 100 + k);
    }
    let got = map
        .range(&st, Bound::Included(3), Bound::Excluded(7))
        .unwrap();
    assert_eq!(keys_of(&got), vec![3, 5]);
    assert_eq!(got[0].1, 103);
}

#[test]
fn range_bound_combinations() {
    let mut st = Store::new();
    let mut map = TreeMap::new(vec![b't']);
    for k in [1u64, 3, 5, 7, 9] {
        map.insert(&mut st, k, k);
    }
    let r = map.range(&st, Bound::Included(3), Bound::Included(7)).unwrap();
    assert_eq!(keys_of(&r), vec![3, 5, 7]);
    let r = map.range(&st, Bound::Excluded(3), Bound::Included(7)).unwrap();
    assert_eq!(keys_of(&r), vec![5, 7]);
    let r = map.range(&st, Bound::Excluded(3), Bound::Excluded(7)).unwrap();
    assert_eq!(keys_of(&r), vec![5]);
    let r = map.range(&st, Bound::Unbounded, Bound::Excluded(7)).unwrap();
    assert_eq!(keys_of(&r), vec![1, 3, 5]);
    let r = map.range(&st, Bound::Included(4), Bound::Unbounded).unwrap();
    assert_eq!(keys_of(&r), vec![5, 7, 9]);
}

#[test]
fn range_rejects_contradictory_bounds() {
    let mut st = Store::new();
    let mut map = TreeMap::new(vec![b't']);
    map.insert(&mut st, 5, 5);
    assert_eq!(
        map.range(&st, Bound::Included(9), Bound::Included(2)).unwrap_err(),
        Error::InvalidRange
    );
    assert_eq!(
        map.range(&st, Bound::Excluded(9), Bound::Included(2)).unwrap_err(),
        Error::InvalidRange
    );
    assert_eq!(
        map.range(&st, Bound::Included(9), Bound::Excluded(2)).unwrap_err(),
        Error::InvalidRange
    );
    assert_eq!(
        map.range(&st, Bound::Excluded(4), Bound::Excluded(4)).unwrap_err(),
        Error::InvalidRange
    );
}

#[test]
fn min_max_higher_lower_on_edges() {
    let mut st = Store::new();
    let mut map = TreeMap::new(vec![b't']);
    assert_eq!(map.min(&st), None);
    assert_eq!(map.max(&st), None);
    assert_eq!(map.higher(&st, 5), None);
    assert_eq!(map.lower(&st, 5), None);
    for k in [10u64, 20, 30] {
        map.insert(&mut st, k, k);
    }
    assert_eq!(map.higher(&st, 30), None);
    assert_eq!(map.lower(&st, 10), None);
    assert_eq!(map.higher(&st, 9), Some(10));
    assert_eq!(map.lower(&st, 31), Some(30));
    assert_eq!(map.ceil_key(&st, 20), Some(20));
    assert_eq!(map.ceil_key(&st, 21), Some(30));
    assert_eq!(map.floor_key(&st, 20), Some(20));
    assert_eq!(map.floor_key(&st, 19), Some(10));
    assert_eq!(map.ceil_key(&st, 31), None);
    assert_eq!(map.floor_key(&st, 9), None);
}

#[test]
fn many_inserts_and_removes_stay_balanced() {
    let mut st = Store::new();
    let mut map = TreeMap::new(vec![b't']);
    for k in 0u64..60 {
        // a scrambled but deterministic order
        map.insert(&mut st, (k * 37) % 61, k);
    }
    assert_eq!(map.len(), 60);
    for k in 0u64..30 {
        assert!(map.remove(&mut st, (k * 37) % 61).is_some());
        assert!(map.check_invariants(&st));
    }
    assert_eq!(map.len(), 30);
    let entries = map.iter(&st);
    assert_eq!(entries.len(), 30);
    for w in entries.windows(2) {
        assert!(w[0].0 < w[1].0);
    }
    // ceil(1.44 * log2(30)) == 7
    assert!(map.height(&st) <= 7);
    assert!(map.check_invariants(&st));
    for (k, _) in entries {
        assert!(map.contains_key(&st, k));
    }
}

#[test]
fn clear_empties_the_map() {
    let mut st = Store::new();
    let mut map = TreeMap::new(vec![b't']);
    for k in 1u64..=10 {
        map.insert(&mut st, k, k);
    }
    map.clear(&mut st);
    assert!(map.check_invariants(&st));
    assert_eq!(map.len(), 0);
    assert_eq!(map.min(&st), None);
    assert!(map.iter(&st).is_empty());
    assert_eq!(map.get(&st, 5), None);
    map.insert(&mut st, 5, 50);
    assert_eq!(map.get(&st, 5), Some(50));
    assert_eq!(map.len(), 1);
}

#[test]
fn cursor_walks_lazily() {
    let mut st = Store::new();
    let mut map = TreeMap::new(vec![b't']);
    for k in [2u64, 4, 6] {
        map.insert(&mut st, k, k * k);
    }
    let mut cursor = Cursor::asc(&map, &st);
    assert_eq!(cursor.next(&map, &st), Some((2, 4)));
    assert_eq!(cursor.next(&map, &st), Some((4, 16)));
    assert_eq!(cursor.next(&map, &st), Some((6, 36)));
    assert_eq!(cursor.next(&map, &st), None);
    assert_eq!(cursor.next(&map, &st), None);

    let mut rev = Cursor::desc_from(&map, &st, 6);
    assert_eq!(rev.next(&map, &st), Some((4, 16)));
    assert_eq!(rev.next(&map, &st), Some((2, 4)));
    assert_eq!(rev.next(&map, &st), None);
}

#[test]
fn two_maps_share_one_store() {
    let mut st = Store::new();
    let mut a = TreeMap::new(vec![b'a']);
    let mut b = TreeMap::new(vec![b'b']);
    a.insert(&mut st, 1, 11);
    b.insert(&mut st, 1, 22);
    a.remove(&mut st, 1);
    assert_eq!(a.get(&st, 1), None);
    assert_eq!(b.get(&st, 1), Some(22));
}
