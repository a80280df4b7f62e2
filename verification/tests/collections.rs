use near_sdk_pure::Error;
use near_sdk_pure::LookupMap;
use near_sdk_pure::LookupSet;
use near_sdk_pure::Store;
use near_sdk_pure::UnorderedMap;
use near_sdk_pure::Vector;

#[test]
fn store_primitives() {
    let mut st = Store::new();
    assert!(!st.has(b"k"));
    assert_eq!(st.read(b"k"), None);
    assert_eq!(st.write(b"k", b"v1"), None);
    assert!(st.has(b"k"));
    assert_eq!(st.read(b"k"), Some(b"v1".to_vec()));
    // a second write evicts the first value
    assert_eq!(st.write(b"k", b"v2"), Some(b"v1".to_vec()));
    assert_eq!(st.remove(b"k"), Some(b"v2".to_vec()));
    assert_eq!(st.remove(b"k"), None);
    assert!(!st.has(b"k"));
}

#[test]
fn vector_push_get_pop() {
    let mut st = Store::new();
    let mut v = Vector::new(vec![b'v']);
    assert!(v.is_empty());
    v.push(&mut st, 10);
    v.push(&mut st, 20);
    v.push(&mut st, 30);
    assert_eq!(v.len(), 3);
    assert_eq!(v.get(&st, 0), Some(10));
    assert_eq!(v.get(&st, 2), Some(30));
    assert_eq!(v.get(&st, 3), None);
    assert_eq!(v.pop(&mut st), Some(30));
    assert_eq!(v.pop(&mut st), Some(20));
    assert_eq!(v.pop(&mut st), Some(10));
    assert_eq!(v.pop(&mut st), None);
}

#[test]
fn vector_swap_remove_is_dense() {
    let mut st = Store::new();
    let mut v = Vector::new(vec![b'v']);
    for e in [1u64, 2, 3, 4] {
        v.push(&mut st, e);
    }
    // the last element moves into the vacated slot
    assert_eq!(v.swap_remove(&mut st, 0), Ok(1));
    assert_eq!(v.to_vec(&st), vec![4, 2, 3]);
    assert_eq!(v.swap_remove(&mut st, 2), Ok(3));
    assert_eq!(v.to_vec(&st), vec![4, 2]);
    assert_eq!(v.swap_remove(&mut st, 9), Err(Error::OutOfBounds));
}

#[test]
fn vector_replace_and_errors() {
    let mut st = Store::new();
    let mut v = Vector::new(vec![b'v']);
    v.push(&mut st, 7);
    assert_eq!(v.replace(&mut st, 0, 8), Ok(7));
    assert_eq!(v.get(&st, 0), Some(8));
    assert_eq!(v.replace(&mut st, 1, 9), Err(Error::OutOfBounds));
    assert_eq!(Error::OutOfBounds.describe(), "index out of bounds");
}

#[test]
fn vector_iter_extend_clear() {
    let mut st = Store::new();
    let mut v = Vector::new(vec![b'v']);
    v.extend(&mut st, &vec![5, 6, 7]);
    assert_eq!(v.iter(&st), vec![5, 6, 7]);
    v.clear(&mut st);
    assert!(v.is_empty());
    assert_eq!(v.to_vec(&st), Vec::<u64>::new());
}

#[test]
fn vector_raw_round_trip() {
    let mut st = Store::new();
    let mut v = Vector::new(vec![b'v']);
    v.push_raw(&mut st, b"abc");
    v.push_raw(&mut st, b"de");
    assert_eq!(v.get_raw(&st, 0), Some(b"abc".to_vec()));
    assert_eq!(v.iter_raw(&st), vec![b"abc".to_vec(), b"de".to_vec()]);
    assert_eq!(v.swap_remove_raw(&mut st, 0), Ok(b"abc".to_vec()));
    assert_eq!(v.get_raw(&st, 0), Some(b"de".to_vec()));
    assert_eq!(v.pop_raw(&mut st), Some(b"de".to_vec()));
    assert_eq!(v.pop_raw(&mut st), None);
}

#[test]
fn lookup_map_basics() {
    let mut st = Store::new();
    let mut m = LookupMap::new(vec![b'm']);
    assert!(!m.contains_key(&st, 1));
    assert_eq!(m.insert(&mut st, 1, 100), None);
    assert_eq!(m.insert(&mut st, 1, 101), Some(100));
    assert_eq!(m.get(&st, 1), Some(101));
    assert_eq!(m.remove(&mut st, 1), Some(101));
    assert_eq!(m.remove(&mut st, 1), None);
    assert!(!m.contains_key(&st, 1));
    m.extend(&mut st, &vec![(2, 20), (3, 30)]);
    assert_eq!(m.get(&st, 2), Some(20));
    assert_eq!(m.get(&st, 3), Some(30));
}

#[test]
fn lookup_map_raw_round_trip() {
    let mut st = Store::new();
    let mut m = LookupMap::new(vec![b'm']);
    assert_eq!(m.insert_raw(&mut st, b"key", b"value"), None);
    assert_eq!(m.insert_raw(&mut st, b"key", b"other"), Some(b"value".to_vec()));
    assert_eq!(m.remove_raw(&mut st, b"key"), Some(b"other".to_vec()));
    assert_eq!(m.remove_raw(&mut st, b"key"), None);
}

#[test]
fn lookup_set_basics() {
    let mut st = Store::new();
    let mut s = LookupSet::new(vec![b's']);
    assert!(!s.contains(&st, 7));
    assert!(s.insert(&mut st, 7));
    assert!(!s.insert(&mut st, 7));
    assert!(s.contains(&st, 7));
    assert!(s.remove(&mut st, 7));
    assert!(!s.remove(&mut st, 7));
    s.extend(&mut st, &vec![1, 2, 2, 3]);
    assert!(s.contains(&st, 1) && s.contains(&st, 2) && s.contains(&st, 3));
    assert!(s.insert_raw(&mut st, b"raw"));
    assert!(s.remove_raw(&mut st, b"raw"));
}

#[test]
fn unordered_map_basics() {
    let mut st = Store::new();
    let mut m = UnorderedMap::new(vec![b'u']);
    assert!(m.is_empty());
    assert_eq!(m.insert(&mut st, 1, 10), None);
    assert_eq!(m.insert(&mut st, 2, 20), None);
    assert_eq!(m.insert(&mut st, 1, 11), Some(10));
    assert_eq!(m.len(), 2);
    assert_eq!(m.get(&st, 1), Some(11));
    assert_eq!(m.get(&st, 3), None);
    assert_eq!(m.keys(&st), vec![1, 2]);
    assert_eq!(m.values(&st), vec![11, 20]);
    assert_eq!(m.to_vec(&st), vec![(1, 11), (2, 20)]);
    assert_eq!(m.iter(&st), m.to_vec(&st));
}

#[test]
fn unordered_map_remove_swaps_last() {
    let mut st = Store::new();
    let mut m = UnorderedMap::new(vec![b'u']);
    for k in [1u64, 2, 3] {
        m.insert(&mut st, k, k * 10);
    }
    assert_eq!(m.remove(&mut st, 1), Some(10));
    // the last entry moved into the vacated position
    assert_eq!(m.to_vec(&st), vec![(3, 30), (2, 20)]);
    assert_eq!(m.get(&st, 3), Some(30));
    assert_eq!(m.remove(&mut st, 9), None);
    assert_eq!(m.remove(&mut st, 3), Some(30));
    assert_eq!(m.remove(&mut st, 2), Some(20));
    assert!(m.is_empty());
}

#[test]
fn unordered_map_raw_extend_clear() {
    let mut st = Store::new();
    let mut m = UnorderedMap::new(vec![b'u']);
    let k = 5u64.to_le_bytes();
    let v = 50u64.to_le_bytes();
    assert_eq!(m.insert_raw(&mut st, &k, &v), None);
    let v2 = 51u64.to_le_bytes();
    assert_eq!(m.insert_raw(&mut st, &k, &v2), Some(v.to_vec()));
    assert_eq!(m.remove_raw(&mut st, &k), Some(v2.to_vec()));
    m.extend(&mut st, &vec![(1, 10), (2, 20), (1, 11)]);
    assert_eq!(m.get(&st, 1), Some(11));
    assert_eq!(m.get(&st, 2), Some(20));
    m.clear(&mut st);
    assert!(m.is_empty());
    assert_eq!(m.get(&st, 1), None);
    assert_eq!(m.keys_as_vector().len(), 0);
    assert_eq!(m.values_as_vector().len(), 0);
}
