use skiplist::{DuplicateKeyError, KVPair, Skiplist, MAX_LEVEL};

#[test]
fn basic() {
    let mut list = Skiplist::<i64>::new();

    println!("start");

    assert_eq!(list.get(1), None);

    list.insert(1, 1).ok();
    list.insert(2, 2).ok();
    list.insert(3, 3).ok();
    list.insert(5, 5).ok();

    assert_eq!(list.get(1), Some(1));
    assert_eq!(list.get(2), Some(2));
    assert_eq!(list.get(3), Some(3));
    assert_eq!(list.get(5), Some(5));
    assert_eq!(list.insert(5, 1), Err(DuplicateKeyError));
    assert_eq!(list.get(4), None);
    assert_eq!(list.get(6), None);
}

#[test]
fn empty_structure_finds_nothing() {
    let list = Skiplist::<u32>::new();
    assert_eq!(list.get(i64::MIN), None);
    assert_eq!(list.get(-1), None);
    assert_eq!(list.get(0), None);
    assert_eq!(list.get(7), None);
    assert_eq!(list.get(i64::MAX), None);
    assert_eq!(list.keys_at_level(0), Vec::<i64>::new());
}

#[test]
fn empty_then_insert_then_get() {
    let mut list = Skiplist::<i64>::new();
    assert_eq!(list.get(1), None);
    assert_eq!(list.insert(1, 100), Ok(()));
    assert_eq!(list.get(1), Some(100));
}

#[test]
fn descending_insertion_sorts_ascending() {
    let mut list = Skiplist::<i64>::new();
    list.insert(5, 5).unwrap();
    list.insert(4, 4).unwrap();
    list.insert(3, 3).unwrap();
    list.insert(2, 2).unwrap();
    list.insert(1, 1).unwrap();

    for k in 1..=5i64 {
        assert_eq!(list.get(k), Some(k));
    }
    assert_eq!(list.keys_at_level(0), vec![1, 2, 3, 4, 5]);
}

#[test]
fn duplicate_keeps_original_value() {
    let mut list = Skiplist::<&str>::new();
    assert_eq!(list.insert(42, "first"), Ok(()));
    assert_eq!(list.insert(42, "second"), Err(DuplicateKeyError));
    assert_eq!(list.get(42), Some("first"));
    assert_eq!(list.keys_at_level(0), vec![42]);
}

#[test]
fn round_trip_many_keys() {
    let mut list = Skiplist::<i64>::new();
    let mut keys: Vec<i64> = Vec::new();
    let mut k: i64 = 1;
    // distinct keys in a scrambled order
    for step in 0..200i64 {
        k = (k * 31 + step) % 1009;
        if !keys.contains(&k) {
            keys.push(k);
        }
    }
    for &k in &keys {
        assert_eq!(list.insert(k, k * 10), Ok(()));
    }
    for &k in &keys {
        assert_eq!(list.get(k), Some(k * 10));
    }
    // keys never inserted stay absent
    for k in 2000..2050i64 {
        assert_eq!(list.get(k), None);
    }
    // level 0 visits exactly the inserted set, strictly ascending
    let walked = list.keys_at_level(0);
    assert_eq!(walked.len(), keys.len());
    let mut sorted = keys.clone();
    sorted.sort();
    assert_eq!(walked, sorted);
}

#[test]
fn mid_range_tall_node_reachable_on_every_level() {
    let mut list = Skiplist::<i64>::new();
    assert_eq!(list.insert_with_level(1, 10, 0), Ok(()));
    assert_eq!(list.insert_with_level(5, 50, 0), Ok(()));
    // a node with predecessors on the chain and a height above 1
    assert_eq!(list.insert_with_level(3, 30, 2), Ok(()));

    assert_eq!(list.get(1), Some(10));
    assert_eq!(list.get(3), Some(30));
    assert_eq!(list.get(5), Some(50));

    assert_eq!(list.keys_at_level(0), vec![1, 3, 5]);
    assert!(list.keys_at_level(1).contains(&3));
    assert!(list.keys_at_level(2).contains(&3));
    assert!(!list.keys_at_level(3).contains(&3));
}

#[test]
fn tall_head_insertion_links_all_levels() {
    let mut list = Skiplist::<i64>::new();
    assert_eq!(list.insert_with_level(7, 70, 1), Ok(()));
    // the new smallest key, taller than everything before it
    assert_eq!(list.insert_with_level(2, 20, MAX_LEVEL - 1), Ok(()));

    assert_eq!(list.get(2), Some(20));
    assert_eq!(list.get(7), Some(70));
    for l in 0..MAX_LEVEL {
        assert!(list.keys_at_level(l).contains(&2));
    }
    assert_eq!(list.keys_at_level(0), vec![2, 7]);
    assert_eq!(list.keys_at_level(1), vec![2, 7]);
    assert_eq!(list.keys_at_level(2), vec![2]);
}

#[test]
fn levels_thin_out_and_stay_sorted() {
    let mut list = Skiplist::<i64>::new();
    for k in 0..300i64 {
        assert_eq!(list.insert(k, -k), Ok(()));
    }
    for k in 0..300i64 {
        assert_eq!(list.get(k), Some(-k));
    }
    let ground: Vec<i64> = (0..300).collect();
    assert_eq!(list.keys_at_level(0), ground);
    // every higher level carries a sorted subset of the level below
    for l in 1..MAX_LEVEL {
        let below = list.keys_at_level(l - 1);
        let here = list.keys_at_level(l);
        for w in here.windows(2) {
            assert!(w[0] < w[1]);
        }
        for k in &here {
            assert!(below.contains(k));
        }
    }
}

#[test]
fn kvpair_orders_by_key() {
    let a = KVPair::new(1, 10);
    let b = KVPair::new(2, 20);
    assert!(b.greater(&a));
    assert!(!a.greater(&b));
    assert!(!a.greater(&a));
}
