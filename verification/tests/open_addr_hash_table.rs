use algorithms::hash_table::open_addr_hash_table::{OpenAddrHashMap, BUCKETS_SIZE};

fn load_factor(map: &OpenAddrHashMap<usize>) -> f32 {
    map.size() as f32 / map.capacity() as f32
}

fn put_growing(map: &mut OpenAddrHashMap<usize>, key: usize, val: usize) {
    let load_thres: f32 = 2.0 / 3.0;
    if load_factor(map) > load_thres {
        map.extend();
    }
    map.put(key, val);
}

#[test]
fn open_addr_hash_table_test() {
    let load_thres: f32 = 2.0 / 3.0;
    let mut map = OpenAddrHashMap::<usize>::new();

    assert_eq!(map.size(), 0);

    for i in 0..3 * BUCKETS_SIZE {
        put_growing(&mut map, i, i);
    }

    assert_eq!(map.size(), 3 * BUCKETS_SIZE);
    assert!(load_factor(&map) <= load_thres);
    println!("load_factor: {}", load_factor(&map));
    println!("load_thres: {}", load_thres);
    println!("capacity: {}", map.capacity());

    for i in 0..3 * BUCKETS_SIZE {
        assert_eq!(map.get(i), Some(&i));
    }

    put_growing(&mut map, 1, 99);
    assert_eq!(map.get(1), Some(&99));
    put_growing(&mut map, 1, 1);

    map.remove(3);
    map.remove(13);
    map.remove(15);

    assert_eq!(map.size(), 3 * BUCKETS_SIZE - 3);

    assert_eq!(map.get(3), None);
    assert_eq!(map.get(13), None);
    assert_eq!(map.get(15), None);

    for i in (0..3 * BUCKETS_SIZE).filter(|i| ![3, 13, 15].contains(&i)) {
        assert_eq!(map.get(i), Some(&i));
    }
}

#[test]
fn open_addr_hash_table_probes_towards_the_end() {
    let mut map = OpenAddrHashMap::<&str>::new();
    map.put(3, "a");
    map.put(13, "b");
    map.put(23, "c");
    map.put(4, "d");
    assert_eq!(map.size(), 4);
    assert_eq!(map.key_set(), vec![3, 13, 23, 4]);
    assert_eq!(map.value_set(), vec![&"a", &"b", &"c", &"d"]);
    assert_eq!(map.get(23), Some(&"c"));
    assert_eq!(map.get(33), None);
    assert!(map.can_search(33));
    let entries = map.entry_set();
    assert_eq!(entries[1].key, 13);
    assert_eq!(entries[1].val, "b");
}

#[test]
fn open_addr_hash_table_pair_moves_forward_to_a_tombstone() {
    let mut map = OpenAddrHashMap::<&str>::new();
    map.put(3, "a");
    map.put(13, "b");
    map.put(23, "c");
    map.remove(3);
    assert_eq!(map.size(), 2);
    assert_eq!(map.key_set(), vec![13, 23]);
    // the search for 23 passes the tombstone, and the pair moves there
    assert_eq!(map.get(23), Some(&"c"));
    assert_eq!(map.key_set(), vec![23, 13]);
    assert_eq!(map.get(13), Some(&"b"));
    assert_eq!(map.key_set(), vec![23, 13]);
    // a new pair takes the first tombstone on its way
    map.put(33, "d");
    assert_eq!(map.key_set(), vec![23, 13, 33]);
    map.put(13, "e");
    assert_eq!(map.get(13), Some(&"e"));
    assert_eq!(map.size(), 3);
}

#[test]
fn open_addr_hash_table_search_ends_at_the_last_bucket() {
    let mut map = OpenAddrHashMap::<u8>::new();
    map.put(9, 1);
    assert!(map.can_search(9));
    assert!(!map.can_search(19));
    assert!(map.can_search(8));
    map.extend();
    assert_eq!(map.capacity(), 20);
    assert!(map.can_search(19));
    map.put(19, 2);
    assert_eq!(map.get(9), Some(&1));
    assert_eq!(map.get(19), Some(&2));
    assert_eq!(map.key_set(), vec![9, 19]);
}

#[test]
fn open_addr_hash_table_extend_leaves_no_tombstone() {
    let mut map = OpenAddrHashMap::<usize>::new();
    for key in [5, 15, 25, 6] {
        map.put(key, key + 100);
    }
    assert_eq!(map.key_set(), vec![5, 15, 25, 6]);
    map.remove(15);
    map.remove(99);
    assert_eq!(map.size(), 3);
    map.extend();
    assert_eq!(map.capacity(), 20);
    assert_eq!(map.size(), 3);
    assert_eq!(map.key_set(), vec![5, 25, 6]);
    for key in [5, 25, 6] {
        assert_eq!(map.get(key), Some(&(key + 100)));
    }
    assert_eq!(map.get(15), None);
}
