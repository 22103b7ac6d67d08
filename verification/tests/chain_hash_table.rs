use algorithms::hash_table::chain_hash_table::{ChainHashMap, Pair, BUCKETS_SIZE};

fn load_factor(map: &ChainHashMap<usize>) -> f32 {
    map.size() as f32 / map.capacity() as f32
}

fn put_growing(map: &mut ChainHashMap<usize>, key: usize, val: usize) {
    let load_thres: f32 = 2.0 / 3.0;
    if load_factor(map) > load_thres {
        map.extend();
    }
    map.put(key, val);
}

#[test]
fn chain_hash_table_test() {
    let load_thres: f32 = 2.0 / 3.0;
    let mut map = ChainHashMap::<usize>::new();

    assert_eq!(map.size(), 0);

    for i in 0..3 * BUCKETS_SIZE {
        put_growing(&mut map, i, i);
    }

    assert_eq!(map.size(), 3 * BUCKETS_SIZE);
    assert!(load_factor(&map) <= load_thres);
    println!("load_factor: {}", load_factor(&map));
    println!("load_thres: {}", load_thres);
    println!("capacity: {}", map.capacity());

    for i in 0..3 * BUCKETS_SIZE {
        assert_eq!(map.get(i), Some(&i));
    }

    put_growing(&mut map, 1, 99);
    assert_eq!(map.get(1), Some(&99));
    put_growing(&mut map, 1, 1);

    map.remove(3);
    map.remove(13);
    map.remove(15);

    assert_eq!(map.size(), 3 * BUCKETS_SIZE - 3);

    assert_eq!(map.get(3), None);
    assert_eq!(map.get(13), None);
    assert_eq!(map.get(15), None);

    for i in (0..3 * BUCKETS_SIZE).filter(|i| ![3, 13, 15].contains(&i)) {
        assert_eq!(map.get(i), Some(&i));
    }
}

#[test]
fn chain_hash_table_grows_by_its_factor() {
    let mut map = ChainHashMap::<usize>::new();
    assert_eq!(map.capacity(), 10);
    for i in 0..30 {
        put_growing(&mut map, i, 2 * i);
    }
    assert_eq!(map.capacity(), 80);
    assert_eq!(map.size(), 30);
    map.extend();
    assert_eq!(map.capacity(), 160);
    assert_eq!(map.size(), 30);
    for i in 0..30 {
        assert_eq!(map.get(i), Some(&(2 * i)));
    }
}

#[test]
fn chain_hash_table_chains_keys_of_one_bucket() {
    let mut map = ChainHashMap::<&str>::new();
    map.put(7, "a");
    map.put(17, "b");
    map.put(27, "c");
    map.put(2, "d");
    assert_eq!(map.size(), 4);
    assert_eq!(map.get(17), Some(&"b"));
    assert_eq!(map.get(37), None);
    assert_eq!(map.key_set(), vec![2, 7, 17, 27]);
    assert_eq!(map.value_set(), vec![&"d", &"a", &"b", &"c"]);
    assert_eq!(
        map.entry_set(),
        vec![
            &Pair { key: 2, val: "d" },
            &Pair { key: 7, val: "a" },
            &Pair { key: 17, val: "b" },
            &Pair { key: 27, val: "c" },
        ]
    );
    map.put(17, "e");
    assert_eq!(map.size(), 4);
    assert_eq!(map.value_set(), vec![&"d", &"a", &"e", &"c"]);
    map.remove(7);
    map.remove(7);
    assert_eq!(map.size(), 3);
    assert_eq!(map.key_set(), vec![2, 17, 27]);
    map.extend();
    assert_eq!(map.key_set(), vec![2, 27, 17]);
}

#[test]
fn chain_hash_table_empty() {
    let mut map = ChainHashMap::<i32>::new();
    assert_eq!(map.get(0), None);
    map.remove(0);
    assert_eq!(map.size(), 0);
    assert!(map.entry_set().is_empty());
    assert!(map.key_set().is_empty());
    assert!(map.value_set().is_empty());
}
