use algorithms::hash_table::arrar_hash_table::{ArrayHashMap, Pair, BUCKETS_SIZE};

#[test]
fn arrar_hash_table_test() {
    let mut map = ArrayHashMap::<String>::new();

    map.put(1, "foo".to_string());
    map.put(2, "bar".to_string());
    map.put(3, "baz".to_string());

    assert_eq!(map.get(0), None);
    assert_eq!(map.get(1), Some(&"foo".to_string()));
    assert_eq!(map.get(2), Some(&"bar".to_string()));
    assert_eq!(map.get(3), Some(&"baz".to_string()));

    assert_eq!(map.get(BUCKETS_SIZE + 1), Some(&"foo".to_string()));

    map.remove(1);

    assert_eq!(map.get(1), None);
    assert_eq!(map.get(BUCKETS_SIZE + 1), None);
}

#[test]
fn arrar_hash_table_sets_follow_the_buckets() {
    let mut map = ArrayHashMap::<String>::new();
    assert!(map.entry_set().is_empty());
    assert!(map.key_set().is_empty());
    assert!(map.value_set().is_empty());

    map.put(205, "e".to_string());
    map.put(3, "c".to_string());
    map.put(101, "a".to_string());

    assert_eq!(map.key_set(), vec![101, 3, 205]);
    assert_eq!(map.value_set(), vec!["a", "c", "e"]);
    assert_eq!(
        map.entry_set(),
        vec![
            &Pair { key: 101, val: "a".to_string() },
            &Pair { key: 3, val: "c".to_string() },
            &Pair { key: 205, val: "e".to_string() },
        ]
    );
}

#[test]
fn arrar_hash_table_later_pair_takes_the_bucket() {
    let mut map = ArrayHashMap::<i32>::new();
    map.put(7, 1);
    map.put(107, 2);
    assert_eq!(map.get(7), Some(&2));
    assert_eq!(map.key_set(), vec![107]);
    map.remove(207);
    assert_eq!(map.get(7), None);
    assert_eq!(map.get(107), None);
    assert_eq!(BUCKETS_SIZE, 100);
}
