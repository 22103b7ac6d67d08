use algorithms::tree::max_heap::MaxHeap;

#[test]
fn from_vec_1() {
    let mut heap = MaxHeap::from_vec_1(vec![3, 1, 4, 2, 5]);
    heap.push(9);

    assert_eq!(heap.peek(), Some(&9));
    assert_eq!(heap.pop(), Some(9));

    assert_eq!(heap.pop(), Some(5));
    assert_eq!(heap.pop(), Some(4));

    assert_eq!(heap.pop(), Some(3));
    assert_eq!(heap.pop(), Some(2));
    assert_eq!(heap.pop(), Some(1));

    assert_eq!(heap.pop(), None);
}

#[test]
fn from_vec_2() {
    let mut heap = MaxHeap::from_vec_2(vec![3, 1, 4, 2, 5]);
    heap.push(9);

    assert_eq!(heap.peek(), Some(&9));
    assert_eq!(heap.pop(), Some(9));

    assert_eq!(heap.pop(), Some(5));
    assert_eq!(heap.pop(), Some(4));

    assert_eq!(heap.pop(), Some(3));
    assert_eq!(heap.pop(), Some(2));
    assert_eq!(heap.pop(), Some(1));

    assert_eq!(heap.pop(), None);
}

#[test]
fn max_heap_empty() {
    let mut heap: MaxHeap<i32> = MaxHeap::new();
    assert!(heap.is_empty());
    assert_eq!(heap.size(), 0);
    assert_eq!(heap.peek(), None);
    assert_eq!(heap.pop(), None);
    let heap: MaxHeap<i32> = MaxHeap::from_vec_2(vec![]);
    assert!(heap.is_empty());
    let heap = MaxHeap::from_vec_2(vec![7]);
    assert_eq!(heap.size(), 1);
}

#[test]
fn max_heap_gives_values_out_largest_first() {
    let values = vec![5, 3, 8, 8, 1, 9, 2, 7, 7, 0, 6, 4];
    for mut heap in [MaxHeap::from_vec_1(values.clone()), MaxHeap::from_vec_2(values.clone())] {
        assert_eq!(heap.size(), values.len());
        let mut out = Vec::new();
        while let Some(value) = heap.pop() {
            out.push(value);
        }
        assert_eq!(out, vec![9, 8, 8, 7, 7, 6, 5, 4, 3, 2, 1, 0]);
        assert!(heap.is_empty());
    }
}

#[test]
fn max_heap_exchanges_values_when_sifting() {
    // fails if two places were not really exchanged
    let mut heap = MaxHeap::new();
    heap.push(1);
    heap.push(2);
    assert_eq!(heap.peek(), Some(&2));
    assert_eq!(heap.pop(), Some(2));
    assert_eq!(heap.pop(), Some(1));
}
