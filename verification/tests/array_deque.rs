use algorithms::array_deque::ArrayDeque;

#[test]
fn array_deque_front() {
    let mut deque = ArrayDeque::new(10);
    deque.push_front(1);
    deque.push_front(2);
    deque.push_front(3);

    assert_eq!(deque.size(), 3);
    assert!(!deque.is_empty());

    assert_eq!(deque.to_vec(), [3, 2, 1]);

    assert_eq!(deque.peek_front(), Some(&3));
    assert_eq!(deque.pop_front(), Some(3));
    assert_eq!(deque.peek_front(), Some(&2));
    assert_eq!(deque.pop_front(), Some(2));
    assert_eq!(deque.peek_front(), Some(&1));
    assert_eq!(deque.pop_front(), Some(1));
    assert_eq!(deque.pop_front(), None);
    assert_eq!(deque.pop_front(), None);

    assert_eq!(deque.size(), 0);
    assert!(deque.is_empty());
}

#[test]
fn array_deque_rear() {
    let mut deque = ArrayDeque::new(10);
    deque.push_rear(1);
    deque.push_rear(2);
    deque.push_rear(3);

    assert_eq!(deque.size(), 3);
    assert!(!deque.is_empty());

    assert_eq!(deque.to_vec(), [1, 2, 3]);

    assert_eq!(deque.peek_rear(), Some(&3));
    assert_eq!(deque.pop_rear(), Some(3));
    assert_eq!(deque.peek_rear(), Some(&2));
    assert_eq!(deque.pop_rear(), Some(2));
    assert_eq!(deque.peek_rear(), Some(&1));
    assert_eq!(deque.pop_rear(), Some(1));
    assert_eq!(deque.pop_rear(), None);
    assert_eq!(deque.pop_rear(), None);

    assert_eq!(deque.size(), 0);
    assert!(deque.is_empty());
}

#[test]
fn array_deque_all() {
    let mut deque = ArrayDeque::new(10);
    deque.push_front(3);
    deque.push_front(2);
    deque.push_front(1);
    deque.push_rear(4);
    deque.push_rear(5);
    deque.push_rear(6);

    assert_eq!(deque.size(), 6);
    assert!(!deque.is_empty());

    assert_eq!(deque.to_vec(), [1, 2, 3, 4, 5, 6]);

    assert_eq!(deque.peek_front(), Some(&1));
    assert_eq!(deque.peek_rear(), Some(&6));

    assert_eq!(deque.pop_front(), Some(1));
    assert_eq!(deque.pop_front(), Some(2));
    assert_eq!(deque.pop_front(), Some(3));
    assert_eq!(deque.pop_front(), Some(4));

    assert_eq!(deque.size(), 2);
    assert!(!deque.is_empty());

    assert_eq!(deque.to_vec(), [5, 6]);

    assert_eq!(deque.peek_front(), Some(&5));
    assert_eq!(deque.peek_rear(), Some(&6));

    deque.push_rear(7);
    deque.push_rear(8);
    deque.push_front(4);
    deque.push_front(3);

    assert_eq!(deque.size(), 6);
    assert!(!deque.is_empty());

    assert_eq!(deque.to_vec(), [3, 4, 5, 6, 7, 8]);

    assert_eq!(deque.peek_front(), Some(&3));
    assert_eq!(deque.peek_rear(), Some(&8));

    assert_eq!(deque.pop_rear(), Some(8));
    assert_eq!(deque.pop_rear(), Some(7));
    assert_eq!(deque.pop_rear(), Some(6));
    assert_eq!(deque.pop_rear(), Some(5));
    assert_eq!(deque.pop_rear(), Some(4));
    assert_eq!(deque.pop_rear(), Some(3));

    assert!(deque.is_empty());
    assert_eq!(deque.size(), 0);
}

#[test]
fn array_deque_full_ignores_pushes() {
    let mut deque = ArrayDeque::new(3);
    assert_eq!(deque.capacity(), 3);
    deque.push_rear(1);
    deque.push_rear(2);
    assert!(!deque.is_full());
    deque.push_front(0);
    assert!(deque.is_full());
    deque.push_rear(9);
    deque.push_front(9);
    assert_eq!(deque.size(), 3);
    assert_eq!(deque.to_vec(), [0, 1, 2]);
}

#[test]
fn array_deque_wraps_around_the_ring() {
    let mut deque = ArrayDeque::new(3);
    deque.push_rear(1);
    deque.push_rear(2);
    deque.push_rear(3);
    assert_eq!(deque.pop_front(), Some(1));
    deque.push_rear(4);
    assert_eq!(deque.to_vec(), [2, 3, 4]);
    assert_eq!(deque.pop_front(), Some(2));
    deque.push_rear(5);
    assert_eq!(deque.to_vec(), [3, 4, 5]);
    assert_eq!(deque.peek_front(), Some(&3));
    assert_eq!(deque.peek_rear(), Some(&5));
    assert_eq!(deque.pop_rear(), Some(5));
    deque.push_front(2);
    assert_eq!(deque.to_vec(), [2, 3, 4]);
}

#[test]
fn array_deque_of_no_capacity() {
    let mut deque: ArrayDeque<i32> = ArrayDeque::new(0);
    assert!(deque.is_empty());
    assert!(deque.is_full());
    deque.push_front(1);
    deque.push_rear(2);
    assert_eq!(deque.size(), 0);
    assert_eq!(deque.pop_front(), None);
    assert_eq!(deque.pop_rear(), None);
    assert_eq!(deque.peek_front(), None);
    assert_eq!(deque.peek_rear(), None);
    assert_eq!(deque.to_vec(), Vec::<i32>::new());
}
