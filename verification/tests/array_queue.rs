use algorithms::array_queue::ArrayQueue;

#[test]
fn array_queue_push_pop() {
    let mut queue = ArrayQueue::new(10);
    queue.push(1);
    queue.push(2);
    queue.push(3);

    assert_eq!(queue.size(), 3);
    assert!(!queue.is_empty());

    assert_eq!(queue.to_vec(), [1, 2, 3]);

    assert_eq!(queue.peek(), Some(&1));
    assert_eq!(queue.pop(), Some(1));
    assert_eq!(queue.peek(), Some(&2));
    assert_eq!(queue.pop(), Some(2));
    assert_eq!(queue.peek(), Some(&3));
    assert_eq!(queue.pop(), Some(3));
    assert_eq!(queue.pop(), None);
    assert_eq!(queue.pop(), None);

    assert_eq!(queue.size(), 0);
    assert!(queue.is_empty());
}

#[test]
fn array_queue_full_ignores_pushes_and_wraps() {
    let mut queue = ArrayQueue::new(2);
    assert_eq!(queue.capacity(), 2);
    queue.push(1);
    queue.push(2);
    queue.push(3);
    assert_eq!(queue.to_vec(), [1, 2]);
    assert_eq!(queue.pop(), Some(1));
    queue.push(4);
    assert_eq!(queue.to_vec(), [2, 4]);
    assert_eq!(queue.peek(), Some(&2));
    assert_eq!(queue.size(), 2);
}

#[test]
fn array_queue_of_no_capacity() {
    let mut queue: ArrayQueue<u8> = ArrayQueue::new(0);
    queue.push(1);
    assert!(queue.is_empty());
    assert_eq!(queue.pop(), None);
    assert_eq!(queue.peek(), None);
}
