use algorithms::link_queue::LinkQueue;

#[test]
fn link_queue_push_pop() {
    let mut queue = LinkQueue::new();
    queue.push(1);
    queue.push(2);
    queue.push(3);

    assert_eq!(queue.size(), 3);
    assert!(!queue.is_empty());

    assert_eq!(queue.to_vec(), [1, 2, 3]);

    assert_eq!(queue.peek().unwrap(), &1);
    assert_eq!(queue.pop(), Some(1));
    assert_eq!(queue.peek().unwrap(), &2);
    assert_eq!(queue.pop(), Some(2));
    assert_eq!(queue.peek().unwrap(), &3);
    assert_eq!(queue.pop(), Some(3));
    assert_eq!(queue.pop(), None);
    assert_eq!(queue.pop(), None);

    assert_eq!(queue.size(), 0);
    assert!(queue.is_empty());
}

#[test]
fn link_queue_empty() {
    let mut queue: LinkQueue<i32> = LinkQueue::new();
    assert!(queue.is_empty());
    assert_eq!(queue.size(), 0);
    assert!(queue.peek().is_none());
    assert_eq!(queue.pop(), None);
    assert_eq!(queue.to_vec(), Vec::<i32>::new());
}
