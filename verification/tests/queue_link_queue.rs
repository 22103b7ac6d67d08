use algorithms::queue::link_queue::LinkQueue;

#[test]
fn push_pop() {
    let mut queue = LinkQueue::new();
    queue.push(1);
    queue.push(2);
    queue.push(3);

    assert_eq!(queue.size(), 3);
    assert!(!queue.is_empty());

    assert_eq!(queue.to_vec(), [1, 2, 3]);

    assert_eq!(*queue.peek().unwrap(), 1);
    assert_eq!(queue.pop(), Some(1));
    assert_eq!(*queue.peek().unwrap(), 2);
    assert_eq!(queue.pop(), Some(2));
    assert_eq!(*queue.peek().unwrap(), 3);
    assert_eq!(queue.pop(), Some(3));
    assert_eq!(queue.pop(), None);
    assert_eq!(queue.pop(), None);

    assert_eq!(queue.size(), 0);
    assert!(queue.is_empty());
}

#[test]
fn queue_link_queue_keeps_order_across_pops() {
    let mut queue = LinkQueue::new();
    queue.push("a".to_string());
    queue.push("b".to_string());
    assert_eq!(queue.pop(), Some("a".to_string()));
    queue.push("c".to_string());
    assert_eq!(queue.to_vec(), ["b", "c"]);
    assert_eq!(queue.size(), 2);
}
