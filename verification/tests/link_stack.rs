use algorithms::link_stack::LinkStack;

#[test]
fn link_stack_push_pop() {
    let mut stack = LinkStack::new();
    stack.push(1);
    stack.push(2);
    stack.push(3);

    assert_eq!(stack.size(), 3);
    assert!(!stack.is_empty());

    assert_eq!(stack.to_vec(), [3, 2, 1]);

    assert_eq!(stack.peek(), Some(&3));
    assert_eq!(stack.pop(), Some(3));
    assert_eq!(stack.peek(), Some(&2));
    assert_eq!(stack.pop(), Some(2));
    assert_eq!(stack.peek(), Some(&1));
    assert_eq!(stack.pop(), Some(1));
    assert_eq!(stack.pop(), None);
    assert_eq!(stack.pop(), None);

    assert_eq!(stack.size(), 0);
    assert!(stack.is_empty());
}

#[test]
fn link_stack_empty() {
    let mut stack: LinkStack<i32> = LinkStack::new();
    assert!(stack.is_empty());
    assert_eq!(stack.peek(), None);
    assert_eq!(stack.pop(), None);
    assert_eq!(stack.to_vec(), Vec::<i32>::new());
}
