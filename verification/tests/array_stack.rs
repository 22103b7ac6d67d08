use algorithms::stack::array_stack::ArrayStack;

#[test]
fn array_stack_push_pop() {
    let mut stack = ArrayStack::new(10);
    stack.push(1);
    stack.push(2);
    stack.push(3);

    assert_eq!(stack.size(), 3);
    assert!(!stack.is_empty());
    assert!(!stack.is_full());

    assert_eq!(stack.to_vec(), [3, 2, 1]);

    assert_eq!(stack.peek(), Some(&3));
    assert_eq!(stack.pop(), Some(3));
    assert_eq!(stack.peek(), Some(&2));
    assert_eq!(stack.pop(), Some(2));
    assert_eq!(stack.peek(), Some(&1));
    assert_eq!(stack.pop(), Some(1));
    assert_eq!(stack.pop(), None);
    assert_eq!(stack.pop(), None);

    assert_eq!(stack.size(), 0);
    assert!(stack.is_empty());
}

#[test]
fn array_stack_full_ignores_pushes() {
    let mut stack = ArrayStack::new(2);
    assert_eq!(stack.capacity(), 2);
    stack.push("a".to_string());
    stack.push("b".to_string());
    assert!(stack.is_full());
    stack.push("c".to_string());
    assert_eq!(stack.size(), 2);
    assert_eq!(stack.to_vec(), ["b", "a"]);
    assert_eq!(stack.pop(), Some("b".to_string()));
    stack.push("d".to_string());
    assert_eq!(stack.peek(), Some(&"d".to_string()));
}
