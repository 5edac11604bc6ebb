use algorithms::stack::Stack;

#[test]
fn test_stack() {
    let mut stack = Stack::new();
    assert_eq!(stack.pop(), None);
    assert_eq!(stack.peek(), None);
    assert_eq!(stack.peek_mut(), None);
    stack.push(1);
    assert_eq!(stack.peek(), Some(&1));
    assert_eq!(stack.peek_mut(), Some(&mut 1));
    stack.push(2);
    assert_eq!(stack.peek(), Some(&2));
    assert_eq!(stack.peek_mut(), Some(&mut 2));
    stack.push(3);
    assert_eq!(stack.peek(), Some(&3));
    assert_eq!(stack.peek_mut(), Some(&mut 3));
    stack.push(4);
    assert_eq!(stack.peek(), Some(&4));
    assert_eq!(stack.peek_mut(), Some(&mut 4));
    stack.push(5);
    assert_eq!(stack.peek(), Some(&5));
    assert_eq!(stack.peek_mut(), Some(&mut 5));
    stack.peek_mut().map(|value| *value = 42);
    assert_eq!(stack.pop(), Some(42));
    assert_eq!(stack.pop(), Some(4));
    assert_eq!(stack.pop(), Some(3));
    assert_eq!(stack.pop(), Some(2));
    assert_eq!(stack.pop(), Some(1));
    assert_eq!(stack.pop(), None);
    assert_eq!(stack.peek(), None);
    assert_eq!(stack.peek_mut(), None);
}

#[test]
fn stack_is_last_in_first_out() {
    let mut stack = Stack::new();
    for value in 0..10 {
        stack.push(value);
    }
    for value in (0..10).rev() {
        assert_eq!(stack.pop(), Some(value));
    }
    assert_eq!(stack.pop(), None);
}
