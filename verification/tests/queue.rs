use algorithms::queue::Queue;

#[test]
fn test_queue() {
    let mut queue = Queue::new();
    assert_eq!(queue.deque(), None);
    queue.enqueue(1);
    assert_eq!(queue.lenght(), 1);
    queue.enqueue(2);
    assert_eq!(queue.lenght(), 2);
    assert_eq!(queue.peek(), Some(&1));
    assert_eq!(queue.peek_mut(), Some(&mut 1));
    assert_eq!(queue.lenght(), 2);
    assert_eq!(queue.deque(), Some(1));
    assert_eq!(queue.lenght(), 1);
    assert_eq!(queue.deque(), Some(2));
    assert_eq!(queue.lenght(), 0);
    assert_eq!(queue.deque(), None);
    assert_eq!(queue.lenght(), 0);
}

#[test]
fn queue_is_first_in_first_out() {
    let mut queue = Queue::new();
    queue.enqueue(1);
    queue.enqueue(2);
    assert_eq!(queue.deque(), Some(1));
    assert_eq!(queue.peek(), Some(&2));
    assert_eq!(queue.deque(), Some(2));
    assert_eq!(queue.deque(), None);
}

#[test]
fn queue_length_is_enqueued_less_returned() {
    let mut queue = Queue::new();
    let mut enqueued = 0;
    let mut returned = 0;
    let mut next = 0;
    for round in 0..50 {
        if round % 3 == 2 {
            if let Some(value) = queue.deque() {
                assert_eq!(value, next);
                next += 1;
                returned += 1;
            }
        } else {
            queue.enqueue(enqueued);
            enqueued += 1;
        }
        assert_eq!(queue.lenght(), enqueued - returned);
    }
    while let Some(value) = queue.deque() {
        assert_eq!(value, next);
        next += 1;
    }
    assert_eq!(next, enqueued);
    assert_eq!(queue.lenght(), 0);
}

#[test]
fn queue_peek_mut_changes_the_oldest_value() {
    let mut queue = Queue::new();
    assert_eq!(queue.peek(), None);
    assert_eq!(queue.peek_mut(), None);
    queue.enqueue("a".to_string());
    queue.enqueue("b".to_string());
    if let Some(value) = queue.peek_mut() {
        value.push('!');
    }
    assert_eq!(queue.deque(), Some("a!".to_string()));
    assert_eq!(queue.deque(), Some("b".to_string()));
}

#[test]
fn queue_reuses_its_slots() {
    let mut queue = Queue::new();
    for round in 0..100 {
        queue.enqueue(round);
        queue.enqueue(round + 1000);
        assert_eq!(queue.deque(), Some(round));
        assert_eq!(queue.deque(), Some(round + 1000));
        assert_eq!(queue.lenght(), 0);
    }
}
