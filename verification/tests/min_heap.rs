use algorithms::min_heap::MinHeap;

#[test]
fn test_min_heap() {
    let mut heap = MinHeap::new();

    assert_eq!(heap.delete(), None);
    assert_eq!(heap.length, 0);

    heap.insert(5);
    heap.insert(3);
    heap.insert(69);
    heap.insert(420);
    heap.insert(4);
    heap.insert(1);
    heap.insert(8);
    heap.insert(7);

    assert_eq!(heap.length, 8);
    assert_eq!(heap.delete(), Some(1));
    assert_eq!(heap.delete(), Some(3));
    assert_eq!(heap.delete(), Some(4));
    assert_eq!(heap.delete(), Some(5));
    assert_eq!(heap.length, 4);
    assert_eq!(heap.delete(), Some(7));
    assert_eq!(heap.delete(), Some(8));
    assert_eq!(heap.delete(), Some(69));
    assert_eq!(heap.delete(), Some(420));
    assert_eq!(heap.delete(), None);
    assert_eq!(heap.length, 0);
}

#[test]
fn min_heap_of_distinct_values_gives_them_in_order() {
    let mut heap = MinHeap::new();
    let values = [50, 20, 90, 10, 70, 30, 80, 40, 60, 0];
    for value in values {
        heap.insert(value);
    }
    for expected in [0, 10, 20, 30, 40, 50, 60, 70, 80, 90] {
        assert_eq!(heap.delete(), Some(expected));
    }
    assert_eq!(heap.delete(), None);
}

#[test]
fn min_heap_default_is_empty() {
    let mut heap: MinHeap<i32> = MinHeap::default();
    assert_eq!(heap.length, 0);
    assert_eq!(heap.delete(), None);
    heap.insert(1);
    assert_eq!(heap.length, 1);
    assert_eq!(heap.delete(), Some(1));
    assert_eq!(heap.length, 0);
}

#[test]
fn min_heap_gives_equal_values_in_order() {
    let mut heap = MinHeap::new();
    for value in [1, 2, 2, 3] {
        heap.insert(value);
    }
    assert_eq!(heap.delete(), Some(1));
    assert_eq!(heap.delete(), Some(2));
    assert_eq!(heap.delete(), Some(2));
    assert_eq!(heap.delete(), Some(3));
    assert_eq!(heap.delete(), None);
}

#[test]
fn min_heap_always_gives_the_least() {
    let mut seed: u32 = 7;
    let mut heap = MinHeap::new();
    let mut held: Vec<i32> = Vec::new();
    for round in 0..400 {
        seed = seed.wrapping_mul(1664525).wrapping_add(1013904223);
        if round % 3 == 2 {
            held.sort();
            let expected = if held.is_empty() { None } else { Some(held.remove(0)) };
            assert_eq!(heap.delete(), expected);
        } else {
            let value = (seed >> 16) as i32 % 6;
            heap.insert(value);
            held.push(value);
        }
        assert_eq!(heap.length, held.len());
    }
    held.sort();
    for expected in held {
        assert_eq!(heap.delete(), Some(expected));
    }
    assert_eq!(heap.delete(), None);
    assert_eq!(heap.length, 0);
}
