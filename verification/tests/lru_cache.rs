use algorithms::lru_cache::LRUCache;

#[test]
fn test_lru_cache() {
    let mut lru = LRUCache::<String, usize>::new(Some(3));
    assert_eq!(lru.get(&"foo".to_string()), None);
    lru.update(&"foo".to_string(), 69);
    assert_eq!(lru.get(&"foo".to_string()), Some(69));

    lru.update(&"foo".to_string(), 70);
    assert_eq!(lru.get(&"foo".to_string()), Some(70));

    lru.update(&"bar".to_string(), 420);
    assert_eq!(lru.get(&"bar".to_string()), Some(420));

    lru.update(&"baz".to_string(), 1337);
    assert_eq!(lru.get(&"baz".to_string()), Some(1337));

    lru.update(&"ball".to_string(), 69420);
    assert_eq!(lru.get(&"ball".to_string()), Some(69420));
    assert_eq!(lru.get(&"foo".to_string()), None);
    assert_eq!(lru.get(&"bar".to_string()), Some(420));
    lru.update(&"foo".to_string(), 69);

    // shouldn't of been deleted, but since bar was get'd, bar was added to the
    // front of the list, so baz became the end
    assert_eq!(lru.get(&"baz".to_string()), None);
}

#[test]
fn lru_update_then_get_returns_the_value() {
    let mut lru = LRUCache::<String, usize>::new(Some(3));
    lru.update(&"foo".to_string(), 69);
    assert_eq!(lru.get(&"foo".to_string()), Some(69));
}

#[test]
fn lru_overwrite_keeps_one_entry_for_the_key() {
    let mut lru = LRUCache::<String, usize>::new(Some(3));
    lru.update(&"foo".to_string(), 69);
    lru.update(&"foo".to_string(), 70);
    assert_eq!(lru.get(&"foo".to_string()), Some(70));
    // Two more keys fit beside it: the overwrite took no second place.
    lru.update(&"bar".to_string(), 1);
    lru.update(&"baz".to_string(), 2);
    assert_eq!(lru.get(&"foo".to_string()), Some(70));
    assert_eq!(lru.get(&"bar".to_string()), Some(1));
    assert_eq!(lru.get(&"baz".to_string()), Some(2));
}

#[test]
fn lru_full_cache_evicts_the_least_recently_used() {
    let mut lru = LRUCache::<String, usize>::new(Some(3));
    lru.update(&"foo".to_string(), 1);
    lru.update(&"bar".to_string(), 2);
    lru.update(&"baz".to_string(), 3);
    lru.update(&"ball".to_string(), 4);
    assert_eq!(lru.get(&"foo".to_string()), None);
    assert_eq!(lru.get(&"bar".to_string()), Some(2));
    assert_eq!(lru.get(&"baz".to_string()), Some(3));
}

#[test]
fn lru_get_protects_an_entry_from_eviction() {
    let mut lru = LRUCache::<String, usize>::new(Some(3));
    lru.update(&"foo".to_string(), 1);
    lru.update(&"bar".to_string(), 2);
    lru.update(&"baz".to_string(), 3);
    lru.update(&"ball".to_string(), 4);
    assert_eq!(lru.get(&"bar".to_string()), Some(2));
    lru.update(&"qux".to_string(), 5);
    assert_eq!(lru.get(&"baz".to_string()), None);
    assert_eq!(lru.get(&"bar".to_string()), Some(2));
    assert_eq!(lru.get(&"ball".to_string()), Some(4));
    assert_eq!(lru.get(&"qux".to_string()), Some(5));
}

#[test]
fn lru_never_holds_more_than_its_capacity() {
    let mut lru = LRUCache::<u64, u64>::new(Some(4));
    for key in 0..20u64 {
        lru.update(&key, key * 10);
        // read an old key now and then, to mix the order
        let _ = lru.get(&(key / 2));
    }
    let mut resident = 0;
    for key in 0..20u64 {
        if lru.get(&key).is_some() {
            resident += 1;
        }
    }
    assert_eq!(resident, 4);
}

#[test]
fn lru_get_keeps_the_number_of_entries() {
    let mut lru = LRUCache::<u64, u64>::new(Some(2));
    lru.update(&1, 10);
    lru.update(&2, 20);
    assert_eq!(lru.get(&1), Some(10));
    assert_eq!(lru.get(&1), Some(10));
    assert_eq!(lru.get(&2), Some(20));
    // after the reads 1 is the least recently used
    lru.update(&3, 30);
    assert_eq!(lru.get(&1), None);
    assert_eq!(lru.get(&2), Some(20));
    assert_eq!(lru.get(&3), Some(30));
}

#[test]
fn lru_clear_leaves_an_empty_cache() {
    let mut lru = LRUCache::<String, usize>::new(Some(3));
    lru.update(&"foo".to_string(), 1);
    lru.update(&"bar".to_string(), 2);
    lru.clear();
    assert_eq!(lru.get(&"foo".to_string()), None);
    assert_eq!(lru.get(&"bar".to_string()), None);
    // and it works as a new one does
    lru.update(&"a".to_string(), 1);
    lru.update(&"b".to_string(), 2);
    lru.update(&"c".to_string(), 3);
    lru.update(&"d".to_string(), 4);
    assert_eq!(lru.get(&"a".to_string()), None);
    assert_eq!(lru.get(&"b".to_string()), Some(2));
    assert_eq!(lru.get(&"c".to_string()), Some(3));
    assert_eq!(lru.get(&"d".to_string()), Some(4));
}

#[test]
fn lru_default_capacity_is_ten() {
    let mut lru = LRUCache::<u64, u64>::new(None);
    for key in 0..11u64 {
        lru.update(&key, key);
    }
    assert_eq!(lru.get(&0), None);
    for key in 1..11u64 {
        assert_eq!(lru.get(&key), Some(key));
    }
}

#[test]
fn lru_capacity_one_holds_the_last_key() {
    let mut lru = LRUCache::<u64, u64>::new(Some(1));
    lru.update(&1, 10);
    lru.update(&2, 20);
    assert_eq!(lru.get(&1), None);
    assert_eq!(lru.get(&2), Some(20));
    lru.update(&2, 21);
    assert_eq!(lru.get(&2), Some(21));
}
