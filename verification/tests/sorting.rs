use algorithms::bubble_sort::bubble_sort;
use algorithms::quick_sort::quick_sort;
use algorithms::sequences::swap;

#[test]
fn test_bubble_sort() {
    let mut v = vec![1, 2, 3, 4, 5, 10, 7, 8, 9, 6];
    bubble_sort(&mut v);
    assert_eq!(v, vec![1, 2, 3, 4, 5, 6, 7, 8, 9, 10]);
    let mut v = vec![1, 2, 11, 4, 5, 20, 7, 16, 9, 10];
    bubble_sort(&mut v);
    assert_eq!(v, vec![1, 2, 4, 5, 7, 9, 10, 11, 16, 20]);
}

#[test]
fn quick_sort_test() {
    let mut v = vec![9, 3, 7, 4, 69, 420, 42];
    quick_sort(&mut v);
    assert_eq!(v, vec![3, 4, 7, 9, 42, 69, 420]);
}

#[test]
fn bubble_sort_edge_cases() {
    let mut v: Vec<i32> = vec![];
    bubble_sort(&mut v);
    assert_eq!(v, vec![]);
    let mut v = vec![5];
    bubble_sort(&mut v);
    assert_eq!(v, vec![5]);
    let mut v = vec![3, -1, 3, i32::MIN, i32::MAX, -1];
    bubble_sort(&mut v);
    assert_eq!(v, vec![i32::MIN, -1, -1, 3, 3, i32::MAX]);
}

#[test]
fn quick_sort_edge_cases() {
    let mut v: Vec<i32> = vec![];
    quick_sort(&mut v);
    assert_eq!(v, vec![]);
    let mut v = vec![5];
    quick_sort(&mut v);
    assert_eq!(v, vec![5]);
    let mut v = vec![2, 1];
    quick_sort(&mut v);
    assert_eq!(v, vec![1, 2]);
    let mut v = vec![3, -1, 3, i32::MIN, i32::MAX, -1];
    quick_sort(&mut v);
    assert_eq!(v, vec![i32::MIN, -1, -1, 3, 3, i32::MAX]);
    let mut v = vec![9, 8, 7, 6, 5, 4, 3, 2, 1, 0];
    quick_sort(&mut v);
    assert_eq!(v, vec![0, 1, 2, 3, 4, 5, 6, 7, 8, 9]);
}

#[test]
fn the_two_sorts_agree() {
    let mut seed: u32 = 12345;
    for round in 0..50 {
        let mut v = Vec::new();
        for _ in 0..round {
            seed = seed.wrapping_mul(1664525).wrapping_add(1013904223);
            v.push((seed >> 16) as i32 % 50 - 25);
        }
        let mut expected = v.clone();
        expected.sort();
        let mut a = v.clone();
        bubble_sort(&mut a);
        assert_eq!(a, expected);
        let mut b = v.clone();
        quick_sort(&mut b);
        assert_eq!(b, expected);
    }
}

#[test]
fn swap_exchanges_two_places() {
    let mut v = vec![1, 2, 3];
    swap(&mut v, 0, 2);
    assert_eq!(v, vec![3, 2, 1]);
    swap(&mut v, 1, 1);
    assert_eq!(v, vec![3, 2, 1]);
}
