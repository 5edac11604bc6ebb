use algorithms::binary_search::binary_search;
use algorithms::two_crystal_balls::two_crystal_balls;

#[test]
fn test_binary_search() {
    let v = vec![1, 2, 3, 4, 5, 6, 7, 8, 9, 10];
    assert_eq!(binary_search(&v, 1), Some(0));
    assert_eq!(binary_search(&v, 2), Some(1));
    assert_eq!(binary_search(&v, 3), Some(2));
    assert_eq!(binary_search(&v, 4), Some(3));
    assert_eq!(binary_search(&v, 5), Some(4));
    assert_eq!(binary_search(&v, 6), Some(5));
    assert_eq!(binary_search(&v, 7), Some(6));
    assert_eq!(binary_search(&v, 8), Some(7));
    assert_eq!(binary_search(&v, 9), Some(8));
    assert_eq!(binary_search(&v, 10), Some(9));
    assert_eq!(binary_search(&v, 11), None);
    assert_eq!(binary_search(&v, 0), None);
}

#[test]
fn binary_search_edge_cases() {
    let v: Vec<i32> = vec![];
    assert_eq!(binary_search(&v, 1), None);
    let v = vec![7];
    assert_eq!(binary_search(&v, 7), Some(0));
    assert_eq!(binary_search(&v, 8), None);
    // of equal values the one in the middle is found first
    let v = vec![1, 5, 5, 5, 9];
    assert_eq!(binary_search(&v, 5), Some(2));
}

#[test]
fn test_two_crystal_balls() {
    let v = vec![
        false, false, false, false, false, false, false, true, true, true,
    ];
    assert_eq!(two_crystal_balls(&v), Some(7));
    let v = vec![
        false, false, false, false, false, false, false, false, false, true,
    ];
    assert_eq!(two_crystal_balls(&v), Some(9));
    let v = vec![
        false, false, false, false, false, false, false, false, false, false,
    ];
    assert_eq!(two_crystal_balls(&v), None);
    let v = vec![true, true, true, true, true, true, true, true, true, true];
    assert_eq!(two_crystal_balls(&v), Some(0));
    let v = vec![false, false, true, true, true, true, true, true, true, true];
    assert_eq!(two_crystal_balls(&v), Some(2));
    let v = vec![
        false, false, false, false, true, true, true, true, true, true,
    ];
    assert_eq!(two_crystal_balls(&v), Some(4));
}

#[test]
fn two_crystal_balls_edge_cases() {
    assert_eq!(two_crystal_balls(&[true]), Some(0));
    assert_eq!(two_crystal_balls(&[false]), None);
    assert_eq!(two_crystal_balls(&[false, true]), Some(1));
    // sixteen places, jumps of four: the place that breaks lies at a jump
    let mut v = vec![false; 16];
    v[12] = true;
    v[13] = true;
    v[14] = true;
    v[15] = true;
    assert_eq!(two_crystal_balls(&v), Some(12));
    // eleven places, jumps of three: no jump comes to the last place, which
    // the walk by single steps from the last jump finds
    let mut v = vec![false; 11];
    v[10] = true;
    assert_eq!(two_crystal_balls(&v), Some(10));
    let v = vec![false, false, false, false, false, true];
    assert_eq!(two_crystal_balls(&v), Some(5));
}

#[test]
fn two_crystal_balls_finds_the_first_breaking_place() {
    for lenght in 1..60usize {
        for first in 0..=lenght {
            let mut v = vec![false; lenght];
            for at in first..lenght {
                v[at] = true;
            }
            let expected = if first < lenght { Some(first) } else { None };
            assert_eq!(two_crystal_balls(&v), expected);
        }
    }
}
