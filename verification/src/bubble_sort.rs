use crate::sequences::{lemma_swapped_keeps_values, sorted, swap, swapped};
use vstd::prelude::*;

verus! {

/// Sorts `arr` in place, smallest value first.
pub fn bubble_sort(arr: &mut [i32])
    ensures
        final(arr)@.len() == old(arr)@.len(),
        final(arr)@.to_multiset() == old(arr)@.to_multiset(),
        sorted(final(arr)@),
{
    let lenght = arr.len();
    let mut i: usize = 0;
    while i < lenght
        invariant
            i <= lenght,
            arr@.len() == lenght,
            arr@.to_multiset() == old(arr)@.to_multiset(),
            forall|a: int, b: int| lenght - i <= a <= b < lenght ==> arr@[a] <= arr@[b],
            forall|a: int, b: int| 0 <= a < lenght - i <= b < lenght ==> arr@[a] <= arr@[b],
        decreases lenght - i,
    {
        let mut j: usize = 0;
        while j < lenght - i - 1
            invariant
                i < lenght,
                j <= lenght - i - 1,
                arr@.len() == lenght,
                arr@.to_multiset() == old(arr)@.to_multiset(),
                forall|a: int, b: int| lenght - i <= a <= b < lenght ==> arr@[a] <= arr@[b],
                forall|a: int, b: int| 0 <= a < lenght - i <= b < lenght ==> arr@[a] <= arr@[b],
                forall|a: int| 0 <= a <= j ==> arr@[a] <= arr@[j as int],
            decreases lenght - j,
        {
            if arr[j] > arr[j + 1] {
                proof {
                    lemma_swapped_keeps_values(arr@, j as int, j + 1);
                }
                swap(arr, j, j + 1);
            }
            j += 1;
        }
        i += 1;
    }
}

} // verus!
