use crate::sequences::{
    lemma_same_values_same_members, lemma_swapped_keeps_range, sorted, sorted_between, swap,
};
use vstd::prelude::*;

verus! {

/// `after` is `before` with the values from `lo` up to `hi`, without it,
/// rearranged.
pub open spec fn rearranged_between(before: Seq<i32>, after: Seq<i32>, lo: int, hi: int) -> bool {
    &&& after.len() == before.len()
    &&& after.subrange(lo, hi).to_multiset() == before.subrange(lo, hi).to_multiset()
    &&& forall|k: int| 0 <= k < before.len() && !(lo <= k < hi) ==> after[k] == before[k]
}

/// Rearranging a part, and then a part of that part, rearranges the part.
proof fn lemma_rearranged_inside(
    before: Seq<i32>,
    mid: Seq<i32>,
    after: Seq<i32>,
    lo: int,
    hi: int,
    from: int,
    to: int,
)
    requires
        0 <= lo <= from <= to <= hi <= before.len(),
        rearranged_between(before, mid, lo, hi),
        rearranged_between(mid, after, from, to),
    ensures
        rearranged_between(before, after, lo, hi),
{
    let a = mid.subrange(lo, from);
    let b = mid.subrange(from, to);
    let c = mid.subrange(to, hi);
    let b2 = after.subrange(from, to);
    assert(mid.subrange(lo, hi) =~= a + b + c);
    assert(after.subrange(lo, hi) =~= a + b2 + c);
    vstd::seq_lib::lemma_multiset_commutative(a, b);
    vstd::seq_lib::lemma_multiset_commutative(a + b, c);
    vstd::seq_lib::lemma_multiset_commutative(a, b2);
    vstd::seq_lib::lemma_multiset_commutative(a + b2, c);
}

/// Moves the value at `hi` to its place among the values from `lo` to `hi`:
/// no value before that place is greater, no value behind it is less or
/// equal.
fn partition(arr: &mut [i32], lo: usize, hi: usize) -> (pivot: usize)
    requires
        lo <= hi < old(arr)@.len(),
    ensures
        lo <= pivot <= hi,
        rearranged_between(old(arr)@, final(arr)@, lo as int, hi + 1),
        forall|k: int| lo <= k < pivot ==> final(arr)@[k] <= final(arr)@[pivot as int],
        forall|k: int| pivot < k <= hi ==> final(arr)@[k] > final(arr)@[pivot as int],
{
    let mut idx: usize = lo;
    let mut i: usize = lo;
    assert(arr@.subrange(lo as int, hi + 1) =~= old(arr)@.subrange(lo as int, hi + 1));
    while i < hi
        invariant
            lo <= idx <= i <= hi < arr@.len(),
            rearranged_between(old(arr)@, arr@, lo as int, hi + 1),
            arr@[hi as int] == old(arr)@[hi as int],
            forall|k: int| lo <= k < idx ==> arr@[k] <= arr@[hi as int],
            forall|k: int| idx <= k < i ==> arr@[k] > arr@[hi as int],
        decreases hi - i,
    {
        if arr[i] <= arr[hi] {
            proof {
                lemma_swapped_keeps_range(arr@, lo as int, hi + 1, idx as int, i as int);
            }
            swap(arr, idx, i);
            idx += 1;
        }
        i += 1;
    }
    proof {
        lemma_swapped_keeps_range(arr@, lo as int, hi + 1, idx as int, hi as int);
    }
    swap(arr, idx, hi);
    idx
}

/// Sorts the values from `lo` to `hi`, both included.
fn qs(arr: &mut [i32], lo: usize, hi: usize)
    requires
        lo >= hi || hi < old(arr)@.len(),
    ensures
        lo < hi ==> rearranged_between(old(arr)@, final(arr)@, lo as int, hi + 1),
        lo < hi ==> sorted_between(final(arr)@, lo as int, hi + 1),
        lo >= hi ==> final(arr)@ == old(arr)@,
    decreases (if hi > lo { hi - lo } else { 0 }),
{
    if lo >= hi {
        return ;
    }
    assert(arr@.len() == arr.len());
    let p = partition(arr, lo, hi);
    let ghost parted = arr@;
    if p > 0 {
        qs(arr, lo, p - 1);
    }
    let ghost left = arr@;
    proof {
        if lo < p - 1 {
            let was = parted.subrange(lo as int, p as int);
            let now = left.subrange(lo as int, p as int);
            lemma_same_values_same_members(was, now);
            assert forall|k: int| lo <= k < p implies left[k] <= left[p as int] by {
                assert(was.contains(now[k - lo]));
                let at = was.index_of(now[k - lo]);
                assert(was[at] == parted[lo + at]);
            }
            lemma_rearranged_inside(old(arr)@, parted, left, lo as int, hi + 1, lo as int, p as int);
        }
    }
    qs(arr, p + 1, hi);
    proof {
        if p + 1 < hi {
            let was = left.subrange(p + 1, hi + 1);
            let now = arr@.subrange(p + 1, hi + 1);
            lemma_same_values_same_members(was, now);
            assert forall|k: int| p < k <= hi implies arr@[k] >= arr@[p as int] by {
                assert(was.contains(now[k - p - 1]));
                let at = was.index_of(now[k - p - 1]);
                assert(was[at] == left[p + 1 + at]);
            }
            lemma_rearranged_inside(old(arr)@, left, arr@, lo as int, hi + 1, p + 1, hi + 1);
        }
    }
}

/// Sorts `arr` in place, smallest value first.
pub fn quick_sort(arr: &mut [i32])
    ensures
        final(arr)@.len() == old(arr)@.len(),
        final(arr)@.to_multiset() == old(arr)@.to_multiset(),
        sorted(final(arr)@),
{
    if arr.len() == 0 {
        return ;
    }
    let last = arr.len() - 1;
    qs(arr, 0, last);
    proof {
        assert(arr@.subrange(0, arr@.len() as int) =~= arr@) by {
            if last == 0 {
            }
        }
        assert(old(arr)@.subrange(0, old(arr)@.len() as int) =~= old(arr)@);
    }
}

} // verus!
