//! What the sorting functions share: what it is to be sorted, and the swap
//! of two places, which keeps the values of a sequence.
use vstd::prelude::*;

verus! {

/// The values from `lo` up to `hi`, without it, never fall.
pub open spec fn sorted_between(s: Seq<i32>, lo: int, hi: int) -> bool {
    forall|i: int, j: int| lo <= i <= j < hi ==> s[i] <= s[j]
}

/// The values of the whole sequence never fall.
pub open spec fn sorted(s: Seq<i32>) -> bool {
    sorted_between(s, 0, s.len() as int)
}

/// `s` with the values at `i` and `j` exchanged.
pub open spec fn swapped<T>(s: Seq<T>, i: int, j: int) -> Seq<T> {
    s.update(i, s[j]).update(j, s[i])
}

/// An exchange of two places keeps the values, each as often as before.
pub proof fn lemma_swapped_keeps_values<T>(s: Seq<T>, i: int, j: int)
    requires
        0 <= i < s.len(),
        0 <= j < s.len(),
    ensures
        swapped(s, i, j).to_multiset() == s.to_multiset(),
{
    broadcast use vstd::multiset::group_multiset_axioms;

    let first = s.update(i, s[j]);
    vstd::seq_lib::to_multiset_update(s, i, s[j]);
    vstd::seq_lib::to_multiset_update(first, j, s[i]);
    vstd::seq_lib::to_multiset_contains(s, s[i]);
    vstd::seq_lib::to_multiset_contains(s, s[j]);
    assert(s.contains(s[i]));
    assert(s.contains(s[j]));
    assert(swapped(s, i, j).to_multiset() =~= s.to_multiset());
}

/// An exchange of two places between `lo` and `hi` keeps the values that
/// stand between `lo` and `hi`.
pub proof fn lemma_swapped_keeps_range<T>(s: Seq<T>, lo: int, hi: int, i: int, j: int)
    requires
        0 <= lo <= i < hi <= s.len(),
        lo <= j < hi,
    ensures
        swapped(s, i, j).subrange(lo, hi).to_multiset() == s.subrange(lo, hi).to_multiset(),
{
    let part = s.subrange(lo, hi);
    lemma_swapped_keeps_values(part, i - lo, j - lo);
    assert(swapped(s, i, j).subrange(lo, hi) =~= swapped(part, i - lo, j - lo));
}

/// Two sequences of the same values have the same length, and each value of
/// one stands somewhere in the other.
pub proof fn lemma_same_values_same_members<T>(a: Seq<T>, b: Seq<T>)
    requires
        a.to_multiset() == b.to_multiset(),
    ensures
        a.len() == b.len(),
        forall|k: int| 0 <= k < b.len() ==> a.contains(#[trigger] b[k]),
{
    vstd::seq_lib::to_multiset_len(a);
    vstd::seq_lib::to_multiset_len(b);
    assert forall|k: int| 0 <= k < b.len() implies a.contains(#[trigger] b[k]) by {
        vstd::seq_lib::to_multiset_contains(a, b[k]);
        vstd::seq_lib::to_multiset_contains(b, b[k]);
        assert(b.contains(b[k]));
    }
}

/// Exchanges the values at `i` and `j`.
pub fn swap(arr: &mut [i32], i: usize, j: usize)
    requires
        i < old(arr)@.len(),
        j < old(arr)@.len(),
    ensures
        final(arr)@ == swapped(old(arr)@, i as int, j as int),
{
    let held = arr[i];
    arr[i] = arr[j];
    arr[j] = held;
}

} // verus!
