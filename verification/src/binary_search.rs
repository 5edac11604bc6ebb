use crate::sequences::sorted;
use vstd::prelude::*;

verus! {

/// The place that a search by halves between `lo` and `hi`, without it,
/// comes to: it looks at the middle, stops there where it finds `needle`,
/// and goes on below the middle where the value there is greater, above it
/// where it is less.
pub open spec fn halving_search(haystack: Seq<i32>, needle: i32, lo: int, hi: int) -> Option<
    int,
>
    decreases hi - lo,
{
    if lo >= hi {
        None
    } else {
        let m = lo + (hi - lo) / 2;
        if haystack[m] == needle {
            Some(m)
        } else if haystack[m] > needle {
            halving_search(haystack, needle, lo, m)
        } else {
            halving_search(haystack, needle, m + 1, hi)
        }
    }
}

/// A search by halves stops only at a place that holds `needle`, and in a
/// sorted sequence it finds `needle` wherever it stands between `lo` and `hi`.
pub proof fn lemma_halving_search(haystack: Seq<i32>, needle: i32, lo: int, hi: int)
    requires
        0 <= lo <= hi <= haystack.len(),
    ensures
        halving_search(haystack, needle, lo, hi) matches Some(at) ==> lo <= at < hi
            && haystack[at] == needle,
        sorted(haystack) && halving_search(haystack, needle, lo, hi) is None ==> forall|k: int|
            lo <= k < hi ==> haystack[k] != needle,
    decreases hi - lo,
{
    if lo < hi {
        let m = lo + (hi - lo) / 2;
        if haystack[m] == needle {
        } else if haystack[m] > needle {
            lemma_halving_search(haystack, needle, lo, m);
        } else {
            lemma_halving_search(haystack, needle, m + 1, hi);
        }
    }
}

/// Looks for `needle` in `haystack` by halving. What comes back is a place
/// that holds `needle`; in a sorted `haystack`, `None` comes back only where
/// no place holds it.
pub fn binary_search(haystack: &[i32], needle: i32) -> (found: Option<usize>)
    ensures
        found matches Some(at) ==> at < haystack@.len() && haystack@[at as int] == needle,
        sorted(haystack@) && found is None ==> !haystack@.contains(needle),
        found matches Some(at) ==> halving_search(haystack@, needle, 0, haystack@.len() as int)
            == Some(at as int),
        found is None ==> halving_search(haystack@, needle, 0, haystack@.len() as int) is None,
{
    let mut lo: usize = 0;
    let mut hi: usize = haystack.len();
    proof {
        lemma_halving_search(haystack@, needle, 0, haystack@.len() as int);
    }
    while lo < hi
        invariant
            lo <= hi <= haystack@.len(),
            halving_search(haystack@, needle, lo as int, hi as int) == halving_search(
                haystack@,
                needle,
                0,
                haystack@.len() as int,
            ),
        decreases hi - lo,
    {
        let m = lo + (hi - lo) / 2;
        let value = haystack[m];
        if value == needle {
            return Some(m);
        } else if value > needle {
            hi = m;
        } else {
            lo = m + 1;
        }
    }
    None
}

} // verus!
