//! A binary heap in a vector: the children of the value at place `i` stand
//! at the places `2 * i + 1` and `2 * i + 2`.
use crate::sequences::{lemma_swapped_keeps_values, swapped};
use vstd::prelude::*;
use vstd::std_specs::cmp::{PartialOrdIs, PartialOrdSpec};

verus! {

/// A heap that gives back the least of its values first.
#[derive(Debug)]
pub struct MinHeap<T> {
    pub data: Vec<T>,
    pub length: usize,
}

/// The comparisons of `T` in compiled code are those that the contracts
/// speak of.
pub open spec fn comparable<T: PartialOrd>() -> bool {
    T::obeys_partial_cmp_spec()
}

/// `s` after the value at `idx` has risen: as long as its parent is greater,
/// the two are exchanged.
pub open spec fn sifted_up<T: PartialOrd>(s: Seq<T>, idx: int) -> Seq<T>
    decreases idx,
{
    if 0 < idx < s.len() {
        let parent = (idx - 1) / 2;
        if s[parent].is_gt(&s[idx]) {
            sifted_up(swapped(s, parent, idx), parent)
        } else {
            s
        }
    } else {
        s
    }
}

/// `s` after the value at `idx` has sunk. Where it has two children, it is
/// exchanged with the right one if that is less than the left one and less
/// than the value, and else with the left one if that is less than the
/// value. Where it has one child, it is exchanged with it if the child is
/// less.
pub open spec fn sifted_down<T: PartialOrd>(s: Seq<T>, idx: int) -> Seq<T>
    decreases (if idx < s.len() { s.len() - idx } else { 0 }),
{
    let left = 2 * idx + 1;
    let right = 2 * idx + 2;
    if 0 <= idx && left < s.len() {
        if right < s.len() {
            if s[left].is_gt(&s[right]) && s[idx].is_gt(&s[right]) {
                sifted_down(swapped(s, idx, right), right)
            } else if s[idx].is_gt(&s[left]) {
                sifted_down(swapped(s, idx, left), left)
            } else {
                s
            }
        } else if s[left].is_lt(&s[idx]) {
            sifted_down(swapped(s, idx, left), left)
        } else {
            s
        }
    } else {
        s
    }
}

/// A value that rises keeps the values of the heap, each as often as before.
pub proof fn lemma_sifted_up_keeps_values<T: PartialOrd>(s: Seq<T>, idx: int)
    ensures
        sifted_up(s, idx).len() == s.len(),
        sifted_up(s, idx).to_multiset() == s.to_multiset(),
    decreases idx,
{
    if 0 < idx < s.len() {
        let parent = (idx - 1) / 2;
        if s[parent].is_gt(&s[idx]) {
            lemma_swapped_keeps_values(s, parent, idx);
            lemma_sifted_up_keeps_values(swapped(s, parent, idx), parent);
        }
    }
}

/// A value that sinks keeps the values of the heap, each as often as before.
pub proof fn lemma_sifted_down_keeps_values<T: PartialOrd>(s: Seq<T>, idx: int)
    ensures
        sifted_down(s, idx).len() == s.len(),
        sifted_down(s, idx).to_multiset() == s.to_multiset(),
    decreases (if idx < s.len() { s.len() - idx } else { 0 }),
{
    let left = 2 * idx + 1;
    let right = 2 * idx + 2;
    if 0 <= idx && left < s.len() {
        if right < s.len() {
            if s[left].is_gt(&s[right]) && s[idx].is_gt(&s[right]) {
                lemma_swapped_keeps_values(s, idx, right);
                lemma_sifted_down_keeps_values(swapped(s, idx, right), right);
            } else if s[idx].is_gt(&s[left]) {
                lemma_swapped_keeps_values(s, idx, left);
                lemma_sifted_down_keeps_values(swapped(s, idx, left), left);
            }
        } else if s[left].is_lt(&s[idx]) {
            lemma_swapped_keeps_values(s, idx, left);
            lemma_sifted_down_keeps_values(swapped(s, idx, left), left);
        }
    }
}

/// `a` is less than `b`.
pub open spec fn less<T: PartialOrd>(a: T, b: T) -> bool {
    a.is_lt(&b)
}

/// The comparisons of `T` order its values in a row: of two values that
/// differ one is less than the other, never both; what is less than something
/// less is less; and one is greater than the other where the other is less.
pub open spec fn total_order<T: PartialOrd>() -> bool {
    &&& comparable::<T>()
    &&& forall|a: T, b: T| #[trigger] less(a, b) <==> b.is_gt(&a)
    &&& forall|a: T, b: T| a != b ==> #[trigger] less(a, b) || less(b, a)
    &&& forall|a: T, b: T| #[trigger] less(a, b) ==> !less(b, a)
    &&& forall|a: T, b: T, c: T| #[trigger] less(a, b) && #[trigger] less(b, c) ==> less(a, c)
}

/// No value is less than its parent.
pub open spec fn heap_ordered<T: PartialOrd>(s: Seq<T>) -> bool {
    forall|i: int| 0 < i < s.len() ==> !less(#[trigger] s[i], s[(i - 1) / 2])
}

/// The heap is in order but for the value at `idx`, which may be less than
/// its parent; its children are not less than its parent.
spec fn ordered_but_above<T: PartialOrd>(s: Seq<T>, idx: int) -> bool {
    &&& forall|i: int| 0 < i < s.len() && i != idx ==> !less(#[trigger] s[i], s[(i - 1) / 2])
    &&& forall|c: int|
        0 < idx && 0 < c < s.len() && (c - 1) / 2 == idx ==> !less(
            #[trigger] s[c],
            s[(idx - 1) / 2],
        )
}

/// The heap is in order but for the value at `idx`, which may be greater
/// than its children; its children are not less than its parent.
spec fn ordered_but_below<T: PartialOrd>(s: Seq<T>, idx: int) -> bool {
    &&& forall|i: int|
        0 < i < s.len() && (i - 1) / 2 != idx ==> !less(#[trigger] s[i], s[(i - 1) / 2])
    &&& forall|c: int|
        0 < idx && 0 < c < s.len() && (c - 1) / 2 == idx ==> !less(
            #[trigger] s[c],
            s[(idx - 1) / 2],
        )
}

/// What is not less than something that is not less than a third is not less
/// than the third.
proof fn lemma_not_less_chain<T: PartialOrd>(a: T, b: T, c: T)
    requires
        total_order::<T>(),
        !less(a, b),
        !less(b, c),
    ensures
        !less(a, c),
{
    if less(a, c) {
        if b == c {
        } else if less(c, b) {
            assert(less(a, b));
        } else {
            assert(less(b, c));
        }
    }
}

/// A heap that is in order but for a value that may be less than its parent
/// is in order once that value has risen.
proof fn lemma_sifted_up_in_order<T: PartialOrd>(s: Seq<T>, idx: int)
    requires
        total_order::<T>(),
        0 <= idx < s.len(),
        ordered_but_above(s, idx),
    ensures
        heap_ordered(sifted_up(s, idx)),
    decreases idx,
{
    if idx > 0 {
        let parent = (idx - 1) / 2;
        assert(less(s[idx], s[parent]) <==> s[parent].is_gt(&s[idx]));
        if s[parent].is_gt(&s[idx]) {
            let t = swapped(s, parent, idx);
            assert forall|i: int| 0 < i < t.len() && i != parent implies !less(
                #[trigger] t[i],
                t[(i - 1) / 2],
            ) by {
                let up = (i - 1) / 2;
                if i == idx {
                } else if up == parent {
                    assert(!less(s[i], s[parent]));
                    if less(s[i], s[idx]) {
                        assert(less(s[i], s[parent]));
                    }
                } else if up == idx {
                    assert(!less(s[i], s[(idx - 1) / 2]));
                } else {
                    assert(!less(s[i], s[up]));
                }
            }
            assert forall|c: int|
                0 < parent && 0 < c < t.len() && (c - 1) / 2 == parent implies !less(
                #[trigger] t[c],
                t[(parent - 1) / 2],
            ) by {
                let top = (parent - 1) / 2;
                assert(!less(s[parent], s[top]));
                if c != idx {
                    assert(!less(s[c], s[parent]));
                    lemma_not_less_chain(s[c], s[parent], s[top]);
                }
            }
            lemma_sifted_up_in_order(t, parent);
        } else {
            assert forall|i: int| 0 < i < s.len() implies !less(#[trigger] s[i], s[(i - 1) / 2]) by {
            }
        }
    }
}

/// A heap that is in order but for a value that may be greater than its
/// children is in order once that value has sunk.
proof fn lemma_sifted_down_in_order<T: PartialOrd>(s: Seq<T>, idx: int)
    requires
        total_order::<T>(),
        0 <= idx,
        ordered_but_below(s, idx),
    ensures
        heap_ordered(sifted_down(s, idx)),
    decreases (if idx < s.len() { s.len() - idx } else { 0 }),
{
    let left = 2 * idx + 1;
    let right = 2 * idx + 2;
    if left < s.len() {
        assert(less(s[left], s[idx]) <==> s[idx].is_gt(&s[left]));
        if right < s.len() {
            assert(less(s[right], s[idx]) <==> s[idx].is_gt(&s[right]));
            assert(less(s[right], s[left]) <==> s[left].is_gt(&s[right]));
            if s[left].is_gt(&s[right]) && s[idx].is_gt(&s[right]) {
                assert forall|c: int| 0 < c < s.len() && (c - 1) / 2 == idx implies !less(
                    #[trigger] s[c],
                    s[right],
                ) by {
                    assert(c == left || c == right);
                }
                lemma_sinks(s, idx, right);
                lemma_sifted_down_in_order(swapped(s, idx, right), right);
            } else if s[idx].is_gt(&s[left]) {
                assert forall|c: int| 0 < c < s.len() && (c - 1) / 2 == idx implies !less(
                    #[trigger] s[c],
                    s[left],
                ) by {
                    assert(c == left || c == right);
                    if less(s[right], s[left]) {
                        assert(less(s[right], s[idx]));
                    }
                }
                lemma_sinks(s, idx, left);
                lemma_sifted_down_in_order(swapped(s, idx, left), left);
            } else {
                assert forall|i: int| 0 < i < s.len() implies !less(
                    #[trigger] s[i],
                    s[(i - 1) / 2],
                ) by {
                    if (i - 1) / 2 == idx {
                        assert(i == left || i == right);
                        if !less(s[right], s[left]) {
                            lemma_not_less_chain(s[right], s[left], s[idx]);
                        }
                    }
                }
            }
        } else {
            if s[left].is_lt(&s[idx]) {
                assert forall|c: int| 0 < c < s.len() && (c - 1) / 2 == idx implies !less(
                    #[trigger] s[c],
                    s[left],
                ) by {
                    assert(c == left);
                }
                lemma_sinks(s, idx, left);
                lemma_sifted_down_in_order(swapped(s, idx, left), left);
            } else {
                assert forall|i: int| 0 < i < s.len() implies !less(
                    #[trigger] s[i],
                    s[(i - 1) / 2],
                ) by {
                    if (i - 1) / 2 == idx {
                        assert(i == left);
                    }
                }
            }
        }
    } else {
        assert forall|i: int| 0 < i < s.len() implies !less(#[trigger] s[i], s[(i - 1) / 2]) by {
            if (i - 1) / 2 == idx {
                assert(i >= left);
            }
        }
    }
}

/// Where the value at `idx` is exchanged with its child at `down`, which is
/// less than it and not greater than the other child, the heap is in order
/// but for the value at `down`.
proof fn lemma_sinks<T: PartialOrd>(s: Seq<T>, idx: int, down: int)
    requires
        total_order::<T>(),
        0 <= idx,
        0 < down < s.len(),
        (down - 1) / 2 == idx,
        ordered_but_below(s, idx),
        less(s[down], s[idx]),
        forall|c: int| 0 < c < s.len() && (c - 1) / 2 == idx ==> !less(#[trigger] s[c], s[down]),
    ensures
        ordered_but_below(swapped(s, idx, down), down),
{
    let t = swapped(s, idx, down);
    assert forall|i: int| 0 < i < t.len() && (i - 1) / 2 != down implies !less(
        #[trigger] t[i],
        t[(i - 1) / 2],
    ) by {
        let up = (i - 1) / 2;
        if i == down {
        } else if up == idx {
            assert(!less(s[i], s[down]));
        } else if i == idx {
            assert(!less(s[down], s[(idx - 1) / 2]));
        } else {
            assert(!less(s[i], s[up]));
        }
    }
    assert forall|c: int| 0 < c < t.len() && (c - 1) / 2 == down implies !less(
        #[trigger] t[c],
        t[(down - 1) / 2],
    ) by {
        assert(!less(s[c], s[down]));
    }
}

/// In a heap that is in order no value is less than the first.
pub proof fn law_first_is_least<T: PartialOrd>(s: Seq<T>, at: int)
    requires
        total_order::<T>(),
        heap_ordered(s),
        0 <= at < s.len(),
    ensures
        !less(s[at], s[0]),
    decreases at,
{
    if at > 0 {
        let parent = (at - 1) / 2;
        law_first_is_least(s, parent);
        lemma_not_less_chain(s[at], s[parent], s[0]);
    }
}

/// A heap that is in order is in order after a value was added and has
/// risen.
pub proof fn law_insert_keeps_order<T: PartialOrd>(s: Seq<T>, value: T)
    requires
        total_order::<T>(),
        heap_ordered(s),
    ensures
        heap_ordered(sifted_up(s.push(value), s.len() as int)),
{
    let grown = s.push(value);
    assert forall|i: int| 0 < i < grown.len() && i != s.len() implies !less(
        #[trigger] grown[i],
        grown[(i - 1) / 2],
    ) by {
        assert(!less(s[i], s[(i - 1) / 2]));
    }
    lemma_sifted_up_in_order(grown, s.len() as int);
}

/// A heap that is in order is in order after its first value was taken out
/// and the last one has sunk from its place.
pub proof fn law_delete_keeps_order<T: PartialOrd>(s: Seq<T>)
    requires
        total_order::<T>(),
        heap_ordered(s),
        s.len() > 1,
    ensures
        heap_ordered(sifted_down(s.drop_last().update(0, s.last()), 0)),
{
    let t = s.drop_last().update(0, s.last());
    assert forall|i: int| 0 < i < t.len() && (i - 1) / 2 != 0 implies !less(
        #[trigger] t[i],
        t[(i - 1) / 2],
    ) by {
        assert(!less(s[i], s[(i - 1) / 2]));
    }
    lemma_sifted_down_in_order(t, 0);
}

impl<T> View for MinHeap<T> {
    type V = Seq<T>;

    /// The values, in the order in which the vector holds them.
    open spec fn view(&self) -> Seq<T> {
        self.data@
    }
}

impl<T> Default for MinHeap<T> {
    /// An empty heap.
    fn default() -> (heap: Self)
        ensures
            heap@ == Seq::<T>::empty(),
            heap.length == 0,
    {
        Self { data: Vec::new(), length: 0 }
    }
}

impl<T> MinHeap<T> where T: Default + Copy + PartialOrd {
    /// The representation invariant: `length` is the number of values.
    pub open spec fn inv(&self) -> bool {
        self.length == self@.len()
    }

    /// An empty heap.
    pub fn new() -> (heap: Self)
        ensures
            heap.inv(),
            heap@ == Seq::<T>::empty(),
    {
        Self::default()
    }

    /// Adds `value` behind the last value and lets it rise.
    pub fn insert(&mut self, value: T)
        requires
            old(self).inv(),
            comparable::<T>(),
        ensures
            final(self).inv(),
            final(self)@ == sifted_up(old(self)@.push(value), old(self)@.len() as int),
            final(self)@.to_multiset() == old(self)@.to_multiset().insert(value),
            final(self).length == old(self).length + 1,
            total_order::<T>() && heap_ordered(old(self)@) ==> heap_ordered(final(self)@),
    {
        self.data.push(value);
        proof {
            lemma_sifted_up_keeps_values(self@, self.length as int);
            vstd::seq_lib::to_multiset_build(old(self)@, value);
            if total_order::<T>() && heap_ordered(old(self)@) {
                law_insert_keeps_order(old(self)@, value);
            }
        }
        self.heapify_up(self.length);
        assert(self.data@.len() == self.data.len());
        self.length += 1;
    }

    /// Takes the first value out and returns it; the last value takes its
    /// place and sinks. `None` where the heap is empty.
    pub fn delete(&mut self) -> (out: Option<T>)
        requires
            old(self).inv(),
            comparable::<T>(),
        ensures
            final(self).inv(),
            old(self)@.len() == 0 ==> out is None && final(self)@ == old(self)@,
            old(self)@.len() > 0 ==> out == Some(old(self)@[0]),
            old(self)@.len() == 1 ==> final(self)@ == Seq::<T>::empty(),
            old(self)@.len() > 1 ==> final(self)@ == sifted_down(
                old(self)@.drop_last().update(0, old(self)@.last()),
                0,
            ),
            old(self)@.len() > 0 ==> final(self)@.to_multiset().insert(old(self)@[0]) == old(self)@.to_multiset(),
            old(self)@.len() > 0 ==> final(self).length == old(self).length - 1,
            total_order::<T>() && heap_ordered(old(self)@) ==> heap_ordered(final(self)@),
            total_order::<T>() && heap_ordered(old(self)@) ==> forall|i: int|
                0 <= i < old(self)@.len() ==> !less(#[trigger] old(self)@[i], old(self)@[0]),
    {
        proof {
            if total_order::<T>() && heap_ordered(old(self)@) {
                assert forall|i: int| 0 <= i < old(self)@.len() implies !less(
                    #[trigger] old(self)@[i],
                    old(self)@[0],
                ) by {
                    law_first_is_least(old(self)@, i);
                }
                if old(self)@.len() > 1 {
                    law_delete_keeps_order(old(self)@);
                }
            }
        }
        if self.length == 0 {
            return None;
        }
        let out = self.data[0];
        self.length -= 1;

        if self.length == 0 {
            self.data = Vec::new();
            proof {
                assert(old(self)@ =~= Seq::<T>::empty().push(out));
                vstd::seq_lib::to_multiset_build(Seq::<T>::empty(), out);
            }
            return Some(out);
        }
        let last = self.data.pop().unwrap();
        self.data[0] = last;
        proof {
            let shorter = old(self)@.drop_last();
            assert(self@ == shorter.update(0, last));
            lemma_sifted_down_keeps_values(self@, 0);
            vstd::seq_lib::to_multiset_update(shorter, 0, last);
            assert(old(self)@ =~= shorter.push(last));
            vstd::seq_lib::to_multiset_build(shorter, last);
            vstd::seq_lib::to_multiset_contains(shorter, out);
            assert(shorter.contains(shorter[0]));
            assert(self@.to_multiset().insert(out) =~= old(self)@.to_multiset());
        }
        self.heapify_down(0);

        Some(out)
    }

    /// Lets the value at `idx` sink.
    fn heapify_down(&mut self, idx: usize)
        requires
            old(self).inv(),
            comparable::<T>(),
        ensures
            final(self).inv(),
            final(self)@ == sifted_down(old(self)@, idx as int),
        decreases (if idx < old(self)@.len() { old(self)@.len() - idx } else { 0 }),
    {
        if idx >= self.length || idx > (usize::MAX - 2) / 2 {
            return ;
        }
        let left_idx = Self::left(idx);
        let right_idx = Self::right(idx);
        if left_idx >= self.length {
            return ;
        }
        let left_value = self.data[left_idx];
        let value = self.data[idx];

        if right_idx < self.data.len() {
            let right_value = self.data[right_idx];
            if left_value > right_value && value > right_value {
                self.swap(idx, right_idx);
                self.heapify_down(right_idx);
            } else if value > left_value {
                self.swap(idx, left_idx);
                self.heapify_down(left_idx);
            }
        } else {
            if left_value < value {
                self.swap(idx, left_idx);
                self.heapify_down(left_idx);
            }
        }
    }

    /// Lets the value at `idx` rise.
    fn heapify_up(&mut self, idx: usize)
        requires
            old(self).length == old(self)@.len() || old(self).length + 1 == old(self)@.len(),
            comparable::<T>(),
        ensures
            final(self).length == old(self).length,
            final(self)@ == sifted_up(old(self)@, idx as int),
        decreases idx,
    {
        if idx == 0 || idx >= self.data.len() {
            return ;
        }
        let parent = Self::parent(idx);

        if self.data[parent] > self.data[idx] {
            self.swap(parent, idx);
            self.heapify_up(parent);
        }
    }

    /// Exchanges the values at `i` and `j`.
    fn swap(&mut self, i: usize, j: usize)
        requires
            i < old(self)@.len(),
            j < old(self)@.len(),
        ensures
            final(self).length == old(self).length,
            final(self)@ == swapped(old(self)@, i as int, j as int),
    {
        let held = self.data[i];
        self.data[i] = self.data[j];
        self.data[j] = held;
    }

    /// The place of the parent of the value at `idx`.
    fn parent(idx: usize) -> (at: usize)
        requires
            idx > 0,
        ensures
            at == (idx - 1) / 2,
    {
        (idx - 1) / 2
    }

    /// The place of the left child of the value at `idx`.
    fn left(idx: usize) -> (at: usize)
        requires
            idx <= (usize::MAX - 2) / 2,
        ensures
            at == 2 * idx + 1,
    {
        2 * idx + 1
    }

    /// The place of the right child of the value at `idx`.
    fn right(idx: usize) -> (at: usize)
        requires
            idx <= (usize::MAX - 2) / 2,
        ensures
            at == 2 * idx + 2,
    {
        2 * idx + 2
    }
}

} // verus!
