//! A cache of bounded size that evicts the least recently used entry.
//!
//! The entries live in a backing vector and are linked, by index, into a
//! doubly-linked list in the order of their last use: `head` names the entry
//! used last, `tail` the one that is evicted next. `lookup` finds the slot of a
//! key, `reverse_lookup` the key of a slot.
use std::collections::HashMap;
use std::hash::Hash;
use vstd::prelude::*;
use vstd::std_specs::hash::obeys_key_model;

verus! {

/// An entry of the cache: its value, and its neighbours in the order of
/// last use.
struct Node<V> {
    value: V,
    next: Option<usize>,
    prev: Option<usize>,
}

/// A cache that holds at most `capacity` entries and evicts, where it is
/// full, the entry that was read or stored least recently.
pub struct LRUCache<K, V> where K: Hash + Eq + Clone, V: Clone {
    length: usize,
    head: Option<usize>,
    tail: Option<usize>,
    lookup: HashMap<K, usize>,
    reverse_lookup: HashMap<usize, K>,
    capacity: usize,
    nodes: Vec<Node<V>>,
    free: Vec<usize>,
    order: Ghost<Seq<usize>>,
}

/// What a type must grant to serve as the key of a cache: its hash and its
/// `==` are those of a hash-table key, and a clone of a key is that key.
pub open spec fn obeys_cache_key_model<K: Clone>() -> bool {
    &&& obeys_key_model::<K>()
    &&& forall|key: K, copy: K| #[trigger] cloned(key, copy) ==> key == copy
}

/// The keys of the entries, in the order of the entries.
pub open spec fn keys<K, V>(entries: Seq<(K, V)>) -> Seq<K> {
    entries.map_values(|entry: (K, V)| entry.0)
}

/// The value that `entries` holds for `key`, if it holds one.
pub open spec fn value_of<K, V>(entries: Seq<(K, V)>, key: K) -> Option<V> {
    if keys(entries).contains(key) {
        Some(entries[keys(entries).index_of(key)].1)
    } else {
        None
    }
}

/// The entries after a use of `key`: its entry has moved to the front, the
/// others keep their order. Without an entry for `key` nothing changes.
pub open spec fn touched<K, V>(entries: Seq<(K, V)>, key: K) -> Seq<(K, V)> {
    if keys(entries).contains(key) {
        let at = keys(entries).index_of(key);
        seq![entries[at]] + entries.remove(at)
    } else {
        entries
    }
}

/// The entries after `value` was stored for `key` in a cache that holds at
/// most `capacity` entries. The entry for `key` stands at the front. A key
/// that was there before keeps its place in the count; a new key adds an
/// entry, and where the cache was full the last entry has left.
pub open spec fn stored<K, V>(entries: Seq<(K, V)>, capacity: nat, key: K, value: V) -> Seq<
    (K, V),
> {
    if keys(entries).contains(key) {
        seq![(key, value)] + entries.remove(keys(entries).index_of(key))
    } else if entries.len() < capacity {
        seq![(key, value)] + entries
    } else {
        seq![(key, value)] + entries.drop_last()
    }
}

/// The node at place `i` of the order lies in `nodes` and names its two
/// neighbours in the order, or nothing where it has none.
spec fn linked_at<V>(nodes: Seq<Node<V>>, order: Seq<usize>, i: int) -> bool {
    &&& order[i] < nodes.len()
    &&& nodes[order[i] as int].prev == (if i > 0 {
        Some(order[i - 1])
    } else {
        None
    })
    &&& nodes[order[i] as int].next == (if i + 1 < order.len() {
        Some(order[i + 1])
    } else {
        None
    })
}

/// Every node of the order names its neighbours.
spec fn linked<V>(nodes: Seq<Node<V>>, order: Seq<usize>) -> bool {
    forall|i: int| 0 <= i < order.len() ==> #[trigger] linked_at(nodes, order, i)
}

/// The two indices agree with each other, and the slots that have a key are
/// those of the order.
spec fn indexed<K>(lookup: Map<K, usize>, reverse: Map<usize, K>, order: Seq<usize>) -> bool {
    &&& forall|i: int| 0 <= i < order.len() ==> reverse.contains_key(#[trigger] order[i])
    &&& forall|slot: usize| #[trigger]
        reverse.contains_key(slot) ==> order.contains(slot) && lookup.contains_key(reverse[slot])
            && lookup[reverse[slot]] == slot
    &&& forall|key: K| #[trigger]
        lookup.contains_key(key) ==> reverse.contains_key(lookup[key]) && reverse[lookup[key]]
            == key
}

/// The entries that the nodes of `order` stand for.
spec fn entries_of<K, V>(nodes: Seq<Node<V>>, order: Seq<usize>, reverse: Map<usize, K>) -> Seq<
    (K, V),
> {
    Seq::new(order.len(), |i: int| (reverse[order[i]], nodes[order[i] as int].value))
}

/// `after` holds the values of `before`, slot by slot.
spec fn same_values<V>(before: Seq<Node<V>>, after: Seq<Node<V>>) -> bool {
    &&& after.len() == before.len()
    &&& forall|j: int| 0 <= j < before.len() ==> (#[trigger] after[j]).value == before[j].value
}

/// The keys of the entries are the keys of the forward index, each once, and
/// the index leads from a key to the place of its entry.
proof fn lemma_indexed_keys<K, V>(
    nodes: Seq<Node<V>>,
    order: Seq<usize>,
    lookup: Map<K, usize>,
    reverse: Map<usize, K>,
)
    requires
        order.no_duplicates(),
        indexed(lookup, reverse, order),
    ensures
        keys(entries_of(nodes, order, reverse)).no_duplicates(),
        forall|key: K|
            lookup.contains_key(key) <==> #[trigger] keys(
                entries_of(nodes, order, reverse),
            ).contains(key),
        forall|key: K| #[trigger]
            lookup.contains_key(key) ==> {
                let at = keys(entries_of(nodes, order, reverse)).index_of(key);
                0 <= at < order.len() && order[at] == lookup[key]
            },
{
    let entries = entries_of(nodes, order, reverse);
    let ks = keys(entries);
    assert forall|i: int, j: int| 0 <= i < ks.len() && 0 <= j < ks.len() && i != j implies ks[i]
        != ks[j] by {
        assert(reverse.contains_key(order[i]));
        assert(reverse.contains_key(order[j]));
    }
    assert forall|key: K| #[trigger] lookup.contains_key(key) implies ks.contains(key) && ({
        let at = ks.index_of(key);
        0 <= at < order.len() && order[at] == lookup[key]
    }) by {
        let slot = lookup[key];
        assert(reverse.contains_key(slot));
        let i = order.index_of(slot);
        assert(ks[i] == key);
        let at = ks.index_of(key);
        assert(ks[at] == key);
        assert(reverse.contains_key(order[at]));
    }
    assert forall|key: K| #[trigger] ks.contains(key) implies lookup.contains_key(key) by {
        let i = ks.index_of(key);
        assert(reverse.contains_key(order[i]));
    }
}


/// Moving the node at place `at` to the front moves its entry to the front.
proof fn lemma_promoted<K, V>(
    before: Seq<Node<V>>,
    after: Seq<Node<V>>,
    order: Seq<usize>,
    at: int,
    reverse: Map<usize, K>,
)
    requires
        0 <= at < order.len(),
        linked(before, order),
        same_values(before, after),
    ensures
        entries_of(after, seq![order[at]] + order.remove(at), reverse) == seq![
            entries_of(before, order, reverse)[at],
        ] + entries_of(before, order, reverse).remove(at),
{
    let moved = seq![order[at]] + order.remove(at);
    let entries = entries_of(before, order, reverse);
    let expected = seq![entries[at]] + entries.remove(at);
    assert forall|i: int| 0 <= i < moved.len() implies entries_of(after, moved, reverse)[i]
        == expected[i] by {
        let from = if i == 0 {
            at
        } else if i - 1 < at {
            i - 1
        } else {
            i
        };
        assert(moved[i] == order[from]);
        assert(linked_at(before, order, from));
        assert(expected[i] == entries[from]);
    }
    assert(entries_of(after, moved, reverse) =~= expected);
}

/// The slots of an order stay the same when one of them moves to the front.
proof fn lemma_promoted_indexed<K>(
    lookup: Map<K, usize>,
    reverse: Map<usize, K>,
    order: Seq<usize>,
    at: int,
)
    requires
        0 <= at < order.len(),
        indexed(lookup, reverse, order),
    ensures
        indexed(lookup, reverse, seq![order[at]] + order.remove(at)),
{
    let moved = seq![order[at]] + order.remove(at);
    assert forall|i: int| 0 <= i < moved.len() implies reverse.contains_key(
        #[trigger] moved[i],
    ) by {
        let from = if i == 0 {
            at
        } else if i - 1 < at {
            i - 1
        } else {
            i
        };
        assert(moved[i] == order[from]);
    }
    assert forall|slot: usize| #[trigger] reverse.contains_key(slot) implies moved.contains(
        slot,
    ) by {
        let from = order.index_of(slot);
        let to = if from == at {
            0
        } else if from < at {
            from + 1
        } else {
            from
        };
        assert(moved[to] == slot);
    }
}

/// Storing a new value in the node at place `at` and moving it to the front
/// puts the key of that node with the new value at the front.
proof fn lemma_refreshed<K, V>(
    before: Seq<Node<V>>,
    after: Seq<Node<V>>,
    order: Seq<usize>,
    at: int,
    reverse: Map<usize, K>,
    value: V,
)
    requires
        0 <= at < order.len(),
        order.no_duplicates(),
        linked(before, order),
        after.len() == before.len(),
        after[order[at] as int].value == value,
        forall|j: int|
            0 <= j < before.len() && j != order[at] ==> (#[trigger] after[j]).value
                == before[j].value,
    ensures
        entries_of(after, seq![order[at]] + order.remove(at), reverse) == seq![
            (reverse[order[at]], value),
        ] + entries_of(before, order, reverse).remove(at),
{
    let moved = seq![order[at]] + order.remove(at);
    let entries = entries_of(before, order, reverse);
    let expected = seq![(reverse[order[at]], value)] + entries.remove(at);
    assert forall|i: int| 0 <= i < moved.len() implies entries_of(after, moved, reverse)[i]
        == expected[i] by {
        let from = if i == 0 {
            at
        } else if i - 1 < at {
            i - 1
        } else {
            i
        };
        assert(moved[i] == order[from]);
        assert(linked_at(before, order, from));
        if i > 0 {
            assert(order[from] != order[at]);
            assert(expected[i] == entries[from]);
        }
    }
    assert(entries_of(after, moved, reverse) =~= expected);
}

/// Linking a new node for a new key in front of the order puts the new entry
/// in front of the entries, and the indices that hold the new key agree.
proof fn lemma_inserted<K, V>(
    before: Seq<Node<V>>,
    after: Seq<Node<V>>,
    order: Seq<usize>,
    node: usize,
    lookup: Map<K, usize>,
    reverse: Map<usize, K>,
    key: K,
    value: V,
)
    requires
        indexed(lookup, reverse, order),
        !lookup.contains_key(key),
        forall|i: int| 0 <= i < order.len() ==> (#[trigger] order[i]) != node,
        after[node as int].value == value,
        forall|i: int|
            0 <= i < order.len() ==> after[(#[trigger] order[i]) as int].value
                == before[order[i] as int].value,
    ensures
        indexed(lookup.insert(key, node), reverse.insert(node, key), seq![node] + order),
        entries_of(after, seq![node] + order, reverse.insert(node, key)) == seq![(key, value)]
            + entries_of(before, order, reverse),
{
    let grown = seq![node] + order;
    let lookup2 = lookup.insert(key, node);
    let reverse2 = reverse.insert(node, key);
    assert(!reverse.contains_key(node)) by {
        if reverse.contains_key(node) {
            assert(order[order.index_of(node)] == node);
        }
    }
    assert forall|i: int| 0 <= i < grown.len() implies reverse2.contains_key(
        #[trigger] grown[i],
    ) by {
        if i > 0 {
            assert(grown[i] == order[i - 1]);
            assert(reverse.contains_key(order[i - 1]));
        }
    }
    assert forall|slot: usize| #[trigger] reverse2.contains_key(slot) implies grown.contains(slot)
        && lookup2.contains_key(reverse2[slot]) && lookup2[reverse2[slot]] == slot by {
        if slot == node {
            assert(grown[0] == node);
        } else {
            assert(reverse.contains_key(slot));
            let from = order.index_of(slot);
            assert(grown[from + 1] == slot);
        }
    }
    assert forall|k: K| #[trigger] lookup2.contains_key(k) implies reverse2.contains_key(
        lookup2[k],
    ) && reverse2[lookup2[k]] == k by {
        if k != key {
            assert(lookup.contains_key(k));
        }
    }
    let expected = seq![(key, value)] + entries_of(before, order, reverse);
    assert forall|i: int| 0 <= i < grown.len() implies entries_of(after, grown, reverse2)[i]
        == expected[i] by {
        if i > 0 {
            assert(grown[i] == order[i - 1]);
            assert(order[i - 1] != node);
        }
    }
    assert(entries_of(after, grown, reverse2) =~= expected);
}

/// A cache within its capacity stays within it, whatever is stored or read.
pub proof fn law_never_over_capacity<K, V>(entries: Seq<(K, V)>, capacity: nat, key: K, value: V)
    requires
        capacity > 0,
        entries.len() <= capacity,
    ensures
        stored(entries, capacity, key, value).len() <= capacity,
        touched(entries, key).len() <= capacity,
{
    if keys(entries).contains(key) {
        let at = keys(entries).index_of(key);
        assert(0 <= at < entries.len());
    }
}

/// Storing a value keeps the keys distinct, and so does reading one.
pub proof fn law_keys_stay_distinct<K, V>(entries: Seq<(K, V)>, capacity: nat, key: K, value: V)
    requires
        capacity > 0,
        keys(entries).no_duplicates(),
    ensures
        keys(stored(entries, capacity, key, value)).no_duplicates(),
        keys(touched(entries, key)).no_duplicates(),
{
    let ks = keys(entries);
    let after = stored(entries, capacity, key, value);
    let read = touched(entries, key);
    if ks.contains(key) {
        let at = ks.index_of(key);
        assert forall|i: int, j: int|
            0 <= i < after.len() && 0 <= j < after.len() && i != j implies keys(after)[i] != keys(after)[j] by {
            let a = if i == 0 { at } else if i - 1 < at { i - 1 } else { i };
            let b = if j == 0 { at } else if j - 1 < at { j - 1 } else { j };
            assert(keys(after)[i] == ks[a]);
            assert(keys(after)[j] == ks[b]);
        }
        assert forall|i: int, j: int|
            0 <= i < read.len() && 0 <= j < read.len() && i != j implies keys(read)[i] != keys(read)[j] by {
            let a = if i == 0 { at } else if i - 1 < at { i - 1 } else { i };
            let b = if j == 0 { at } else if j - 1 < at { j - 1 } else { j };
            assert(keys(read)[i] == ks[a]);
            assert(keys(read)[j] == ks[b]);
        }
    } else {
        assert forall|i: int, j: int|
            0 <= i < after.len() && 0 <= j < after.len() && i != j implies keys(after)[i] != keys(after)[j] by {
            if i > 0 {
                assert(keys(after)[i] == ks[i - 1]);
            }
            if j > 0 {
                assert(keys(after)[j] == ks[j - 1]);
            }
        }
    }
}

/// A value that was stored for a key is the value that the cache holds for
/// that key right after.
pub proof fn law_stored_value_is_read<K, V>(
    entries: Seq<(K, V)>,
    capacity: nat,
    key: K,
    value: V,
)
    requires
        capacity > 0,
        keys(entries).no_duplicates(),
    ensures
        value_of(stored(entries, capacity, key, value), key) == Some(value),
{
    let after = stored(entries, capacity, key, value);
    law_keys_stay_distinct(entries, capacity, key, value);
    assert(keys(after)[0] == key);
    assert(keys(after).index_of(key) == 0);
}

/// Reading a key that the cache holds keeps the number of entries, moves the
/// entry of that key to the front, and keeps the order of the others.
pub proof fn law_read_promotes<K, V>(entries: Seq<(K, V)>, key: K)
    requires
        keys(entries).contains(key),
    ensures
        touched(entries, key).len() == entries.len(),
        touched(entries, key)[0].0 == key,
        value_of(entries, key) == Some(touched(entries, key)[0].1),
        touched(entries, key).skip(1) == entries.remove(keys(entries).index_of(key)),
{
    let at = keys(entries).index_of(key);
    assert(keys(entries)[at] == key);
    assert(touched(entries, key).skip(1) =~= entries.remove(at));
}

/// Storing a new key in a full cache evicts one entry, the last one, which is
/// the one used least recently: the number of entries stays, every other
/// entry stays in its order behind the new one, and the key of the last one
/// is gone.
pub proof fn law_full_cache_evicts_last<K, V>(
    entries: Seq<(K, V)>,
    capacity: nat,
    key: K,
    value: V,
)
    requires
        capacity > 0,
        entries.len() == capacity,
        keys(entries).no_duplicates(),
        !keys(entries).contains(key),
    ensures
        stored(entries, capacity, key, value).len() == entries.len(),
        stored(entries, capacity, key, value) == seq![(key, value)] + entries.drop_last(),
        !keys(stored(entries, capacity, key, value)).contains(entries.last().0),
        forall|i: int|
            0 <= i < entries.len() - 1 ==> stored(entries, capacity, key, value)[i + 1]
                == #[trigger] entries[i],
{
    let after = stored(entries, capacity, key, value);
    let ks = keys(entries);
    let last = entries.len() - 1;
    assert(ks[last] == entries.last().0);
    assert(ks.contains(entries.last().0));
    assert forall|i: int| 0 <= i < after.len() implies keys(after)[i] != entries.last().0 by {
        if i > 0 {
            assert(keys(after)[i] == ks[i - 1]);
        }
    }
}

/// An empty cache holds no value, whatever the key.
pub proof fn law_empty_holds_nothing<K, V>(key: K)
    ensures
        value_of(Seq::<(K, V)>::empty(), key) is None,
        touched(Seq::<(K, V)>::empty(), key) == Seq::<(K, V)>::empty(),
{
    assert(!keys(Seq::<(K, V)>::empty()).contains(key));
}

impl<K, V> View for LRUCache<K, V> where K: Hash + Eq + Clone, V: Clone {
    type V = Seq<(K, V)>;

    /// The entries, the one used last first.
    closed spec fn view(&self) -> Seq<(K, V)> {
        entries_of(self.nodes@, self.order@, self.reverse_lookup@)
    }
}

impl<K, V> LRUCache<K, V> where K: Hash + Eq + Clone, V: Clone {
    /// The list is consistent. `loose` names a slot that is allocated but
    /// neither linked into the order nor on the free list.
    spec fn list_wf(&self, loose: Option<usize>) -> bool {
        let order = self.order@;
        let free = self.free@;
        let n = order.len();
        &&& order.no_duplicates()
        &&& free.no_duplicates()
        &&& self.length == n
        &&& n + free.len() + (if loose is Some { 1int } else { 0int }) == self.nodes@.len()
        &&& self.head == (if n == 0 { None } else { Some(order[0]) })
        &&& self.tail == (if n == 0 { None } else { Some(order[n - 1]) })
        &&& linked(self.nodes@, order)
        &&& forall|j: int| 0 <= j < free.len() ==> (#[trigger] free[j]) < self.nodes@.len()
        &&& forall|i: int, j: int|
            0 <= i < n && 0 <= j < free.len() ==> (#[trigger] order[i]) != (#[trigger] free[j])
        &&& loose matches Some(slot) ==> {
            &&& slot < self.nodes@.len()
            &&& self.nodes@[slot as int].prev is None
            &&& self.nodes@[slot as int].next is None
            &&& forall|i: int| 0 <= i < n ==> (#[trigger] order[i]) != slot
            &&& forall|j: int| 0 <= j < free.len() ==> (#[trigger] free[j]) != slot
        }
    }

    /// Everything but the list is as it was.
    spec fn same_indices(&self, before: &Self) -> bool {
        &&& self.lookup == before.lookup
        &&& self.reverse_lookup == before.reverse_lookup
        &&& self.capacity == before.capacity
    }

    /// The representation invariant, but for the bound on the length.
    spec fn consistent(&self) -> bool {
        &&& self.list_wf(None)
        &&& indexed(self.lookup@, self.reverse_lookup@, self.order@)
        &&& obeys_cache_key_model::<K>()
        &&& self.capacity > 0
    }

    /// The representation invariant: every public operation keeps it.
    pub closed spec fn inv(&self) -> bool {
        &&& self.consistent()
        &&& self.length <= self.capacity
    }

    /// The number of entries that the cache holds at most.
    pub closed spec fn capacity(&self) -> nat {
        self.capacity as nat
    }

    /// A cache never holds two entries for one key, nor more entries than its
    /// capacity, which is positive.
    pub proof fn lemma_inv(&self)
        requires
            self.inv(),
        ensures
            keys(self@).no_duplicates(),
            self@.len() <= self.capacity(),
            self.capacity() > 0,
            obeys_cache_key_model::<K>(),
    {
        lemma_indexed_keys(self.nodes@, self.order@, self.lookup@, self.reverse_lookup@);
    }

    /// An empty cache for `capacity` entries, or for 10 where none is given.
    pub fn new(capacity: Option<usize>) -> (cache: Self)
        requires
            obeys_cache_key_model::<K>(),
            capacity matches Some(limit) ==> limit > 0,
        ensures
            cache.inv(),
            cache@ == Seq::<(K, V)>::empty(),
            cache.capacity() == (match capacity {
                Some(limit) => limit as nat,
                None => 10,
            }),
    {
        let cache = Self {
            length: 0,
            head: None,
            tail: None,
            lookup: HashMap::new(),
            reverse_lookup: HashMap::new(),
            capacity: match capacity {
                Some(limit) => limit,
                None => 10,
            },
            nodes: Vec::new(),
            free: Vec::new(),
            order: Ghost(Seq::empty()),
        };
        assert(cache@ =~= Seq::<(K, V)>::empty());
        cache
    }

    /// Takes a slot for `value`, reusing a free one where there is one. The
    /// slot is not linked yet.
    fn create_node(&mut self, value: V) -> (node: usize)
        requires
            old(self).list_wf(None),
        ensures
            final(self).list_wf(Some(node)),
            final(self).same_indices(old(self)),
            final(self).order@ == old(self).order@,
            final(self).nodes@[node as int].value == value,
            forall|i: int|
                0 <= i < old(self).order@.len() ==> final(self).nodes@[(#[trigger] old(self).order@[i]) as int].value == old(self).nodes@[old(self).order@[i] as int].value,
    {
        let ghost order = self.order@;
        let fresh = Node { value, next: None, prev: None };
        let node = match self.free.pop() {
            Some(slot) => {
                assert(slot == old(self).free@[old(self).free@.len() - 1]);
                self.nodes[slot] = fresh;
                slot
            },
            None => {
                self.nodes.push(fresh);
                self.nodes.len() - 1
            },
        };
        proof {
            let spare = old(self).free@;
            assert forall|i: int| 0 <= i < order.len() implies order[i] != node by {
                assert(linked_at(old(self).nodes@, order, i));
                if spare.len() > 0 {
                    assert(order[i] != spare[spare.len() - 1]);
                }
            }
            assert forall|j: int| 0 <= j < self.free@.len() implies self.free@[j] != node
                && self.free@[j] < self.nodes@.len() by {
                assert(self.free@[j] == spare[j]);
            }
            assert forall|i: int, j: int|
                0 <= i < order.len() && 0 <= j < self.free@.len() implies (#[trigger] order[i])
                != (#[trigger] self.free@[j]) by {
                assert(self.free@[j] == spare[j]);
            }
            assert(self.free@.no_duplicates()) by {
                assert forall|j: int, k: int|
                    0 <= j < self.free@.len() && 0 <= k < self.free@.len() && j != k implies
                    self.free@[j] != self.free@[k] by {
                    assert(self.free@[j] == spare[j]);
                    assert(self.free@[k] == spare[k]);
                }
            }
            assert forall|i: int| 0 <= i < order.len() implies #[trigger] linked_at(
                self.nodes@,
                order,
                i,
            ) by {
                assert(linked_at(old(self).nodes@, order, i));
            }
            assert forall|i: int| 0 <= i < order.len() implies self.nodes@[(
            #[trigger] order[i]) as int].value == old(self).nodes@[order[i] as int].value by {
                assert(linked_at(old(self).nodes@, order, i));
            }
        }
        node
    }

    /// Puts a slot that is not linked on the free list.
    fn release(&mut self, node: usize)
        requires
            old(self).list_wf(Some(node)),
        ensures
            final(self).list_wf(None),
            final(self).same_indices(old(self)),
            final(self).order@ == old(self).order@,
            final(self).nodes@ == old(self).nodes@,
    {
        self.free.push(node);
        proof {
            let spare = old(self).free@;
            assert forall|i: int, j: int|
                0 <= i < self.order@.len() && 0 <= j < self.free@.len() implies (
            #[trigger] self.order@[i]) != (#[trigger] self.free@[j]) by {
                if j < spare.len() {
                    assert(self.free@[j] == spare[j]);
                }
            }
            assert forall|j: int| 0 <= j < self.free@.len() implies (#[trigger] self.free@[j])
                < self.nodes@.len() by {
                if j < spare.len() {
                    assert(self.free@[j] == spare[j]);
                }
            }
        }
    }

    /// Unlinks `node` from its neighbours in the order.
    fn detach(&mut self, node: usize)
        requires
            old(self).list_wf(None),
            old(self).order@.contains(node),
        ensures
            final(self).list_wf(Some(node)),
            final(self).same_indices(old(self)),
            final(self).order@ == old(self).order@.remove(old(self).order@.index_of(node)),
            same_values(old(self).nodes@, final(self).nodes@),
    {
        let ghost before = self.order@;
        let ghost at = before.index_of(node);
        let ghost start = self.nodes@;
        assert(linked_at(start, before, at));
        let prev = self.nodes[node].prev;
        let next = self.nodes[node].next;
        match prev {
            Some(prev) => {
                assert(linked_at(start, before, at - 1));
                self.nodes[prev].next = next;
            },
            None => {
                self.head = next;
            },
        }
        match next {
            Some(next) => {
                assert(linked_at(start, before, at + 1));
                self.nodes[next].prev = prev;
            },
            None => {
                self.tail = prev;
            },
        }
        self.length -= 1;
        self.nodes[node].prev = None;
        self.nodes[node].next = None;
        proof {
            let after = before.remove(at);
            self.order@ = after;
            assert forall|i: int| 0 <= i < after.len() implies after[i] == before[if i < at {
                i
            } else {
                i + 1
            }] by {}
            assert(after.no_duplicates()) by {
                assert forall|i: int, j: int|
                    0 <= i < after.len() && 0 <= j < after.len() && i != j implies after[i]
                    != after[j] by {
                    let a = if i < at { i } else { i + 1 };
                    let b = if j < at { j } else { j + 1 };
                    assert(before[a] != before[b]);
                }
            }
            assert forall|i: int| 0 <= i < after.len() implies #[trigger] linked_at(
                self.nodes@,
                after,
                i,
            ) by {
                let a = if i < at { i } else { i + 1 };
                assert(linked_at(start, before, a));
                assert(before[a] != node);
                if a > 0 {
                    assert(linked_at(start, before, a - 1));
                    assert(before[a - 1] != before[a]);
                }
                if a + 1 < before.len() {
                    assert(linked_at(start, before, a + 1));
                    assert(before[a + 1] != before[a]);
                }
                if at > 0 {
                    assert(before[at - 1] != before[at]);
                    if at + 1 < before.len() {
                        assert(before[at - 1] != before[at + 1]);
                    }
                }
                if at + 1 < before.len() {
                    assert(before[at + 1] != before[at]);
                }
            }
            assert forall|i: int| 0 <= i < after.len() implies (#[trigger] after[i]) != node by {
                let a = if i < at { i } else { i + 1 };
                assert(before[a] != before[at]);
            }
            assert forall|i: int, j: int|
                0 <= i < after.len() && 0 <= j < self.free@.len() implies (#[trigger] after[i])
                != (#[trigger] self.free@[j]) by {
                let a = if i < at { i } else { i + 1 };
                assert(before[a] != self.free@[j]);
            }
            assert forall|j: int| 0 <= j < self.free@.len() implies (#[trigger] self.free@[j])
                != node by {
                assert(before[at] != self.free@[j]);
            }
        }
    }

    /// Links `node`, which is not linked, in front of the order.
    fn prepend(&mut self, node: usize)
        requires
            old(self).list_wf(Some(node)),
        ensures
            final(self).list_wf(None),
            final(self).same_indices(old(self)),
            final(self).order@ == seq![node] + old(self).order@,
            same_values(old(self).nodes@, final(self).nodes@),
    {
        let ghost before = self.order@;
        let ghost start = self.nodes@;
        match self.head {
            None => {
                self.head = Some(node);
                self.tail = Some(node);
            },
            Some(head) => {
                assert(linked_at(start, before, 0));
                self.nodes[head].prev = Some(node);
                self.nodes[node].next = Some(head);
                self.head = Some(node);
            },
        }
        assert(self.nodes@.len() == self.nodes.len());
        self.length += 1;
        proof {
            let after = seq![node] + before;
            self.order@ = after;
            assert forall|i: int| 0 < i < after.len() implies after[i] == before[i - 1] by {}
            assert(after.no_duplicates()) by {
                assert forall|i: int, j: int|
                    0 <= i < after.len() && 0 <= j < after.len() && i != j implies after[i]
                    != after[j] by {
                    if i > 0 {
                        assert(after[i] == before[i - 1]);
                    }
                    if j > 0 {
                        assert(after[j] == before[j - 1]);
                    }
                }
            }
            assert forall|i: int| 0 <= i < after.len() implies #[trigger] linked_at(
                self.nodes@,
                after,
                i,
            ) by {
                if i > 0 {
                    assert(linked_at(start, before, i - 1));
                    assert(before[i - 1] != node);
                    if i > 1 {
                        assert(before[i - 1] != before[0]);
                    }
                }
            }
            assert forall|i: int, j: int|
                0 <= i < after.len() && 0 <= j < self.free@.len() implies (#[trigger] after[i])
                != (#[trigger] self.free@[j]) by {
                if i > 0 {
                    assert(before[i - 1] != self.free@[j]);
                }
            }
        }
    }

    /// Stores `value` in a slot that is not linked.
    fn put_value(&mut self, node: usize, value: V)
        requires
            old(self).list_wf(Some(node)),
        ensures
            final(self).list_wf(Some(node)),
            final(self).same_indices(old(self)),
            final(self).order@ == old(self).order@,
            final(self).nodes@.len() == old(self).nodes@.len(),
            final(self).nodes@[node as int].value == value,
            forall|j: int|
                0 <= j < old(self).nodes@.len() && j != node ==> (#[trigger] final(self).nodes@[j]).value == old(self).nodes@[j].value,
    {
        self.nodes[node].value = value;
        proof {
            assert forall|i: int| 0 <= i < self.order@.len() implies #[trigger] linked_at(
                self.nodes@,
                self.order@,
                i,
            ) by {
                assert(linked_at(old(self).nodes@, self.order@, i));
            }
        }
    }

    /// Evicts the entry used least recently where the cache holds one entry
    /// more than its capacity.
    fn trim(&mut self)
        requires
            old(self).consistent(),
            old(self).length <= old(self).capacity + 1,
        ensures
            final(self).inv(),
            final(self).capacity == old(self).capacity,
            final(self)@ == (if old(self)@.len() > old(self).capacity {
                old(self)@.drop_last()
            } else {
                old(self)@
            }),
    {
        broadcast use vstd::std_specs::hash::group_hash_axioms;

        if self.length > self.capacity {
            let ghost order = self.order@;
            let ghost last = order.len() - 1;
            let tail = self.tail.unwrap();
            assert(order[last] == tail);
            assert(self.reverse_lookup@.contains_key(tail));
            let key = self.reverse_lookup.remove(&tail).unwrap();
            self.lookup.remove(&key);
            assert(order.contains(tail));
            assert(order.index_of(tail) == last);
            self.detach(tail);
            self.release(tail);
            proof {
                let after = order.remove(last);
                assert(self.order@ == after);
                assert forall|i: int| 0 <= i < after.len() implies after[i] == order[i]
                    && order[i] != tail by {}
                assert forall|i: int| 0 <= i < after.len() implies self.reverse_lookup@.contains_key(
                    #[trigger] after[i],
                ) by {
                    assert(old(self).reverse_lookup@.contains_key(order[i]));
                }
                assert forall|slot: usize| #[trigger]
                    self.reverse_lookup@.contains_key(slot) implies after.contains(slot)
                    && self.lookup@.contains_key(self.reverse_lookup@[slot])
                    && self.lookup@[self.reverse_lookup@[slot]] == slot by {
                    assert(old(self).reverse_lookup@.contains_key(slot));
                    let from = order.index_of(slot);
                    assert(after[from] == slot);
                }
                assert forall|k: K| #[trigger] self.lookup@.contains_key(k) implies
                    self.reverse_lookup@.contains_key(self.lookup@[k])
                    && self.reverse_lookup@[self.lookup@[k]] == k by {
                    assert(old(self).lookup@.contains_key(k));
                }
                assert forall|i: int| 0 <= i < after.len() implies self@[i] == old(self)@[i] by {
                    assert(linked_at(old(self).nodes@, order, i));
                }
                assert(self@ =~= old(self)@.drop_last());
            }
        }
    }

    /// Stores `value` for `key` and makes the entry the one used last. Where
    /// the key is new and the cache is full, the entry used least recently is
    /// evicted.
    pub fn update(&mut self, key: &K, value: V)
        requires
            old(self).inv(),
        ensures
            final(self).inv(),
            final(self).capacity() == old(self).capacity(),
            final(self)@ == stored(old(self)@, old(self).capacity(), *key, value),
            final(self)@.len() <= final(self).capacity(),
    {
        broadcast use vstd::std_specs::hash::group_hash_axioms;

        proof {
            lemma_indexed_keys(self.nodes@, self.order@, self.lookup@, self.reverse_lookup@);
        }
        let ghost order = self.order@;
        let ghost reverse = self.reverse_lookup@;
        let node = self.lookup.remove(key);
        match node {
            Some(node) => {
                let ghost at = order.index_of(node);
                assert(reverse.contains_key(node));
                assert(at == keys(old(self)@).index_of(*key));
                self.detach(node);
                self.put_value(node, value);
                self.prepend(node);
                let forward_key = key.clone();
                assert(cloned(*key, forward_key));
                self.lookup.insert(forward_key, node);
                proof {
                    assert(self.lookup@ =~= old(self).lookup@);
                    lemma_promoted_indexed(self.lookup@, reverse, order, at);
                    lemma_refreshed(old(self).nodes@, self.nodes@, order, at, reverse, value);
                }
            },
            None => {
                assert(self.lookup@ =~= old(self).lookup@);
                let node = self.create_node(value);
                let ghost mid = self.nodes@;
                self.prepend(node);
                let forward_key = key.clone();
                let reverse_key = key.clone();
                assert(cloned(*key, forward_key) && cloned(*key, reverse_key));
                self.lookup.insert(forward_key, node);
                self.reverse_lookup.insert(node, reverse_key);
                proof {
                    assert forall|i: int| 0 <= i < order.len() implies self.nodes@[(
                    #[trigger] order[i]) as int].value == old(self).nodes@[order[i] as int].value by {
                        assert(linked_at(mid, order, i));
                    }
                    lemma_inserted(
                        old(self).nodes@,
                        self.nodes@,
                        order,
                        node,
                        old(self).lookup@,
                        reverse,
                        *key,
                        value,
                    );
                    let expected = seq![(*key, value)] + old(self)@;
                    if old(self)@.len() > 0 {
                        assert(expected.drop_last() =~= seq![(*key, value)] + old(self)@.drop_last());
                    }
                }
                self.trim();
            },
        }
        proof {
            self.lemma_inv();
        }
    }

    /// The value stored for `key`, which becomes the entry used last; `None`
    /// where the cache holds none.
    pub fn get(&mut self, key: &K) -> (result: Option<V>)
        requires
            old(self).inv(),
        ensures
            final(self).inv(),
            final(self).capacity() == old(self).capacity(),
            final(self)@ == touched(old(self)@, *key),
            final(self)@.len() <= final(self).capacity(),
            match value_of(old(self)@, *key) {
                Some(value) => result is Some && cloned(value, result->0),
                None => result is None,
            },
    {
        broadcast use vstd::std_specs::hash::group_hash_axioms;

        proof {
            lemma_indexed_keys(self.nodes@, self.order@, self.lookup@, self.reverse_lookup@);
        }
        let ghost order = self.order@;
        let ghost reverse = self.reverse_lookup@;
        let node = self.lookup.remove(key);
        match node {
            Some(node) => {
                let ghost at = order.index_of(node);
                assert(reverse.contains_key(node));
                assert(at == keys(old(self)@).index_of(*key));
                self.detach(node);
                self.prepend(node);
                let forward_key = key.clone();
                assert(cloned(*key, forward_key));
                self.lookup.insert(forward_key, node);
                proof {
                    assert(self.lookup@ =~= old(self).lookup@);
                    lemma_promoted_indexed(self.lookup@, reverse, order, at);
                    lemma_promoted(old(self).nodes@, self.nodes@, order, at, reverse);
                    assert(linked_at(old(self).nodes@, order, at));
                    self.lemma_inv();
                }
                Some(self.nodes[node].value.clone())
            },
            None => {
                assert(self.lookup@ =~= old(self).lookup@);
                proof {
                    self.lemma_inv();
                }
                None
            },
        }
    }

    /// Evicts every entry.
    pub fn clear(&mut self)
        requires
            old(self).inv(),
        ensures
            final(self).inv(),
            final(self).capacity() == old(self).capacity(),
            final(self)@ == Seq::<(K, V)>::empty(),
    {
        loop
            invariant
                self.list_wf(None),
                self.capacity == old(self).capacity,
                self.capacity > 0,
                obeys_cache_key_model::<K>(),
            ensures
                self.order@.len() == 0,
            decreases self.length,
        {
            match self.head {
                Some(node) => {
                    assert(self.order@[0] == node);
                    self.detach(node);
                    self.release(node);
                },
                None => {
                    break ;
                },
            }
        }
        self.lookup.clear();
        self.reverse_lookup.clear();
        assert(self@ =~= Seq::<(K, V)>::empty());
    }
}

} // verus!
