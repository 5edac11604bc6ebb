//! A first-in, first-out queue.
//!
//! The nodes of the queue live in a backing vector and refer to each other by
//! index. `head` names the oldest node, `tail` the newest; each node names the
//! one enqueued after it. Slots of dequeued nodes are kept on a free list and
//! reused, so the backing vector never holds more slots than the queue has held
//! values at one time.
use vstd::prelude::*;

verus! {

/// A slot of the queue: the value, while it waits, and the slot of the
/// value behind it.
struct Node<T> {
    value: Option<T>,
    next: Option<usize>,
}

/// A queue that gives its values back in the order in which they came.
pub struct Queue<T> {
    lenght: usize,
    head: Option<usize>,
    tail: Option<usize>,
    nodes: Vec<Node<T>>,
    free: Vec<usize>,
    chain: Ghost<Seq<usize>>,
}

impl<T> View for Queue<T> {
    type V = Seq<T>;

    /// The queued values, oldest first.
    closed spec fn view(&self) -> Seq<T> {
        values(self.nodes@, self.chain@)
    }
}

/// The values that the nodes of `chain` hold, in the order of the chain.
spec fn values<T>(nodes: Seq<Node<T>>, chain: Seq<usize>) -> Seq<T> {
    Seq::new(chain.len(), |i: int| nodes[chain[i] as int].value->0)
}

/// The node at place `i` of the chain lies in `nodes`, holds a value, and names
/// the node at place `i + 1`, or nothing where it is the last.
spec fn linked_at<T>(nodes: Seq<Node<T>>, chain: Seq<usize>, i: int) -> bool {
    &&& chain[i] < nodes.len()
    &&& nodes[chain[i] as int].value is Some
    &&& nodes[chain[i] as int].next == (if i + 1 < chain.len() {
        Some(chain[i + 1])
    } else {
        None
    })
}

/// Every node of the chain is linked to the one behind it.
spec fn linked<T>(nodes: Seq<Node<T>>, chain: Seq<usize>) -> bool {
    forall|i: int| 0 <= i < chain.len() ==> #[trigger] linked_at(nodes, chain, i)
}

/// `after` is `before` but for the value in slot `at`, which is present in
/// both.
spec fn revalued<T>(before: Seq<Node<T>>, after: Seq<Node<T>>, at: int) -> bool {
    &&& after.len() == before.len()
    &&& 0 <= at < before.len()
    &&& before[at].value is Some
    &&& after[at].value is Some
    &&& after[at].next == before[at].next
    &&& forall|j: int| 0 <= j < before.len() && j != at ==> after[j] == before[j]
}

/// Changing the value in the first node of a chain changes the first value
/// and nothing else.
proof fn lemma_revalued<T>(before: Seq<Node<T>>, after: Seq<Node<T>>, chain: Seq<usize>)
    requires
        chain.len() > 0,
        chain.no_duplicates(),
        linked(before, chain),
        revalued(before, after, chain[0] as int),
    ensures
        linked(after, chain),
        values(after, chain) == values(before, chain).update(
            0,
            after[chain[0] as int].value->0,
        ),
{
    assert forall|i: int| 0 <= i < chain.len() implies #[trigger] linked_at(after, chain, i) by {
        assert(linked_at(before, chain, i));
    }
    let changed = values(before, chain).update(0, after[chain[0] as int].value->0);
    assert forall|i: int| 0 <= i < chain.len() implies values(after, chain)[i] == changed[i] by {
        assert(linked_at(before, chain, i));
        if i > 0 {
            assert(chain[i] != chain[0]);
        }
    }
    assert(values(after, chain) =~= changed);
}

/// The first node's value, to be changed in place.
fn value_mut<T>(nodes: &mut Vec<Node<T>>, at: usize) -> (value: &mut T)
    requires
        at < old(nodes)@.len(),
        old(nodes)@[at as int].value is Some,
    ensures
        *value == old(nodes)@[at as int].value->0,
        final(nodes)@[at as int].value == Some(*final(value)),
        revalued(old(nodes)@, final(nodes)@, at as int),
{
    nodes[at].value.as_mut().unwrap()
}

/// One call on a queue, as the laws below speak of it.
pub enum QueueOp<T> {
    Enqueue(T),
    Deque,
}

/// What a queue holds after `ops`, made in this order on an empty queue.
pub open spec fn held_after<T>(ops: Seq<QueueOp<T>>) -> Seq<T>
    decreases ops.len(),
{
    if ops.len() == 0 {
        Seq::empty()
    } else {
        let held = held_after(ops.drop_last());
        match ops.last() {
            QueueOp::Enqueue(value) => held.push(value),
            QueueOp::Deque => if held.len() > 0 {
                held.skip(1)
            } else {
                held
            },
        }
    }
}

/// The values that the calls of `deque` among `ops` returned, in this order.
pub open spec fn returned_by<T>(ops: Seq<QueueOp<T>>) -> Seq<T>
    decreases ops.len(),
{
    if ops.len() == 0 {
        Seq::empty()
    } else {
        let held = held_after(ops.drop_last());
        let returned = returned_by(ops.drop_last());
        match ops.last() {
            QueueOp::Enqueue(_) => returned,
            QueueOp::Deque => if held.len() > 0 {
                returned.push(held[0])
            } else {
                returned
            },
        }
    }
}

/// The values that `ops` enqueued, in this order.
pub open spec fn enqueued_by<T>(ops: Seq<QueueOp<T>>) -> Seq<T>
    decreases ops.len(),
{
    if ops.len() == 0 {
        Seq::empty()
    } else {
        match ops.last() {
            QueueOp::Enqueue(value) => enqueued_by(ops.drop_last()).push(value),
            QueueOp::Deque => enqueued_by(ops.drop_last()),
        }
    }
}

/// First in, first out: whatever calls are made on an empty queue, the
/// values returned so far, followed by the values still held, are the values
/// enqueued, in the order in which they came. So the number of values held
/// is the number enqueued less the number returned.
pub proof fn law_first_in_first_out<T>(ops: Seq<QueueOp<T>>)
    ensures
        enqueued_by(ops) == returned_by(ops) + held_after(ops),
        held_after(ops).len() == enqueued_by(ops).len() - returned_by(ops).len(),
    decreases ops.len(),
{
    if ops.len() > 0 {
        law_first_in_first_out(ops.drop_last());
        let held = held_after(ops.drop_last());
        let returned = returned_by(ops.drop_last());
        match ops.last() {
            QueueOp::Enqueue(value) => {
                assert((returned + held).push(value) =~= returned + held.push(value));
            },
            QueueOp::Deque => {
                if held.len() > 0 {
                    assert(returned + held =~= returned.push(held[0]) + held.skip(1));
                }
            },
        }
    } else {
        assert(enqueued_by(ops) =~= returned_by(ops) + held_after(ops));
    }
}

impl<T> Queue<T> {
    /// The linked structure is consistent. `loose` names a slot that is
    /// allocated but neither linked into the chain nor on the free list.
    spec fn wf(&self, loose: Option<usize>) -> bool {
        let chain = self.chain@;
        let free = self.free@;
        let n = chain.len();
        &&& chain.no_duplicates()
        &&& free.no_duplicates()
        &&& self.lenght == n
        &&& n + free.len() + (if loose is Some { 1int } else { 0int }) == self.nodes@.len()
        &&& self.head == (if n == 0 { None } else { Some(chain[0]) })
        &&& self.tail == (if n == 0 { None } else { Some(chain[n - 1]) })
        &&& linked(self.nodes@, chain)
        &&& forall|j: int| 0 <= j < free.len() ==> (#[trigger] free[j]) < self.nodes@.len()
        &&& forall|i: int, j: int|
            0 <= i < n && 0 <= j < free.len() ==> (#[trigger] chain[i]) != (#[trigger] free[j])
        &&& loose matches Some(h) ==> {
            &&& h < self.nodes@.len()
            &&& forall|i: int| 0 <= i < n ==> (#[trigger] chain[i]) != h
            &&& forall|j: int| 0 <= j < free.len() ==> (#[trigger] free[j]) != h
        }
    }

    /// The representation invariant: every public operation keeps it.
    pub closed spec fn inv(&self) -> bool {
        self.wf(None)
    }

    /// An empty queue.
    pub fn new() -> (queue: Queue<T>)
        ensures
            queue.inv(),
            queue@ == Seq::<T>::empty(),
    {
        let queue = Queue {
            lenght: 0,
            head: None,
            tail: None,
            nodes: Vec::new(),
            free: Vec::new(),
            chain: Ghost(Seq::empty()),
        };
        assert(queue@ =~= Seq::<T>::empty());
        queue
    }

    /// Takes a slot for `value`, reusing a free one where there is one. The
    /// slot is not linked yet.
    fn create_node(&mut self, value: T) -> (node: usize)
        requires
            old(self).wf(None),
        ensures
            final(self).wf(Some(node)),
            final(self).chain@ == old(self).chain@,
            final(self)@ == old(self)@,
            final(self).nodes@[node as int].value == Some(value),
            final(self).nodes@[node as int].next is None,
    {
        let ghost chain = self.chain@;
        let fresh = Node { value: Some(value), next: None };
        let node = match self.free.pop() {
            Some(slot) => {
                assert(slot == old(self).free@[old(self).free@.len() - 1]);
                self.nodes[slot] = fresh;
                slot
            },
            None => {
                self.nodes.push(fresh);
                self.nodes.len() - 1
            },
        };
        proof {
            let spare = old(self).free@;
            assert forall|i: int| 0 <= i < chain.len() implies chain[i] != node by {
                assert(linked_at(old(self).nodes@, chain, i));
                if spare.len() > 0 {
                    assert(chain[i] != spare[spare.len() - 1]);
                }
            }
            assert forall|j: int| 0 <= j < self.free@.len() implies self.free@[j] != node
                && self.free@[j] < self.nodes@.len() by {
                assert(self.free@[j] == spare[j]);
            }
            assert forall|i: int, j: int|
                0 <= i < chain.len() && 0 <= j < self.free@.len() implies (#[trigger] chain[i])
                != (#[trigger] self.free@[j]) by {
                assert(self.free@[j] == spare[j]);
            }
            assert(self.free@.no_duplicates()) by {
                assert forall|j: int, k: int|
                    0 <= j < self.free@.len() && 0 <= k < self.free@.len() && j != k implies
                    self.free@[j] != self.free@[k] by {
                    assert(self.free@[j] == spare[j]);
                    assert(self.free@[k] == spare[k]);
                }
            }
            assert forall|i: int| 0 <= i < chain.len() implies #[trigger] linked_at(
                self.nodes@,
                chain,
                i,
            ) by {
                assert(linked_at(old(self).nodes@, chain, i));
            }
            assert forall|i: int| 0 <= i < chain.len() implies self@[i] == old(self)@[i] by {
                assert(linked_at(old(self).nodes@, chain, i));
            }
            assert(self@ =~= old(self)@);
        }
        node
    }

    /// Appends `value` behind the newest value.
    pub fn enqueue(&mut self, value: T)
        requires
            old(self).inv(),
        ensures
            final(self).inv(),
            final(self)@ == old(self)@.push(value),
    {
        let node = self.create_node(value);
        let ghost before = self.chain@;
        let ghost mid = self.nodes@;
        let ghost held = self@;
        match self.tail {
            Some(tail) => {
                assert(linked_at(mid, before, before.len() - 1));
                self.nodes[tail].next = Some(node);
            },
            None => {
                self.head = Some(node);
            },
        }
        self.tail = Some(node);
        assert(self.nodes@.len() == self.nodes.len());
        self.lenght += 1;
        proof {
            let after = before.push(node);
            self.chain@ = after;
            assert forall|i: int| 0 <= i < after.len() implies #[trigger] linked_at(
                self.nodes@,
                after,
                i,
            ) by {
                if i < before.len() {
                    assert(linked_at(mid, before, i));
                }
            }
            assert forall|i: int| 0 <= i < before.len() implies self@[i] == held[i] by {
                assert(linked_at(mid, before, i));
            }
            assert(self@ =~= held.push(value));
        }
    }

    /// Removes the oldest value and returns it; `None` where the queue is
    /// empty.
    pub fn deque(&mut self) -> (result: Option<T>)
        requires
            old(self).inv(),
        ensures
            final(self).inv(),
            old(self)@.len() == 0 ==> result is None && final(self)@ == old(self)@,
            old(self)@.len() > 0 ==> result == Some(old(self)@[0])
                && final(self)@ == old(self)@.skip(1),
    {
        match self.head {
            None => None,
            Some(node) => {
                let ghost before = self.chain@;
                assert(linked_at(self.nodes@, before, 0));
                let result = self.nodes[node].value.take();
                self.head = self.nodes[node].next;
                self.nodes[node].next = None;
                if self.head.is_none() {
                    self.tail = None;
                }
                self.lenght -= 1;
                self.free.push(node);
                proof {
                    let after = before.skip(1);
                    self.chain@ = after;
                    assert forall|i: int| 0 <= i < after.len() implies after[i] != node by {
                        assert(after[i] == before[i + 1]);
                    }
                    assert forall|i: int| 0 <= i < after.len() implies #[trigger] linked_at(
                        self.nodes@,
                        after,
                        i,
                    ) by {
                        assert(linked_at(old(self).nodes@, before, i + 1));
                        assert(after[i] == before[i + 1]);
                    }
                    assert forall|i: int, j: int|
                        0 <= i < after.len() && 0 <= j < self.free@.len() implies (
                    #[trigger] after[i]) != (#[trigger] self.free@[j]) by {
                        assert(after[i] == before[i + 1]);
                        if j < old(self).free@.len() {
                            assert(self.free@[j] == old(self).free@[j]);
                        }
                    }
                    assert(self.free@.no_duplicates()) by {
                        let spare = old(self).free@;
                        assert forall|j: int| 0 <= j < spare.len() implies spare[j] != node by {
                            assert(before[0] != old(self).free@[j]);
                        }
                    }
                    assert forall|i: int| 0 <= i < after.len() implies self@[i] == old(self)@[i
                        + 1] by {
                        assert(after[i] == before[i + 1]);
                        assert(after[i] != node);
                        assert(linked_at(old(self).nodes@, before, i + 1));
                    }
                    assert(self@ =~= old(self)@.skip(1));
                }
                result
            },
        }
    }

    /// The oldest value, which stays in the queue.
    pub fn peek(&self) -> (result: Option<&T>)
        requires
            self.inv(),
        ensures
            self@.len() == 0 ==> result is None,
            self@.len() > 0 ==> result == Some(&self@[0]),
    {
        match self.head {
            Some(node) => {
                assert(linked_at(self.nodes@, self.chain@, 0));
                self.nodes[node].value.as_ref()
            },
            None => None,
        }
    }

    /// The oldest value, which stays in the queue and may be changed in
    /// place.
    pub fn peek_mut(&mut self) -> (result: Option<&mut T>)
        requires
            old(self).inv(),
        ensures
            final(self).inv(),
            old(self)@.len() == 0 ==> result is None && final(self)@ == old(self)@,
            old(self)@.len() > 0 ==> result is Some && *result->0 == old(self)@[0]
                && final(self)@ == old(self)@.update(0, *final(result->0)),
    {
        match self.head {
            Some(node) => {
                proof {
                    let chain = self.chain@;
                    let nodes = self.nodes@;
                    assert(linked_at(nodes, chain, 0));
                    assert forall|after: Seq<Node<T>>| #[trigger]
                        revalued(nodes, after, node as int) implies linked(after, chain)
                        && values(after, chain) == values(nodes, chain).update(
                        0,
                        after[node as int].value->0,
                    ) by {
                        lemma_revalued(nodes, after, chain);
                    }
                }
                Some(value_mut(&mut self.nodes, node))
            },
            None => None,
        }
    }

    /// The number of values in the queue.
    pub fn lenght(&self) -> (count: usize)
        requires
            self.inv(),
        ensures
            count == self@.len(),
    {
        self.lenght
    }
}

} // verus!
