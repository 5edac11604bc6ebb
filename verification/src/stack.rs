//! A last-in, first-out stack: a singly-linked list of nodes, the one pushed
//! last at its head.
use vstd::prelude::*;

verus! {

/// A value on the stack and the nodes below it.
struct Node<T> {
    value: T,
    next: Option<Box<Node<T>>>,
}

/// A stack that gives back first the value that came last.
pub struct Stack<T> {
    head: Option<Box<Node<T>>>,
    lenght: usize,
}

/// `rest` with `value` put in front.
spec fn with_front<T>(value: T, rest: Seq<T>) -> Seq<T> {
    seq![value] + rest
}

/// The values of the nodes from `link` on.
spec fn values<T>(link: Option<Box<Node<T>>>) -> Seq<T>
    decreases link,
{
    match link {
        None => Seq::empty(),
        Some(node) => with_front(node.value, values(node.next)),
    }
}

impl<T> View for Stack<T> {
    type V = Seq<T>;

    /// The values on the stack, the one pushed last first.
    closed spec fn view(&self) -> Seq<T> {
        values(self.head)
    }
}

impl<T> Stack<T> {
    /// The representation invariant: every public operation keeps it.
    pub closed spec fn inv(&self) -> bool {
        self.lenght == self@.len()
    }

    /// An empty stack.
    pub fn new() -> (stack: Self)
        ensures
            stack.inv(),
            stack@ == Seq::<T>::empty(),
    {
        Self { head: None, lenght: 0 }
    }

    /// Puts `value` on top.
    pub fn push(&mut self, value: T)
        requires
            old(self).inv(),
            old(self)@.len() < usize::MAX,
        ensures
            final(self).inv(),
            final(self)@ == seq![value] + old(self)@,
    {
        let new_node = Some(Box::new(Node { value, next: self.head.take() }));
        self.head = new_node;
        self.lenght += 1;
    }

    /// Takes the top value off and returns it; `None` where the stack is
    /// empty.
    pub fn pop(&mut self) -> (result: Option<T>)
        requires
            old(self).inv(),
        ensures
            final(self).inv(),
            old(self)@.len() == 0 ==> result is None && final(self)@ == old(self)@,
            old(self)@.len() > 0 ==> result == Some(old(self)@[0])
                && final(self)@ == old(self)@.skip(1),
    {
        match self.head.take() {
            Some(node) => {
                let node = *node;
                self.head = node.next;
                self.lenght -= 1;
                assert(self@ =~= old(self)@.skip(1));
                Some(node.value)
            },
            None => None,
        }
    }

    /// The top value, which stays on the stack.
    pub fn peek(&self) -> (result: Option<&T>)
        ensures
            self@.len() == 0 ==> result is None,
            self@.len() > 0 ==> result == Some(&self@[0]),
    {
        match &self.head {
            Some(node) => Some(&node.value),
            None => None,
        }
    }

    /// The top value, which stays on the stack and may be changed in place.
    pub fn peek_mut(&mut self) -> (result: Option<&mut T>)
        requires
            old(self).inv(),
        ensures
            final(self).inv(),
            old(self)@.len() == 0 ==> result is None && final(self)@ == old(self)@,
            old(self)@.len() > 0 ==> result is Some && *result->0 == old(self)@[0]
                && final(self)@ == old(self)@.update(0, *final(result->0)),
    {
        proof {
            if self.head is Some {
                let rest = values(self.head->0.next);
                assert forall|value: T| #[trigger]
                    with_front(value, rest) == self@.update(0, value) by {
                    assert(with_front(value, rest) =~= self@.update(0, value));
                }
            }
        }
        match &mut self.head {
            Some(node) => Some(&mut node.value),
            None => None,
        }
    }
}

} // verus!
