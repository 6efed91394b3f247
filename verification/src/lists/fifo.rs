//! A first-in-first-out queue over exclusively owned nodes: values are
//! appended at the back and removed from the front.
//!
//! The queue is modelled as a `Seq<T>` (its view), front first; `wf()` states
//! that the `len` counter equals the number of nodes reachable from `head`.

use vstd::prelude::*;

verus! {

/// One link in the queue's chain: a value and ownership of the next link.
struct Node<T> {
    next: Option<Box<Node<T>>>,
    value: T,
}

impl<T> Node<T> {
    fn new(value: T) -> (node: Self)
        ensures
            node.value == value,
            node.next is None,
    {
        Node { next: None, value }
    }

    /// The sequence of values reachable from `chain`, front first.
    spec fn seq_of(chain: Option<Box<Node<T>>>) -> Seq<T>
        decreases chain,
    {
        match chain {
            None => Seq::empty(),
            Some(node) => seq![node.value] + Node::seq_of(node.next),
        }
    }

    /// Appends a new node holding `value` at the back of `chain`.
    fn append_to_chain(chain: &mut Option<Box<Node<T>>>, value: T)
        ensures
            Node::seq_of(*final(chain)) == Node::seq_of(*old(chain)).push(value),
        decreases *old(chain),
    {
        match chain.take() {
            None => {
                *chain = Some(Box::new(Node::new(value)));
                proof {
                    assert(Node::seq_of(None::<Box<Node<T>>>) == Seq::<T>::empty());
                    assert(Node::seq_of(*chain) =~= Seq::<T>::empty().push(value));
                }
            },
            Some(mut boxed) => {
                Node::append_to_chain(&mut boxed.next, value);
                *chain = Some(boxed);
                proof {
                    assert(Node::seq_of(*chain)
                        =~= Node::seq_of(*old(chain)).push(value));
                }
            },
        }
    }

    /// Reads the value of the last node of `chain`.
    fn last_in_chain(chain: &Option<Box<Node<T>>>) -> (r: &T)
        requires
            Node::seq_of(*chain).len() > 0,
        ensures
            *r == Node::seq_of(*chain).last(),
        decreases *chain,
    {
        let node = chain.as_ref().unwrap();
        if node.next.is_some() {
            proof {
                assert(Node::seq_of(node.next).len() > 0);
                assert(Node::seq_of(*chain).last() == Node::seq_of(node.next).last());
            }
            Node::last_in_chain(&node.next)
        } else {
            proof {
                assert(Node::seq_of(node.next) == Seq::<T>::empty());
                assert(Node::seq_of(*chain) =~= seq![node.value]);
            }
            &node.value
        }
    }
}

/// A queue of `T`: push appends at the back, pop removes from the front.
pub struct Fifo<T> {
    head: Option<Box<Node<T>>>,
    len: usize,
}

impl<T> View for Fifo<T> {
    type V = Seq<T>;

    closed spec fn view(&self) -> Seq<T> {
        Node::seq_of(self.head)
    }
}

impl<T> Fifo<T> {
    /// The length invariant: `len` equals the number of nodes reachable from
    /// `head`.
    pub closed spec fn wf(&self) -> bool {
        self.len == Node::seq_of(self.head).len()
    }

    /// Creates an empty queue.
    pub fn new() -> (fifo: Self)
        ensures
            fifo.wf(),
            fifo@ == Seq::<T>::empty(),
    {
        Fifo { head: None, len: 0 }
    }

    /// The number of elements waiting in the queue.
    pub fn length(&self) -> (n: usize)
        requires
            self.wf(),
        ensures
            n == self@.len(),
    {
        self.len
    }

    /// Appends `value` at the back of the queue.
    pub fn push(&mut self, value: T)
        requires
            old(self).wf(),
            old(self)@.len() < usize::MAX,
        ensures
            final(self).wf(),
            final(self)@ == old(self)@.push(value),
    {
        Node::append_to_chain(&mut self.head, value);
        self.len = self.len + 1;
    }

    /// Removes and returns the front element, or `None` when the queue is
    /// empty.
    pub fn pop(&mut self) -> (r: Option<T>)
        requires
            old(self).wf(),
        ensures
            final(self).wf(),
            old(self)@.len() == 0 ==> r is None && *final(self) == *old(self),
            old(self)@.len() > 0 ==> {
                &&& r == Some(old(self)@[0])
                &&& final(self)@ == old(self)@.drop_first()
            },
    {
        match self.head.take() {
            None => None,
            Some(boxed) => {
                self.head = boxed.next;
                self.len = self.len - 1;
                proof {
                    assert(self@ =~= old(self)@.drop_first());
                }
                Some(boxed.value)
            },
        }
    }

    /// Reads the front element without removing it, or `None` when the queue
    /// is empty.
    pub fn front(&self) -> (r: Option<&T>)
        requires
            self.wf(),
        ensures
            self@.len() == 0 ==> r is None,
            self@.len() > 0 ==> (r matches Some(v) && *v == self@[0]),
    {
        match &self.head {
            None => None,
            Some(node) => Some(&node.value),
        }
    }

    /// Reads the back element without removing it, or `None` when the queue
    /// is empty.
    pub fn back(&self) -> (r: Option<&T>)
        requires
            self.wf(),
        ensures
            self@.len() == 0 ==> r is None,
            self@.len() > 0 ==> (r matches Some(v) && *v == self@.last()),
    {
        if self.head.is_some() {
            Some(Node::last_in_chain(&self.head))
        } else {
            None
        }
    }
}

} // verus!
