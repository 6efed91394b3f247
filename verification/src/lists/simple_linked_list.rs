//! A positional singly-linked list: an ordered, mutable chain of owned nodes,
//! addressable by zero-based position.
//!
//! The list is modelled as a `Seq<T>` (its view); `wf()` states the length
//! invariant: the `len` counter always equals the number of nodes reachable
//! from `head`.

use vstd::prelude::*;

verus! {

use vstd::string::StringExecFns;

/// The character for the decimal digit `d`.
pub open spec fn digit_char(d: int) -> char {
    if d == 0 {
        '0'
    } else if d == 1 {
        '1'
    } else if d == 2 {
        '2'
    } else if d == 3 {
        '3'
    } else if d == 4 {
        '4'
    } else if d == 5 {
        '5'
    } else if d == 6 {
        '6'
    } else if d == 7 {
        '7'
    } else if d == 8 {
        '8'
    } else {
        '9'
    }
}

/// The decimal digits of `n`, most significant first, without leading zeros.
pub open spec fn dec_digits(n: nat) -> Seq<char>
    decreases n,
{
    if n < 10 {
        seq![digit_char(n as int)]
    } else {
        dec_digits(n / 10).push(digit_char((n % 10) as int))
    }
}

/// The decimal rendering of `x`: a minus sign for a negative value, then the
/// digits of its magnitude.
pub open spec fn dec_str(x: int) -> Seq<char> {
    if x < 0 {
        seq!['-'] + dec_digits((-x) as nat)
    } else {
        dec_digits(x as nat)
    }
}

/// The left-to-right listing of the values of `s`, separated by `" -> "`; an
/// empty sequence renders as the empty string.
pub open spec fn rendered(s: Seq<i32>) -> Seq<char>
    decreases s.len(),
{
    if s.len() == 0 {
        Seq::empty()
    } else if s.len() == 1 {
        dec_str(s[0] as int)
    } else {
        rendered(s.drop_last()) + " -> "@ + dec_str(s.last() as int)
    }
}

/// Appends the character for the decimal digit `d`.
fn append_digit(s: &mut String, d: u64)
    requires
        d < 10,
    ensures
        final(s)@ == old(s)@.push(digit_char(d as int)),
{
    if d == 0 {
        s.append("0");
        proof {
            reveal_strlit("0");
            assert(s@ =~= old(s)@.push(digit_char(d as int)));
        }
    } else if d == 1 {
        s.append("1");
        proof {
            reveal_strlit("1");
            assert(s@ =~= old(s)@.push(digit_char(d as int)));
        }
    } else if d == 2 {
        s.append("2");
        proof {
            reveal_strlit("2");
            assert(s@ =~= old(s)@.push(digit_char(d as int)));
        }
    } else if d == 3 {
        s.append("3");
        proof {
            reveal_strlit("3");
            assert(s@ =~= old(s)@.push(digit_char(d as int)));
        }
    } else if d == 4 {
        s.append("4");
        proof {
            reveal_strlit("4");
            assert(s@ =~= old(s)@.push(digit_char(d as int)));
        }
    } else if d == 5 {
        s.append("5");
        proof {
            reveal_strlit("5");
            assert(s@ =~= old(s)@.push(digit_char(d as int)));
        }
    } else if d == 6 {
        s.append("6");
        proof {
            reveal_strlit("6");
            assert(s@ =~= old(s)@.push(digit_char(d as int)));
        }
    } else if d == 7 {
        s.append("7");
        proof {
            reveal_strlit("7");
            assert(s@ =~= old(s)@.push(digit_char(d as int)));
        }
    } else if d == 8 {
        s.append("8");
        proof {
            reveal_strlit("8");
            assert(s@ =~= old(s)@.push(digit_char(d as int)));
        }
    } else {
        s.append("9");
        proof {
            reveal_strlit("9");
            assert(s@ =~= old(s)@.push(digit_char(d as int)));
        }
    }
}

/// Appends the decimal digits of `n`, most significant first.
fn append_decimal_digits(s: &mut String, n: u64)
    ensures
        final(s)@ == old(s)@ + dec_digits(n as nat),
    decreases n,
{
    if n < 10 {
        append_digit(s, n);
        proof {
            assert(s@ =~= old(s)@ + dec_digits(n as nat));
        }
    } else {
        append_decimal_digits(s, n / 10);
        append_digit(s, n % 10);
        proof {
            assert(s@ =~= old(s)@ + dec_digits(n as nat));
        }
    }
}

/// The decimal rendering of `x`, as `dec_str` states it: a minus sign for a
/// negative value, then the digits of its magnitude.
fn i32_to_string(x: i32) -> (s: String)
    ensures
        s@ == dec_str(x as int),
{
    let mut s = String::new();
    if x < 0 {
        s.append("-");
        let magnitude = (-(x as i64)) as u64;
        append_decimal_digits(&mut s, magnitude);
        proof {
            reveal_strlit("-");
            assert(magnitude as nat == (-(x as int)) as nat);
            assert(s@ =~= dec_str(x as int));
        }
    } else {
        append_decimal_digits(&mut s, x as u64);
        proof {
            assert(s@ =~= dec_str(x as int));
        }
    }
    s
}

/// The errors a positional operation can report.
///
/// `IndexError` carries the offending position; `Empty` marks a removal from
/// a list with no elements; `Unknown` is reserved for structural
/// impossibilities and is never produced by the operations here.
#[derive(Debug, PartialEq, Eq, Structural)]
pub enum LinkedListError {
    IndexError(usize),
    Empty,
    Unknown,
}

/// One link in the chain: a value and ownership of the rest of the chain.
struct Node<T> {
    next: Option<Box<Node<T>>>,
    value: T,
}

impl<T> Node<T> {
    fn new(value: T) -> (node: Self)
        ensures
            node.value == value,
            node.next is None,
    {
        Node { next: None, value }
    }

    /// The sequence of values reachable from `chain`, front first.
    spec fn seq_of(chain: Option<Box<Node<T>>>) -> Seq<T>
        decreases chain,
    {
        match chain {
            None => Seq::empty(),
            Some(node) => seq![node.value] + Node::seq_of(node.next),
        }
    }

    /// Splices a new node holding `value` in at position `index` of `chain`.
    fn insert_in_chain(chain: &mut Option<Box<Node<T>>>, index: usize, value: T)
        requires
            index <= Node::seq_of(*old(chain)).len(),
        ensures
            Node::seq_of(*final(chain)) == Node::seq_of(*old(chain)).insert(index as int, value),
        decreases index,
    {
        if index == 0 {
            let mut node = Node::new(value);
            node.next = chain.take();
            *chain = Some(Box::new(node));
            proof {
                assert(Node::seq_of(*chain)
                    =~= Node::seq_of(*old(chain)).insert(0, value));
            }
        } else {
            let mut boxed = chain.take().unwrap();
            Node::insert_in_chain(&mut boxed.next, index - 1, value);
            *chain = Some(boxed);
            proof {
                assert(Node::seq_of(*chain)
                    =~= Node::seq_of(*old(chain)).insert(index as int, value));
            }
        }
    }

    /// Detaches the node at position `index` of `chain` and returns its value;
    /// the predecessor's link (or the chain's own slot) is rewired to the
    /// detached node's successor.
    fn remove_from_chain(chain: &mut Option<Box<Node<T>>>, index: usize) -> (r: T)
        requires
            index < Node::seq_of(*old(chain)).len(),
        ensures
            Node::seq_of(*final(chain)) == Node::seq_of(*old(chain)).remove(index as int),
            r == Node::seq_of(*old(chain))[index as int],
        decreases index,
    {
        let mut boxed = chain.take().unwrap();
        if index == 0 {
            *chain = boxed.next;
            proof {
                assert(Node::seq_of(*chain) =~= Node::seq_of(*old(chain)).remove(0));
            }
            boxed.value
        } else {
            let r = Node::remove_from_chain(&mut boxed.next, index - 1);
            *chain = Some(boxed);
            proof {
                assert(Node::seq_of(*chain)
                    =~= Node::seq_of(*old(chain)).remove(index as int));
            }
            r
        }
    }

    /// Reads the value at position `index` of `chain`.
    fn get_from_chain(chain: &Option<Box<Node<T>>>, index: usize) -> (r: &T)
        requires
            index < Node::seq_of(*chain).len(),
        ensures
            *r == Node::seq_of(*chain)[index as int],
        decreases index,
    {
        let node = chain.as_ref().unwrap();
        if index == 0 {
            &node.value
        } else {
            Node::get_from_chain(&node.next, index - 1)
        }
    }
}

/// An ordered sequence of `T` held as a chain of exclusively owned nodes,
/// together with a count of them.
pub struct LinkedList<T> {
    head: Option<Box<Node<T>>>,
    len: usize,
}

impl<T> View for LinkedList<T> {
    type V = Seq<T>;

    closed spec fn view(&self) -> Seq<T> {
        Node::seq_of(self.head)
    }
}

impl<T> LinkedList<T> {
    /// The length invariant: `len` equals the number of nodes reachable from
    /// `head` (so `head` is absent exactly when `len` is zero).
    pub closed spec fn wf(&self) -> bool {
        self.len == Node::seq_of(self.head).len()
    }

    /// Creates an empty list.
    pub fn new() -> (list: Self)
        ensures
            list.wf(),
            list@ == Seq::<T>::empty(),
    {
        LinkedList { head: None, len: 0 }
    }

    /// The number of elements in the list.
    pub fn length(&self) -> (n: usize)
        requires
            self.wf(),
        ensures
            n == self@.len(),
    {
        self.len
    }

    /// Appends `value` at the end; equivalent to `add_at(length, value)`.
    pub fn push(&mut self, value: T)
        requires
            old(self).wf(),
            old(self)@.len() < usize::MAX,
        ensures
            final(self).wf(),
            final(self)@ == old(self)@.push(value),
    {
        let index = self.len;
        let _ = self.add_at(index, value);
        proof {
            assert(self@ =~= old(self)@.push(value));
        }
    }

    /// Inserts `value` at position `index`, shifting what follows one place
    /// towards the end. `index == length` appends. Fails with
    /// `IndexError(index)` exactly when `index > length`, leaving the list
    /// unchanged.
    pub fn add_at(&mut self, index: usize, value: T) -> (r: Result<(), LinkedListError>)
        requires
            old(self).wf(),
            old(self)@.len() < usize::MAX,
        ensures
            final(self).wf(),
            index <= old(self)@.len() ==> {
                &&& r == Ok::<(), LinkedListError>(())
                &&& final(self)@ == old(self)@.insert(index as int, value)
            },
            index > old(self)@.len() ==> {
                &&& r == Err::<(), LinkedListError>(LinkedListError::IndexError(index))
                &&& *final(self) == *old(self)
            },
    {
        if index > self.len {
            return Err(LinkedListError::IndexError(index));
        }
        Node::insert_in_chain(&mut self.head, index, value);
        self.len = self.len + 1;
        Ok(())
    }

    /// Removes the element at position `index` and returns it, shifting what
    /// follows one place towards the front. Fails with `Empty` exactly when
    /// the list has no elements, else with `IndexError(index)` exactly when
    /// `index >= length`; a failed call leaves the list unchanged.
    pub fn remove_at(&mut self, index: usize) -> (r: Result<T, LinkedListError>)
        requires
            old(self).wf(),
        ensures
            final(self).wf(),
            old(self)@.len() == 0 ==> {
                &&& r == Err::<T, LinkedListError>(LinkedListError::Empty)
                &&& *final(self) == *old(self)
            },
            old(self)@.len() > 0 && index >= old(self)@.len() ==> {
                &&& r == Err::<T, LinkedListError>(LinkedListError::IndexError(index))
                &&& *final(self) == *old(self)
            },
            index < old(self)@.len() ==> {
                &&& r == Ok::<T, LinkedListError>(old(self)@[index as int])
                &&& final(self)@ == old(self)@.remove(index as int)
            },
    {
        if self.len == 0 {
            return Err(LinkedListError::Empty);
        }
        if index >= self.len {
            return Err(LinkedListError::IndexError(index));
        }
        let value = Node::remove_from_chain(&mut self.head, index);
        self.len = self.len - 1;
        Ok(value)
    }

    /// Removes and returns the last element; equivalent to
    /// `remove_at(length - 1)`. Fails with `Empty` exactly when the list has
    /// no elements.
    pub fn pop(&mut self) -> (r: Result<T, LinkedListError>)
        requires
            old(self).wf(),
        ensures
            final(self).wf(),
            old(self)@.len() == 0 ==> {
                &&& r == Err::<T, LinkedListError>(LinkedListError::Empty)
                &&& *final(self) == *old(self)
            },
            old(self)@.len() > 0 ==> {
                &&& r == Ok::<T, LinkedListError>(old(self)@.last())
                &&& final(self)@ == old(self)@.drop_last()
            },
    {
        if self.len == 0 {
            return Err(LinkedListError::Empty);
        }
        let index = self.len - 1;
        let r = self.remove_at(index);
        proof {
            assert(self@ =~= old(self)@.drop_last());
        }
        r
    }

    /// Reads the element at position `index`. Fails with
    /// `IndexError(index)` exactly when `index >= length` (which covers the
    /// empty list, where every index is out of range).
    pub fn get_at(&self, index: usize) -> (r: Result<&T, LinkedListError>)
        requires
            self.wf(),
        ensures
            index < self@.len() ==> (r matches Ok(v) && *v == self@[index as int]),
            index >= self@.len() ==> r == Err::<&T, LinkedListError>(
                LinkedListError::IndexError(index),
            ),
    {
        if index >= self.len {
            return Err(LinkedListError::IndexError(index));
        }
        Ok(Node::get_from_chain(&self.head, index))
    }
}

impl LinkedList<i32> {
    /// A human-readable left-to-right listing of the values, separated by
    /// `" -> "`; an empty list renders as the empty string. A pure read-only
    /// traversal with `get_at`, position by position.
    pub fn render(&self) -> (s: String)
        requires
            self.wf(),
        ensures
            s@ == rendered(self@),
    {
        let mut s = String::new();
        let n = self.length();
        let mut counter: usize = 0;
        while counter < n
            invariant
                self.wf(),
                counter <= n,
                n == self@.len(),
                s@ == rendered(self@.subrange(0, counter as int)),
            decreases n - counter,
        {
            // Every position below `n` is valid, so the failure arm cannot be
            // reached.
            let value = match self.get_at(counter) {
                Ok(v) => v,
                Err(_) => {
                    proof {
                        assert(false);
                    }
                    &0
                },
            };
            if counter > 0 {
                s.append(" -> ");
            }
            let piece = i32_to_string(*value);
            s.append(piece.as_str());
            proof {
                let prefix = self@.subrange(0, counter as int);
                let extended = self@.subrange(0, counter as int + 1);
                assert(extended.drop_last() =~= prefix);
                assert(extended.last() == self@[counter as int]);
                assert(s@ =~= rendered(extended));
            }
            counter = counter + 1;
        }
        proof {
            assert(self@.subrange(0, self@.len() as int) =~= self@);
        }
        s
    }
}

/// Removing the element at a valid position `i` and then inserting that same
/// element back at `i` restores the original sequence, so `remove_at(i)`
/// followed by `add_at(i, removed)` leaves a list's contents as they were.
pub proof fn lemma_remove_insert_inverse<T>(s: Seq<T>, i: int)
    requires
        0 <= i < s.len(),
    ensures
        s.remove(i).insert(i, s[i]) == s,
{
    assert(s.remove(i).insert(i, s[i]) =~= s);
}

/// Appending `a`, then `b`, then `c` puts them at the three positions after
/// the original end, in that order: with `push` alone, elements are read back
/// in the order they were appended.
pub proof fn lemma_push_preserves_order<T>(s: Seq<T>, a: T, b: T, c: T)
    ensures
        s.push(a).push(b).push(c).len() == s.len() + 3,
        s.push(a).push(b).push(c)[s.len() as int] == a,
        s.push(a).push(b).push(c)[s.len() as int + 1] == b,
        s.push(a).push(b).push(c)[s.len() as int + 2] == c,
{
}

} // verus!
