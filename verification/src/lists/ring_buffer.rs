//! A fixed-capacity circular buffer: values are written at a wrapping write
//! position and read back, oldest first, from a wrapping read position.
//!
//! The buffer is modelled as the `Seq<T>` of values written but not yet read,
//! oldest first (its view). The backing storage is preallocated at
//! construction and never grows; occupied slots hold `Some`, free slots hold
//! whatever was left behind.

use vstd::prelude::*;

verus! {

/// The two states a buffer operation can fail in: reading from an empty
/// buffer, or writing to a full one.
#[derive(Debug, PartialEq, Eq, Structural)]
pub enum StateError {
    Empty,
    Full,
}

/// The capacity a buffer is given when none is asked for.
pub const DEFAULT_CAPACITY: usize = 10;

/// A circular buffer of `T` with the capacity fixed at construction.
pub struct RingBuffer<T: Clone + Default> {
    buffer: Vec<Option<T>>,
    read: usize,
    count: usize,
}

impl<T: Clone + Default> RingBuffer<T> {
    /// The backing slot that the `i`-th pending element occupies: `read + i`,
    /// wrapped around the end of the storage.
    spec fn slot(&self, i: int) -> int {
        if self.read + i < self.buffer@.len() {
            self.read + i
        } else {
            self.read + i - self.buffer@.len()
        }
    }

    /// The buffer's invariant: the read position and the pending count stay
    /// within the storage, and every pending slot is occupied.
    pub closed spec fn wf(&self) -> bool {
        &&& self.count <= self.buffer@.len()
        &&& (self.buffer@.len() == 0 ==> self.read == 0)
        &&& (self.buffer@.len() > 0 ==> self.read < self.buffer@.len())
        &&& (forall|i: int| 0 <= i < self.count ==> self.buffer@[#[trigger] self.slot(i)] is Some)
    }

    /// The number of values the buffer can hold at once.
    pub closed spec fn capacity(&self) -> nat {
        self.buffer@.len()
    }
}

impl<T: Clone + Default> View for RingBuffer<T> {
    type V = Seq<T>;

    closed spec fn view(&self) -> Seq<T> {
        Seq::new(self.count as nat, |i: int| self.buffer@[self.slot(i)].unwrap())
    }
}

impl<T: Clone + Default> RingBuffer<T> {
    /// Creates an empty buffer with the default capacity.
    pub fn new() -> (rb: Self)
        ensures
            rb.wf(),
            rb@ == Seq::<T>::empty(),
            rb.capacity() == DEFAULT_CAPACITY,
    {
        RingBuffer::new_with_cap(DEFAULT_CAPACITY)
    }

    /// Creates an empty buffer that can hold `cap` values at once.
    pub fn new_with_cap(cap: usize) -> (rb: Self)
        ensures
            rb.wf(),
            rb@ == Seq::<T>::empty(),
            rb.capacity() == cap,
    {
        let mut buffer: Vec<Option<T>> = Vec::new();
        let mut i: usize = 0;
        while i < cap
            invariant
                i <= cap,
                buffer@.len() == i,
            decreases cap - i,
        {
            buffer.push(None);
            i = i + 1;
        }
        let rb = RingBuffer { buffer, read: 0, count: 0 };
        proof {
            assert(rb@ =~= Seq::<T>::empty());
        }
        rb
    }

    /// Writes `value` at the write position and advances it. Fails with
    /// `Full`, writing nothing, exactly when the buffer already holds as many
    /// values as its capacity (so always on a zero-capacity buffer).
    pub fn push(&mut self, value: T) -> (r: Result<(), StateError>)
        requires
            old(self).wf(),
        ensures
            final(self).wf(),
            final(self).capacity() == old(self).capacity(),
            old(self)@.len() == old(self).capacity() ==> {
                &&& r == Err::<(), StateError>(StateError::Full)
                &&& *final(self) == *old(self)
            },
            old(self)@.len() < old(self).capacity() ==> {
                &&& r == Ok::<(), StateError>(())
                &&& final(self)@ == old(self)@.push(value)
            },
    {
        if self.is_full() {
            return Err(StateError::Full);
        }
        let len = self.buffer.len();
        let free = len - self.read;
        let write = if self.count < free {
            self.read + self.count
        } else {
            self.count - free
        };
        self.buffer[write] = Some(value);
        self.count = self.count + 1;
        proof {
            let prev = *old(self);
            assert(write == prev.slot(prev.count as int));
            assert forall|i: int| 0 <= i < self.count implies self.buffer@[
                #[trigger] self.slot(i)
            ] is Some by {
                assert(self.slot(i) == prev.slot(i));
                if i < prev.count {
                    assert(prev.slot(i) != prev.slot(prev.count as int));
                    assert(self.buffer@[self.slot(i)] == prev.buffer@[prev.slot(i)]);
                    assert(prev.buffer@[prev.slot(i)] is Some);
                }
            };
            assert forall|i: int| 0 <= i < prev.count implies self.buffer@[
                self.slot(i)
            ] == prev.buffer@[prev.slot(i)] by {
                assert(prev.slot(i) != prev.slot(prev.count as int));
            };
            assert(self@ =~= prev@.push(value));
        }
        Ok(())
    }

    /// Removes and returns the oldest value not yet read, advancing the read
    /// position. Fails with `Empty` exactly when the buffer holds no pending
    /// value.
    pub fn get(&mut self) -> (r: Result<T, StateError>)
        requires
            old(self).wf(),
        ensures
            final(self).wf(),
            final(self).capacity() == old(self).capacity(),
            old(self)@.len() == 0 ==> {
                &&& r == Err::<T, StateError>(StateError::Empty)
                &&& *final(self) == *old(self)
            },
            old(self)@.len() > 0 ==> {
                &&& r == Ok::<T, StateError>(old(self)@[0])
                &&& final(self)@ == old(self)@.drop_first()
            },
    {
        if self.is_empty() {
            return Err(StateError::Empty);
        }
        proof {
            assert(old(self).buffer@[old(self).slot(0)] is Some);
        }
        let value = self.buffer[self.read].take();
        let len = self.buffer.len();
        self.read = if self.read + 1 < len {
            self.read + 1
        } else {
            0
        };
        self.count = self.count - 1;
        proof {
            let prev = *old(self);
            assert(prev.slot(0) == prev.read);
            assert forall|i: int| 0 <= i < self.count implies self.buffer@[
                #[trigger] self.slot(i)
            ] is Some && self.buffer@[self.slot(i)] == prev.buffer@[prev.slot(i + 1)] by {
                assert(self.slot(i) == prev.slot(i + 1));
                assert(prev.slot(i + 1) != prev.slot(0));
                assert(prev.buffer@[prev.slot(i + 1)] is Some);
            };
            assert(self@ =~= prev@.drop_first());
        }
        Ok(value.unwrap())
    }

    /// Whether the buffer holds as many values as its capacity.
    fn is_full(&self) -> (r: bool)
        requires
            self.wf(),
        ensures
            r == (self@.len() == self.capacity()),
    {
        self.count == self.buffer.len()
    }

    /// Whether the buffer holds no pending value.
    fn is_empty(&self) -> (r: bool)
        requires
            self.wf(),
        ensures
            r == (self@.len() == 0),
    {
        self.count == 0
    }
}

} // verus!
