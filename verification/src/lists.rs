//! The sequential containers: positional singly-linked list, queue, and
//! fixed-capacity circular buffer.

pub mod fifo;
pub mod ring_buffer;
pub mod simple_linked_list;

pub use self::fifo::Fifo;
pub use self::ring_buffer::RingBuffer;
pub use self::ring_buffer::StateError;
pub use self::simple_linked_list::LinkedList;
pub use self::simple_linked_list::LinkedListError;
