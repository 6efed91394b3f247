//! The in-place sorting routine.

pub mod quicksort;

pub use self::quicksort::quicksort;
