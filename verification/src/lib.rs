//! Foundational sequential containers — a positional singly-linked list, a
//! first-in-first-out queue, a fixed-capacity circular buffer — and an
//! in-place partition-exchange sort, each verified against a sequence model.

pub mod lists;
pub mod sorting;
