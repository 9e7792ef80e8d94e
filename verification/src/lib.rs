//! Verified classics: disjoint sets in four variants, with the laws that make
//! them interchangeable; comparison sorts and selection; stacks and a queue.

pub mod queue;
pub mod sorting;
pub mod stack;
pub mod union_find;
