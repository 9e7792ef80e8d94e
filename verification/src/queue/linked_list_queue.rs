//! A queue that counts its items.

use vstd::prelude::*;
use std::collections::VecDeque;
use crate::queue::Queue;

verus! {

/// A queue that keeps its items in the order of their arrival, and their number.
pub struct LinkedListQueue<T> {
    items: VecDeque<T>,
    size: usize,
}

impl<T> Queue<T> for LinkedListQueue<T> {
    closed spec fn well_formed(&self) -> bool {
        self.size == self.items@.len()
    }

    closed spec fn items(&self) -> Seq<T> {
        self.items@
    }

    /// The number of items can still be counted after one more.
    open spec fn has_room(&self) -> bool {
        self.items().len() < usize::MAX
    }

    fn enqueue(&mut self, item: T) {
        self.items.push_back(item);
        self.size += 1;
    }

    fn dequeue(&mut self) -> (item: Option<T>) {
        let first = self.items.pop_front();
        if first.is_some() {
            self.size -= 1;
        }
        first
    }

    fn is_empty(&self) -> (empty: bool) {
        self.size() == 0
    }

    fn size(&self) -> (n: usize) {
        self.size
    }
}

impl<T> LinkedListQueue<T> {
    /// A queue without items.
    pub fn new() -> (queue: Self)
        ensures
            queue.well_formed(),
            queue.items().len() == 0,
    {
        LinkedListQueue { items: VecDeque::new(), size: 0 }
    }
}

} // verus!
