//! First-in, first-out queues.

use vstd::prelude::*;

pub mod linked_list_queue;

verus! {

/// Defines the interface common to all *Queue* implementations.
///
/// A queue is described by `items()`, the item least recently added first.
pub trait Queue<T>: Sized {
    /// The representation invariant of the implementation.
    spec fn well_formed(&self) -> bool;

    /// The items in the queue, in the order in which they were added.
    spec fn items(&self) -> Seq<T>;

    /// One more item can be added.
    spec fn has_room(&self) -> bool;

    /// Inserts a new item of type `T` into the queue
    fn enqueue(&mut self, item: T)
        requires
            old(self).well_formed(),
            old(self).has_room(),
        ensures
            final(self).well_formed(),
            final(self).items() == old(self).items().push(item),
    ;

    /// Removes and returns the item `T` least recently added
    fn dequeue(&mut self) -> (item: Option<T>)
        requires
            old(self).well_formed(),
        ensures
            final(self).well_formed(),
            item == taken(old(self).items()),
            final(self).items() == left(old(self).items()),
    ;

    /// Whether the queue holds no item.
    fn is_empty(&self) -> (empty: bool)
        requires
            self.well_formed(),
        ensures
            empty <==> self.items().len() == 0,
    ;

    /// The number of items currently in the queue.
    fn size(&self) -> (n: usize)
        requires
            self.well_formed(),
        ensures
            n == self.items().len(),
    ;
}

/// The item that leaves a queue of `items`: the first, if there is one.
pub open spec fn taken<T>(items: Seq<T>) -> Option<T> {
    if items.len() == 0 {
        None
    } else {
        Some(items[0])
    }
}

/// The items that stay when one leaves a queue of `items`: all but the first.
pub open spec fn left<T>(items: Seq<T>) -> Seq<T> {
    if items.len() == 0 {
        items
    } else {
        items.drop_first()
    }
}

} // verus!
