//! Last-in, first-out stacks.

use vstd::prelude::*;
use vstd::pervasive::cloned;

pub mod array_stack;
pub mod linked_list_stack;

verus! {

/// Every item of `after` is a clone of the item of `before` at its position.
pub open spec fn clones_of<T: Clone>(before: Seq<T>, after: Seq<T>) -> bool {
    &&& after.len() == before.len()
    &&& forall|i: int| 0 <= i < before.len() ==> cloned(before[i], #[trigger] after[i])
}

/// Defines the interface common to all *Stack* implementations.
///
/// A stack is described by `items()`, from the bottom of the stack to its
/// top. An implementation may keep clones in place of the items it was given.
pub trait Stack<T: Clone>: Sized {
    /// The representation invariant of the implementation.
    spec fn well_formed(&self) -> bool;

    /// The items on the stack, the one on top last.
    spec fn items(&self) -> Seq<T>;

    /// One more item can be pushed.
    spec fn has_room(&self) -> bool;

    /// Push the provided `item` onto the top of the stack.
    /// The item which was on top of the stack before this push is pushed down onto second
    /// position.
    fn push(&mut self, item: T)
        requires
            old(self).well_formed(),
            old(self).has_room(),
        ensures
            final(self).well_formed(),
            final(self).items().len() == old(self).items().len() + 1,
            final(self).items().last() == item,
            clones_of(old(self).items(), final(self).items().drop_last()),
    ;

    /// Pops the item out from the top of the stack and returns it as a result.
    /// The item which was on second position at the top of the stack goes on the top after the
    /// item on top is popped out.
    fn pop(&mut self) -> (item: T)
        requires
            old(self).well_formed(),
            old(self).items().len() > 0,
        ensures
            final(self).well_formed(),
            cloned(old(self).items().last(), item),
            clones_of(old(self).items().drop_last(), final(self).items()),
    ;

    /// Returns the item of type `T` on top of the stack, without popping it out from the stack.
    fn peek(&self) -> (item: T)
        requires
            self.well_formed(),
            self.items().len() > 0,
        ensures
            cloned(self.items().last(), item),
    ;

    /// The number of items currently in the stack.
    fn count(&self) -> (n: usize)
        requires
            self.well_formed(),
        ensures
            n == self.items().len(),
    ;
}

} // verus!
