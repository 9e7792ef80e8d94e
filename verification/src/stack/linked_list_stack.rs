//! A stack as a singly linked list.

use vstd::prelude::*;
use vstd::pervasive::{cloned, unreached};
use crate::stack::{clones_of, Stack};

verus! {

/// One item of the list and the items under it.
pub struct Node<T: Clone> {
    item: T,
    next: Option<Box<Node<T>>>,
}

/// A stack kept as a linked list, the item on top at its head.
pub struct LinkedListStack<T: Clone> {
    head: Option<Box<Node<T>>>,
    size: usize,
}

/// The items of the list that begins at `head`: the head's item last, the
/// items under it before it.
pub closed spec fn chain<T: Clone>(head: Option<Box<Node<T>>>) -> Seq<T>
    decreases head,
{
    match head {
        None => Seq::empty(),
        Some(node) => chain(node.next).push(node.item),
    }
}

impl<T: Clone> Clone for Node<T> {
    fn clone(&self) -> (res: Self)
        ensures
            clones_of(chain(Some(Box::new(*self))), chain(Some(Box::new(res)))),
        decreases self,
    {
        let res = Node {
            item: self.item.clone(),
            next: (match &self.next {
                Some(node) => Some(Box::new((&**node).clone())),
                None => None,
            }),
        };
        res
    }
}

impl<T: Clone> Clone for LinkedListStack<T> {
    fn clone(&self) -> (res: Self)
        ensures
            self.well_formed() ==> res.well_formed(),
            clones_of(self.items(), res.items()),
    {
        let head = self.head.clone();
        proof {
            lemma_cloned_list(self.head, head);
        }
        LinkedListStack { head, size: self.size }
    }
}

/// A clone of a list holds clones of the items of that list, in their order.
proof fn lemma_cloned_list<T: Clone>(head: Option<Box<Node<T>>>, res: Option<Box<Node<T>>>)
    requires
        head is None ==> res is None,
        head is Some ==> res is Some && cloned(head.unwrap(), res.unwrap()),
    ensures
        clones_of(chain(head), chain(res)),
{
    if head is Some {
        let a = head.unwrap();
        let b = res.unwrap();
        assert(cloned::<Node<T>>(*a, *b));
        assert(clones_of(chain(Some(Box::new(*a))), chain(Some(Box::new(*b)))));
    }
}

impl<T: Clone> Stack<T> for LinkedListStack<T> {
    closed spec fn well_formed(&self) -> bool {
        self.size == chain(self.head).len()
    }

    closed spec fn items(&self) -> Seq<T> {
        chain(self.head)
    }

    /// The number of items can still be counted after one more.
    open spec fn has_room(&self) -> bool {
        self.items().len() < usize::MAX
    }

    /// Push item of type `T` into the head of the linked list
    /// Note that `self.head` needs to cloned in order to perform a move.
    /// This has to be done explicitely, because `Box` types don't implement the Copy trait
    /// Time and space complexity: O(1) - however it may depend on the clone
    fn push(&mut self, item: T) {
        let head = self.head.clone();
        proof {
            lemma_cloned_list(self.head, head);
        }
        let new_head = Node { item, next: head };
        self.head = Some(Box::new(new_head));
        self.size += 1;
        proof {
            assert(self.items().drop_last() == chain(head));
        }
    }

    /// Returns item reference by `head` from the linked list
    /// Update `head` to point to the second element in the linked list
    /// Time and space complexity: O(1) - however it may depend on the clone
    fn pop(&mut self) -> (item: T) {
        let cloned_head = self.head.clone();
        proof {
            lemma_cloned_list(self.head, cloned_head);
        }
        let previous_head = match cloned_head {
            Some(h) => h,
            None => unreached(),
        };
        let node = *previous_head;
        proof {
            let cloned_items = chain(Some(Box::new(node)));
            assert(cloned_items.drop_last() == chain(node.next));
            assert(cloned_items[cloned_items.len() - 1] == node.item);
        }
        self.head = node.next;
        self.size -= 1;
        node.item
    }

    /// Time and space complexity: O(1) - however it may depend on the clone
    fn peek(&self) -> (item: T) {
        let cloned_head = self.head.clone();
        proof {
            lemma_cloned_list(self.head, cloned_head);
        }
        match cloned_head {
            Some(h) => {
                proof {
                    let cloned_items = chain(Some(h));
                    assert(cloned_items[cloned_items.len() - 1] == h.item);
                }
                (*h).item
            },
            None => unreached(),
        }
    }

    /// Time and space complexity: O(1)
    fn count(&self) -> (n: usize) {
        self.size
    }
}

impl<T: Clone> LinkedListStack<T> {
    /// An empty stack.
    pub fn new() -> (stack: Self)
        ensures
            stack.well_formed(),
            stack.items().len() == 0,
    {
        LinkedListStack::<T> { head: None, size: 0 }
    }
}

} // verus!
