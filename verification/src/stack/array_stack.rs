//! A stack in an array of cells that grows and shrinks with the number of items.

use vstd::prelude::*;
use vstd::pervasive::{cloned, unreached};
use crate::stack::{clones_of, Stack};

verus! {

/// Uses a Vector of a given capacity (16 by default)
pub struct ArrayStack<T: Clone> {
    array: Vec<Option<T>>,
    count: usize,
    capacity: usize,
}

/// The first `count` cells of `cells`, each of which holds an item.
pub open spec fn held<T>(cells: Seq<Option<T>>, count: int) -> Seq<T> {
    Seq::new(count as nat, |i: int| cells[i].unwrap())
}

/// `cells` holds an item in each of its first `count` cells.
pub open spec fn filled<T>(cells: Seq<Option<T>>, count: int) -> bool {
    &&& 0 <= count <= cells.len()
    &&& forall|i: int| 0 <= i < count ==> (#[trigger] cells[i]) is Some
}

/// The capacity after a push onto `count` items in `capacity` cells: doubled
/// where all cells are taken.
pub open spec fn grown(capacity: int, count: int) -> int {
    if capacity == count {
        capacity * 2
    } else {
        capacity
    }
}

/// The capacity after a pop that leaves `count` items in `capacity` cells:
/// halved where no more than a quarter of the cells is taken.
pub open spec fn shrunk(capacity: int, count: int) -> int {
    if count <= capacity / 4 {
        capacity / 2
    } else {
        capacity
    }
}

impl<T: Clone> ArrayStack<T> {
    /// The number of cells.
    pub closed spec fn cells(&self) -> int {
        self.capacity as int
    }

    /// An empty stack of `initial_capacity` cells.
    pub fn new(initial_capacity: usize) -> (stack: Self)
        ensures
            stack.well_formed(),
            stack.items().len() == 0,
            stack.cells() == initial_capacity,
    {
        let mut stack = ArrayStack {
            array: Vec::with_capacity(initial_capacity),
            count: 0,
            capacity: initial_capacity,
        };
        stack.array = vec![None; initial_capacity];
        return stack;
    }

    /// The number of cells.
    pub fn capacity(&self) -> (n: usize)
        ensures
            n == self.cells(),
    {
        self.capacity
    }

    /// Allocates a new vector with the updated capacity
    /// Copies elements to the new vector, while filling with `None` the new added cells
    /// Time and space complexity: O(n)
    fn update_capacity(&mut self, new_capacity: usize)
        requires
            old(self).well_formed(),
            old(self).count <= new_capacity,
        ensures
            final(self).well_formed(),
            final(self).capacity == new_capacity,
            final(self).count == old(self).count,
            clones_of(old(self).items(), final(self).items()),
    {
        let mut new_array: Vec<Option<T>> = Vec::with_capacity(new_capacity);
        for i in 0..new_capacity
            invariant
                self == old(self),
                self.well_formed(),
                self.count <= new_capacity,
                new_array@.len() == i,
                forall|j: int| 0 <= j < i && j < self.count ==> (#[trigger] new_array@[j]) is Some,
                forall|j: int|
                    0 <= j < i && j < self.count ==> cloned(
                        self.array@[j].unwrap(),
                        (#[trigger] new_array@[j]).unwrap(),
                    ),
        {
            let elem = match self.array.get(i) {
                None => None,
                Some(item) => item.clone(),
            };
            new_array.push(elem);
        }
        self.capacity = new_capacity;
        self.array = new_array;
    }
}

impl<T: Clone> Stack<T> for ArrayStack<T> {
    closed spec fn well_formed(&self) -> bool {
        &&& self.array@.len() == self.capacity
        &&& filled(self.array@, self.count as int)
    }

    closed spec fn items(&self) -> Seq<T> {
        held(self.array@, self.count as int)
    }

    /// There is a cell at all, and where every cell is taken, twice as many
    /// cells can still be counted.
    open spec fn has_room(&self) -> bool {
        &&& self.cells() >= 1
        &&& self.cells() == self.items().len() ==> self.cells() * 2 <= usize::MAX
    }

    /// Pushes item of type `T` at the position pointed by `head`
    /// Capacity will be updated once `capacity == count`
    /// Amortized complexity: O(1)
    fn push(&mut self, item: T)
        ensures
            final(self).cells() == grown(old(self).cells(), old(self).items().len() as int),
    {
        if self.capacity() == self.count {
            self.update_capacity(self.capacity() * 2);
        }
        let ghost before = self.items();
        self.array[self.count] = Some(item);
        self.count += 1;
        proof {
            assert(self.items().drop_last() == before);
        }
    }

    /// Pops item of type `T` pointed by `head`
    /// Sets `array[head]` to None
    /// Capacity will be updated once `count` will become equals or less then 25% of the capacity
    /// Amortized complexity: O(1)
    /// Note that element needs to be cloned
    fn pop(&mut self) -> (item: T)
        ensures
            final(self).cells() == shrunk(old(self).cells(), old(self).items().len() - 1),
    {
        let head = self.count - 1;
        let value = self.array[head].clone();
        let item = match value {
            None => unreached(),
            Some(item) => item,
        };
        self.array[head] = None;
        self.count -= 1;
        proof {
            assert(self.items() == old(self).items().drop_last());
        }
        if self.count <= self.capacity() / 4 {
            self.update_capacity(self.capacity() / 2);
        }
        item
    }

    fn peek(&self) -> (item: T) {
        match self.array[self.count - 1].clone() {
            None => unreached(),
            Some(item) => item,
        }
    }

    fn count(&self) -> (n: usize) {
        self.count
    }
}

} // verus!
