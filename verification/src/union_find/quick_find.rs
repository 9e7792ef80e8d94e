//! Disjoint sets as an array of class identifiers.

use vstd::prelude::*;
use crate::union_find::{
    lemma_relabel_merges, relabel, validate, validate_pair, UnionFind, UnionFindError,
};

verus! {

/// Keeps the class identifier of every element in one array: constant-time
/// queries, linear-time merges.
pub struct QuickFind {
    pub array: Vec<u32>,
}

/// The same structure under the name it is also known by; a value may be
/// written down with any identifiers, one per element.
pub type DisjointSet = QuickFind;

impl QuickFind {
    /// `n` elements, each alone in its class and labelled by itself.
    pub fn new(n: u32) -> (s: QuickFind)
        ensures
            s.well_formed(),
            s.ids().len() == n,
            forall|i: int| 0 <= i < n ==> s.ids()[i] == i,
    {
        let mut i: u32 = 0;
        let mut array: Vec<u32> = vec![];
        while i < n
            invariant
                i <= n,
                array@.len() == i,
                forall|j: int| 0 <= j < i ==> array@[j] == j,
            decreases n - i,
        {
            array.push(i);
            i += 1;
        }
        QuickFind { array }
    }
}

impl UnionFind for QuickFind {
    open spec fn well_formed(&self) -> bool {
        true
    }

    open spec fn ids(&self) -> Seq<u32> {
        self.array@
    }

    fn union(&mut self, p: u32, q: u32) -> (r: Result<(), UnionFindError>)
        ensures
            r is Ok ==> final(self).ids() == relabel(
                old(self).ids(),
                old(self).ids()[p as int],
                old(self).ids()[q as int],
            ),
    {
        if let Err(e) = validate_pair(self.array.len(), p, q) {
            return Err(e);
        }
        let p_value = self.array[p as usize];
        let q_value = self.array[q as usize];
        proof {
            lemma_relabel_merges(self.array@, p as int, q as int);
        }
        if p_value == q_value {
            assert(self.array@ == relabel(self.array@, p_value, q_value));
            return Ok(());
        }
        let mut index: usize = 0;
        while index < self.array.len()
            invariant
                index <= self.array@.len() == old(self).array@.len(),
                forall|j: int|
                    0 <= j < index ==> self.array@[j] == relabel(
                        old(self).array@,
                        p_value,
                        q_value,
                    )[j],
                forall|j: int|
                    index <= j < self.array@.len() ==> self.array@[j] == old(self).array@[j],
            decreases self.array@.len() - index,
        {
            let elem = self.array[index];
            if elem == p_value {
                self.array[index] = q_value;
            }
            index += 1;
        }
        assert(self.array@ == relabel(old(self).array@, p_value, q_value));
        Ok(())
    }

    fn is_connected(&mut self, p: u32, q: u32) -> (r: Result<bool, UnionFindError>)
        ensures
            *final(self) == *old(self),
    {
        if let Err(e) = validate_pair(self.array.len(), p, q) {
            return Err(e);
        }
        Ok(self.array[p as usize] == self.array[q as usize])
    }

    fn find(&mut self, p: u32) -> (r: Result<u32, UnionFindError>)
        ensures
            *final(self) == *old(self),
    {
        if let Err(e) = validate(self.array.len(), p) {
            return Err(e);
        }
        Ok(self.array[p as usize])
    }

    fn count(&self) -> (n: usize) {
        self.array.len()
    }
}

} // verus!
