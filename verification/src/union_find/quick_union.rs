//! Disjoint sets as an unbalanced forest of parent pointers.

use vstd::prelude::*;
use crate::union_find::forest::{
    depth, is_forest, is_root, lemma_link, lemma_singletons, lemma_step, lemma_steps, root_of,
    roots,
};
use crate::union_find::{
    lemma_relabel_merges, relabel, validate, validate_pair, UnionFind, UnionFindError,
};

verus! {

/// A forest of parent pointers without balancing: a merge costs one root
/// lookup per operand, and a lookup costs the depth of the element.
pub struct QuickUnion {
    pub array: Vec<u32>,
}

impl QuickUnion {
    /// `n` elements, each the root of its own tree.
    pub fn new(n: u32) -> (s: QuickUnion)
        ensures
            s.well_formed(),
            s.array@.len() == n,
            forall|i: int| 0 <= i < n ==> s.array@[i] == i,
            forall|i: int| 0 <= i < n ==> s.ids()[i] == i,
    {
        let mut i: u32 = 0;
        let mut array: Vec<u32> = vec![];
        while i < n
            invariant
                i <= n,
                array@.len() == i,
                forall|j: int| 0 <= j < i ==> array@[j] == j,
            decreases n - i,
        {
            array.push(i);
            i += 1;
        }
        proof {
            lemma_singletons(array@);
        }
        QuickUnion { array }
    }

    /// The root of the tree that holds `p`, found by climbing.
    pub fn root(&self, p: u32) -> (r: u32)
        requires
            self.well_formed(),
            (p as int) < self.array@.len(),
        ensures
            r == root_of(self.array@, p as int),
            r == self.ids()[p as int],
            (r as int) < self.array@.len(),
            is_root(self.array@, r as int),
    {
        let mut node = p;
        let mut parent = self.array[p as usize];
        while node != parent
            invariant
                is_forest(self.array@),
                (node as int) < self.array@.len(),
                parent == self.array@[node as int],
                root_of(self.array@, node as int) == root_of(self.array@, p as int),
            decreases depth(self.array@, node as int),
        {
            proof {
                lemma_step(self.array@, node as int);
            }
            node = parent;
            parent = self.array[node as usize];
        }
        proof {
            lemma_step(self.array@, node as int);
        }
        node
    }
}

impl UnionFind for QuickUnion {
    open spec fn well_formed(&self) -> bool {
        is_forest(self.array@)
    }

    open spec fn ids(&self) -> Seq<u32> {
        roots(self.array@)
    }

    fn union(&mut self, p: u32, q: u32) -> (r: Result<(), UnionFindError>)
        ensures
            r is Ok ==> final(self).array@ == old(self).array@.update(
                old(self).ids()[p as int] as int,
                old(self).ids()[q as int],
            ),
            r is Ok ==> final(self).ids() == relabel(
                old(self).ids(),
                old(self).ids()[p as int],
                old(self).ids()[q as int],
            ),
    {
        if let Err(e) = validate_pair(self.array.len(), p, q) {
            return Err(e);
        }
        let p_root = self.root(p);
        let q_root = self.root(q);
        proof {
            lemma_steps(self.array@);
            lemma_relabel_merges(self.ids(), p as int, q as int);
            if p_root != q_root {
                lemma_link(self.array@, p_root as int, q_root as int);
            }
        }
        self.array[p_root as usize] = q_root;
        proof {
            let before = old(self).array@;
            assert(self.array@ == before.update(p_root as int, q_root));
            if p_root == q_root {
                assert(self.array@ == before);
            } else {
                assert(self.array@ == before.update(p_root as int, (q_root as int) as u32));
            }
            assert(self.ids() == relabel(old(self).ids(), p_root, q_root));
        }
        Ok(())
    }

    fn is_connected(&mut self, p: u32, q: u32) -> (r: Result<bool, UnionFindError>)
        ensures
            *final(self) == *old(self),
    {
        if let Err(e) = validate_pair(self.array.len(), p, q) {
            return Err(e);
        }
        Ok(self.root(p) == self.root(q))
    }

    fn find(&mut self, p: u32) -> (r: Result<u32, UnionFindError>)
        ensures
            *final(self) == *old(self),
    {
        if let Err(e) = validate(self.array.len(), p) {
            return Err(e);
        }
        Ok(self.root(p))
    }

    fn count(&self) -> (n: usize) {
        self.array.len()
    }
}

} // verus!
