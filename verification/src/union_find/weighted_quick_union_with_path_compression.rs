//! Disjoint sets as a forest balanced by rank whose lookups shorten paths.

use vstd::prelude::*;
use crate::union_find::forest::{
    climb, depth, halved, is_forest, is_root, lemma_climb_depth, lemma_climb_further,
    lemma_climb_past_root, lemma_shortcut, lemma_steps, met_before, on_path, roots,
};
use crate::union_find::weighted_quick_union::{
    balanced, lemma_link_balanced, linked_ids, linked_parents, linked_ranks, never_lower,
    WeightedQuickUnion,
};
use crate::union_find::{lemma_relabel_merges, validate, validate_pair, UnionFind, UnionFindError};

verus! {

/// A weighted forest whose root lookups shorten the path they climb: every
/// element met on the way is pointed at its grandparent.
pub struct WeightedQuickUnionWithPathCompression<WQU> {
    pub wqu: WQU,
}

/// Pointing `node` at its grandparent keeps a balanced forest balanced and
/// leaves the root of every element as it was.
pub proof fn lemma_shortcut_balanced(parent: Seq<u32>, ranks: Seq<u32>, node: int)
    requires
        balanced(parent, ranks),
        0 <= node < parent.len(),
    ensures
        balanced(parent.update(node, parent[parent[node] as int]), ranks),
        roots(parent.update(node, parent[parent[node] as int])) == roots(parent),
{
    let short = parent.update(node, parent[parent[node] as int]);
    lemma_shortcut(parent, node);
    assert(roots(short) =~= roots(parent));
    let up = parent[node] as int;
    assert forall|i: int| 0 <= i < short.len() && !is_root(short, i) implies ranks[i] < ranks[(
    #[trigger] short[i]) as int] by {
        if i == node {
            assert(!is_root(parent, node));
            assert(ranks[node] < ranks[parent[node] as int]);
            if !is_root(parent, up) {
                assert(ranks[up] < ranks[parent[up] as int]);
            }
        } else {
            assert(ranks[i] < ranks[parent[i] as int]);
        }
    }
    assert forall|r: int| 0 <= r < short.len() && #[trigger] is_root(short, r) implies is_root(
        parent,
        r,
    ) by {
        if r == node && !is_root(parent, node) {
            assert(ranks[node] < ranks[parent[node] as int]);
            if !is_root(parent, up) {
                assert(ranks[up] < ranks[parent[up] as int]);
            }
        }
    }
}

/// `after` is `before` once the climbs from `p` and from `q` have been
/// halved, in this order, and the trees of `p` and `q`, where they are two,
/// have been linked.
pub open spec fn united(before: WeightedQuickUnion, after: WeightedQuickUnion, p: u32, q: u32) -> bool {
    let p_root = before.ids()[p as int];
    let q_root = before.ids()[q as int];
    let short = halved(halved(before.array@, p as int), q as int);
    if p_root == q_root {
        &&& after.array@ == short
        &&& after.ranks@ == before.ranks@
        &&& after.ids() == before.ids()
    } else {
        &&& after.array@ == linked_parents(short, before.ranks@, p_root, q_root)
        &&& after.ranks@ == linked_ranks(before.ranks@, p_root, q_root)
        &&& after.ids() == linked_ids(before.ids(), before.ranks@, p_root, q_root)
    }
}

impl WeightedQuickUnionWithPathCompression<WeightedQuickUnion> {
    /// `n` elements, each the root of its own tree, of rank 0.
    pub fn new(n: u32) -> (s: Self)
        ensures
            s.well_formed(),
            s.wqu.array@.len() == n,
            s.wqu.ranks@.len() == n,
            forall|i: int| 0 <= i < n ==> s.wqu.array@[i] == i,
            forall|i: int| 0 <= i < n ==> s.wqu.ranks@[i] == 0,
            forall|i: int| 0 <= i < n ==> s.ids()[i] == i,
    {
        let wqu = WeightedQuickUnion::new(n);
        WeightedQuickUnionWithPathCompression { wqu }
    }

    /// The root of the tree that holds `p`. On the way up, every element met
    /// is pointed at its grandparent.
    pub fn root(&mut self, p: u32) -> (r: u32)
        requires
            old(self).well_formed(),
            (p as int) < old(self).wqu.array@.len(),
        ensures
            final(self).well_formed(),
            r == old(self).ids()[p as int],
            final(self).ids() == old(self).ids(),
            final(self).wqu.array@ == halved(old(self).wqu.array@, p as int),
            final(self).wqu.ranks@ == old(self).wqu.ranks@,
    {
        let ghost before = self.wqu.array@;
        let ghost mut k: nat = 0;
        let mut node = p as usize;
        let mut parent = self.wqu.array[p as usize] as usize;
        proof {
            lemma_steps(before);
        }
        while node != parent
            invariant
                before == old(self).wqu.array@,
                is_forest(before),
                (p as int) < before.len(),
                self.wqu.array@.len() == before.len(),
                self.wqu.ranks@ == old(self).wqu.ranks@,
                balanced(self.wqu.array@, self.wqu.ranks@),
                roots(self.wqu.array@) == roots(before),
                k <= depth(before, p as int),
                node == climb(before, p as int, k),
                node < before.len(),
                parent == before[node as int],
                forall|i: int|
                    0 <= i < before.len() ==> #[trigger] self.wqu.array@[i] == (if met_before(
                        before,
                        p as int,
                        k,
                        i,
                    ) {
                        before[before[i] as int]
                    } else {
                        before[i]
                    }),
            decreases depth(before, p as int) - k,
        {
            proof {
                lemma_steps(before);
                lemma_climb_depth(before, p as int, k);
                assert(!is_root(before, node as int));
                lemma_climb_depth(before, p as int, k + 1);
                lemma_climb_further(before, p as int, k);
                assert(parent == climb(before, p as int, k + 1));
                assert(!met_before(before, p as int, k, parent as int)) by {
                    if met_before(before, p as int, k, parent as int) {
                        let j = choose|j: nat|
                            j < k && #[trigger] climb(before, p as int, j) == parent as int;
                        lemma_climb_depth(before, p as int, j);
                    }
                }
                assert(!met_before(before, p as int, k, node as int)) by {
                    if met_before(before, p as int, k, node as int) {
                        let j = choose|j: nat|
                            j < k && #[trigger] climb(before, p as int, j) == node as int;
                        lemma_climb_depth(before, p as int, j);
                    }
                }
                assert(self.wqu.array@[parent as int] == before[parent as int]);
                assert(self.wqu.array@[node as int] == before[node as int]);
                lemma_shortcut_balanced(self.wqu.array@, self.wqu.ranks@, node as int);
            }
            let ghost current = self.wqu.array@;
            self.wqu.array[node] = self.wqu.array[parent];
            proof {
                assert(self.wqu.array@ == current.update(
                    node as int,
                    current[current[node as int] as int],
                ));
                assert forall|i: int| 0 <= i < before.len() implies #[trigger] self.wqu.array@[i]
                    == (if met_before(before, p as int, k + 1, i) {
                    before[before[i] as int]
                } else {
                    before[i]
                }) by {
                    if i == node as int {
                        assert(climb(before, p as int, k) == i);
                        assert(met_before(before, p as int, k + 1, i));
                    } else if met_before(before, p as int, k, i) {
                        let j = choose|j: nat| j < k && #[trigger] climb(before, p as int, j) == i;
                        assert(j < k + 1);
                    } else if met_before(before, p as int, k + 1, i) {
                        let j = choose|j: nat|
                            j < k + 1 && #[trigger] climb(before, p as int, j) == i;
                        assert(j < k);
                    }
                }
                k = k + 1;
            }
            node = parent;
            parent = self.wqu.array[node] as usize;
        }
        proof {
            lemma_steps(before);
            lemma_climb_depth(before, p as int, k);
            assert(is_root(before, node as int));
            assert(k == depth(before, p as int));
            assert forall|i: int| 0 <= i < before.len() implies self.wqu.array@[i] == halved(
                before,
                p as int,
            )[i] by {
                if met_before(before, p as int, k, i) {
                    let j = choose|j: nat| j < k && #[trigger] climb(before, p as int, j) == i;
                    assert(on_path(before, p as int, i));
                } else if on_path(before, p as int, i) {
                    let j = choose|j: nat| #[trigger] climb(before, p as int, j) == i;
                    lemma_climb_past_root(before, p as int, j);
                }
            }
            assert(self.wqu.array@ =~= halved(before, p as int));
        }
        node as u32
    }
}

impl UnionFind for WeightedQuickUnionWithPathCompression<WeightedQuickUnion> {
    open spec fn well_formed(&self) -> bool {
        self.wqu.well_formed()
    }

    open spec fn ids(&self) -> Seq<u32> {
        self.wqu.ids()
    }

    fn union(&mut self, p: u32, q: u32) -> (r: Result<(), UnionFindError>)
        ensures
            r is Ok ==> united(old(self).wqu, final(self).wqu, p, q),
            never_lower(old(self).wqu.ranks@, final(self).wqu.ranks@),
    {
        if let Err(e) = validate_pair(self.wqu.array.len(), p, q) {
            return Err(e);
        }
        let p_root = self.root(p);
        let q_root = self.root(q);
        proof {
            lemma_relabel_merges(self.ids(), p as int, q as int);
            lemma_steps(self.wqu.array@);
        }
        if p_root == q_root {
            return Ok(());
        }
        let p_rank = self.wqu.ranks[p_root as usize];
        let q_rank = self.wqu.ranks[q_root as usize];
        proof {
            lemma_link_balanced(self.wqu.array@, self.wqu.ranks@, p_root, q_root);
        }
        if p_rank > q_rank {
            self.wqu.array[q_root as usize] = p_root;
            self.wqu.ranks[p_root as usize] = if p_rank > q_rank + 1 {
                p_rank
            } else {
                q_rank + 1
            };
        } else {
            self.wqu.array[p_root as usize] = q_root;
            self.wqu.ranks[q_root as usize] = if q_rank > p_rank + 1 {
                q_rank
            } else {
                p_rank + 1
            };
        }
        Ok(())
    }

    fn is_connected(&mut self, p: u32, q: u32) -> (r: Result<bool, UnionFindError>)
        ensures
            r is Ok ==> final(self).wqu.array@ == halved(
                halved(old(self).wqu.array@, p as int),
                q as int,
            ),
            final(self).wqu.ranks@ == old(self).wqu.ranks@,
    {
        if let Err(e) = validate_pair(self.wqu.array.len(), p, q) {
            return Err(e);
        }
        let p_root = self.root(p);
        let q_root = self.root(q);
        Ok(p_root == q_root)
    }

    fn find(&mut self, p: u32) -> (r: Result<u32, UnionFindError>)
        ensures
            r is Ok ==> final(self).wqu.array@ == halved(old(self).wqu.array@, p as int),
            final(self).wqu.ranks@ == old(self).wqu.ranks@,
    {
        if let Err(e) = validate(self.wqu.array.len(), p) {
            return Err(e);
        }
        Ok(self.root(p))
    }

    fn count(&self) -> (n: usize) {
        self.wqu.array.len()
    }
}

} // verus!
