//! Disjoint sets as a forest of parent pointers balanced by rank.

use vstd::prelude::*;
use vstd::arithmetic::logarithm::{lemma_log_is_ordered, lemma_log_pow, log};
use vstd::arithmetic::power2::{
    lemma2_to64, lemma_pow2, lemma_pow2_strictly_increases, lemma_pow2_unfold, pow2,
};
use crate::union_find::forest::{
    class_size, depth, height, is_forest, is_root, lemma_height_bounded, lemma_link,
    lemma_occurrences_bounded, lemma_relabel_occurrences, lemma_singletons, lemma_step,
    lemma_steps, occurrences_among, root_of, roots,
};
use crate::union_find::{
    connected, lemma_relabel_merges, relabel, validate, validate_pair, UnionFind, UnionFindError,
};

verus! {

/// A forest of parent pointers in which a merge hangs the root of lower rank
/// under the root of higher rank, so that no tree grows higher than the
/// logarithm of the number of elements.
pub struct WeightedQuickUnion {
    pub array: Vec<u32>,
    pub ranks: Vec<u32>,
}

/// The rank strictly grows along every parent pointer that is not a root's self-loop.
pub open spec fn rank_ordered(parent: Seq<u32>, ranks: Seq<u32>) -> bool {
    forall|i: int|
        0 <= i < parent.len() && !is_root(parent, i) ==> ranks[i] < ranks[(
        #[trigger] parent[i]) as int]
}

/// A root of rank `k` heads a tree of at least `2^k` elements.
pub open spec fn rank_sized(parent: Seq<u32>, ranks: Seq<u32>) -> bool {
    forall|r: int|
        0 <= r < parent.len() && #[trigger] is_root(parent, r) ==> pow2(ranks[r] as nat)
            <= class_size(roots(parent), r as u32)
}

/// Parent pointers and ranks that belong together.
pub open spec fn balanced(parent: Seq<u32>, ranks: Seq<u32>) -> bool {
    &&& ranks.len() == parent.len()
    &&& is_forest(parent)
    &&& rank_ordered(parent, ranks)
    &&& rank_sized(parent, ranks)
}

/// The rank of a root under which a root of rank `below` has just been hung.
pub open spec fn raised(rank: u32, below: u32) -> int {
    if rank > below {
        rank as int
    } else {
        below + 1
    }
}

/// The parent pointers after the trees rooted at the distinct roots `p_root`
/// and `q_root` are linked: the root of lower rank goes under the other, and
/// on equal ranks `p_root` goes under `q_root`.
pub open spec fn linked_parents(
    parent: Seq<u32>,
    ranks: Seq<u32>,
    p_root: u32,
    q_root: u32,
) -> Seq<u32> {
    if ranks[p_root as int] > ranks[q_root as int] {
        parent.update(q_root as int, p_root)
    } else {
        parent.update(p_root as int, q_root)
    }
}

/// The ranks after the trees rooted at `p_root` and `q_root` are linked.
pub open spec fn linked_ranks(ranks: Seq<u32>, p_root: u32, q_root: u32) -> Seq<u32> {
    let p_rank = ranks[p_root as int];
    let q_rank = ranks[q_root as int];
    if p_rank > q_rank {
        ranks.update(p_root as int, raised(p_rank, q_rank) as u32)
    } else {
        ranks.update(q_root as int, raised(q_rank, p_rank) as u32)
    }
}

/// The class identifiers after the classes labelled `p_root` and `q_root` are linked.
pub open spec fn linked_ids(ids: Seq<u32>, ranks: Seq<u32>, p_root: u32, q_root: u32) -> Seq<u32> {
    if ranks[p_root as int] > ranks[q_root as int] {
        relabel(ids, q_root, p_root)
    } else {
        relabel(ids, p_root, q_root)
    }
}

/// A rank that is backed by that many doublings of a tree's size is small.
pub proof fn lemma_rank_fits(rank: nat, size: nat)
    requires
        pow2(rank) <= size,
        size <= usize::MAX,
    ensures
        rank < 64,
{
    if rank >= 64 {
        lemma2_to64();
        if rank > 64 {
            lemma_pow2_strictly_increases(64, rank);
        }
    }
}

/// In a balanced forest an element's depth plus its rank is at most the rank of its root.
pub proof fn lemma_rank_dominates(parent: Seq<u32>, ranks: Seq<u32>, i: int)
    requires
        ranks.len() == parent.len(),
        is_forest(parent),
        rank_ordered(parent, ranks),
        0 <= i < parent.len(),
    ensures
        depth(parent, i) + ranks[i] <= ranks[root_of(parent, i)],
    decreases depth(parent, i),
{
    lemma_step(parent, i);
    if !is_root(parent, i) {
        lemma_rank_dominates(parent, ranks, parent[i] as int);
    }
}

/// The rank recorded at a root is at least the height of its tree and at
/// most the binary logarithm, rounded down, of the number of elements.
pub proof fn lemma_rank_bounds(parent: Seq<u32>, ranks: Seq<u32>, r: int)
    requires
        balanced(parent, ranks),
        0 <= r < parent.len(),
        is_root(parent, r),
    ensures
        height(parent, r) <= ranks[r],
        ranks[r] <= log(2, parent.len() as int),
{
    let n = parent.len();
    let rank = ranks[r] as nat;
    assert forall|i: int| 0 <= i < n && root_of(parent, i) == r implies depth(parent, i)
        <= rank by {
        lemma_rank_dominates(parent, ranks, i);
    }
    lemma_height_bounded(parent, r, n, rank);
    lemma_occurrences_bounded(roots(parent), r as u32, n);
    lemma_pow2(rank);
    lemma_log_pow(2, rank);
    lemma_log_is_ordered(2, pow2(rank) as int, n as int);
}

/// In a balanced forest no element lies deeper than the binary logarithm,
/// rounded down, of the number of elements.
pub proof fn lemma_depth_logarithmic(parent: Seq<u32>, ranks: Seq<u32>, i: int)
    requires
        balanced(parent, ranks),
        0 <= i < parent.len(),
    ensures
        depth(parent, i) <= log(2, parent.len() as int),
{
    lemma_step(parent, i);
    lemma_rank_dominates(parent, ranks, i);
    lemma_rank_bounds(parent, ranks, root_of(parent, i));
}

/// Linking two distinct roots of a balanced forest by rank keeps it balanced
/// and relabels the class of the root that went under the other.
pub proof fn lemma_link_balanced(parent: Seq<u32>, ranks: Seq<u32>, p_root: u32, q_root: u32)
    requires
        balanced(parent, ranks),
        parent.len() <= usize::MAX,
        (p_root as int) < parent.len(),
        (q_root as int) < parent.len(),
        is_root(parent, p_root as int),
        is_root(parent, q_root as int),
        p_root != q_root,
    ensures
        raised(ranks[p_root as int], ranks[q_root as int]) <= 64,
        raised(ranks[q_root as int], ranks[p_root as int]) <= 64,
        balanced(
            linked_parents(parent, ranks, p_root, q_root),
            linked_ranks(ranks, p_root, q_root),
        ),
        roots(linked_parents(parent, ranks, p_root, q_root)) == linked_ids(
            roots(parent),
            ranks,
            p_root,
            q_root,
        ),
{
    let n = parent.len();
    let ids = roots(parent);
    let p_rank = ranks[p_root as int];
    let q_rank = ranks[q_root as int];
    let (child, top) = if p_rank > q_rank {
        (q_root, p_root)
    } else {
        (p_root, q_root)
    };
    let after = linked_parents(parent, ranks, p_root, q_root);
    let after_ranks = linked_ranks(ranks, p_root, q_root);
    let after_ids = linked_ids(ids, ranks, p_root, q_root);
    assert(after == parent.update(child as int, (top as int) as u32));
    lemma_steps(parent);
    lemma_link(parent, child as int, top as int);
    assert(roots(after) =~= after_ids);
    assert(is_root(parent, child as int));
    assert(is_root(parent, top as int));
    lemma_occurrences_bounded(ids, child, n);
    lemma_occurrences_bounded(ids, top, n);
    lemma_relabel_occurrences(ids, child, top, top, n);
    let child_size = class_size(ids, child);
    let top_size = class_size(ids, top);
    assert(class_size(after_ids, top) == child_size + top_size);
    lemma_occurrences_bounded(after_ids, top, n);
    lemma_rank_fits(ranks[child as int] as nat, child_size);
    lemma_rank_fits(ranks[top as int] as nat, top_size);
    if p_rank == q_rank {
        lemma_pow2_unfold((p_rank + 1) as nat);
        lemma_rank_fits((p_rank + 1) as nat, child_size + top_size);
    } else {
        assert(after_ranks =~= ranks);
    }
    assert(pow2(after_ranks[top as int] as nat) <= class_size(after_ids, top));
    assert forall|i: int| 0 <= i < n && !is_root(after, i) implies after_ranks[i] < after_ranks[(
    #[trigger] after[i]) as int] by {
        if i != child {
            assert(!is_root(parent, i));
            assert(ranks[i] < ranks[parent[i] as int]);
        }
    }
    assert forall|r: int| 0 <= r < n && #[trigger] is_root(after, r) implies pow2(
        after_ranks[r] as nat,
    ) <= class_size(after_ids, r as u32) by {
        if r != top as int {
            assert(r != child as int);
            assert(is_root(parent, r));
            lemma_relabel_occurrences(ids, child, top, r as u32, n);
        }
    }
}

/// No rank of `after` is lower than the rank of `before` at its position.
pub open spec fn never_lower(before: Seq<u32>, after: Seq<u32>) -> bool {
    &&& after.len() == before.len()
    &&& forall|i: int| 0 <= i < before.len() ==> before[i] <= #[trigger] after[i]
}

/// `after` is `before` with the trees rooted at the distinct roots `p_root`
/// and `q_root` linked.
pub open spec fn linked(
    before: WeightedQuickUnion,
    after: WeightedQuickUnion,
    p_root: u32,
    q_root: u32,
) -> bool {
    &&& after.array@ == linked_parents(before.array@, before.ranks@, p_root, q_root)
    &&& after.ranks@ == linked_ranks(before.ranks@, p_root, q_root)
    &&& after.ids() == linked_ids(before.ids(), before.ranks@, p_root, q_root)
}

impl WeightedQuickUnion {
    /// `n` elements, each the root of its own tree, of rank 0.
    pub fn new(n: u32) -> (s: WeightedQuickUnion)
        ensures
            s.well_formed(),
            s.array@.len() == n,
            s.ranks@.len() == n,
            forall|i: int| 0 <= i < n ==> s.array@[i] == i,
            forall|i: int| 0 <= i < n ==> s.ranks@[i] == 0,
            forall|i: int| 0 <= i < n ==> s.ids()[i] == i,
    {
        let mut i: u32 = 0;
        let mut array: Vec<u32> = vec![];
        let mut ranks: Vec<u32> = vec![];
        while i < n
            invariant
                i <= n,
                array@.len() == i,
                ranks@.len() == i,
                forall|j: int| 0 <= j < i ==> array@[j] == j,
                forall|j: int| 0 <= j < i ==> ranks@[j] == 0,
            decreases n - i,
        {
            array.push(i);
            ranks.push(0);
            i += 1;
        }
        proof {
            lemma_singletons(array@);
            lemma2_to64();
            assert forall|r: int| 0 <= r < array@.len() && #[trigger] is_root(
                array@,
                r,
            ) implies pow2(ranks@[r] as nat) <= class_size(roots(array@), r as u32) by {
                assert(array@[r] as int == r);
                lemma_singleton_size(roots(array@), r as u32, array@.len());
            }
        }
        WeightedQuickUnion { array, ranks }
    }

    /// The root of the tree that holds `p`, found by climbing.
    pub fn root(&self, p: u32) -> (r: u32)
        requires
            self.well_formed(),
            (p as int) < self.array@.len(),
        ensures
            r == root_of(self.array@, p as int),
            r == self.ids()[p as int],
            (r as int) < self.array@.len(),
            is_root(self.array@, r as int),
    {
        let mut node = p;
        let mut parent = self.array[p as usize];
        while node != parent
            invariant
                is_forest(self.array@),
                (node as int) < self.array@.len(),
                parent == self.array@[node as int],
                root_of(self.array@, node as int) == root_of(self.array@, p as int),
            decreases depth(self.array@, node as int),
        {
            proof {
                lemma_step(self.array@, node as int);
            }
            node = parent;
            parent = self.array[node as usize];
        }
        proof {
            lemma_step(self.array@, node as int);
        }
        node
    }
}

/// Among labels that name each element by itself, a label in range occurs once.
proof fn lemma_singleton_size(ids: Seq<u32>, r: u32, m: nat)
    requires
        forall|i: int| 0 <= i < ids.len() ==> #[trigger] ids[i] as int == i,
        m <= ids.len(),
    ensures
        occurrences_among(ids, r, m) == (if r < m {
            1nat
        } else {
            0nat
        }),
    decreases m,
{
    if m > 0 {
        lemma_singleton_size(ids, r, (m - 1) as nat);
    }
}

impl UnionFind for WeightedQuickUnion {
    open spec fn well_formed(&self) -> bool {
        balanced(self.array@, self.ranks@)
    }

    open spec fn ids(&self) -> Seq<u32> {
        roots(self.array@)
    }

    fn union(&mut self, p: u32, q: u32) -> (r: Result<(), UnionFindError>)
        ensures
            r is Ok && connected(old(self).ids(), p as int, q as int) ==> *final(self) == *old(self),
            r is Ok && !connected(old(self).ids(), p as int, q as int) ==> linked(
                *old(self),
                *final(self),
                old(self).ids()[p as int],
                old(self).ids()[q as int],
            ),
            never_lower(old(self).ranks@, final(self).ranks@),
    {
        if let Err(e) = validate_pair(self.array.len(), p, q) {
            return Err(e);
        }
        let p_root = self.root(p);
        let q_root = self.root(q);
        proof {
            lemma_relabel_merges(self.ids(), p as int, q as int);
        }
        if p_root == q_root {
            return Ok(());
        }
        let p_rank = self.ranks[p_root as usize];
        let q_rank = self.ranks[q_root as usize];
        proof {
            lemma_link_balanced(self.array@, self.ranks@, p_root, q_root);
        }
        if p_rank > q_rank {
            self.array[q_root as usize] = p_root;
            self.ranks[p_root as usize] = if p_rank > q_rank + 1 {
                p_rank
            } else {
                q_rank + 1
            };
        } else {
            self.array[p_root as usize] = q_root;
            self.ranks[q_root as usize] = if q_rank > p_rank + 1 {
                q_rank
            } else {
                p_rank + 1
            };
        }
        Ok(())
    }

    fn is_connected(&mut self, p: u32, q: u32) -> (r: Result<bool, UnionFindError>)
        ensures
            *final(self) == *old(self),
    {
        if let Err(e) = validate_pair(self.array.len(), p, q) {
            return Err(e);
        }
        Ok(self.root(p) == self.root(q))
    }

    fn find(&mut self, p: u32) -> (r: Result<u32, UnionFindError>)
        ensures
            *final(self) == *old(self),
    {
        if let Err(e) = validate(self.array.len(), p) {
            return Err(e);
        }
        Ok(self.root(p))
    }

    fn count(&self) -> (n: usize) {
        self.array.len()
    }
}

} // verus!
