//! Disjoint sets over the integers `0..n`: the shared contract, what it means
//! to merge two classes, and the laws that hold of every implementation.

use vstd::prelude::*;

pub mod forest;
pub mod history;
pub mod quick_find;
pub mod quick_union;
pub mod weighted_quick_union;
pub mod weighted_quick_union_with_path_compression;

verus! {

/// Why an operation on a disjoint-set structure was rejected.
#[derive(Debug, Clone, Copy, PartialEq, Eq, Structural)]
pub enum UnionFindError {
    /// The structure tracks no element at all, so there is nothing to query or merge.
    EmptyStructure,
    /// An element identifier lies outside `[0, bound)`.
    IndexOutOfRange { index: u32, bound: usize },
}

/// The verdict on one element identifier `p` against a universe of `n` elements.
pub open spec fn check_one(n: nat, p: u32) -> Result<(), UnionFindError> {
    if n == 0 {
        Err(UnionFindError::EmptyStructure)
    } else if p as nat >= n {
        Err(UnionFindError::IndexOutOfRange { index: p, bound: n as usize })
    } else {
        Ok(())
    }
}

/// The verdict on a pair of identifiers: `p` is judged first, then `q`.
pub open spec fn check_pair(n: nat, p: u32, q: u32) -> Result<(), UnionFindError> {
    if check_one(n, p) is Err {
        check_one(n, p)
    } else {
        check_one(n, q)
    }
}

/// Judges one element identifier against a universe of `n` elements.
pub fn validate(n: usize, p: u32) -> (r: Result<(), UnionFindError>)
    ensures
        r == check_one(n as nat, p),
{
    if n == 0 {
        Err(UnionFindError::EmptyStructure)
    } else if p as usize >= n {
        Err(UnionFindError::IndexOutOfRange { index: p, bound: n })
    } else {
        Ok(())
    }
}

/// Judges a pair of element identifiers against a universe of `n` elements.
pub fn validate_pair(n: usize, p: u32, q: u32) -> (r: Result<(), UnionFindError>)
    ensures
        r == check_pair(n as nat, p, q),
{
    if let Err(e) = validate(n, p) {
        return Err(e);
    }
    validate(n, q)
}

/// Elements `a` and `b` carry the same class identifier.
pub open spec fn connected<T>(ids: Seq<T>, a: int, b: int) -> bool {
    ids[a] == ids[b]
}

/// Element `a` belongs to the class of `p` or to the class of `q`.
pub open spec fn touches<T>(ids: Seq<T>, p: int, q: int, a: int) -> bool {
    connected(ids, a, p) || connected(ids, a, q)
}

/// `a` and `b` belong together once the classes of `p` and `q` are merged.
pub open spec fn joined<T>(ids: Seq<T>, p: int, q: int, a: int, b: int) -> bool {
    connected(ids, a, b) || (touches(ids, p, q, a) && touches(ids, p, q, b))
}

/// `after` partitions the same elements as `before`, except that the classes
/// of `p` and `q` have become one.
pub open spec fn merges<T, U>(before: Seq<T>, after: Seq<U>, p: int, q: int) -> bool {
    &&& after.len() == before.len()
    &&& forall|a: int, b: int|
        0 <= a < before.len() && 0 <= b < before.len() ==> (#[trigger] connected(after, a, b)
            <==> joined(before, p, q, a, b))
}

/// Every element labelled `from` is relabelled `to`; all other labels stay.
pub open spec fn relabel<T>(ids: Seq<T>, from: T, to: T) -> Seq<T> {
    Seq::new(ids.len(), |i: int| if ids[i] == from { to } else { ids[i] })
}

/// What `is_connected(p, q)` answers on a structure whose class identifiers are `ids`.
pub open spec fn connectivity(ids: Seq<u32>, p: u32, q: u32) -> Result<bool, UnionFindError> {
    match check_pair(ids.len(), p, q) {
        Ok(()) => Ok(connected(ids, p as int, q as int)),
        Err(e) => Err(e),
    }
}

/// What `find(p)` answers on a structure whose class identifiers are `ids`.
pub open spec fn class_of(ids: Seq<u32>, p: u32) -> Result<u32, UnionFindError> {
    match check_one(ids.len(), p) {
        Ok(()) => Ok(ids[p as int]),
        Err(e) => Err(e),
    }
}

/// A partition of the integers `0..n` into classes that can only be merged.
///
/// Every implementation is described by `ids()`: one class identifier per
/// element, equal for two elements exactly when they are in the same class.
/// A query may rearrange what an implementation keeps, which is why it takes
/// `&mut self`, but it never changes an identifier. A call that is rejected
/// changes nothing at all.
pub trait UnionFind: Sized {
    /// The representation invariant of the implementation.
    spec fn well_formed(&self) -> bool;

    /// The class identifier of every element, by element.
    spec fn ids(&self) -> Seq<u32>;

    /// Merges the class of `p` with the class of `q`.
    fn union(&mut self, p: u32, q: u32) -> (r: Result<(), UnionFindError>)
        requires
            old(self).well_formed(),
        ensures
            final(self).well_formed(),
            r == check_pair(old(self).ids().len(), p, q),
            r is Err ==> *final(self) == *old(self),
            r is Ok ==> merges(old(self).ids(), final(self).ids(), p as int, q as int),
            r is Ok && connected(old(self).ids(), p as int, q as int) ==> final(self).ids()
                == old(self).ids(),
    ;

    /// Whether `p` and `q` are in the same class.
    fn is_connected(&mut self, p: u32, q: u32) -> (r: Result<bool, UnionFindError>)
        requires
            old(self).well_formed(),
        ensures
            final(self).well_formed(),
            final(self).ids() == old(self).ids(),
            r == connectivity(old(self).ids(), p, q),
            r is Err ==> *final(self) == *old(self),
    ;

    /// The identifier of the class of `p`.
    fn find(&mut self, p: u32) -> (r: Result<u32, UnionFindError>)
        requires
            old(self).well_formed(),
        ensures
            final(self).well_formed(),
            final(self).ids() == old(self).ids(),
            r == class_of(old(self).ids(), p),
            r is Err ==> *final(self) == *old(self),
    ;

    /// The number of elements, not of classes.
    fn count(&self) -> (n: usize)
        ensures
            n == self.ids().len(),
    ;
}

/// Relabelling the class of `p` with the label of `q` merges exactly these two classes.
pub proof fn lemma_relabel_merges<T>(ids: Seq<T>, p: int, q: int)
    requires
        0 <= p < ids.len(),
        0 <= q < ids.len(),
    ensures
        merges(ids, relabel(ids, ids[p], ids[q]), p, q),
        merges(ids, relabel(ids, ids[q], ids[p]), p, q),
{
}

/// Every element is connected to itself.
pub proof fn lemma_connectivity_reflexive(ids: Seq<u32>, p: u32)
    requires
        check_one(ids.len(), p) is Ok,
    ensures
        connectivity(ids, p, p) == Ok::<bool, UnionFindError>(true),
{
}

/// Whether two elements are connected does not depend on which is named first.
pub proof fn lemma_connectivity_symmetric(ids: Seq<u32>, p: u32, q: u32)
    requires
        check_one(ids.len(), p) is Ok,
        check_one(ids.len(), q) is Ok,
    ensures
        connectivity(ids, p, q) == connectivity(ids, q, p),
{
}

/// Two elements connected to a third are connected to each other.
pub proof fn lemma_connectivity_transitive(ids: Seq<u32>, p: u32, q: u32, r: u32)
    requires
        check_one(ids.len(), p) is Ok,
        check_one(ids.len(), q) is Ok,
        check_one(ids.len(), r) is Ok,
        connectivity(ids, p, q) == Ok::<bool, UnionFindError>(true),
        connectivity(ids, q, r) == Ok::<bool, UnionFindError>(true),
    ensures
        connectivity(ids, p, r) == Ok::<bool, UnionFindError>(true),
{
}

/// Merging the classes of `p` and `q` a second time changes no answer of `is_connected`.
pub proof fn lemma_union_idempotent(
    before: Seq<u32>,
    once: Seq<u32>,
    twice: Seq<u32>,
    p: u32,
    q: u32,
)
    requires
        check_pair(before.len(), p, q) is Ok,
        merges(before, once, p as int, q as int),
        merges(once, twice, p as int, q as int),
    ensures
        twice.len() == once.len(),
        forall|a: u32, b: u32| #[trigger] connectivity(twice, a, b) == connectivity(once, a, b),
{
    assert(connected(once, p as int, q as int));
    assert forall|a: u32, b: u32| #[trigger]
        connectivity(twice, a, b) == connectivity(once, a, b) by {
        if check_pair(once.len(), a, b) is Ok {
            assert(connected(twice, a as int, b as int) <==> joined(
                once,
                p as int,
                q as int,
                a as int,
                b as int,
            ));
        }
    }
}

} // verus!
