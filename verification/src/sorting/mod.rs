//! Comparison sorts on vectors: by selection, by insertion and by merging.

use vstd::prelude::*;
use vstd::seq_lib::{lemma_multiset_commutative, to_multiset_build, to_multiset_update};
use crate::sorting::order::{le, lt, total_order};

pub mod order;
pub mod quick_sort;

verus! {

/// The elements of `s` stand in non-decreasing order.
pub open spec fn sorted<T: PartialOrd>(s: Seq<T>) -> bool {
    forall|i: int, j: int| 0 <= i <= j < s.len() ==> le(s[i], s[j])
}

/// `s` with the elements at `i` and `j` exchanged.
pub open spec fn swapped<T>(s: Seq<T>, i: int, j: int) -> Seq<T> {
    s.update(i, s[j]).update(j, s[i])
}

/// Exchanging two elements keeps every element, each as often as before.
pub proof fn lemma_swap_permutes<T>(s: Seq<T>, i: int, j: int)
    requires
        0 <= i < s.len(),
        0 <= j < s.len(),
    ensures
        swapped(s, i, j).to_multiset() == s.to_multiset(),
{
    s.to_multiset_ensures();
    to_multiset_update(s, i, s[j]);
    to_multiset_update(s.update(i, s[j]), j, s[i]);
    assert(swapped(s, i, j).to_multiset() =~= s.to_multiset());
}

/// `slice::swap` exchanges the elements at the two positions and touches no
/// other; it panics where one of the two is no position of the slice.
pub assume_specification<Item>[ <[Item]>::swap ](slice: &mut [Item], a: usize, b: usize)
    requires
        a < old(slice)@.len(),
        b < old(slice)@.len(),
    ensures
        final(slice)@ == old(slice)@.update(a as int, old(slice)@[b as int]).update(
            b as int,
            old(slice)@[a as int],
        ),
;

/// `slice::copy_from_slice` makes the slice hold the elements of `src`, in
/// their order; it panics unless both are of one length.
pub assume_specification<Item>[ <[Item]>::copy_from_slice ](dest: &mut [Item], src: &[Item]) where
    Item: Copy,

    requires
        old(dest)@.len() == src@.len(),
    ensures
        final(dest)@ == src@,
;

/// Indexed assignment to a slice, `slice[index] = value` by way of
/// `IndexMut::index_mut`: it puts `value` at position `index`, leaves every
/// other position as it was, and panics where `index` is no position of the slice.
#[verifier::external_body]
fn put<T>(slice: &mut [T], index: usize, value: T)
    requires
        index < old(slice)@.len(),
    ensures
        final(slice)@ == old(slice)@.update(index as int, value),
{
    slice[index] = value;
}

/// Sorts `list` by exchanging, for each position in turn, its element with
/// every smaller element found behind it.
pub fn selection_sort<T: Ord>(list: &mut Vec<T>)
    requires
        total_order::<T>(),
    ensures
        sorted(final(list)@),
        final(list)@.to_multiset() == old(list)@.to_multiset(),
        final(list)@.len() == old(list)@.len(),
{
    let n = list.len();
    for i in 0..n
        invariant
            list@.len() == n,
            total_order::<T>(),
            list@.to_multiset() == old(list)@.to_multiset(),
            forall|a: int, b: int| 0 <= a <= b < i ==> le(list@[a], list@[b]),
            forall|a: int, b: int| 0 <= a < i <= b < n ==> le(list@[a], list@[b]),
    {
        for j in i + 1..n
            invariant
                i < n,
                list@.len() == n,
                total_order::<T>(),
                list@.to_multiset() == old(list)@.to_multiset(),
                forall|a: int, b: int| 0 <= a <= b < i ==> le(list@[a], list@[b]),
                forall|a: int, b: int| 0 <= a < i <= b < n ==> le(list@[a], list@[b]),
                forall|b: int| i <= b < j ==> le(list@[i as int], #[trigger] list@[b]),
        {
            if list[j] < list[i] {
                proof {
                    lemma_swap_permutes(list@, i as int, j as int);
                    assert(lt(list@[j as int], list@[i as int]));
                    assert(le(list@[j as int], list@[i as int]));
                    assert forall|b: int| i <= b < j + 1 implies le(
                        list@[j as int],
                        #[trigger] swapped(list@, i as int, j as int)[b],
                    ) by {
                        if i < b < j {
                            assert(le(list@[i as int], list@[b]));
                        }
                    }
                }
                list.swap(i, j);
            } else {
                assert(!lt(list@[j as int], list@[i as int]));
            }
        }
    }
}

/// Sorts `list` by letting each element in turn sink towards the front until
/// its predecessor is no larger.
pub fn insertion_sort<T: Ord>(list: &mut Vec<T>)
    requires
        total_order::<T>(),
    ensures
        sorted(final(list)@),
        final(list)@.to_multiset() == old(list)@.to_multiset(),
        final(list)@.len() == old(list)@.len(),
{
    let n = list.len();
    for i in 0..n
        invariant
            list@.len() == n,
            total_order::<T>(),
            list@.to_multiset() == old(list)@.to_multiset(),
            forall|a: int, b: int| 0 <= a <= b < i ==> le(list@[a], list@[b]),
    {
        let mut j = i;
        while j >= 1 && list[j] < list[j - 1]
            invariant
                j <= i < n,
                list@.len() == n,
                total_order::<T>(),
                list@.to_multiset() == old(list)@.to_multiset(),
                forall|a: int, b: int|
                    0 <= a <= b <= i && a != j && b != j ==> le(list@[a], list@[b]),
                forall|b: int| j < b <= i ==> le(list@[j as int], #[trigger] list@[b]),
            decreases j,
        {
            proof {
                lemma_swap_permutes(list@, j as int, j - 1);
                assert(lt(list@[j as int], list@[j - 1]));
                assert(le(list@[j as int], list@[j - 1]));
            }
            list.swap(j, j - 1);
            j -= 1;
        }
        proof {
            if j >= 1 {
                assert(!lt(list@[j as int], list@[j - 1]));
                assert(le(list@[j - 1], list@[j as int]));
            }
            assert forall|a: int, b: int| 0 <= a <= b < i + 1 implies le(list@[a], list@[b]) by {
                if a == j as int {
                } else if b == j as int {
                    assert(le(list@[a], list@[j - 1]));
                }
            }
        }
    }
}

/// Sorts `list` by sorting its two halves and merging them.
pub fn merge_sort<T: Ord + Copy>(list: &mut Vec<T>)
    requires
        total_order::<T>(),
    ensures
        sorted(final(list)@),
        final(list)@.to_multiset() == old(list)@.to_multiset(),
        final(list)@.len() == old(list)@.len(),
{
    let mut aux = list.clone();
    _merge_sort(list.as_mut_slice(), aux.as_mut_slice());
}

fn _merge_sort<T: Ord + Copy>(list: &mut [T], aux: &mut [T])
    requires
        total_order::<T>(),
        old(list)@.len() == old(aux)@.len(),
    ensures
        sorted(final(list)@),
        final(list)@.to_multiset() == old(list)@.to_multiset(),
        final(list)@.len() == old(list)@.len(),
        final(aux)@.len() == old(aux)@.len(),
    decreases old(list)@.len(),
{
    let len = list.len();
    if len <= 1 {
        return ;
    }
    let ghost before = list@;
    let (front, back) = list.split_at_mut(len / 2);
    let (aux_front, aux_back) = aux.split_at_mut(len / 2);
    _merge_sort(front, aux_front);
    let ghost front_done = front@;
    _merge_sort(back, aux_back);
    let ghost back_done = back@;
    proof {
        let mid = (len / 2) as int;
        assert(list@ == front_done + back_done);
        assert(before == before.subrange(0, mid) + before.subrange(mid, len as int));
        lemma_multiset_commutative(before.subrange(0, mid), before.subrange(mid, len as int));
        lemma_multiset_commutative(front_done, back_done);
        assert(list@.subrange(0, mid) == front_done);
        assert(list@.subrange(mid, len as int) == back_done);
    }
    merge(list, aux);
}

/// Merges the two sorted halves of `list` into one sorted whole, by way of `aux`.
fn merge<T: Ord + Copy>(list: &mut [T], aux: &mut [T])
    requires
        total_order::<T>(),
        old(list)@.len() == old(aux)@.len(),
        sorted(old(list)@.subrange(0, (old(list)@.len() / 2) as int)),
        sorted(old(list)@.subrange((old(list)@.len() / 2) as int, old(list)@.len() as int)),
    ensures
        sorted(final(list)@),
        final(list)@.to_multiset() == old(list)@.to_multiset(),
        final(list)@.len() == old(list)@.len(),
        final(aux)@ == final(list)@,
{
    let len = list.len();
    let mut i: usize = 0;
    let mut j: usize = len / 2;
    let mut k: usize = 0;
    let ghost mid = (len / 2) as int;
    let ghost source = list@;
    proof {
        let nothing = Seq::<T>::empty();
        assert(source.subrange(0, 0) == nothing);
        assert(source.subrange(mid, mid) == nothing);
        assert(aux@.subrange(0, 0) == nothing);
        lemma_multiset_commutative(nothing, nothing);
        assert(nothing + nothing == nothing);
        assert forall|a: int, b: int| 0 <= a <= b < mid implies le(source[a], source[b]) by {
            assert(source.subrange(0, mid)[a] == source[a]);
            assert(source.subrange(0, mid)[b] == source[b]);
        }
        assert forall|a: int, b: int| mid <= a <= b < len implies le(source[a], source[b]) by {
            assert(source.subrange(mid, len as int)[a - mid] == source[a]);
            assert(source.subrange(mid, len as int)[b - mid] == source[b]);
        }
    }
    while i < len / 2 && j < len
        invariant
            total_order::<T>(),
            list@ == source,
            source.len() == len,
            aux@.len() == len,
            mid == len / 2,
            i <= mid <= j <= len,
            k == i + (j - mid),
            halves_sorted(source, mid),
            merged(source, aux@, mid, i as int, j as int),
        decreases len - k,
    {
        if list[i] <= list[j] {
            proof {
                lemma_merge_step(source, aux@, mid, i as int, j as int, true);
            }
            put(aux, k, list[i]);
            i += 1;
            k += 1;
        } else {
            proof {
                assert(le(source[i as int], source[j as int]) || le(
                    source[j as int],
                    source[i as int],
                ));
                lemma_merge_step(source, aux@, mid, i as int, j as int, false);
            }
            put(aux, k, list[j]);
            j += 1;
            k += 1;
        }
    }
    while i < len / 2
        invariant
            total_order::<T>(),
            list@ == source,
            source.len() == len,
            aux@.len() == len,
            mid == len / 2,
            i <= mid <= j <= len,
            i == mid || j == len,
            k == i + (j - mid),
            halves_sorted(source, mid),
            merged(source, aux@, mid, i as int, j as int),
        decreases len - k,
    {
        proof {
            lemma_merge_step(source, aux@, mid, i as int, j as int, true);
        }
        put(aux, k, list[i]);
        i += 1;
        k += 1;
    }
    while j < len
        invariant
            total_order::<T>(),
            list@ == source,
            source.len() == len,
            aux@.len() == len,
            mid == len / 2,
            i == mid <= j <= len,
            k == i + (j - mid),
            halves_sorted(source, mid),
            merged(source, aux@, mid, i as int, j as int),
        decreases len - k,
    {
        proof {
            lemma_merge_step(source, aux@, mid, i as int, j as int, false);
        }
        put(aux, k, list[j]);
        j += 1;
        k += 1;
    }
    proof {
        assert(aux@.subrange(0, len as int) == aux@);
        assert(source == source.subrange(0, mid) + source.subrange(mid, len as int));
        lemma_multiset_commutative(source.subrange(0, mid), source.subrange(mid, len as int));
        assert forall|a: int, b: int| 0 <= a <= b < len implies le(aux@[a], aux@[b]) by {
            assert(aux@.subrange(0, len as int)[a] == aux@[a]);
        }
    }
    list.copy_from_slice(aux);
}

/// The elements of `source` in front of `mid` stand in non-decreasing order,
/// and so do those from `mid` on.
pub open spec fn halves_sorted<T: PartialOrd>(source: Seq<T>, mid: int) -> bool {
    &&& forall|a: int, b: int| 0 <= a <= b < mid ==> le(source[a], source[b])
    &&& forall|a: int, b: int| mid <= a <= b < source.len() ==> le(source[a], source[b])
}

/// The first `i + (j - mid)` elements of `aux` are, in non-decreasing order,
/// the first `i` elements of `source` together with those from `mid` up to
/// `j`, and none of them is larger than an element of `source` not yet taken.
pub open spec fn merged<T: PartialOrd>(
    source: Seq<T>,
    aux: Seq<T>,
    mid: int,
    i: int,
    j: int,
) -> bool {
    let k = i + (j - mid);
    &&& forall|a: int, b: int| 0 <= a <= b < k ==> le(aux[a], aux[b])
    &&& forall|a: int, b: int| 0 <= a < k && i <= b < mid ==> le(aux[a], source[b])
    &&& forall|a: int, b: int| 0 <= a < k && j <= b < source.len() ==> le(aux[a], source[b])
    &&& aux.subrange(0, k).to_multiset() == source.subrange(0, i).to_multiset().add(
        source.subrange(mid, j).to_multiset(),
    )
}

/// Taking the smaller of the two next elements of `source` keeps `aux` merged.
proof fn lemma_merge_step<T: PartialOrd>(
    source: Seq<T>,
    aux: Seq<T>,
    mid: int,
    i: int,
    j: int,
    from_front: bool,
)
    requires
        total_order::<T>(),
        aux.len() == source.len(),
        0 <= i <= mid <= j <= source.len(),
        halves_sorted(source, mid),
        merged(source, aux, mid, i, j),
        from_front ==> i < mid && (j < source.len() ==> le(source[i], source[j])),
        !from_front ==> j < source.len() && (i < mid ==> le(source[j], source[i])),
    ensures
        from_front ==> merged(source, aux.update(i + (j - mid), source[i]), mid, i + 1, j),
        !from_front ==> merged(source, aux.update(i + (j - mid), source[j]), mid, i, j + 1),
{
    let k = i + (j - mid);
    let x = if from_front {
        source[i]
    } else {
        source[j]
    };
    let next = aux.update(k, x);
    assert(next.subrange(0, k + 1) == aux.subrange(0, k).push(x));
    to_multiset_build(aux.subrange(0, k), x);
    if from_front {
        assert(source.subrange(0, i + 1) == source.subrange(0, i).push(x));
        to_multiset_build(source.subrange(0, i), x);
        assert forall|b: int| j <= b < source.len() implies le(x, source[b]) by {
            assert(le(source[i], source[j]));
            assert(le(source[j], source[b]));
        }
        assert(next.subrange(0, k + 1).to_multiset() =~= source.subrange(
            0,
            i + 1,
        ).to_multiset().add(source.subrange(mid, j).to_multiset()));
    } else {
        assert(source.subrange(mid, j + 1) == source.subrange(mid, j).push(x));
        to_multiset_build(source.subrange(mid, j), x);
        assert forall|b: int| i <= b < mid implies le(x, source[b]) by {
            assert(le(source[j], source[i]));
            assert(le(source[i], source[b]));
        }
        assert(next.subrange(0, k + 1).to_multiset() =~= source.subrange(0, i).to_multiset().add(
            source.subrange(mid, j + 1).to_multiset(),
        ));
    }
}

} // verus!
