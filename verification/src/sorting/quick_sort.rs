//! Sorting and selection by partitioning.

use vstd::prelude::*;
use vstd::pervasive::cloned;
use vstd::seq_lib::lemma_multiset_commutative;
use crate::sorting::order::{gt, le, lt, total_order};
use crate::sorting::{lemma_swap_permutes, sorted, swapped};

verus! {

/// A clone of a value of `T` is that value.
pub open spec fn clone_faithful<T: Clone>() -> bool {
    forall|a: T, b: T| #[trigger] cloned(a, b) ==> a == b
}

/// `after` holds, at the positions `low..=high`, the elements that `before`
/// holds there, each as often, and agrees with `before` everywhere else.
pub open spec fn rearranged<T>(before: Seq<T>, after: Seq<T>, low: int, high: int) -> bool {
    &&& after.len() == before.len()
    &&& forall|i: int| 0 <= i < before.len() && (i < low || high < i) ==> after[i] == before[i]
    &&& after.subrange(low, high + 1).to_multiset() == before.subrange(low, high + 1).to_multiset()
}

/// Among the positions `low..=high`, no element up to `mid` is larger than
/// an element behind `mid`.
pub open spec fn split<T: PartialOrd>(s: Seq<T>, low: int, mid: int, high: int) -> bool {
    forall|a: int, b: int| low <= a <= mid < b <= high ==> le(s[a], s[b])
}

/// The elements at the positions `low..=high` stand in non-decreasing order.
pub open spec fn sorted_between<T: PartialOrd>(s: Seq<T>, low: int, high: int) -> bool {
    forall|a: int, b: int| low <= a <= b <= high ==> le(s[a], s[b])
}

/// An exchange inside a range rearranges that range.
pub proof fn lemma_swap_rearranges<T>(
    before: Seq<T>,
    s: Seq<T>,
    low: int,
    high: int,
    i: int,
    j: int,
)
    requires
        rearranged(before, s, low, high),
        0 <= low <= i <= high < s.len(),
        low <= j <= high,
    ensures
        rearranged(before, swapped(s, i, j), low, high),
{
    let inner = s.subrange(low, high + 1);
    assert(swapped(s, i, j).subrange(low, high + 1) == swapped(inner, i - low, j - low));
    lemma_swap_permutes(inner, i - low, j - low);
}

/// Every element of a rearranged range stood somewhere in that range before.
pub proof fn lemma_rearranged_member<T>(before: Seq<T>, after: Seq<T>, low: int, high: int, i: int)
    requires
        rearranged(before, after, low, high),
        0 <= low <= i <= high < before.len(),
    ensures
        exists|k: int| low <= k <= high && #[trigger] before[k] == after[i],
{
    let was = before.subrange(low, high + 1);
    let now = after.subrange(low, high + 1);
    was.to_multiset_ensures();
    now.to_multiset_ensures();
    assert(now[i - low] == after[i]);
    assert(now.contains(after[i]));
    assert(now.to_multiset().count(after[i]) > 0);
    assert(was.to_multiset().count(after[i]) > 0);
    assert(was.contains(after[i]));
    let k = choose|k: int| 0 <= k < was.len() && was[k] == after[i];
    assert(before[k + low] == after[i]);
}

/// A rearrangement of a range rearranges every range around it.
pub proof fn lemma_rearranged_widens<T>(
    before: Seq<T>,
    after: Seq<T>,
    low: int,
    high: int,
    wide_low: int,
    wide_high: int,
)
    requires
        rearranged(before, after, low, high),
        0 <= wide_low <= low,
        low <= high + 1,
        high <= wide_high < before.len(),
    ensures
        rearranged(before, after, wide_low, wide_high),
{
    let front = before.subrange(wide_low, low);
    let back = before.subrange(high + 1, wide_high + 1);
    assert(after.subrange(wide_low, low) == front);
    assert(after.subrange(high + 1, wide_high + 1) == back);
    let was = before.subrange(low, high + 1);
    let now = after.subrange(low, high + 1);
    assert(before.subrange(wide_low, wide_high + 1) == front + was + back);
    assert(after.subrange(wide_low, wide_high + 1) == front + now + back);
    lemma_multiset_commutative(front, was);
    lemma_multiset_commutative(front + was, back);
    lemma_multiset_commutative(front, now);
    lemma_multiset_commutative(front + now, back);
}

/// One rearrangement of a range after another is a rearrangement of that range.
pub proof fn lemma_rearranged_twice<T>(a: Seq<T>, b: Seq<T>, c: Seq<T>, low: int, high: int)
    requires
        rearranged(a, b, low, high),
        rearranged(b, c, low, high),
    ensures
        rearranged(a, c, low, high),
{
}

/// A split of a range survives a rearrangement of either of its parts.
pub proof fn lemma_split_survives<T: PartialOrd>(
    before: Seq<T>,
    after: Seq<T>,
    low: int,
    mid: int,
    high: int,
)
    requires
        split(before, low, mid, high),
        0 <= low <= mid + 1,
        mid <= high < before.len(),
        rearranged(before, after, low, mid) || rearranged(before, after, mid + 1, high),
    ensures
        split(after, low, mid, high),
{
    assert forall|a: int, b: int| low <= a <= mid < b <= high implies le(after[a], after[b]) by {
        if rearranged(before, after, low, mid) {
            lemma_rearranged_member(before, after, low, mid, a);
            let k = choose|k: int| low <= k <= mid && #[trigger] before[k] == after[a];
            assert(le(before[k], before[b]));
        } else {
            lemma_rearranged_member(before, after, mid + 1, high, b);
            let k = choose|k: int| mid + 1 <= k <= high && #[trigger] before[k] == after[b];
            assert(le(before[a], before[k]));
        }
    }
}

/// Sorts `list` in place.
pub fn quick_sort<T: Ord + Clone>(list: &mut Vec<T>)
    requires
        total_order::<T>(),
        clone_faithful::<T>(),
        old(list)@.len() <= i32::MAX,
    ensures
        sorted(final(list)@),
        final(list)@.to_multiset() == old(list)@.to_multiset(),
        final(list)@.len() == old(list)@.len(),
{
    if list.len() <= 1 {
        return ;
    }
    let low: usize = 0;
    let high = list.len() - 1;
    _quick_sort(list, low, high);
    proof {
        assert(list@.subrange(0, high + 1) == list@);
        assert(old(list)@.subrange(0, high + 1) == old(list)@);
    }
}

/// Places at position `k` an element such that no element in front of it,
/// nor it, is larger than any element behind it, and returns that element;
/// there is none where `k` is not a position of `list`.
pub fn quick_selection<T: Ord + Clone>(list: &mut Vec<T>, k: usize) -> (r: Option<&T>)
    requires
        total_order::<T>(),
        clone_faithful::<T>(),
        old(list)@.len() <= i32::MAX,
    ensures
        final(list)@.to_multiset() == old(list)@.to_multiset(),
        final(list)@.len() == old(list)@.len(),
        r is None <==> k >= old(list)@.len(),
        r matches Some(x) ==> *x == final(list)@[k as int] && split(
            final(list)@,
            0,
            k as int,
            final(list)@.len() - 1,
        ),
{
    if list.len() == 0 {
        return None;
    }
    let low: usize = 0;
    let high = list.len() - 1;
    proof {
        let before = old(list)@;
        assert(before.subrange(0, high + 1) == before);
        assert forall|after: Seq<T>| #[trigger]
            rearranged(before, after, 0, high as int) implies after.to_multiset()
            == before.to_multiset() by {
            assert(after.subrange(0, high + 1) == after);
        }
    }
    _quick_selection(list, k, low, high)
}

fn _quick_sort<T: Ord + Clone>(list: &mut [T], low: usize, high: usize)
    requires
        total_order::<T>(),
        clone_faithful::<T>(),
        old(list)@.len() <= i32::MAX,
        low >= high || high < old(list)@.len(),
    ensures
        rearranged(old(list)@, final(list)@, low as int, high as int),
        sorted_between(final(list)@, low as int, high as int),
    decreases high - low,
{
    if low >= high {
        return ;
    }
    let p = partition(list, low, high);
    let ghost parted = list@;
    _quick_sort(list, low, p);
    let ghost left_done = list@;
    _quick_sort(list, p + 1, high);
    proof {
        let l = low as int;
        let h = high as int;
        let m = p as int;
        lemma_split_survives(parted, left_done, l, m, h);
        lemma_split_survives(left_done, list@, l, m, h);
        lemma_rearranged_widens(parted, left_done, l, m, l, h);
        lemma_rearranged_widens(left_done, list@, m + 1, h, l, h);
        lemma_rearranged_twice(old(list)@, parted, left_done, l, h);
        lemma_rearranged_twice(old(list)@, left_done, list@, l, h);
        assert forall|a: int, b: int| l <= a <= b <= h implies le(list@[a], list@[b]) by {
            if b <= m {
                assert(le(left_done[a], left_done[b]));
            }
        }
    }
}

/// Uses a Hoare partition strategy
fn partition<T: Ord + Clone>(list: &mut [T], low: usize, high: usize) -> (r: usize)
    requires
        total_order::<T>(),
        clone_faithful::<T>(),
        low <= high < old(list)@.len() <= i32::MAX,
    ensures
        rearranged(old(list)@, final(list)@, low as int, high as int),
        low <= r <= high,
        low < high ==> r < high,
        split(final(list)@, low as int, r as int, high as int),
{
    let pivot = list[(high + low) / 2].clone();
    let ghost middle = (high + low) / 2;
    let ghost mut above: int = middle as int;
    let ghost mut below: int = middle as int;
    proof {
        assert(cloned(list@[middle as int], pivot));
    }
    let mut i = low as i32 - 1;
    let mut j = high as i32 + 1;
    loop
        invariant
            total_order::<T>(),
            low <= high < list@.len() <= i32::MAX,
            middle == (high + low) / 2,
            rearranged(old(list)@, list@, low as int, high as int),
            low - 1 <= i < j <= high + 1,
            forall|a: int| low <= a <= i ==> le(#[trigger] list@[a], pivot),
            forall|b: int| j <= b <= high ==> le(pivot, #[trigger] list@[b]),
            i < above <= high,
            le(pivot, list@[above]),
            low <= below < j,
            le(list@[below], pivot),
            j == high + 1 ==> above <= middle,
        decreases j - i,
    {
        let ghost i_before = i;
        let ghost j_before = j;
        i += 1;
        while list[i as usize] < pivot
            invariant
                total_order::<T>(),
                high < list@.len() <= i32::MAX,
                low <= i <= above <= high,
                i_before < i,
                le(pivot, list@[above]),
                forall|a: int| low <= a < i ==> le(#[trigger] list@[a], pivot),
            decreases above - i,
        {
            proof {
                assert(lt(list@[i as int], pivot));
                assert(le(list@[i as int], pivot));
            }
            i += 1;
        }
        j -= 1;
        while list[j as usize] > pivot
            invariant
                total_order::<T>(),
                high < list@.len() <= i32::MAX,
                low <= below <= j <= high,
                j < j_before,
                le(list@[below], pivot),
                forall|b: int| j < b <= high ==> le(pivot, #[trigger] list@[b]),
            decreases j - below,
        {
            proof {
                assert(gt(list@[j as int], pivot));
                assert(le(pivot, list@[j as int]) || le(list@[j as int], pivot));
            }
            j -= 1;
        }
        proof {
            assert(!lt(list@[i as int], pivot));
            assert(le(pivot, list@[i as int]));
            assert(!gt(list@[j as int], pivot));
            assert(le(list@[j as int], pivot));
        }
        if i >= j {
            proof {
                assert forall|a: int, b: int| low <= a <= j < b <= high implies le(
                    list@[a],
                    list@[b],
                ) by {
                    assert(le(list@[a], pivot));
                    assert(le(pivot, list@[b]));
                }
            }
            return j as usize;
        }
        proof {
            lemma_swap_rearranges(old(list)@, list@, low as int, high as int, i as int, j as int);
            above = j as int;
            below = i as int;
        }
        list.swap(i as usize, j as usize);
    }
}

/// The element that a selection of position `k` among `low..=high` leaves at `k`.
pub fn _quick_selection<T: Ord + Clone>(list: &mut [T], k: usize, low: usize, high: usize) -> (r:
    Option<&T>)
    requires
        total_order::<T>(),
        clone_faithful::<T>(),
        low <= high < old(list)@.len() <= i32::MAX,
        low <= k,
    ensures
        rearranged(old(list)@, final(list)@, low as int, high as int),
        r is None <==> k > high,
        r is None ==> final(list)@ == old(list)@,
        r matches Some(x) ==> *x == final(list)@[k as int] && split(
            final(list)@,
            low as int,
            k as int,
            high as int,
        ),
    decreases high - low,
{
    if k > high {
        return None;
    }
    let j = partition(list, low, high);
    let ghost parted = list@;
    if j == k {
        return Some(&list[j]);
    }
    proof {
        lemma_selection_continues(old(list)@, parted, low as int, j as int, high as int, k as int);
    }
    if j > k {
        return _quick_selection(list, k, low, j);
    }
    _quick_selection(list, k, j + 1, high)
}

/// Once a range is split, a selection within the part that holds position
/// `k` is a selection within the whole range.
proof fn lemma_selection_continues<T: PartialOrd>(
    before: Seq<T>,
    parted: Seq<T>,
    low: int,
    mid: int,
    high: int,
    k: int,
)
    requires
        rearranged(before, parted, low, high),
        split(parted, low, mid, high),
        0 <= low <= mid <= high < before.len(),
    ensures
        forall|after: Seq<T>| #[trigger]
            rearranged(parted, after, low, mid) ==> rearranged(before, after, low, high) && (low
                <= k <= mid && split(after, low, k, mid) ==> split(after, low, k, high)),
        forall|after: Seq<T>| #[trigger]
            rearranged(parted, after, mid + 1, high) ==> rearranged(before, after, low, high) && (
            mid < k <= high && split(after, mid + 1, k, high) ==> split(after, low, k, high)),
{
    assert forall|after: Seq<T>| #[trigger] rearranged(parted, after, low, mid) implies rearranged(
        before,
        after,
        low,
        high,
    ) && (low <= k <= mid && split(after, low, k, mid) ==> split(after, low, k, high)) by {
        lemma_split_survives(parted, after, low, mid, high);
        lemma_rearranged_widens(parted, after, low, mid, low, high);
        lemma_rearranged_twice(before, parted, after, low, high);
    }
    assert forall|after: Seq<T>| #[trigger]
        rearranged(parted, after, mid + 1, high) implies rearranged(before, after, low, high) && (
    mid < k <= high && split(after, mid + 1, k, high) ==> split(after, low, k, high)) by {
        lemma_split_survives(parted, after, low, mid, high);
        lemma_rearranged_widens(parted, after, mid + 1, high, low, high);
        lemma_rearranged_twice(before, parted, after, low, high);
    }
}

} // verus!
