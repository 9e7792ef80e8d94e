//! What a sequence of unions does to `n` elements, and why its order does not matter.

use vstd::prelude::*;
use vstd::seq_lib::to_multiset_build;
use crate::union_find::{check_pair, connected, connectivity, merges, relabel};

verus! {

/// Every union of `history` names two elements of a universe of `n` elements.
pub open spec fn in_universe(n: nat, history: Seq<(u32, u32)>) -> bool {
    forall|k: int| 0 <= k < history.len() ==> (#[trigger] history[k]).0 < n && history[k].1 < n
}

/// The labels of `n` elements after the unions of `history`, carried out in
/// order: at first every element is labelled by itself, and each union gives
/// the class of its first operand the label of its second.
pub open spec fn replay(n: nat, history: Seq<(u32, u32)>) -> Seq<int>
    decreases history.len(),
{
    if history.len() == 0 {
        Seq::new(n, |i: int| i)
    } else {
        let earlier = replay(n, history.drop_last());
        let (p, q) = history.last();
        relabel(earlier, earlier[p as int], earlier[q as int])
    }
}

/// Two labellings of the same elements put the same elements together.
pub open spec fn same_partition<T, U>(x: Seq<T>, y: Seq<U>) -> bool {
    &&& x.len() == y.len()
    &&& forall|a: int, b: int|
        #![trigger connected(x, a, b)]
        #![trigger connected(y, a, b)]
        0 <= a < x.len() && 0 <= b < x.len() ==> (connected(x, a, b) <==> connected(y, a, b))
}

/// The identifiers `ids` partition their elements as the unions of `history` do.
pub open spec fn realizes(ids: Seq<u32>, history: Seq<(u32, u32)>) -> bool {
    same_partition(ids, replay(ids.len(), history))
}

/// A replay labels as many elements as the universe holds.
pub proof fn lemma_replay_len(n: nat, history: Seq<(u32, u32)>)
    ensures
        replay(n, history).len() == n,
    decreases history.len(),
{
    if history.len() > 0 {
        lemma_replay_len(n, history.drop_last());
    }
}

/// One more union at the end of a history is one more relabelling.
pub proof fn lemma_replay_push(n: nat, history: Seq<(u32, u32)>, p: u32, q: u32)
    ensures
        replay(n, history.push((p, q))) == relabel(
            replay(n, history),
            replay(n, history)[p as int],
            replay(n, history)[q as int],
        ),
{
    assert(history.push((p, q)).drop_last() == history);
}

/// The same merge applied to two labellings of one partition gives two
/// labellings of one partition.
pub proof fn lemma_merge_respects_partition<T, U, V, W>(
    x: Seq<T>,
    y: Seq<U>,
    x_after: Seq<V>,
    y_after: Seq<W>,
    p: int,
    q: int,
)
    requires
        same_partition(x, y),
        0 <= p < x.len(),
        0 <= q < x.len(),
        merges(x, x_after, p, q),
        merges(y, y_after, p, q),
    ensures
        same_partition(x_after, y_after),
{
}

/// Two merges carried out in either order put the same elements together.
proof fn lemma_merges_commute(labels: Seq<int>, first: (u32, u32), second: (u32, u32))
    requires
        (first.0 as int) < labels.len(),
        (first.1 as int) < labels.len(),
        (second.0 as int) < labels.len(),
        (second.1 as int) < labels.len(),
    ensures
        ({
            let one = relabel(labels, labels[first.0 as int], labels[first.1 as int]);
            let other = relabel(labels, labels[second.0 as int], labels[second.1 as int]);
            same_partition(
                relabel(one, one[second.0 as int], one[second.1 as int]),
                relabel(other, other[first.0 as int], other[first.1 as int]),
            )
        }),
{
}

/// Moving one union of a history to its end changes nothing about which
/// elements the replay puts together.
proof fn lemma_move_to_end(n: nat, history: Seq<(u32, u32)>, k: int)
    requires
        in_universe(n, history),
        0 <= k < history.len(),
    ensures
        same_partition(replay(n, history), replay(n, history.remove(k).push(history[k]))),
    decreases history.len(),
{
    let moved = history.remove(k).push(history[k]);
    if k == history.len() - 1 {
        assert(moved == history);
    } else {
        let earlier = history.drop_last();
        let last = history.last();
        let x = history[k];
        let rest = earlier.remove(k);
        // by induction the union may move to the end of what comes before the last union
        lemma_move_to_end(n, earlier, k);
        // the last union then follows on both sides
        lemma_replay_len(n, rest.push(x));
        lemma_replay_push(n, rest.push(x), last.0, last.1);
        lemma_merge_respects_partition(
            replay(n, earlier),
            replay(n, rest.push(x)),
            replay(n, history),
            replay(n, rest.push(x).push(last)),
            last.0 as int,
            last.1 as int,
        );
        // and changes places with the union that was moved
        lemma_replay_len(n, rest);
        lemma_replay_push(n, rest, x.0, x.1);
        lemma_replay_push(n, rest, last.0, last.1);
        lemma_replay_push(n, rest.push(last), x.0, x.1);
        lemma_merges_commute(replay(n, rest), x, last);
        assert(rest.push(last) == history.remove(k));
        lemma_same_partition_transitive(
            replay(n, history),
            replay(n, rest.push(x).push(last)),
            replay(n, moved),
        );
    }
}

/// Putting the same elements together is transitive.
pub proof fn lemma_same_partition_transitive<T, U, V>(x: Seq<T>, y: Seq<U>, z: Seq<V>)
    requires
        same_partition(x, y),
        same_partition(y, z),
    ensures
        same_partition(x, z),
{
}

/// Putting the same elements together is symmetric.
pub proof fn lemma_same_partition_symmetric<T, U>(x: Seq<T>, y: Seq<U>)
    requires
        same_partition(x, y),
    ensures
        same_partition(y, x),
{
}

/// The replays of two histories that hold the same unions, each as often as
/// the other, put the same elements together.
pub proof fn lemma_replay_permutation(n: nat, one: Seq<(u32, u32)>, other: Seq<(u32, u32)>)
    requires
        in_universe(n, one),
        in_universe(n, other),
        one.to_multiset() == other.to_multiset(),
    ensures
        same_partition(replay(n, one), replay(n, other)),
    decreases one.len(),
{
    one.to_multiset_ensures();
    other.to_multiset_ensures();
    if one.len() > 0 {
        // the last union of the one history occurs somewhere in the other
        let x = one.last();
        let one_rest = one.drop_last();
        assert(one == one_rest.push(x));
        to_multiset_build(one_rest, x);
        assert(other.to_multiset().count(x) > 0);
        let k = choose|k: int| 0 <= k < other.len() && other[k] == x;
        let other_rest = other.remove(k);
        assert(other_rest.to_multiset() =~= one_rest.to_multiset());
        // without it the histories agree by induction, and so they do with it at the end
        lemma_replay_permutation(n, one_rest, other_rest);
        lemma_replay_len(n, other_rest.push(x));
        lemma_replay_push(n, other_rest, x.0, x.1);
        lemma_merge_respects_partition(
            replay(n, one_rest),
            replay(n, other_rest),
            replay(n, one),
            replay(n, other_rest.push(x)),
            x.0 as int,
            x.1 as int,
        );
        lemma_move_to_end(n, other, k);
        lemma_same_partition_symmetric(replay(n, other), replay(n, other_rest.push(x)));
        lemma_same_partition_transitive(
            replay(n, one),
            replay(n, other_rest.push(x)),
            replay(n, other),
        );
    }
}

/// Identifiers that name every element by itself realize the empty history.
pub proof fn lemma_fresh_realizes(ids: Seq<u32>)
    requires
        forall|i: int| 0 <= i < ids.len() ==> #[trigger] ids[i] == i,
    ensures
        realizes(ids, Seq::empty()),
{
}

/// After a union, a structure realizes the history it realized before,
/// with that union added at the end.
pub proof fn lemma_union_realizes(
    before: Seq<u32>,
    after: Seq<u32>,
    history: Seq<(u32, u32)>,
    p: u32,
    q: u32,
)
    requires
        realizes(before, history),
        check_pair(before.len(), p, q) is Ok,
        merges(before, after, p as int, q as int),
    ensures
        realizes(after, history.push((p, q))),
{
    let n = before.len();
    lemma_replay_len(n, history);
    lemma_replay_push(n, history, p, q);
    lemma_merge_respects_partition(
        before,
        replay(n, history),
        after,
        replay(n, history.push((p, q))),
        p as int,
        q as int,
    );
}

/// Two structures over the same elements that were built by the same unions,
/// in whatever order, give the same answer to every `is_connected`.
pub proof fn lemma_union_order_irrelevant(
    ids: Seq<u32>,
    other_ids: Seq<u32>,
    history: Seq<(u32, u32)>,
    other_history: Seq<(u32, u32)>,
)
    requires
        ids.len() == other_ids.len(),
        in_universe(ids.len(), history),
        in_universe(ids.len(), other_history),
        realizes(ids, history),
        realizes(other_ids, other_history),
        history.to_multiset() == other_history.to_multiset(),
    ensures
        same_partition(ids, other_ids),
        forall|a: u32, b: u32| #[trigger] connectivity(ids, a, b) == connectivity(other_ids, a, b),
{
    let n = ids.len();
    lemma_replay_permutation(n, history, other_history);
    lemma_same_partition_transitive(ids, replay(n, history), replay(n, other_history));
    lemma_same_partition_symmetric(other_ids, replay(n, other_history));
    lemma_same_partition_transitive(ids, replay(n, other_history), other_ids);
}

} // verus!
