//! Forests of parent pointers: roots, depths, heights and class sizes, and how
//! they change when a root is hung under another or a path is shortened.

use vstd::prelude::*;

verus! {

/// Every parent pointer names an element of the universe.
pub open spec fn in_range(parent: Seq<u32>) -> bool {
    forall|i: int| 0 <= i < parent.len() ==> (#[trigger] parent[i] as int) < parent.len()
}

/// Element `i` is its own parent.
pub open spec fn is_root(parent: Seq<u32>, i: int) -> bool {
    parent[i] as int == i
}

/// The element reached from `i` by following `steps` parent pointers.
pub open spec fn climb(parent: Seq<u32>, i: int, steps: nat) -> int
    decreases steps,
{
    if steps == 0 {
        i
    } else {
        climb(parent, parent[i] as int, (steps - 1) as nat)
    }
}

/// Following parent pointers from `i` arrives at a root after finitely many steps.
pub open spec fn reaches_root(parent: Seq<u32>, i: int) -> bool {
    exists|steps: nat| is_root(parent, #[trigger] climb(parent, i, steps))
}

/// The parent pointers form a forest of rooted trees: no pointer dangles and
/// no chain of pointers runs in a cycle other than the self-loop of a root.
pub open spec fn is_forest(parent: Seq<u32>) -> bool {
    &&& in_range(parent)
    &&& forall|i: int| 0 <= i < parent.len() ==> #[trigger] reaches_root(parent, i)
}

/// `d` is the number of the first step at which the climb from `i` stands on a root.
pub open spec fn is_depth(parent: Seq<u32>, i: int, d: nat) -> bool {
    &&& is_root(parent, climb(parent, i, d))
    &&& forall|k: nat| k < d ==> !is_root(parent, #[trigger] climb(parent, i, k))
}

/// The number of parent pointers between `i` and the root of its tree.
pub open spec fn depth(parent: Seq<u32>, i: int) -> nat {
    choose|d: nat| is_depth(parent, i, d)
}

/// The root of the tree that holds `i`.
pub open spec fn root_of(parent: Seq<u32>, i: int) -> int {
    climb(parent, i, depth(parent, i))
}

/// The root of every element, by element.
pub open spec fn roots(parent: Seq<u32>) -> Seq<u32> {
    Seq::new(parent.len(), |i: int| root_of(parent, i) as u32)
}

/// `level` strictly falls along every parent pointer that is not a root's self-loop.
pub open spec fn is_ranking(parent: Seq<u32>, level: Seq<nat>) -> bool {
    &&& level.len() == parent.len()
    &&& forall|i: int|
        0 <= i < parent.len() && !is_root(parent, i) ==> level[parent[i] as int]
            < #[trigger] level[i]
}

/// The longest climb to `r` from among the first `m` elements.
pub open spec fn height_among(parent: Seq<u32>, r: int, m: nat) -> nat
    decreases m,
{
    if m == 0 {
        0
    } else {
        let rest = height_among(parent, r, (m - 1) as nat);
        if root_of(parent, m - 1) == r && depth(parent, m - 1) > rest {
            depth(parent, m - 1)
        } else {
            rest
        }
    }
}

/// The height of the tree rooted at `r`: the longest climb that ends there.
pub open spec fn height(parent: Seq<u32>, r: int) -> nat {
    height_among(parent, r, parent.len())
}

/// How many of the first `m` labels equal `label`.
pub open spec fn occurrences_among(ids: Seq<u32>, label: u32, m: nat) -> nat
    decreases m,
{
    if m == 0 {
        0
    } else {
        occurrences_among(ids, label, (m - 1) as nat) + if ids[m - 1] == label {
            1nat
        } else {
            0nat
        }
    }
}

/// The number of elements whose label is `label`.
pub open spec fn class_size(ids: Seq<u32>, label: u32) -> nat {
    occurrences_among(ids, label, ids.len())
}

/// A climb never leaves the universe.
pub proof fn lemma_climb_in_range(parent: Seq<u32>, i: int, steps: nat)
    requires
        in_range(parent),
        0 <= i < parent.len(),
    ensures
        0 <= climb(parent, i, steps) < parent.len(),
    decreases steps,
{
    if steps > 0 {
        lemma_climb_in_range(parent, parent[i] as int, (steps - 1) as nat);
    }
}

/// If some climb from `i` ends on a root, one of them is the first to do so.
proof fn lemma_first_root(parent: Seq<u32>, i: int, steps: nat)
    requires
        is_root(parent, climb(parent, i, steps)),
    ensures
        is_depth(parent, i, depth(parent, i)),
        depth(parent, i) <= steps,
    decreases steps,
{
    if forall|k: nat| k < steps ==> !is_root(parent, #[trigger] climb(parent, i, k)) {
        assert(is_depth(parent, i, steps));
    } else {
        let k = choose|k: nat| k < steps && is_root(parent, #[trigger] climb(parent, i, k));
        lemma_first_root(parent, i, k);
    }
    let d = depth(parent, i);
    if d > steps {
        assert(!is_root(parent, climb(parent, i, steps)));
    }
}

/// The depth of an element that reaches a root is the length of its climb to
/// the root, and no other number is.
pub proof fn lemma_depth_is_least(parent: Seq<u32>, i: int)
    requires
        reaches_root(parent, i),
    ensures
        is_depth(parent, i, depth(parent, i)),
        forall|d: nat| is_depth(parent, i, d) ==> d == depth(parent, i),
{
    let steps = choose|steps: nat| is_root(parent, #[trigger] climb(parent, i, steps));
    lemma_first_root(parent, i, steps);
    assert forall|d: nat| is_depth(parent, i, d) implies d == depth(parent, i) by {
        let e = depth(parent, i);
        if d < e {
            assert(!is_root(parent, climb(parent, i, d)));
        }
        if e < d {
            assert(!is_root(parent, climb(parent, i, e)));
        }
    }
}

/// How depth and root of an element follow from those of its parent.
pub proof fn lemma_step(parent: Seq<u32>, i: int)
    requires
        is_forest(parent),
        0 <= i < parent.len(),
    ensures
        0 <= root_of(parent, i) < parent.len(),
        is_root(parent, root_of(parent, i)),
        is_root(parent, i) ==> depth(parent, i) == 0 && root_of(parent, i) == i,
        !is_root(parent, i) ==> depth(parent, i) == depth(parent, parent[i] as int) + 1
            && root_of(parent, i) == root_of(parent, parent[i] as int),
{
    lemma_depth_is_least(parent, i);
    lemma_climb_in_range(parent, i, depth(parent, i));
    let d = depth(parent, i);
    if is_root(parent, i) {
        assert(climb(parent, i, 0) == i);
        if d > 0 {
            assert(!is_root(parent, climb(parent, i, 0)));
        }
    } else {
        let up = parent[i] as int;
        assert(climb(parent, i, 0) == i);
        assert(d > 0);
        let e = (d - 1) as nat;
        assert(climb(parent, i, d) == climb(parent, up, e));
        assert forall|k: nat| k < e implies !is_root(parent, #[trigger] climb(parent, up, k)) by {
            assert(climb(parent, i, k + 1) == climb(parent, up, k));
        }
        assert(is_depth(parent, up, e));
        assert(reaches_root(parent, up));
        lemma_depth_is_least(parent, up);
    }
}

/// Depth and root of every element at once.
pub proof fn lemma_steps(parent: Seq<u32>)
    requires
        is_forest(parent),
    ensures
        forall|i: int|
            0 <= i < parent.len() ==> 0 <= #[trigger] root_of(parent, i) < parent.len() && is_root(
                parent,
                root_of(parent, i),
            ),
        forall|i: int|
            0 <= i < parent.len() && is_root(parent, i) ==> #[trigger] depth(parent, i) == 0
                && root_of(parent, i) == i,
        forall|i: int|
            0 <= i < parent.len() && !is_root(parent, i) ==> #[trigger] depth(parent, i) == depth(
                parent,
                parent[i] as int,
            ) + 1 && root_of(parent, i) == root_of(parent, parent[i] as int),
{
    assert forall|i: int| 0 <= i < parent.len() implies 0 <= #[trigger] root_of(parent, i)
        < parent.len() && is_root(parent, root_of(parent, i)) by {
        lemma_step(parent, i);
    }
    assert forall|i: int| 0 <= i < parent.len() && is_root(parent, i) implies #[trigger] depth(
        parent,
        i,
    ) == 0 && root_of(parent, i) == i by {
        lemma_step(parent, i);
    }
    assert forall|i: int| 0 <= i < parent.len() && !is_root(parent, i) implies #[trigger] depth(
        parent,
        i,
    ) == depth(parent, parent[i] as int) + 1 && root_of(parent, i) == root_of(
        parent,
        parent[i] as int,
    ) by {
        lemma_step(parent, i);
    }
}

/// An element whose level falls along its parent pointers reaches a root.
proof fn lemma_ranked_reaches_root(parent: Seq<u32>, level: Seq<nat>, i: int)
    requires
        in_range(parent),
        is_ranking(parent, level),
        0 <= i < parent.len(),
    ensures
        reaches_root(parent, i),
    decreases level[i],
{
    if is_root(parent, i) {
        assert(is_root(parent, climb(parent, i, 0)));
    } else {
        let up = parent[i] as int;
        lemma_ranked_reaches_root(parent, level, up);
        let steps = choose|steps: nat| is_root(parent, #[trigger] climb(parent, up, steps));
        assert(climb(parent, i, steps + 1) == climb(parent, up, steps));
    }
}

/// Parent pointers that admit a ranking form a forest.
pub proof fn lemma_ranking_gives_forest(parent: Seq<u32>, level: Seq<nat>)
    requires
        in_range(parent),
        is_ranking(parent, level),
    ensures
        is_forest(parent),
{
    assert forall|i: int| 0 <= i < parent.len() implies #[trigger] reaches_root(parent, i) by {
        lemma_ranked_reaches_root(parent, level, i);
    }
}

/// In a forest there is only one way to assign a root to every element:
/// a root to itself, and to any other element what its parent is assigned.
proof fn lemma_root_determined(parent: Seq<u32>, f: Seq<int>, i: int)
    requires
        is_forest(parent),
        f.len() == parent.len(),
        forall|j: int| 0 <= j < parent.len() && is_root(parent, j) ==> #[trigger] f[j] == j,
        forall|j: int|
            0 <= j < parent.len() && !is_root(parent, j) ==> #[trigger] f[j] == f[parent[j] as int],
        0 <= i < parent.len(),
    ensures
        root_of(parent, i) == f[i],
    decreases depth(parent, i),
{
    lemma_step(parent, i);
    if !is_root(parent, i) {
        lemma_root_determined(parent, f, parent[i] as int);
    }
}

/// Hanging the root `child` under another root `top` keeps the forest a
/// forest, moves the tree of `child` to `top`, and leaves all other roots.
pub proof fn lemma_link(parent: Seq<u32>, child: int, top: int)
    requires
        is_forest(parent),
        0 <= child < parent.len(),
        0 <= top < parent.len(),
        is_root(parent, child),
        is_root(parent, top),
        child != top,
    ensures
        is_forest(parent.update(child, top as u32)),
        forall|i: int|
            0 <= i < parent.len() ==> #[trigger] root_of(parent.update(child, top as u32), i) == (
            if root_of(parent, i) == child {
                top
            } else {
                root_of(parent, i)
            }),
{
    let linked = parent.update(child, top as u32);
    lemma_steps(parent);
    let level = Seq::new(
        parent.len(),
        |i: int| if root_of(parent, i) == child { depth(parent, i) + 1 } else { depth(parent, i) },
    );
    assert forall|i: int| 0 <= i < linked.len() && !is_root(linked, i) implies level[linked[i] as int]
        < #[trigger] level[i] by {
        if i != child {
            assert(!is_root(parent, i));
        }
    }
    lemma_ranking_gives_forest(linked, level);
    let f = Seq::new(
        parent.len(),
        |i: int| if root_of(parent, i) == child { top } else { root_of(parent, i) },
    );
    assert forall|i: int| 0 <= i < parent.len() implies #[trigger] root_of(linked, i) == f[i] by {
        lemma_root_determined(linked, f, i);
    }
}

/// Pointing `node` at its grandparent keeps the forest a forest and leaves
/// the root of every element as it was.
pub proof fn lemma_shortcut(parent: Seq<u32>, node: int)
    requires
        is_forest(parent),
        0 <= node < parent.len(),
    ensures
        is_forest(parent.update(node, parent[parent[node] as int])),
        forall|i: int|
            0 <= i < parent.len() ==> #[trigger] root_of(
                parent.update(node, parent[parent[node] as int]),
                i,
            ) == root_of(parent, i),
{
    let short = parent.update(node, parent[parent[node] as int]);
    lemma_steps(parent);
    let level = Seq::new(parent.len(), |i: int| depth(parent, i));
    assert forall|i: int| 0 <= i < short.len() && !is_root(short, i) implies level[short[i] as int]
        < #[trigger] level[i] by {
        if i == node {
            let up = parent[node] as int;
            assert(!is_root(parent, node));
            assert(level[up] < level[node]);
            if !is_root(parent, up) {
                assert(level[parent[up] as int] < level[up]);
            }
        }
    }
    lemma_ranking_gives_forest(short, level);
    let f = Seq::new(parent.len(), |i: int| root_of(parent, i));
    assert forall|i: int| 0 <= i < parent.len() implies #[trigger] root_of(short, i) == f[i] by {
        lemma_root_determined(short, f, i);
    }
}

/// Where every element is its own parent, every element is its own root.
pub proof fn lemma_singletons(parent: Seq<u32>)
    requires
        forall|i: int| 0 <= i < parent.len() ==> #[trigger] parent[i] as int == i,
    ensures
        is_forest(parent),
        forall|i: int| 0 <= i < parent.len() ==> #[trigger] root_of(parent, i) == i,
        forall|i: int| 0 <= i < parent.len() ==> #[trigger] depth(parent, i) == 0,
{
    assert forall|i: int| 0 <= i < parent.len() implies #[trigger] reaches_root(parent, i) by {
        assert(is_root(parent, climb(parent, i, 0)));
    }
    lemma_steps(parent);
}

/// No label occurs more often among `m` elements than `m` times.
pub proof fn lemma_occurrences_bounded(ids: Seq<u32>, label: u32, m: nat)
    ensures
        occurrences_among(ids, label, m) <= m,
    decreases m,
{
    if m > 0 {
        lemma_occurrences_bounded(ids, label, (m - 1) as nat);
    }
}

/// How relabelling one class changes the number of occurrences of each label.
pub proof fn lemma_relabel_occurrences(ids: Seq<u32>, from: u32, to: u32, label: u32, m: nat)
    requires
        from != to,
        m <= ids.len(),
    ensures
        occurrences_among(crate::union_find::relabel(ids, from, to), label, m) == (if label
            == from {
            0
        } else if label == to {
            occurrences_among(ids, from, m) + occurrences_among(ids, to, m)
        } else {
            occurrences_among(ids, label, m)
        }),
    decreases m,
{
    if m > 0 {
        lemma_relabel_occurrences(ids, from, to, label, (m - 1) as nat);
    }
}

/// No element of a tree lies deeper than the tree is high.
pub proof fn lemma_height_covers(parent: Seq<u32>, r: int, m: nat, i: int)
    requires
        0 <= i < m,
        root_of(parent, i) == r,
    ensures
        depth(parent, i) <= height_among(parent, r, m),
    decreases m,
{
    if i < m - 1 {
        lemma_height_covers(parent, r, (m - 1) as nat, i);
    }
}

/// A height above zero is the depth of an element of the tree.
proof fn lemma_height_witness(parent: Seq<u32>, r: int, m: nat)
    ensures
        height_among(parent, r, m) == 0 || exists|i: int|
            0 <= i < m && root_of(parent, i) == r && #[trigger] depth(parent, i) == height_among(
                parent,
                r,
                m,
            ),
    decreases m,
{
    if m > 0 {
        let last = m - 1;
        let rest = height_among(parent, r, last as nat);
        if root_of(parent, last) == r && depth(parent, last) > rest {
            assert(depth(parent, last) == height_among(parent, r, m));
        } else {
            lemma_height_witness(parent, r, last as nat);
            if rest > 0 {
                let i = choose|i: int|
                    0 <= i < last && root_of(parent, i) == r && #[trigger] depth(parent, i)
                        == rest;
                assert(depth(parent, i) == height_among(parent, r, m));
            }
        }
    }
}

/// The height of a tree is the depth of one of its elements.
pub proof fn lemma_height_attained(parent: Seq<u32>, r: int)
    requires
        is_forest(parent),
        0 <= r < parent.len(),
        is_root(parent, r),
    ensures
        exists|i: int|
            0 <= i < parent.len() && root_of(parent, i) == r && #[trigger] depth(parent, i)
                == height(parent, r),
{
    lemma_step(parent, r);
    lemma_height_witness(parent, r, parent.len());
    if height(parent, r) == 0 {
        assert(depth(parent, r) == height(parent, r));
    }
}

/// A tree is no higher than a bound on the depth of all its elements.
pub proof fn lemma_height_bounded(parent: Seq<u32>, r: int, m: nat, bound: nat)
    requires
        forall|i: int| 0 <= i < m && root_of(parent, i) == r ==> depth(parent, i) <= bound,
    ensures
        height_among(parent, r, m) <= bound,
    decreases m,
{
    if m > 0 {
        lemma_height_bounded(parent, r, (m - 1) as nat, bound);
    }
}

/// Element `i` is met on the climb from `p`.
pub open spec fn on_path(parent: Seq<u32>, p: int, i: int) -> bool {
    exists|steps: nat| #[trigger] climb(parent, p, steps) == i
}

/// Element `i` is met on the climb from `p` in fewer than `k` steps.
pub open spec fn met_before(parent: Seq<u32>, p: int, k: nat, i: int) -> bool {
    exists|steps: nat| steps < k && #[trigger] climb(parent, p, steps) == i
}

/// The parent pointers after every element on the climb from `p` has been
/// pointed at its grandparent.
pub open spec fn halved(parent: Seq<u32>, p: int) -> Seq<u32> {
    Seq::new(
        parent.len(),
        |i: int| if on_path(parent, p, i) { parent[parent[i] as int] } else { parent[i] },
    )
}

/// One more step of a climb is one parent pointer further.
pub proof fn lemma_climb_further(parent: Seq<u32>, i: int, steps: nat)
    ensures
        climb(parent, i, steps + 1) == parent[climb(parent, i, steps)] as int,
    decreases steps,
{
    if steps > 0 {
        lemma_climb_further(parent, parent[i] as int, (steps - 1) as nat);
        assert(climb(parent, i, steps + 1) == climb(parent, parent[i] as int, steps));
    } else {
        assert(climb(parent, i, 1) == climb(parent, parent[i] as int, 0));
    }
}

/// Each step of a climb towards the root lowers the depth by one and stays in the tree.
pub proof fn lemma_climb_depth(parent: Seq<u32>, i: int, steps: nat)
    requires
        is_forest(parent),
        0 <= i < parent.len(),
        steps <= depth(parent, i),
    ensures
        0 <= climb(parent, i, steps) < parent.len(),
        depth(parent, climb(parent, i, steps)) == depth(parent, i) - steps,
        root_of(parent, climb(parent, i, steps)) == root_of(parent, i),
    decreases steps,
{
    lemma_step(parent, i);
    if steps > 0 {
        lemma_climb_depth(parent, parent[i] as int, (steps - 1) as nat);
    }
}

/// A climb that has arrived at the root stays there.
pub proof fn lemma_climb_past_root(parent: Seq<u32>, i: int, steps: nat)
    requires
        is_forest(parent),
        0 <= i < parent.len(),
        steps >= depth(parent, i),
    ensures
        climb(parent, i, steps) == root_of(parent, i),
    decreases steps,
{
    lemma_step(parent, i);
    if steps > 0 {
        if is_root(parent, i) {
            lemma_climb_past_root(parent, i, (steps - 1) as nat);
        } else {
            lemma_climb_past_root(parent, parent[i] as int, (steps - 1) as nat);
        }
    }
}

/// Pointing every element on the climb from `p` at its grandparent keeps the
/// forest a forest with the same roots, brings no element further from its
/// root, and halves, rounding up, the depth of the elements on the climb.
pub proof fn lemma_halved(parent: Seq<u32>, p: int)
    requires
        is_forest(parent),
        0 <= p < parent.len(),
    ensures
        is_forest(halved(parent, p)),
        roots(halved(parent, p)) == roots(parent),
        forall|i: int|
            0 <= i < parent.len() ==> #[trigger] depth(halved(parent, p), i) <= depth(parent, i),
        forall|i: int|
            0 <= i < parent.len() && on_path(parent, p, i) ==> #[trigger] depth(halved(parent, p), i)
                == (depth(parent, i) + 1) / 2,
{
    let short = halved(parent, p);
    lemma_steps(parent);
    let level = Seq::new(parent.len(), |i: int| depth(parent, i));
    assert forall|i: int| 0 <= i < short.len() && !is_root(short, i) implies level[short[i] as int]
        < #[trigger] level[i] by {
        let up = parent[i] as int;
        if is_root(parent, i) {
            assert(short[i] == parent[i]);
        } else if !is_root(parent, up) {
            assert(level[parent[up] as int] < level[up]);
        }
    }
    lemma_ranking_gives_forest(short, level);
    let f = Seq::new(parent.len(), |i: int| root_of(parent, i));
    assert forall|i: int| 0 <= i < parent.len() implies #[trigger] root_of(short, i) == f[i] by {
        lemma_root_determined(short, f, i);
    }
    assert(roots(short) =~= roots(parent));
    assert forall|i: int| 0 <= i < parent.len() implies #[trigger] depth(short, i) <= depth(
        parent,
        i,
    ) && (on_path(parent, p, i) ==> depth(short, i) == (depth(parent, i) + 1) / 2) by {
        lemma_halved_depth(parent, p, i);
    }
}

/// The depth of one element after the climb from `p` has been halved.
proof fn lemma_halved_depth(parent: Seq<u32>, p: int, i: int)
    requires
        is_forest(parent),
        is_forest(halved(parent, p)),
        0 <= p < parent.len(),
        0 <= i < parent.len(),
    ensures
        depth(halved(parent, p), i) <= depth(parent, i),
        on_path(parent, p, i) ==> depth(halved(parent, p), i) == (depth(parent, i) + 1) / 2,
    decreases depth(parent, i),
{
    let short = halved(parent, p);
    lemma_step(parent, i);
    lemma_step(short, i);
    if !is_root(parent, i) {
        let up = parent[i] as int;
        lemma_step(parent, up);
        if on_path(parent, p, i) {
            let steps = choose|steps: nat| #[trigger] climb(parent, p, steps) == i;
            lemma_climb_further(parent, p, steps);
            assert(on_path(parent, p, up));
            if !is_root(parent, up) {
                let top = parent[up] as int;
                lemma_climb_further(parent, p, steps + 1);
                assert(on_path(parent, p, top));
                lemma_halved_depth(parent, p, top);
            } else {
                lemma_step(short, up);
            }
        } else {
            lemma_halved_depth(parent, p, up);
        }
    }
}

} // verus!
