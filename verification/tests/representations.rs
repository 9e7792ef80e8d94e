use algorithms::union_find::quick_find::{DisjointSet, QuickFind};
use algorithms::union_find::quick_union::QuickUnion;
use algorithms::union_find::weighted_quick_union::WeightedQuickUnion;
use algorithms::union_find::weighted_quick_union_with_path_compression::WeightedQuickUnionWithPathCompression;
use algorithms::union_find::UnionFind;

#[test]
fn quick_find_starts_with_every_element_alone() {
    let mut set = QuickFind::new(4);
    assert_eq!(set.array, vec![0, 1, 2, 3]);
    for p in 0..4 {
        assert_eq!(set.find(p), Ok(p));
    }
}

#[test]
fn quick_find_union_relabels_the_class_of_the_first_operand() {
    let mut set = QuickFind::new(6);
    set.union(0, 1).unwrap();
    assert_eq!(set.array, vec![1, 1, 2, 3, 4, 5]);
    set.union(2, 3).unwrap();
    assert_eq!(set.array, vec![1, 1, 3, 3, 4, 5]);
    set.union(0, 3).unwrap();
    assert_eq!(set.array, vec![3, 3, 3, 3, 4, 5]);
    set.union(5, 2).unwrap();
    assert_eq!(set.array, vec![3, 3, 3, 3, 4, 3]);
    assert_eq!(set.find(0), Ok(3));
    assert_eq!(set.find(4), Ok(4));
}

#[test]
fn disjoint_set_takes_any_identifiers() {
    let mut set = DisjointSet { array: vec![7, 7, 9, 1000, 9] };
    assert_eq!(set.count(), 5);
    assert_eq!(set.is_connected(0, 1), Ok(true));
    assert_eq!(set.is_connected(2, 4), Ok(true));
    assert_eq!(set.is_connected(0, 2), Ok(false));
    assert_eq!(set.find(3), Ok(1000));
    set.union(1, 3).unwrap();
    assert_eq!(set.array, vec![1000, 1000, 9, 1000, 9]);
    set.union(4, 0).unwrap();
    assert_eq!(set.array, vec![1000, 1000, 1000, 1000, 1000]);
}

#[test]
fn quick_union_hangs_the_first_root_under_the_second() {
    let mut set = QuickUnion::new(6);
    assert_eq!(set.array, vec![0, 1, 2, 3, 4, 5]);
    set.union(0, 1).unwrap();
    assert_eq!(set.array, vec![1, 1, 2, 3, 4, 5]);
    set.union(1, 2).unwrap();
    assert_eq!(set.array, vec![1, 2, 2, 3, 4, 5]);
    set.union(0, 3).unwrap();
    assert_eq!(set.array, vec![1, 2, 3, 3, 4, 5]);
    set.union(3, 4).unwrap();
    assert_eq!(set.array, vec![1, 2, 3, 4, 4, 5]);
    // a chain: the root of 0 lies four pointers up
    assert_eq!(set.root(0), 4);
    assert_eq!(set.find(0), Ok(4));
    assert_eq!(set.find(5), Ok(5));
    // lookups change nothing
    assert_eq!(set.array, vec![1, 2, 3, 4, 4, 5]);
}

#[test]
fn weighted_quick_union_breaks_ties_in_favour_of_the_second_operand() {
    let mut set = WeightedQuickUnion::new(4);
    assert_eq!(set.array, vec![0, 1, 2, 3]);
    assert_eq!(set.ranks, vec![0, 0, 0, 0]);
    set.union(0, 1).unwrap();
    assert_eq!(set.array, vec![1, 1, 2, 3]);
    assert_eq!(set.ranks, vec![0, 1, 0, 0]);
    set.union(3, 2).unwrap();
    assert_eq!(set.array, vec![1, 1, 2, 2]);
    assert_eq!(set.ranks, vec![0, 1, 1, 0]);
    set.union(0, 3).unwrap();
    assert_eq!(set.array, vec![1, 2, 2, 2]);
    assert_eq!(set.ranks, vec![0, 1, 2, 0]);
}

#[test]
fn weighted_quick_union_hangs_the_lower_rank_under_the_higher() {
    let mut set = WeightedQuickUnion::new(5);
    set.union(0, 1).unwrap();
    // the root of the first operand has the higher rank: it stays the root, at its rank
    set.union(1, 2).unwrap();
    assert_eq!(set.array, vec![1, 1, 1, 3, 4]);
    assert_eq!(set.ranks, vec![0, 1, 0, 0, 0]);
    // the root of the second operand has the higher rank: it stays the root, at its rank
    set.union(3, 0).unwrap();
    assert_eq!(set.array, vec![1, 1, 1, 1, 4]);
    assert_eq!(set.ranks, vec![0, 1, 0, 0, 0]);
    assert_eq!(set.root(3), 1);
    assert_eq!(set.find(4), Ok(4));
}

#[test]
fn scenario_rank_growth() {
    let mut set = WeightedQuickUnion::new(7);
    for (p, q) in [(2, 3), (3, 6), (1, 5), (1, 3)] {
        set.union(p, q).unwrap();
    }
    let root = set.root(1);
    for p in [1, 2, 3, 5, 6] {
        assert_eq!(set.root(p), root);
    }
    assert_eq!(set.ranks[root as usize], 2);
    assert_eq!(root, 3);
    assert_eq!(set.array, vec![0, 5, 3, 3, 4, 3, 3]);
    assert_eq!(set.ranks, vec![0, 0, 0, 2, 0, 1, 0]);

    let mut set = WeightedQuickUnionWithPathCompression::new(7);
    for (p, q) in [(2, 3), (3, 6), (1, 5), (1, 3)] {
        set.union(p, q).unwrap();
    }
    let root = set.root(1);
    for p in [1, 2, 3, 5, 6] {
        assert_eq!(set.root(p), root);
    }
    assert_eq!(set.wqu.ranks[root as usize], 2);
}

/// Eight elements in one tree of height three, rooted at 7.
fn tall() -> WeightedQuickUnionWithPathCompression<WeightedQuickUnion> {
    let mut wqu = WeightedQuickUnion::new(8);
    for (p, q) in [(0, 1), (2, 3), (0, 2), (4, 5), (6, 7), (4, 6), (0, 4)] {
        wqu.union(p, q).unwrap();
    }
    assert_eq!(wqu.array, vec![1, 3, 3, 7, 5, 7, 7, 7]);
    assert_eq!(wqu.ranks, vec![0, 1, 0, 2, 0, 1, 0, 3]);
    WeightedQuickUnionWithPathCompression { wqu }
}

#[test]
fn path_compression_points_every_visited_element_at_its_grandparent() {
    let mut set = tall();
    assert_eq!(set.root(0), 7);
    assert_eq!(set.wqu.array, vec![3, 7, 3, 7, 5, 7, 7, 7]);
    assert_eq!(set.wqu.ranks, vec![0, 1, 0, 2, 0, 1, 0, 3]);
    assert_eq!(set.root(0), 7);
    assert_eq!(set.wqu.array, vec![7, 7, 3, 7, 5, 7, 7, 7]);
    assert_eq!(set.root(0), 7);
    assert_eq!(set.wqu.array, vec![7, 7, 3, 7, 5, 7, 7, 7]);
}

#[test]
fn path_compression_happens_on_find() {
    let mut set = tall();
    assert_eq!(set.find(0), Ok(7));
    assert_eq!(set.wqu.array, vec![3, 7, 3, 7, 5, 7, 7, 7]);
    assert_eq!(set.find(2), Ok(7));
    assert_eq!(set.wqu.array, vec![3, 7, 7, 7, 5, 7, 7, 7]);
}

#[test]
fn path_compression_happens_on_is_connected() {
    let mut set = tall();
    assert_eq!(set.is_connected(0, 4), Ok(true));
    assert_eq!(set.wqu.array, vec![3, 7, 3, 7, 7, 7, 7, 7]);
    assert_eq!(set.wqu.ranks, vec![0, 1, 0, 2, 0, 1, 0, 3]);
}

#[test]
fn path_compression_happens_on_union() {
    let mut set = tall();
    set.union(0, 4).unwrap();
    assert_eq!(set.wqu.array, vec![3, 7, 3, 7, 7, 7, 7, 7]);
    assert_eq!(set.wqu.ranks, vec![0, 1, 0, 2, 0, 1, 0, 3]);
}

#[test]
fn weighted_quick_union_lookups_change_nothing() {
    let mut set = WeightedQuickUnion::new(8);
    for (p, q) in [(0, 1), (2, 3), (0, 2), (4, 5), (6, 7), (4, 6), (0, 4)] {
        set.union(p, q).unwrap();
    }
    assert_eq!(set.array, vec![1, 3, 3, 7, 5, 7, 7, 7]);
    assert_eq!(set.find(0), Ok(7));
    assert_eq!(set.is_connected(0, 4), Ok(true));
    assert_eq!(set.root(2), 7);
    assert_eq!(set.array, vec![1, 3, 3, 7, 5, 7, 7, 7]);
    assert_eq!(set.ranks, vec![0, 1, 0, 2, 0, 1, 0, 3]);
}

/// The number of pointers between `p` and its root.
fn depth(parents: &[u32], p: usize) -> u32 {
    let mut node = p;
    let mut steps = 0;
    while parents[node] as usize != node {
        node = parents[node] as usize;
        steps += 1;
    }
    steps
}

fn root(parents: &[u32], p: usize) -> usize {
    let mut node = p;
    while parents[node] as usize != node {
        node = parents[node] as usize;
    }
    node
}

fn log2(n: usize) -> u32 {
    usize::BITS - 1 - n.leading_zeros()
}

fn ranks_bound_heights(parents: &[u32], ranks: &[u32]) {
    let n = parents.len();
    for r in 0..n {
        if parents[r] as usize == r {
            let mut height = 0;
            for p in 0..n {
                if root(parents, p) == r && depth(parents, p) > height {
                    height = depth(parents, p);
                }
            }
            assert!(height <= ranks[r]);
            assert!(ranks[r] <= log2(n));
        }
    }
}

/// A fixed sequence of pairs below `n` that looks shuffled.
fn pairs(n: u32, count: u32) -> Vec<(u32, u32)> {
    let mut state: u32 = 12345;
    let mut out = Vec::new();
    for _ in 0..count {
        state = state.wrapping_mul(1103515245).wrapping_add(12345);
        let p = (state >> 8) % n;
        state = state.wrapping_mul(1103515245).wrapping_add(12345);
        let q = (state >> 8) % n;
        out.push((p, q));
    }
    out
}

#[test]
fn weighted_quick_union_ranks_bound_heights() {
    for n in [1u32, 2, 3, 7, 8, 9, 31, 32, 100] {
        let mut set = WeightedQuickUnion::new(n);
        ranks_bound_heights(&set.array, &set.ranks);
        for (p, q) in pairs(n, 3 * n) {
            set.union(p, q).unwrap();
            ranks_bound_heights(&set.array, &set.ranks);
        }
    }
}

#[test]
fn path_compression_ranks_bound_heights() {
    for n in [1u32, 2, 3, 7, 8, 9, 31, 32, 100] {
        let mut set = WeightedQuickUnionWithPathCompression::new(n);
        for (p, q) in pairs(n, 3 * n) {
            set.union(p, q).unwrap();
            ranks_bound_heights(&set.wqu.array, &set.wqu.ranks);
            set.find(q).unwrap();
            ranks_bound_heights(&set.wqu.array, &set.wqu.ranks);
        }
    }
}

#[test]
fn weighted_quick_union_reaches_the_logarithm() {
    // merging equal trees pairwise gives the highest rank that eight elements allow
    let mut set = WeightedQuickUnion::new(8);
    for (p, q) in [(0, 1), (2, 3), (4, 5), (6, 7), (0, 2), (4, 6), (0, 4)] {
        set.union(p, q).unwrap();
    }
    let top = set.root(0);
    assert_eq!(set.ranks[top as usize], 3);
    assert_eq!(depth(&set.array, 0), 3);
}

#[test]
fn ranks_never_fall() {
    let mut set = WeightedQuickUnion::new(16);
    let mut before = set.ranks.clone();
    for (p, q) in pairs(16, 60) {
        set.union(p, q).unwrap();
        for i in 0..16 {
            assert!(before[i] <= set.ranks[i]);
        }
        before = set.ranks.clone();
    }
}
