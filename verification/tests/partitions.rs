use algorithms::union_find::quick_find::{DisjointSet, QuickFind};
use algorithms::union_find::quick_union::QuickUnion;
use algorithms::union_find::weighted_quick_union::WeightedQuickUnion;
use algorithms::union_find::weighted_quick_union_with_path_compression::WeightedQuickUnionWithPathCompression;
use algorithms::union_find::UnionFind;

/// Which elements are together, as a table of answers of `is_connected`.
fn table<U: UnionFind>(set: &mut U) -> Vec<Vec<bool>> {
    let n = set.count() as u32;
    let mut rows = Vec::new();
    for p in 0..n {
        let mut row = Vec::new();
        for q in 0..n {
            row.push(set.is_connected(p, q).unwrap());
        }
        rows.push(row);
    }
    rows
}

fn apply<U: UnionFind>(set: &mut U, unions: &[(u32, u32)]) {
    for (p, q) in unions {
        set.union(*p, *q).unwrap();
    }
}

/// The table that the classes `classes` give over `n` elements.
fn expected(n: usize, classes: &[&[usize]]) -> Vec<Vec<bool>> {
    let mut rows = vec![vec![false; n]; n];
    for i in 0..n {
        rows[i][i] = true;
    }
    for class in classes {
        for a in class.iter() {
            for b in class.iter() {
                rows[*a][*b] = true;
            }
        }
    }
    rows
}

const UNIONS: [(u32, u32); 6] = [(0, 1), (2, 3), (1, 3), (5, 6), (8, 9), (6, 9)];

fn is_an_equivalence<U: UnionFind>(mut set: U) {
    apply(&mut set, &UNIONS);
    let n = set.count() as u32;
    for p in 0..n {
        assert_eq!(set.is_connected(p, p), Ok(true));
        for q in 0..n {
            assert_eq!(set.is_connected(p, q), set.is_connected(q, p));
            assert_eq!(set.is_connected(p, q).unwrap(), set.find(p) == set.find(q));
            for r in 0..n {
                if set.is_connected(p, q) == Ok(true) && set.is_connected(q, r) == Ok(true) {
                    assert_eq!(set.is_connected(p, r), Ok(true));
                }
            }
        }
    }
    assert_eq!(
        table(&mut set),
        expected(10, &[&[0, 1, 2, 3], &[5, 6, 8, 9]])
    );
}

#[test]
fn quick_find_is_an_equivalence() {
    is_an_equivalence(QuickFind::new(10));
}

#[test]
fn disjoint_set_is_an_equivalence() {
    is_an_equivalence(DisjointSet { array: vec![10, 11, 12, 13, 14, 15, 16, 17, 18, 19] });
}

#[test]
fn quick_union_is_an_equivalence() {
    is_an_equivalence(QuickUnion::new(10));
}

#[test]
fn weighted_quick_union_is_an_equivalence() {
    is_an_equivalence(WeightedQuickUnion::new(10));
}

#[test]
fn path_compression_is_an_equivalence() {
    is_an_equivalence(WeightedQuickUnionWithPathCompression::new(10));
}

fn union_twice_is_union_once<U: UnionFind>(mut set: U) {
    apply(&mut set, &[(0, 1), (2, 3)]);
    set.union(1, 2).unwrap();
    let once = table(&mut set);
    set.union(1, 2).unwrap();
    assert_eq!(table(&mut set), once);
    set.union(2, 1).unwrap();
    assert_eq!(table(&mut set), once);
    set.union(4, 4).unwrap();
    assert_eq!(table(&mut set), once);
    assert_eq!(once, expected(6, &[&[0, 1, 2, 3]]));
}

#[test]
fn quick_find_union_twice_is_union_once() {
    union_twice_is_union_once(QuickFind::new(6));
}

#[test]
fn quick_union_union_twice_is_union_once() {
    union_twice_is_union_once(QuickUnion::new(6));
}

#[test]
fn weighted_quick_union_union_twice_is_union_once() {
    union_twice_is_union_once(WeightedQuickUnion::new(6));
}

#[test]
fn path_compression_union_twice_is_union_once() {
    union_twice_is_union_once(WeightedQuickUnionWithPathCompression::new(6));
}

#[test]
fn weighted_quick_union_ignores_a_redundant_union() {
    let mut set = WeightedQuickUnion::new(7);
    set.union(2, 3).unwrap();
    let parents = set.array.clone();
    let ranks = set.ranks.clone();
    set.union(3, 2).unwrap();
    set.union(2, 3).unwrap();
    set.union(5, 5).unwrap();
    assert_eq!(set.array, parents);
    assert_eq!(set.ranks, ranks);
    assert_eq!(ranks, vec![0, 0, 0, 1, 0, 0, 0]);
}

/// All orders of the elements of `items`.
fn permutations(items: &[(u32, u32)]) -> Vec<Vec<(u32, u32)>> {
    if items.len() <= 1 {
        return vec![items.to_vec()];
    }
    let mut all = Vec::new();
    for i in 0..items.len() {
        let mut rest = items.to_vec();
        let first = rest.remove(i);
        for mut tail in permutations(&rest) {
            tail.insert(0, first);
            all.push(tail);
        }
    }
    all
}

#[test]
fn the_order_of_unions_does_not_matter() {
    let unions = [(0, 1), (1, 2), (4, 5), (2, 5), (6, 6)];
    let wanted = expected(8, &[&[0, 1, 2, 4, 5]]);
    let orders = permutations(&unions);
    assert_eq!(orders.len(), 120);
    for order in orders {
        let mut quick_find = QuickFind::new(8);
        apply(&mut quick_find, &order);
        assert_eq!(table(&mut quick_find), wanted);
        let mut quick_union = QuickUnion::new(8);
        apply(&mut quick_union, &order);
        assert_eq!(table(&mut quick_union), wanted);
        let mut weighted = WeightedQuickUnion::new(8);
        apply(&mut weighted, &order);
        assert_eq!(table(&mut weighted), wanted);
        let mut compressed = WeightedQuickUnionWithPathCompression::new(8);
        apply(&mut compressed, &order);
        assert_eq!(table(&mut compressed), wanted);
    }
}

#[test]
fn scenario_one_union_among_seven() {
    let wanted = expected(7, &[&[0, 1]]);
    let mut quick_find = QuickFind::new(7);
    quick_find.union(0, 1).unwrap();
    assert_eq!(quick_find.is_connected(0, 1), Ok(true));
    assert_eq!(quick_find.is_connected(0, 2), Ok(false));
    assert_eq!(table(&mut quick_find), wanted);
    let mut quick_union = QuickUnion::new(7);
    quick_union.union(0, 1).unwrap();
    assert_eq!(quick_union.is_connected(0, 1), Ok(true));
    assert_eq!(quick_union.is_connected(0, 2), Ok(false));
    assert_eq!(table(&mut quick_union), wanted);
    let mut weighted = WeightedQuickUnion::new(7);
    weighted.union(0, 1).unwrap();
    assert_eq!(weighted.is_connected(0, 1), Ok(true));
    assert_eq!(weighted.is_connected(0, 2), Ok(false));
    assert_eq!(table(&mut weighted), wanted);
    let mut compressed = WeightedQuickUnionWithPathCompression::new(7);
    compressed.union(0, 1).unwrap();
    assert_eq!(compressed.is_connected(0, 1), Ok(true));
    assert_eq!(compressed.is_connected(0, 2), Ok(false));
    assert_eq!(table(&mut compressed), wanted);
}

#[test]
fn scenario_two_unions_among_ten() {
    let wanted = expected(10, &[&[0, 8, 9]]);
    let mut quick_find = QuickFind::new(10);
    apply(&mut quick_find, &[(0, 9), (8, 9)]);
    assert_eq!(quick_find.is_connected(0, 8), Ok(true));
    assert_eq!(quick_find.is_connected(8, 9), Ok(true));
    assert_eq!(table(&mut quick_find), wanted);
    let mut quick_union = QuickUnion::new(10);
    apply(&mut quick_union, &[(0, 9), (8, 9)]);
    assert_eq!(quick_union.is_connected(0, 8), Ok(true));
    assert_eq!(quick_union.is_connected(8, 9), Ok(true));
    assert_eq!(table(&mut quick_union), wanted);
    let mut weighted = WeightedQuickUnion::new(10);
    apply(&mut weighted, &[(0, 9), (8, 9)]);
    assert_eq!(weighted.is_connected(0, 8), Ok(true));
    assert_eq!(weighted.is_connected(8, 9), Ok(true));
    assert_eq!(table(&mut weighted), wanted);
    let mut compressed = WeightedQuickUnionWithPathCompression::new(10);
    apply(&mut compressed, &[(0, 9), (8, 9)]);
    assert_eq!(compressed.is_connected(0, 8), Ok(true));
    assert_eq!(compressed.is_connected(8, 9), Ok(true));
    assert_eq!(table(&mut compressed), wanted);
}

#[test]
fn scenario_redundant_union_leaves_no_cycle() {
    let mut quick_union = QuickUnion::new(7);
    apply(&mut quick_union, &[(2, 3), (3, 2)]);
    assert_eq!(quick_union.is_connected(2, 3), Ok(true));
    assert_eq!(quick_union.array, vec![0, 1, 3, 3, 4, 5, 6]);
    let mut weighted = WeightedQuickUnion::new(7);
    apply(&mut weighted, &[(2, 3), (3, 2)]);
    assert_eq!(weighted.is_connected(2, 3), Ok(true));
    assert_eq!(weighted.array, vec![0, 1, 3, 3, 4, 5, 6]);
    let mut compressed = WeightedQuickUnionWithPathCompression::new(7);
    apply(&mut compressed, &[(2, 3), (3, 2)]);
    assert_eq!(compressed.is_connected(2, 3), Ok(true));
    assert_eq!(compressed.wqu.array, vec![0, 1, 3, 3, 4, 5, 6]);
    let mut quick_find = QuickFind::new(7);
    apply(&mut quick_find, &[(2, 3), (3, 2)]);
    assert_eq!(quick_find.is_connected(2, 3), Ok(true));
    assert_eq!(quick_find.array, vec![0, 1, 3, 3, 4, 5, 6]);
}

#[test]
fn count_is_the_number_of_elements_not_of_classes() {
    let mut set = WeightedQuickUnion::new(7);
    apply(&mut set, &[(0, 1), (1, 2), (3, 4)]);
    assert_eq!(set.count(), 7);
    let mut set = QuickFind::new(3);
    apply(&mut set, &[(0, 1), (1, 2)]);
    assert_eq!(set.count(), 3);
    assert_eq!(QuickUnion::new(0).count(), 0);
    assert_eq!(WeightedQuickUnionWithPathCompression::new(1).count(), 1);
}
