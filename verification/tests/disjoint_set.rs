use algorithms::union_find::quick_find::DisjointSet;
use algorithms::union_find::{UnionFind, UnionFindError};

#[test]
fn union_find_is_connected_empty_set() {
    let mut result = DisjointSet { array: vec![] };
    assert_eq!(result.is_connected(42, 0), Err(UnionFindError::EmptyStructure));
}

#[test]
fn union_find_is_connected_symmetric() {
    let mut set = DisjointSet { array: vec![0, 1, 2, 3, 4] };
    set.union(3, 4).unwrap();
    assert_eq!(set.is_connected(3, 4), Ok(true));
    assert_eq!(set.is_connected(4, 3), Ok(true));
    assert_eq!(set.is_connected(0, 3), Ok(false));
    assert_eq!(set.is_connected(3, 0), Ok(false));
}

#[test]
fn union_find_is_connected_transitive() {
    let mut set = DisjointSet { array: vec![0, 1, 2, 3, 4, 5, 6, 7, 8, 9] };
    assert_eq!(set.is_connected(0, 1), Ok(false));
    assert_eq!(set.is_connected(0, 9), Ok(false));
    set.union(0, 9).unwrap();
    assert_eq!(set.is_connected(0, 9), Ok(true));
    assert_eq!(set.is_connected(0, 8), Ok(false));
    set.union(8, 9).unwrap();
    assert_eq!(set.is_connected(0, 8), Ok(true));
    assert_eq!(set.is_connected(8, 9), Ok(true));
}

#[test]
fn union_find_is_connected() {
    let mut set = DisjointSet { array: vec![0, 1, 2, 3, 4, 5, 6] };
    assert_eq!(set.is_connected(1, 0), Ok(false));
    assert_eq!(set.is_connected(0, 0), Ok(true));
}

#[test]
fn union_find_union() {
    let mut set = DisjointSet { array: vec![0, 1, 2, 3, 4, 5, 6] };
    set.union(0, 1).unwrap();
    assert_eq!(set.is_connected(0, 1), Ok(true));
    assert_eq!(set.is_connected(0, 2), Ok(false));
}

#[test]
fn union_find_find() {
    let mut set = DisjointSet { array: vec![0, 1, 2, 3, 4, 5, 6] };
    set.union(0, 1).unwrap();
    assert_eq!(set.is_connected(0, 1), Ok(true));
    assert_eq!(set.find(0), set.find(1));
    assert_eq!(set.is_connected(0, 2), Ok(false));
    assert_ne!(set.find(0), set.find(2));
}

#[test]
fn union_find_count() {
    let set = DisjointSet { array: vec![0, 1, 2, 3, 4, 5, 6] };
    assert_eq!(set.count(), 7);
}
