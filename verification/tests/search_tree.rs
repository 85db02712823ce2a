use stylish_stringlike::text::{Bounds, SearchTree, ShiftError};

#[test]
fn dedup() {
    let mut actual = SearchTree::default();
    actual.insert(1, 3usize);
    actual.insert(2, 3);
    actual.dedup();
    let mut expected = SearchTree::default();
    expected.insert(1, 3usize);
    assert_eq!(expected, actual);
}

#[test]
fn copy_with_shift_saturating() {
    let mut tree: SearchTree<usize> = Default::default();
    tree.insert(1, 2);
    tree.insert(4, 5);
    let mut actual: SearchTree<usize> = Default::default();
    actual.copy_with_shift(&tree, Bounds::starting_at(0), -2).unwrap();
    let mut expected: SearchTree<usize> = Default::default();
    // 1 - 2 is negative, so that entry keeps its key
    expected.insert(1, 2);
    expected.insert(2, 5);
    assert_eq!(expected, actual);
}

#[test]
fn copy_with_shift() {
    let mut tree: SearchTree<usize> = Default::default();
    tree.insert(2, 2);
    tree.insert(4, 5);
    let mut actual: SearchTree<usize> = Default::default();
    actual.copy_with_shift(&tree, Bounds::starting_at(0), -1).unwrap();
    let mut expected: SearchTree<usize> = Default::default();
    expected.insert(1, 2);
    expected.insert(3, 5);
    assert_eq!(expected, actual);
}

#[test]
fn slice_to_zero() {
    let mut tree: SearchTree<usize> = Default::default();
    tree.insert(2, 2);
    tree.insert(4, 5);
    let actual = tree.slice(Bounds::starting_at(2)).unwrap();
    let mut expected: SearchTree<usize> = Default::default();
    expected.insert(0, 2);
    expected.insert(2, 5);
    assert_eq!(expected, actual);
}

#[test]
fn slice_to_one() {
    let mut tree: SearchTree<usize> = Default::default();
    tree.insert(0, 1);
    tree.insert(2, 2);
    tree.insert(4, 5);
    let actual = tree.slice(Bounds::starting_at(1)).unwrap();
    let mut expected: SearchTree<usize> = Default::default();
    expected.insert(0, 1);
    expected.insert(1, 2);
    expected.insert(3, 5);
    assert_eq!(expected, actual);
}

#[test]
fn slice_to_three() {
    let mut tree: SearchTree<usize> = Default::default();
    tree.insert(0, 1);
    tree.insert(2, 2);
    tree.insert(4, 5);
    let actual = tree.slice(Bounds::starting_at(3)).unwrap();
    let mut expected: SearchTree<usize> = Default::default();
    expected.insert(0, 2);
    expected.insert(1, 5);
    assert_eq!(expected, actual);
}

#[test]
fn slice_unbounded_start() {
    let mut tree: SearchTree<usize> = Default::default();
    tree.insert(0, 1);
    tree.insert(2, 2);
    tree.insert(4, 5);
    let actual = tree.slice(Bounds::up_to(2)).unwrap();
    let mut expected: SearchTree<usize> = Default::default();
    expected.insert(0, 1);
    assert_eq!(expected, actual);
}

#[test]
fn slice_unbounded_start_inclusive() {
    let mut tree: SearchTree<usize> = Default::default();
    tree.insert(0, 1);
    tree.insert(2, 2);
    tree.insert(4, 5);
    let actual = tree.slice(Bounds::up_to_inclusive(2)).unwrap();
    let mut expected: SearchTree<usize> = Default::default();
    expected.insert(0, 1);
    expected.insert(2, 2);
    assert_eq!(expected, actual);
}

#[test]
fn copy_with_shift_rejects_keys_beyond_signed_range() {
    let mut tree: SearchTree<usize> = Default::default();
    tree.insert(3, 30);
    tree.insert(usize::MAX, 7);
    let mut actual: SearchTree<usize> = Default::default();
    let result = actual.copy_with_shift(&tree, Bounds::full(), 1);
    assert_eq!(result, Err(ShiftError));
    let mut expected: SearchTree<usize> = Default::default();
    expected.insert(4, 30);
    assert_eq!(expected, actual);
}

#[test]
fn insert_then_lookup() {
    let mut tree: SearchTree<usize> = SearchTree::new();
    tree.insert(5, 50);
    tree.insert(2, 20);
    assert_eq!(tree.insert(5, 55), Some(50));
    assert!(tree.contains_key(5));
    assert!(!tree.contains_key(3));
    assert_eq!(tree.search_left(5), Some(&55));
    assert_eq!(tree.search_left(4), Some(&20));
    assert_eq!(tree.search_left(1), None);
    assert_eq!(tree.keys(), vec![2, 5]);
    assert!(!tree.is_empty());
}

#[test]
fn trim_and_range() {
    let mut tree: SearchTree<usize> = SearchTree::new();
    tree.insert(1, 10);
    tree.insert(4, 40);
    tree.insert(9, 90);
    assert_eq!(tree.range(Bounds::between(2, 10)), vec![(4, 40), (9, 90)]);
    tree.trim(4);
    assert_eq!(tree.keys(), vec![1, 4]);
    tree.trim(0);
    assert!(tree.is_empty());
}

#[test]
fn dedup_twice_changes_nothing_and_keeps_lookups() {
    let mut tree: SearchTree<usize> = SearchTree::default();
    tree.insert(0, 1);
    tree.insert(2, 1);
    tree.insert(5, 7);
    tree.insert(6, 7);
    tree.insert(9, 1);
    let before: Vec<Option<usize>> = (0..12).map(|p| tree.search_left(p).copied()).collect();
    tree.dedup();
    assert_eq!(tree.keys(), vec![0, 5, 9]);
    let after: Vec<Option<usize>> = (0..12).map(|p| tree.search_left(p).copied()).collect();
    assert_eq!(before, after);
    let once = tree.clone();
    tree.dedup();
    assert_eq!(once, tree);
}
