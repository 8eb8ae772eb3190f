use notify::bimap::BiHashMap;
use rustc_hash::FxBuildHasher;

#[test]
fn test_contains() {
    let mut b = BiHashMap::new();
    b.insert(1, 2, 3);
    assert!(b.contains_right(&2));
    assert!(!b.contains_right(&3));
}

#[test]
fn test_get() {
    let mut b = BiHashMap::new();
    b.insert(1, 2, 3);
    assert_eq!(b.get_by_left(&1), Some((&2, &3)));
    assert_eq!(b.get_by_right(&2), Some((&1, &3)));
    assert_eq!(b.get_by_left(&4), None);
    assert_eq!(b.get_by_right(&5), None);
}

#[test]
fn test_insert() {
    let mut b = BiHashMap::new();
    let result = b.insert(1, 2, 3);
    assert_eq!(result, None);
    assert!(b.contains_right(&2));

    let result = b.insert(1, 4, 5);
    assert_eq!(result, Some((1, 2, 3)));
    assert!(b.contains_right(&4));
    assert!(!b.contains_right(&2));

    let result = b.insert(6, 4, 7);
    assert_eq!(result, Some((1, 4, 5)));
    assert!(b.contains_right(&4));
    assert_eq!(b.get_by_left(&6), Some((&4, &7)));
    assert_eq!(b.get_by_right(&4), Some((&6, &7)));

    let result = b.insert(6, 8, 9);
    assert_eq!(result, Some((6, 4, 7)));
    assert!(b.contains_right(&8));
    assert_eq!(b.get_by_left(&6), Some((&8, &9)));
    assert_eq!(b.get_by_right(&8), Some((&6, &9)));
}

#[test]
fn test_remove() {
    let mut b = BiHashMap::new();
    b.insert(1, 2, 3);
    assert!(b.contains_right(&2));

    let result = b.remove_by_left(&1);
    assert_eq!(result, Some((2, 3)));
    assert!(!b.contains_right(&2));

    b.insert(1, 2, 3);
    assert!(b.contains_right(&2));

    let result = b.remove_by_right(&2);
    assert_eq!(result, Some((1, 3)));
    assert!(!b.contains_right(&2));

    let result = b.remove_by_left(&1);
    assert_eq!(result, None);
    let result = b.remove_by_right(&2);
    assert_eq!(result, None);
}

#[test]
fn other_hasher() {
    let mut b: BiHashMap<i32, i32, i32, FxBuildHasher> = BiHashMap::with_hasher(FxBuildHasher);
    assert_eq!(b.get_by_left(&1), None);
    b.insert(1, 2, 3);
    b.insert(4, 5, 6);
    assert_eq!(b.get_by_left(&1), Some((&2, &3)));
    assert_eq!(b.get_by_right(&5), Some((&4, &6)));
}

#[test]
fn entries_until_they_are_cleared() {
    let mut b = BiHashMap::new();
    assert!(b.iter().is_empty());
    b.insert(1, 2, 3);
    b.insert(4, 5, 6);
    let mut entries = b.iter();
    entries.sort();
    assert_eq!(entries, vec![(&1, &2, &3), (&4, &5, &6)]);
    b.clear();
    assert!(b.iter().is_empty());
    assert_eq!(b.get_by_left(&1), None);
}

#[test]
fn default_is_empty() {
    let b: BiHashMap<i32, i32, i32> = BiHashMap::default();
    assert!(b.iter().is_empty());
}

#[test]
fn remove_gives_back_what_insert_added() {
    let mut b = BiHashMap::new();
    b.insert(1, 2, 3);
    b.insert(4, 5, 6);
    assert_eq!(b.remove_by_left(&4), Some((5, 6)));
    assert_eq!(b.iter(), vec![(&1, &2, &3)]);
    assert_eq!(b.get_by_right(&5), None);
}
