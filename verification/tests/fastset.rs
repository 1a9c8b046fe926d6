use domset::fastset::{DenseFastSet, FastSet};

#[test]
fn fast_set_insert_remove_contains() {
    let mut set = FastSet::new(4);
    for k in 0..4 {
        assert!(!set.contains(k));
    }
    set.insert(2);
    assert!(set.contains(2));
    assert!(!set.contains(1));
    set.insert(2);
    assert!(set.contains(2));
    set.remove(2);
    assert!(!set.contains(2));
    set.remove(2);
    assert!(!set.contains(2));
}

#[test]
fn fast_set_has_insert_reports_newness() {
    let mut set = FastSet::new(3);
    assert!(set.has_insert(1));
    assert!(!set.has_insert(1));
    assert!(set.contains(1));
    set.remove(1);
    assert!(set.has_insert(1));
}

#[test]
fn fast_set_clear_empties() {
    let mut set = FastSet::new(3);
    set.insert(0);
    set.insert(2);
    set.remove(2);
    set.clear();
    for k in 0..3 {
        assert!(!set.contains(k));
    }
    set.insert(1);
    set.clear();
    set.clear();
    assert!(!set.contains(1));
    set.insert(2);
    assert!(set.contains(2));
    assert!(!set.contains(0));
}

#[test]
fn fast_set_removed_key_stays_out_after_clear() {
    let mut set = FastSet::new(2);
    set.insert(0);
    set.remove(0);
    set.clear();
    assert!(!set.contains(0));
    set.remove(1);
    set.clear();
    assert!(!set.contains(1));
}

#[test]
fn dense_set_keeps_order_of_insertion() {
    let mut set = DenseFastSet::new(5);
    assert!(set.is_empty());
    assert!(set.insert(3));
    assert!(set.insert(1));
    assert!(!set.insert(3));
    set.insert_unchecked(4);
    assert_eq!(set.iter(), vec![3, 1, 4]);
    assert_eq!(set.size(), 3);
    assert!(!set.is_empty());
    assert_eq!(set.dense_idx(3), Some(0));
    assert_eq!(set.dense_idx(1), Some(1));
    assert_eq!(set.dense_idx(4), Some(2));
    assert_eq!(set.dense_idx(0), None);
}

#[test]
fn dense_set_remove_moves_last_into_gap() {
    let mut set = DenseFastSet::new(5);
    for k in [3, 1, 4, 0] {
        set.insert(k);
    }
    assert!(set.remove(3));
    assert_eq!(set.iter(), vec![0, 1, 4]);
    assert_eq!(set.dense_idx(0), Some(0));
    assert!(!set.contains(3));
    assert!(!set.remove(3));
    assert_eq!(set.iter(), vec![0, 1, 4]);
    assert!(set.remove(4));
    assert_eq!(set.iter(), vec![0, 1]);
    assert!(set.remove(0));
    assert!(set.remove(1));
    assert!(set.is_empty());
    assert_eq!(set.iter(), Vec::<usize>::new());
}

#[test]
fn dense_set_clear_empties() {
    let mut set = DenseFastSet::new(3);
    set.insert(0);
    set.insert(2);
    set.clear();
    assert!(set.is_empty());
    assert_eq!(set.size(), 0);
    for k in 0..3 {
        assert!(!set.contains(k));
        assert_eq!(set.dense_idx(k), None);
    }
    assert!(set.insert(2));
    assert_eq!(set.iter(), vec![2]);
}

#[test]
fn dense_set_iter_is_a_copy() {
    let mut set = DenseFastSet::new(3);
    set.insert(1);
    let mut members = set.iter();
    members.push(2);
    assert_eq!(set.iter(), vec![1]);
    assert!(!set.contains(2));
}
