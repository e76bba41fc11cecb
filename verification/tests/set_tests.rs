use binary_collections::BinarySet;

#[test]
fn set_len() {
    let set = BinarySet::from_sequence(vec![1, 2, 3, 2]);
    assert_eq!(set.len(), 3)
}

#[test]
fn set_get() {
    let set = BinarySet::from_sequence(vec![1, 2, 3]);

    assert_eq!(set.get(2), Some(&2));
    assert_eq!(set.get(4), None);
}

#[test]
fn set_reserve() {
    let mut set = BinarySet::from_sequence(vec![1, 2, 3]);
    set.reserve(1000);
    assert!(set.capacity() >= 1003);
}

#[test]
fn set_with_capacity() {
    let set = BinarySet::with_capacity(100);
    assert!(set.capacity() >= 100);
}

#[test]
fn set_iter() {
    let set = BinarySet::from_sequence(vec![1, 2, 3]);
    let vec: Vec<i64> = set.as_ref().clone();
    assert_eq!(vec, vec![1, 2, 3])
}

#[test]
fn extend_prepend() {
    let mut set = BinarySet::from_sequence(vec![4, 5, 6]);
    set.extend(vec![1, 1, 2, 3, 3]);

    assert_eq!(set.as_ref(), &vec![1, 2, 3, 4, 5, 6])
}

#[test]
fn extend_postpend() {
    let mut set = BinarySet::from_sequence(vec![1]);
    set.extend(vec![2]);

    assert_eq!(set.as_ref(), &vec![1, 2])
}

#[test]
fn extend_postpend2() {
    let mut set = BinarySet::from_sequence(vec![1, 2, 3]);
    set.extend(vec![4, 4, 5, 6, 6]);

    assert_eq!(set.as_ref(), &vec![1, 2, 3, 4, 5, 6])
}

#[test]
fn extend_no_duplicates() {
    let mut set = BinarySet::from_sequence(vec![2, 4, 6, 8]);
    set.extend(vec![1, 3, 5, 7, 9]);

    assert_eq!(set.as_ref(), &vec![1, 2, 3, 4, 5, 6, 7, 8, 9])
}

#[test]
fn extend_with_duplicates() {
    let mut set = BinarySet::from_sequence(vec![2, 4, 6, 8]);
    set.extend(vec![2, 3, 4, 5, 7, 9]);

    assert_eq!(set.as_ref(), &vec![2, 3, 4, 5, 6, 7, 8, 9])
}

#[test]
fn set_insert() {
    let mut set = BinarySet::from_sequence(vec![2, 3]);
    assert!(set.insert(1));
    assert!(!set.insert(2));

    assert_eq!(set.as_ref(), &vec![1, 2, 3])
}

#[test]
fn set_remove() {
    let mut set = BinarySet::from_sequence(vec![1, 2, 3]);
    assert_eq!(set.remove(2), Some(2));
    assert_eq!(set.remove(4), None);

    assert_eq!(set.as_ref(), &vec![1, 3])
}

#[test]
fn test_into() {
    let set = BinarySet::from_sequence(vec![1, 2, 3]);
    let into_vec: Vec<i64> = set.into_vec();
    assert_eq!(into_vec, vec![1, 2, 3])
}

#[test]
fn set_clear() {
    let mut set = BinarySet::from_sequence(vec![1, 2, 3]);

    set.clear();
    let into_vec: Vec<i64> = set.into_vec();

    assert_eq!(into_vec, vec![])
}

#[test]
fn lib_len() {
    let set = BinarySet::from_sequence(vec![1, 2, 3]);
    assert_eq!(set.len(), 3)
}

#[test]
fn lib_get() {
    let set = BinarySet::from_sequence(vec![1, 2, 3]);

    assert_eq!(set.get(2), Some(&2));
    assert_eq!(set.get(4), None);
}

#[test]
fn lib_reserve() {
    let mut set = BinarySet::from_sequence(vec![1, 2, 3]);
    set.reserve(1000);
    assert!(set.capacity() >= 1003);
}

#[test]
fn lib_with_capacity() {
    let set = BinarySet::with_capacity(100);
    assert!(set.capacity() >= 100);
}

#[test]
fn lib_iter() {
    let set = BinarySet::from_sequence(vec![1, 2, 3]);
    let vec: Vec<i64> = set.as_ref().clone();
    assert_eq!(vec, vec![1, 2, 3])
}

#[test]
fn extend() {
    let mut set = BinarySet::from_sequence(vec![2, 4, 6, 8]);
    set.extend(vec![1, 3, 5, 7, 9]);

    assert_eq!(set.as_ref(), &vec![1, 2, 3, 4, 5, 6, 7, 8, 9])
}

#[test]
fn lib_insert() {
    let mut set = BinarySet::from_sequence(vec![2, 3]);
    assert_eq!(set.insert(1), true);
    assert_eq!(set.insert(2), false);

    assert_eq!(set.as_ref(), &vec![1, 2, 3])
}

#[test]
fn lib_remove() {
    let mut set = BinarySet::from_sequence(vec![1, 2, 3]);
    assert_eq!(set.remove(2), Some(2));
    assert_eq!(set.remove(4), None);

    assert_eq!(set.as_ref(), &vec![1, 3])
}
