use binary_collections::{BinaryMap, BinarySet, KeyBound};

#[test]
fn construction_dedup() {
    let set = BinarySet::from_sequence(vec![1, 2, 3, 2]);
    assert_eq!(set.len(), 3);
    assert_eq!(set.as_ref(), &vec![1, 2, 3]);
    assert_eq!(set.get(1), Some(&1));
    assert_eq!(set.get(2), Some(&2));
    assert_eq!(set.get(3), Some(&3));
}

#[test]
fn construction_tie_break() {
    let map = BinaryMap::from_sequence(vec![(1, 'a'), (2, 'b'), (3, 'c'), (2, 'd')]);
    assert_eq!(map.get(2), Some(&'b'));
    assert_eq!(map.keys(), &vec![1, 2, 3]);
    assert_eq!(map.values(), &vec!['a', 'b', 'c']);
}

#[test]
fn construction_first_wins_many() {
    let map = BinaryMap::from_sequence(vec![(5, 'x'), (1, 'y'), (5, 'z'), (1, 'w'), (2, 'q')]);
    assert_eq!(map.get(5), Some(&'x'));
    assert_eq!(map.get(1), Some(&'y'));
    assert_eq!(map.get(2), Some(&'q'));
    assert_eq!(map.keys(), &vec![1, 2, 5]);
}

fn three_copies(items: &[i64]) -> (BinarySet, BinarySet, BinarySet) {
    (
        BinarySet::from_sequence(items.to_vec()),
        BinarySet::from_sequence(items.to_vec()),
        BinarySet::from_sequence(items.to_vec()),
    )
}

fn assert_strategies_agree(start: &[i64], batch: &[i64], expected: &[i64]) {
    let (mut a, mut b, mut c) = three_copies(start);
    a.extend(batch.to_vec());
    b.extend_with_inserts(batch.to_vec());
    c.extend_with_rotates(batch.to_vec());
    assert_eq!(a.as_ref(), b.as_ref());
    assert_eq!(b.as_ref(), c.as_ref());
    assert_eq!(a.as_ref(), &expected.to_vec());
}

#[test]
fn merge_strategies_agree_interleaved() {
    assert_strategies_agree(&[2, 4, 6, 8], &[1, 4, 5, 9, 1], &[1, 2, 4, 5, 6, 8, 9]);
}

#[test]
fn merge_strategies_agree_prepend() {
    assert_strategies_agree(&[4, 5, 6], &[1, 2, 3], &[1, 2, 3, 4, 5, 6]);
}

#[test]
fn merge_strategies_agree_append() {
    assert_strategies_agree(&[1, 2, 3], &[4, 5, 6], &[1, 2, 3, 4, 5, 6]);
}

#[test]
fn merge_strategies_agree_duplicates() {
    assert_strategies_agree(&[2, 4, 6, 8], &[2, 3, 4, 5, 7, 9], &[2, 3, 4, 5, 6, 7, 8, 9]);
}

#[test]
fn merge_strategies_agree_empty_batch() {
    assert_strategies_agree(&[1, 2], &[], &[1, 2]);
}

#[test]
fn merge_strategies_agree_empty_start() {
    assert_strategies_agree(&[], &[3, 1, 2, 1], &[1, 2, 3]);
}

#[test]
fn rotates_single_mid_batch() {
    let mut set = BinarySet::from_sequence(vec![10, 20, 30]);
    set.extend_with_rotates(vec![25]);
    assert_eq!(set.as_ref(), &vec![10, 20, 25, 30]);
}

#[test]
fn rotates_batch_inner_duplicates() {
    let mut set = BinarySet::from_sequence(vec![10]);
    set.extend_with_rotates(vec![3, 3, 5, 5]);
    assert_eq!(set.as_ref(), &vec![3, 5, 10]);
}

#[test]
fn inserts_skip_present() {
    let mut set = BinarySet::from_sequence(vec![1, 3]);
    set.extend_with_inserts(vec![2, 3, 2]);
    assert_eq!(set.as_ref(), &vec![1, 2, 3]);
}

#[test]
fn insert_remove_roundtrip() {
    let mut set = BinarySet::from_sequence(vec![2, 3]);
    assert!(set.insert(1));
    assert_eq!(set.as_ref(), &vec![1, 2, 3]);
    assert!(!set.insert(2));
    assert_eq!(set.as_ref(), &vec![1, 2, 3]);
    assert_eq!(set.remove(2), Some(2));
    assert_eq!(set.as_ref(), &vec![1, 3]);
    assert_eq!(set.remove(4), None);
    assert_eq!(set.as_ref(), &vec![1, 3]);
}

#[test]
fn range_clamps_to_edges() {
    let map = BinaryMap::from_sequence(vec![(1, 'a'), (2, 'b')]);
    let (lo, hi) = map.range(KeyBound::Included(-100), KeyBound::Excluded(0));
    assert_eq!((lo, hi), (0, 0));
    let (lo, hi) = map.range(KeyBound::Included(100), KeyBound::Unbounded);
    assert_eq!((lo, hi), (2, 2));
    let (lo, hi) = map.range(KeyBound::Unbounded, KeyBound::Unbounded);
    assert_eq!((lo, hi), (0, 2));
}

#[test]
fn range_on_empty_map() {
    let map: BinaryMap<char> = BinaryMap::new();
    let (lo, hi) = map.range(KeyBound::Included(1), KeyBound::Included(5));
    assert_eq!((lo, hi), (0, 0));
}

#[test]
fn empty_containers() {
    let set = BinarySet::new();
    assert_eq!(set.len(), 0);
    assert_eq!(set.get(7), None);
    let map: BinaryMap<char> = BinaryMap::from_sequence(vec![]);
    assert_eq!(map.len(), 0);
    assert_eq!(map.get(7), None);
}

#[test]
fn map_remove_then_get() {
    let mut map = BinaryMap::from_sequence(vec![(1, 'a'), (2, 'b')]);
    assert_eq!(map.remove(1), Some('a'));
    assert_eq!(map.get(1), None);
    assert_eq!(map.get(2), Some(&'b'));
    assert_eq!(map.remove(1), None);
}

#[test]
fn map_into_parts() {
    let map = BinaryMap::from_sequence(vec![(2, 'b'), (1, 'a')]);
    assert_eq!(map.into_keys(), vec![1, 2]);
    let map = BinaryMap::from_sequence(vec![(2, 'b'), (1, 'a')]);
    assert_eq!(map.into_values(), vec!['a', 'b']);
}
