use binary_collections::{BinaryMap, KeyBound};

fn range_values(map: &BinaryMap<char>, start: KeyBound, end: KeyBound) -> Vec<char> {
    let (lo, hi) = map.range(start, end);
    map.values()[lo..hi].to_vec()
}

#[test]
fn map_len() {
    let map = BinaryMap::from_sequence(vec![(1, 'a'), (2, 'b'), (3, 'c'), (2, 'd')]);
    assert_eq!(map.len(), 3)
}

#[test]
fn map_get() {
    let map = BinaryMap::from_sequence(vec![(1, 'a'), (2, 'b'), (3, 'c')]);

    assert_eq!(map.get(2), Some(&'b'));
    assert_eq!(map.get(4), None);
}

#[test]
fn get_range() {
    let map = BinaryMap::from_sequence(vec![(1, 'a'), (2, 'b'), (3, 'c'), (4, 'd')]);
    assert_eq!(
        range_values(&map, KeyBound::Included(2), KeyBound::Included(3)),
        vec!['b', 'c']
    );
    assert_eq!(
        range_values(&map, KeyBound::Included(2), KeyBound::Excluded(4)),
        vec!['b', 'c']
    );
    assert_eq!(
        range_values(&map, KeyBound::Excluded(1), KeyBound::Included(3)),
        vec!['b', 'c']
    );
    assert_eq!(
        range_values(&map, KeyBound::Included(2), KeyBound::Excluded(5)),
        vec!['b', 'c', 'd']
    );
    assert_eq!(
        range_values(&map, KeyBound::Included(2), KeyBound::Included(5)),
        vec!['b', 'c', 'd']
    );
    assert_eq!(
        range_values(&map, KeyBound::Included(2), KeyBound::Unbounded),
        vec!['b', 'c', 'd']
    );
    assert_eq!(
        range_values(&map, KeyBound::Unbounded, KeyBound::Excluded(3)),
        vec!['a', 'b']
    );
    assert_eq!(
        range_values(&map, KeyBound::Included(-1), KeyBound::Excluded(3)),
        vec!['a', 'b']
    );
    assert_eq!(
        range_values(&map, KeyBound::Excluded(-1), KeyBound::Excluded(3)),
        vec!['a', 'b']
    );
}

#[test]
fn get_key_value() {
    let map = BinaryMap::from_sequence(vec![(1, 'a'), (2, 'b'), (3, 'c')]);

    assert_eq!(map.get_key_value(2), Some((&2, &'b')));
    assert_eq!(map.get(4), None);
}

#[test]
fn get_mut() {
    let mut map = BinaryMap::from_sequence(vec![(1, 'a'), (2, 'b'), (3, 'c')]);

    match map.get_mut(2) {
        Some(v) => *v = 'd',
        None => panic!("Should hav matched"),
    };
    assert_eq!(map.get(2), Some(&'d'));
}

#[test]
fn map_reserve() {
    let mut map = BinaryMap::from_sequence(vec![(1, 'a'), (2, 'b'), (3, 'c')]);
    map.reserve(1000);
    assert!(map.capacity() >= 1003);
}

#[test]
fn map_with_capacity() {
    let map: BinaryMap<char> = BinaryMap::with_capacity(100);
    assert!(map.capacity() >= 100);
}

#[test]
fn map_iter() {
    let map = BinaryMap::from_sequence(vec![(1, 'a'), (2, 'b'), (3, 'c')]);
    let vec: Vec<char> = map.values().clone();
    assert_eq!(vec, vec!['a', 'b', 'c'])
}

#[test]
fn map_insert() {
    let mut map = BinaryMap::from_sequence(vec![(2, 'b'), (3, 'c')]);
    assert_eq!(map.insert(1, 'a'), None);
    assert_eq!(map.insert(2, 'd'), Some('b'));

    assert_eq!(map.values(), &vec!['a', 'd', 'c']);
    assert_eq!(map.keys(), &vec![1, 2, 3]);
}

#[test]
fn map_remove() {
    let mut map = BinaryMap::from_sequence(vec![(1, 'a'), (2, 'b'), (3, 'c')]);
    assert_eq!(map.remove(2), Some('b'));
    assert_eq!(map.remove(4), None);

    assert_eq!(map.values(), &vec!['a', 'c'])
}

#[test]
fn map_clear() {
    let mut map = BinaryMap::from_sequence(vec![(1, 'a'), (2, 'b'), (3, 'c')]);

    map.clear();

    assert_eq!(map.values(), &Vec::<char>::new())
}
