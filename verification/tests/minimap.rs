use comlib::common::minimap::{Entry, MiniMap};
use std::collections::HashMap;

#[test]
fn test_minimap() {
    let mut map = HashMap::new();
    assert_eq!(map.insert("Hello", 1), None);
    assert_eq!(map.get("Hello"), Some(&1));
    assert_eq!(map.insert("Hello", 2), Some(1));
    assert_eq!(map.get("Hello"), Some(&2));
    assert_eq!(map.insert("World", 3), None);
    assert_eq!(map.get("Hello"), Some(&2));
    assert_eq!(map.get("World"), Some(&3));
}

#[test]
fn minimap_insert_and_get() {
    let mut map = MiniMap::new();
    assert_eq!(map.insert(7, 1), None);
    assert_eq!(map.get(&7), Some(&1));
    assert_eq!(map.insert(7, 2), Some(1));
    assert_eq!(map.get(&7), Some(&2));
    assert_eq!(map.insert(3, 3), None);
    assert_eq!(map.get(&7), Some(&2));
    assert_eq!(map.get(&3), Some(&3));
    assert_eq!(map.get(&5), None);
    *map.get_mut(&3).unwrap() += 10;
    assert!(map.get_mut(&4).is_none());
    assert_eq!(map.into_inner(), [(3, 13), (7, 2)]);
}

#[test]
fn minimap_entries() {
    let mut map: MiniMap<u32> = MiniMap::new();
    *map.entry(5).or_insert(0) += 1;
    *map.entry(5).or_insert(0) += 1;
    *map.entry(2).or_insert_with(|| 40) += 2;
    *map.entry(9).or_default() += 7;
    assert_eq!(*map.entry(2).key(), 2);
    let entry = map.entry(5).and_modify(|v| *v *= 10);
    assert!(matches!(entry, Entry::Occupied(_)));
    let entry = map.entry(6).and_modify(|v| *v *= 10);
    assert!(matches!(entry, Entry::Vacant(_)));
    match map.entry(6) {
        Entry::Vacant(vacant) => {
            assert_eq!(*vacant.key(), 6);
            assert_eq!(vacant.into_key(), 6);
        }
        Entry::Occupied(_) => panic!("6 is not in the map"),
    }
    match map.entry(9) {
        Entry::Occupied(mut occupied) => {
            assert_eq!(*occupied.key(), 9);
            assert_eq!(*occupied.get(), 7);
            *occupied.get_mut() += 1;
            assert_eq!(occupied.insert(1), 8);
            assert_eq!(occupied.remove_entry(), (9, 1));
        }
        Entry::Vacant(_) => panic!("9 is in the map"),
    }
    match map.entry(2) {
        Entry::Occupied(occupied) => assert_eq!(occupied.remove(), 42),
        Entry::Vacant(_) => panic!("2 is in the map"),
    }
    match map.entry(8) {
        Entry::Vacant(vacant) => *vacant.insert(3) += 1,
        Entry::Occupied(_) => panic!("8 is not in the map"),
    }
    match map.entry(5) {
        Entry::Occupied(occupied) => *occupied.into_mut() += 1,
        Entry::Vacant(_) => panic!("5 is in the map"),
    }
    assert_eq!(map.into_inner(), [(5, 21), (8, 4)]);
}
