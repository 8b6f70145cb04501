use yake::name_map::NameMap;

#[test]
fn empty_map() {
    let map: NameMap<u32> = NameMap::new();
    assert_eq!(map.len(), 0);
    assert!(map.is_empty());
    assert_eq!(map.get("a"), None);
    assert_eq!(map.position("a"), None);
    assert!(!map.contains_key("a"));
}

#[test]
fn insert_keeps_first_place_and_last_value() {
    let mut map: NameMap<u32> = NameMap::new();
    assert_eq!(map.insert("a".to_string(), 1), None);
    assert_eq!(map.insert("b".to_string(), 2), None);
    assert_eq!(map.insert("c".to_string(), 3), None);
    assert_eq!(map.insert("a".to_string(), 4), Some(1));
    assert_eq!(map.len(), 3);
    assert!(!map.is_empty());
    assert_eq!(map.name_at(0), "a");
    assert_eq!(map.name_at(1), "b");
    assert_eq!(map.name_at(2), "c");
    assert_eq!(*map.value_at(0), 4);
    assert_eq!(*map.value_at(1), 2);
    assert_eq!(map.get("a"), Some(&4));
    assert_eq!(map.get("c"), Some(&3));
    assert_eq!(map.get("d"), None);
    assert_eq!(map.position("b"), Some(1));
    assert_eq!(map.position("d"), None);
    assert!(map.contains_key("c"));
    assert!(!map.contains_key("C"));
}

#[test]
fn names_are_compared_whole() {
    let mut map: NameMap<u32> = NameMap::new();
    map.insert("db.migrate".to_string(), 1);
    assert!(!map.contains_key("db"));
    assert!(!map.contains_key("db.migrate "));
    assert!(!map.contains_key(""));
    map.insert("".to_string(), 2);
    assert_eq!(map.get(""), Some(&2));
}
