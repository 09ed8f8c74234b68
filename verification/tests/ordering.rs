use tfidx::ordered::OrderedMap;

#[test]
fn a_new_map_is_empty() {
    let map: OrderedMap<u8> = OrderedMap::new();
    assert_eq!(map.len(), 0);
    assert_eq!(map.position("a"), None);
}

#[test]
fn push_appends_in_order() {
    let mut map = OrderedMap::new();
    map.push("b".to_string(), 2);
    map.push("a".to_string(), 1);
    assert_eq!(map.len(), 2);
    assert_eq!(map.key(0), "b");
    assert_eq!(map.key(1), "a");
    assert_eq!(*map.value(0), 2);
    assert_eq!(*map.value(1), 1);
    assert_eq!(map.position("a"), Some(1));
    assert_eq!(map.position("b"), Some(0));
    assert_eq!(map.position("c"), None);
}

#[test]
fn insert_replaces_in_place_or_appends() {
    let mut map = OrderedMap::new();
    assert_eq!(map.insert("x".to_string(), 10), 0);
    assert_eq!(map.insert("y".to_string(), 20), 1);
    assert_eq!(map.insert("x".to_string(), 30), 0);
    assert_eq!(map.len(), 2);
    assert_eq!(map.key(0), "x");
    assert_eq!(*map.value(0), 30);
    assert_eq!(*map.value(1), 20);
}

#[test]
fn set_value_changes_one_value() {
    let mut map = OrderedMap::new();
    map.push("x".to_string(), 1);
    map.push("y".to_string(), 2);
    map.set_value(1, 5);
    assert_eq!(*map.value(0), 1);
    assert_eq!(*map.value(1), 5);
    assert_eq!(map.position("y"), Some(1));
}
