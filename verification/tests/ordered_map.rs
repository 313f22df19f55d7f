use catalog_reconcile::ordered_map::OrderedMap;

fn text(s: &str) -> String {
    String::from(s)
}

#[test]
fn new_map_is_empty() {
    let map: OrderedMap<u32> = OrderedMap::new();
    assert_eq!(map.len(), 0);
    assert!(map.get_index(0).is_none());
    assert!(!map.contains_key("A"));
    assert_eq!(map.position("A"), None);
    assert_eq!(map.get("A"), None);
}

#[test]
fn insert_keeps_insertion_order() {
    let mut map = OrderedMap::new();
    assert_eq!(map.insert(text("B"), 2), None);
    assert_eq!(map.insert(text("A"), 1), None);
    assert_eq!(map.insert(text("C"), 3), None);
    assert_eq!(map.len(), 3);
    assert_eq!(map.get_index(0), Some((&text("B"), &2)));
    assert_eq!(map.get_index(1), Some((&text("A"), &1)));
    assert_eq!(map.get_index(2), Some((&text("C"), &3)));
    assert_eq!(map.get_index(3), None);
}

#[test]
fn insert_of_a_known_key_keeps_its_place_and_returns_the_earlier_value() {
    let mut map = OrderedMap::new();
    map.insert(text("A"), 1);
    map.insert(text("B"), 2);
    map.insert(text("C"), 3);
    assert_eq!(map.insert(text("A"), 10), Some(1));
    assert_eq!(map.len(), 3);
    assert_eq!(map.get_index(0), Some((&text("A"), &10)));
    assert_eq!(map.get_index(1), Some((&text("B"), &2)));
    assert_eq!(map.get_index(2), Some((&text("C"), &3)));
    assert_eq!(map.insert(text("C"), 30), Some(3));
    assert_eq!(map.get_index(2), Some((&text("C"), &30)));
}

#[test]
fn lookup_by_key() {
    let mut map = OrderedMap::new();
    map.insert(text("X"), 7);
    map.insert(text("Y"), 8);
    assert!(map.contains_key("X"));
    assert!(map.contains_key("Y"));
    assert!(!map.contains_key("x"));
    assert!(!map.contains_key(""));
    assert_eq!(map.position("X"), Some(0));
    assert_eq!(map.position("Y"), Some(1));
    assert_eq!(map.position("Z"), None);
    assert_eq!(map.get("Y"), Some(&8));
    assert_eq!(map.get("Z"), None);
}

#[test]
fn the_empty_key_is_a_key() {
    let mut map = OrderedMap::new();
    map.insert(text(""), 1);
    assert!(map.contains_key(""));
    assert_eq!(map.position(""), Some(0));
}
