use catalog_reconcile::models::Album;
use catalog_reconcile::ordered_map::OrderedMap;
use catalog_reconcile::remap::{apply_remaps, rename_key, RemapError, RenameError};

fn album(title: &str) -> Album {
    Album { artist: String::from("Artist"), title: String::from(title) }
}

fn key(s: &str) -> String {
    String::from(s)
}

fn sample() -> OrderedMap<Album> {
    let mut map = OrderedMap::new();
    map.insert(key("A"), album("a"));
    map.insert(key("B"), album("b"));
    map.insert(key("C"), album("c"));
    map
}

fn keys(map: &OrderedMap<Album>) -> Vec<String> {
    let mut out = Vec::new();
    let mut i = 0;
    while let Some((k, _)) = map.get_index(i) {
        out.push(k.clone());
        i += 1;
    }
    out
}

#[test]
fn rename_keeps_the_position_and_the_value() {
    let mut map = sample();
    assert_eq!(rename_key(&mut map, "B", key("B-HIRES")), Ok(()));
    assert_eq!(keys(&map), vec!["A", "B-HIRES", "C"]);
    assert_eq!(map.get_index(1), Some((&key("B-HIRES"), &album("b"))));
    assert!(!map.contains_key("B"));
}

#[test]
fn rename_of_the_first_and_the_last_entry() {
    let mut map = sample();
    assert_eq!(rename_key(&mut map, "A", key("X")), Ok(()));
    assert_eq!(rename_key(&mut map, "C", key("Z")), Ok(()));
    assert_eq!(keys(&map), vec!["X", "B", "Z"]);
    assert_eq!(map.get("X"), Some(&album("a")));
    assert_eq!(map.get("Z"), Some(&album("c")));
}

#[test]
fn rename_of_an_unknown_identifier_fails() {
    let mut map = sample();
    assert_eq!(rename_key(&mut map, "Q", key("R")), Err(RenameError::UnknownIdentifier));
    assert_eq!(keys(&map), vec!["A", "B", "C"]);
    let mut empty: OrderedMap<Album> = OrderedMap::new();
    assert_eq!(rename_key(&mut empty, "A", key("B")), Err(RenameError::UnknownIdentifier));
}

#[test]
fn rename_to_an_identifier_in_use_fails() {
    let mut map = sample();
    assert_eq!(rename_key(&mut map, "A", key("C")), Err(RenameError::IdentifierTaken));
    assert_eq!(keys(&map), vec!["A", "B", "C"]);
    assert_eq!(map.get("C"), Some(&album("c")));
}

#[test]
fn rename_to_itself_changes_nothing() {
    let mut map = sample();
    assert_eq!(rename_key(&mut map, "B", key("B")), Ok(()));
    assert_eq!(keys(&map), vec!["A", "B", "C"]);
    assert_eq!(map.get("B"), Some(&album("b")));
}

#[test]
fn remaps_are_applied_in_order() {
    let mut map = sample();
    let pairs = vec![(key("A"), key("X")), (key("X"), key("Y")), (key("C"), key("A"))];
    assert_eq!(apply_remaps(&mut map, &pairs), Ok(()));
    assert_eq!(keys(&map), vec!["Y", "B", "A"]);
    assert_eq!(map.get("Y"), Some(&album("a")));
    assert_eq!(map.get("A"), Some(&album("c")));
}

#[test]
fn an_empty_remap_list_changes_nothing() {
    let mut map = sample();
    assert_eq!(apply_remaps(&mut map, &Vec::new()), Ok(()));
    assert_eq!(keys(&map), vec!["A", "B", "C"]);
}

#[test]
fn a_remap_of_an_unknown_identifier_stops_the_list() {
    let mut map = sample();
    let pairs = vec![(key("A"), key("X")), (key("Q"), key("R")), (key("C"), key("Z"))];
    assert_eq!(
        apply_remaps(&mut map, &pairs),
        Err(RemapError { pair: 1, cause: RenameError::UnknownIdentifier })
    );
    assert_eq!(keys(&map), vec!["X", "B", "C"]);
}

#[test]
fn a_remap_of_a_renamed_identifier_is_unknown() {
    let mut map = sample();
    let pairs = vec![(key("A"), key("X")), (key("A"), key("Y"))];
    assert_eq!(
        apply_remaps(&mut map, &pairs),
        Err(RemapError { pair: 1, cause: RenameError::UnknownIdentifier })
    );
    assert_eq!(keys(&map), vec!["X", "B", "C"]);
}

#[test]
fn a_remap_to_an_identifier_in_use_stops_the_list() {
    let mut map = sample();
    let pairs = vec![(key("B"), key("C")), (key("A"), key("X"))];
    assert_eq!(
        apply_remaps(&mut map, &pairs),
        Err(RemapError { pair: 0, cause: RenameError::IdentifierTaken })
    );
    assert_eq!(keys(&map), vec!["A", "B", "C"]);
}
