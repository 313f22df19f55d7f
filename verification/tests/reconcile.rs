use catalog_reconcile::models::{Album, Track};
use catalog_reconcile::normalize::normalize;
use catalog_reconcile::ordered_map::OrderedMap;
use catalog_reconcile::reconcile::{is_covered, missing, missing_with, Tolerance};

fn album(artist: &str, title: &str) -> Album {
    Album { artist: String::from(artist), title: String::from(title) }
}

fn key(s: &str) -> String {
    String::from(s)
}

fn albums(entries: &[(&str, &str, &str)]) -> OrderedMap<Album> {
    let mut map = OrderedMap::new();
    for (id, artist, title) in entries {
        map.insert(String::from(*id), album(artist, title));
    }
    map
}

#[test]
fn example_strict_missing() {
    let album1 = album("Artist One", "First");
    let album2 = album("Artist Two", "Second");
    let mut present = OrderedMap::new();
    present.insert(key("X"), album1.clone());
    present.insert(key("Y"), album2.clone());
    let mut reference = OrderedMap::new();
    reference.insert(key("X"), album1.clone());
    assert_eq!(missing(&present, &reference, false), vec![(&key("Y"), &album2)]);
}

#[test]
fn example_codes_that_normalize_alike_are_not_missing() {
    let mut present = OrderedMap::new();
    present.insert(normalize("00123"), album("A", "T"));
    let mut reference = OrderedMap::new();
    reference.insert(normalize("123"), album("A", "T"));
    assert_eq!(normalize("00123"), "123");
    assert_eq!(normalize("123"), "123");
    assert!(missing(&present, &reference, false).is_empty());
    assert!(missing(&reference, &present, false).is_empty());
    assert!(missing(&present, &reference, true).is_empty());
}

#[test]
fn strict_mode_reports_exactly_the_keys_the_reference_lacks() {
    let present = albums(&[("A", "a", "1"), ("B", "b", "2"), ("C", "c", "3"), ("D", "d", "4")]);
    let reference = albums(&[("D", "x", "x"), ("B", "y", "y"), ("Q", "z", "z")]);
    let report = missing(&present, &reference, false);
    let keys: Vec<&str> = report.iter().map(|(id, _)| id.as_str()).collect();
    assert_eq!(keys, vec!["A", "C"]);
    for id in ["A", "B", "C", "D"] {
        let reported = report.iter().any(|(found, _)| found.as_str() == id);
        assert_eq!(reported, !reference.contains_key(id));
    }
}

#[test]
fn nothing_is_missing_from_itself() {
    let present = albums(&[("A", "a", "1"), ("B", "b", "2")]);
    assert!(missing(&present, &present, false).is_empty());
    assert!(missing(&present, &present, true).is_empty());
}

#[test]
fn everything_is_missing_from_an_empty_reference() {
    let present = albums(&[("B", "Beta", "x"), ("A", "Alpha", "y")]);
    let reference = albums(&[]);
    assert_eq!(
        missing(&present, &reference, false),
        vec![(&key("A"), &album("Alpha", "y")), (&key("B"), &album("Beta", "x"))]
    );
    assert!(missing(&reference, &present, false).is_empty());
}

#[test]
fn prefix_tolerant_mode_accepts_a_reference_prefix() {
    let present = albums(&[("12345", "a", "1"), ("777", "b", "2"), ("12", "c", "3")]);
    let reference = albums(&[("123", "x", "x")]);
    let strict = missing(&present, &reference, false);
    assert_eq!(strict.len(), 3);
    let tolerant = missing(&present, &reference, true);
    let keys: Vec<&str> = tolerant.iter().map(|(id, _)| id.as_str()).collect();
    // "12345" starts with "123"; "12" does not, though "123" starts with it.
    assert_eq!(keys, vec!["777", "12"]);
}

#[test]
fn prefix_direction_is_explicit() {
    let present = albums(&[("12345", "a", "1"), ("777", "b", "2"), ("12", "c", "3")]);
    let reference = albums(&[("123", "x", "x")]);
    let by_reference = missing_with(&present, &reference, Tolerance::ReferencePrefix);
    let keys: Vec<&str> = by_reference.iter().map(|(id, _)| id.as_str()).collect();
    assert_eq!(keys, vec!["777", "12"]);
    let by_key = missing_with(&present, &reference, Tolerance::KeyPrefix);
    let keys: Vec<&str> = by_key.iter().map(|(id, _)| id.as_str()).collect();
    assert_eq!(keys, vec!["12345", "777"]);
    let exact = missing_with(&present, &reference, Tolerance::Exact);
    assert_eq!(exact.len(), 3);
}

#[test]
fn the_empty_identifier_is_a_prefix_of_every_identifier() {
    let present = albums(&[("ABC", "a", "1")]);
    let reference = albums(&[("", "x", "x")]);
    assert!(missing(&present, &reference, true).is_empty());
    assert_eq!(missing(&present, &reference, false).len(), 1);
    assert_eq!(missing_with(&present, &reference, Tolerance::KeyPrefix).len(), 1);
    assert!(missing_with(&reference, &present, Tolerance::KeyPrefix).is_empty());
}

#[test]
fn coverage_of_a_single_key() {
    let reference = albums(&[("123", "x", "x"), ("ABCD", "y", "y")]);
    assert!(is_covered("123", &reference, Tolerance::Exact));
    assert!(!is_covered("1234", &reference, Tolerance::Exact));
    assert!(is_covered("1234", &reference, Tolerance::ReferencePrefix));
    assert!(!is_covered("12", &reference, Tolerance::ReferencePrefix));
    assert!(is_covered("12", &reference, Tolerance::KeyPrefix));
    assert!(is_covered("ABC", &reference, Tolerance::KeyPrefix));
    assert!(!is_covered("ABCDE", &reference, Tolerance::KeyPrefix));
    assert!(is_covered("ABCD", &reference, Tolerance::KeyPrefix));
    assert!(!is_covered("X", &albums(&[]), Tolerance::ReferencePrefix));
}

#[test]
fn report_is_sorted_by_lowercased_artist_then_title() {
    let present = albums(&[
        ("1", "zebra", "Alpha"),
        ("2", "Apple", "Zulu"),
        ("3", "apple", "beta"),
        ("4", "Mango", "one"),
        ("5", "APPLE", "Alpha"),
    ]);
    let reference = albums(&[]);
    let report = missing(&present, &reference, false);
    let keys: Vec<&str> = report.iter().map(|(id, _)| id.as_str()).collect();
    assert_eq!(keys, vec!["5", "3", "2", "4", "1"]);
}

#[test]
fn entries_that_differ_only_in_case_keep_their_order() {
    let present = albums(&[
        ("1", "ABBA", "Gold"),
        ("2", "abba", "gold"),
        ("3", "Abba", "GOLD"),
        ("0", "Aaa", "first"),
    ]);
    let reference = albums(&[]);
    let report = missing(&present, &reference, false);
    let keys: Vec<&str> = report.iter().map(|(id, _)| id.as_str()).collect();
    assert_eq!(keys, vec!["0", "1", "2", "3"]);
    let present = albums(&[("3", "Abba", "GOLD"), ("2", "abba", "gold"), ("1", "ABBA", "Gold")]);
    let report = missing(&present, &reference, false);
    let keys: Vec<&str> = report.iter().map(|(id, _)| id.as_str()).collect();
    assert_eq!(keys, vec!["3", "2", "1"]);
}

#[test]
fn tracks_are_sorted_by_artist_album_title() {
    let mut present = OrderedMap::new();
    let entries = [
        ("1", "b", "x", "x"),
        ("2", "A", "z", "a"),
        ("3", "a", "Y", "b"),
        ("4", "a", "y", "A"),
        ("5", "a", "y", "a"),
    ];
    for (id, artist, album_title, title) in entries {
        present.insert(
            String::from(id),
            Track {
                artist: String::from(artist),
                album: String::from(album_title),
                title: String::from(title),
            },
        );
    }
    let reference: OrderedMap<Track> = OrderedMap::new();
    let report = missing(&present, &reference, false);
    let keys: Vec<&str> = report.iter().map(|(id, _)| id.as_str()).collect();
    assert_eq!(keys, vec!["4", "5", "3", "2", "1"]);
}

#[test]
fn artists_are_sorted_by_display_name() {
    let mut present: OrderedMap<String> = OrderedMap::new();
    present.insert(key("zed"), key("Zed"));
    present.insert(key("abe"), key("abe"));
    present.insert(key("bob"), key("Bob"));
    let reference: OrderedMap<String> = OrderedMap::new();
    let report = missing(&present, &reference, false);
    let names: Vec<&str> = report.iter().map(|(_, name)| name.as_str()).collect();
    // By code point: upper-case letters come before lower-case ones.
    assert_eq!(names, vec!["Bob", "Zed", "abe"]);
}
