use catalog_reconcile::align::find_first_divergence;
use catalog_reconcile::models::Track;
use catalog_reconcile::normalize::normalize;
use catalog_reconcile::ordered_map::OrderedMap;

fn track(title: &str) -> Track {
    Track { artist: String::from("Artist"), album: String::from("Album"), title: String::from(title) }
}

fn tracks(keys: &[&str]) -> OrderedMap<Track> {
    let mut map = OrderedMap::new();
    for key in keys {
        map.insert(String::from(*key), track(key));
    }
    map
}

#[test]
fn example_reference_abcd_other_acb() {
    // Walking `other`: A agrees; at C, position 2, the cursor of the
    // reference stands at B, which `other` has too, so C is out of order.
    let reference = tracks(&["A", "B", "C", "D"]);
    let other = tracks(&["A", "C", "B"]);
    assert_eq!(find_first_divergence(&reference, &other), Some((2, &track("C"))));
}

#[test]
fn identical_order_has_no_divergence() {
    let reference = tracks(&["A", "B", "C", "D"]);
    let other = tracks(&["A", "B", "C", "D"]);
    assert_eq!(find_first_divergence(&reference, &other), None);
}

#[test]
fn empty_maps_have_no_divergence() {
    let empty = tracks(&[]);
    let full = tracks(&["A", "B"]);
    assert_eq!(find_first_divergence(&empty, &empty), None);
    assert_eq!(find_first_divergence(&full, &empty), None);
    assert_eq!(find_first_divergence(&empty, &full), None);
}

#[test]
fn deleting_entries_from_the_reference_gives_no_divergence() {
    let reference = tracks(&["A", "B", "C", "D", "E"]);
    assert_eq!(find_first_divergence(&reference, &tracks(&["A", "C", "E"])), None);
    assert_eq!(find_first_divergence(&reference, &tracks(&["B", "D"])), None);
    assert_eq!(find_first_divergence(&reference, &tracks(&["E"])), None);
    assert_eq!(find_first_divergence(&reference, &tracks(&["A", "B", "C", "D"])), None);
    assert_eq!(find_first_divergence(&reference, &tracks(&["B", "C", "D", "E"])), None);
}

#[test]
fn entries_unknown_to_the_reference_are_skipped() {
    let reference = tracks(&["A", "B", "C"]);
    let other = tracks(&["X", "A", "Y", "B", "Z", "C"]);
    assert_eq!(find_first_divergence(&reference, &other), None);
}

#[test]
fn entries_unknown_to_the_other_side_are_skipped() {
    let reference = tracks(&["P", "A", "Q", "B", "R", "C", "S"]);
    let other = tracks(&["A", "B", "C"]);
    assert_eq!(find_first_divergence(&reference, &other), None);
}

#[test]
fn disjoint_maps_have_no_divergence() {
    let reference = tracks(&["A", "B"]);
    let other = tracks(&["X", "Y"]);
    assert_eq!(find_first_divergence(&reference, &other), None);
}

#[test]
fn adjacent_swap_is_reported_at_its_first_position() {
    let reference = tracks(&["A", "B", "C", "D", "E"]);
    assert_eq!(
        find_first_divergence(&reference, &tracks(&["B", "A", "C", "D", "E"])),
        Some((1, &track("B")))
    );
    assert_eq!(
        find_first_divergence(&reference, &tracks(&["A", "B", "D", "C", "E"])),
        Some((3, &track("D")))
    );
    assert_eq!(
        find_first_divergence(&reference, &tracks(&["A", "B", "C", "E", "D"])),
        Some((4, &track("E")))
    );
}

#[test]
fn position_counts_entries_that_were_skipped() {
    let reference = tracks(&["A", "B", "C"]);
    let other = tracks(&["X", "A", "Y", "C", "B"]);
    assert_eq!(find_first_divergence(&reference, &other), Some((4, &track("C"))));
}

#[test]
fn swap_of_shared_neighbours_with_strangers_between() {
    let reference = tracks(&["A", "P", "B", "Q", "C"]);
    let other = tracks(&["A", "X", "C", "B"]);
    assert_eq!(find_first_divergence(&reference, &other), Some((3, &track("C"))));
}

#[test]
fn only_the_first_divergence_is_reported() {
    let reference = tracks(&["A", "B", "C", "D"]);
    let other = tracks(&["B", "A", "D", "C"]);
    assert_eq!(find_first_divergence(&reference, &other), Some((1, &track("B"))));
}

#[test]
fn the_item_is_the_entry_of_the_other_side() {
    let reference = tracks(&["A", "B"]);
    let mut other = OrderedMap::new();
    other.insert(String::from("B"), track("other side B"));
    other.insert(String::from("A"), track("other side A"));
    assert_eq!(find_first_divergence(&reference, &other), Some((1, &track("other side B"))));
}

#[test]
fn codes_that_normalize_alike_are_the_same_entry() {
    let mut reference = OrderedMap::new();
    reference.insert(normalize("123"), track("one"));
    reference.insert(normalize("abc"), track("two"));
    let mut other = OrderedMap::new();
    other.insert(normalize("00123"), track("one"));
    other.insert(normalize("0ABC"), track("two"));
    assert_eq!(find_first_divergence(&reference, &other), None);
    assert_eq!(find_first_divergence(&other, &reference), None);
}
