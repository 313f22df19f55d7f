use catalog_reconcile::catalog::{add_to_playlist, build_mapping, classify, Section};
use catalog_reconcile::models::{Album, Record, Track};
use catalog_reconcile::ordered_map::OrderedMap;

fn record(kind: &str, isrc: &str, artist: &str, album: &str, track: &str, playlist: &str) -> Record {
    Record {
        track_name: String::from(track),
        artist_name: String::from(artist),
        album: String::from(album),
        playlist_name: String::from(playlist),
        kind: String::from(kind),
        isrc: String::from(isrc),
        tidal_id: None,
        spotify_id: None,
        qobuz_id: None,
    }
}

fn key(s: &str) -> String {
    String::from(s)
}

fn album(artist: &str, title: &str) -> Album {
    Album { artist: String::from(artist), title: String::from(title) }
}

fn track(artist: &str, album: &str, title: &str) -> Track {
    Track { artist: String::from(artist), album: String::from(album), title: String::from(title) }
}

#[test]
fn kinds_of_rows() {
    assert!(matches!(classify("Artist"), Section::Artist));
    assert!(matches!(classify("Album"), Section::Album));
    assert!(matches!(classify("Favorite"), Section::Favorite));
    assert!(matches!(classify("Playlist"), Section::Playlist));
    assert!(matches!(classify(""), Section::Playlist));
    assert!(matches!(classify("artist"), Section::Playlist));
    assert!(matches!(classify("Albums"), Section::Playlist));
}

#[test]
fn an_empty_export_gives_an_empty_catalog() {
    let m = build_mapping(&Vec::new());
    assert_eq!(m.artists.len(), 0);
    assert_eq!(m.albums.len(), 0);
    assert_eq!(m.tracks.len(), 0);
    assert_eq!(m.playlists.len(), 0);
}

#[test]
fn rows_go_to_their_sections_in_row_order() {
    let records = vec![
        record("Favorite", "00t2", "Art", "Alb", "Two", ""),
        record("Album", "al1", "Art", "Alb", "", ""),
        record("Artist", "", "", "", "  The Band ", ""),
        record("Favorite", "t1", "Art", "Alb", "One", ""),
        record("Album", "0AL2", "Other", "Second", "", ""),
    ];
    let m = build_mapping(&records);
    assert_eq!(m.tracks.len(), 2);
    assert_eq!(m.tracks.get_index(0), Some((&key("T2"), &track("Art", "Alb", "Two"))));
    assert_eq!(m.tracks.get_index(1), Some((&key("T1"), &track("Art", "Alb", "One"))));
    assert_eq!(m.albums.len(), 2);
    assert_eq!(m.albums.get_index(0), Some((&key("AL1"), &album("Art", "Alb"))));
    assert_eq!(m.albums.get_index(1), Some((&key("AL2"), &album("Other", "Second"))));
    assert_eq!(m.artists.len(), 1);
    assert_eq!(m.artists.get_index(0), Some((&key("the band"), &key("The Band"))));
    assert_eq!(m.playlists.len(), 0);
}

#[test]
fn artists_are_keyed_by_folded_trimmed_name() {
    let records = vec![
        record("Artist", "", "", "", " Bj\u{f6}rk", ""),
        record("Artist", "", "", "", "ABBA\t", ""),
        record("Artist", "", "", "", "abba", ""),
    ];
    let m = build_mapping(&records);
    assert_eq!(m.artists.len(), 2);
    assert_eq!(m.artists.get_index(0), Some((&key("bj\u{f6}rk"), &key("Bj\u{f6}rk"))));
    assert_eq!(m.artists.get_index(1), Some((&key("abba"), &key("abba"))));
}

#[test]
fn a_repeated_identifier_keeps_its_place_and_takes_the_last_value() {
    let records = vec![
        record("Album", "111", "First", "One", "", ""),
        record("Album", "222", "Second", "Two", "", ""),
        record("Album", "00111", "Third", "Three", "", ""),
    ];
    let m = build_mapping(&records);
    assert_eq!(m.albums.len(), 2);
    assert_eq!(m.albums.get_index(0), Some((&key("111"), &album("Third", "Three"))));
    assert_eq!(m.albums.get_index(1), Some((&key("222"), &album("Second", "Two"))));
}

#[test]
fn rows_of_other_kinds_are_playlist_entries() {
    let records = vec![
        record("Playlist", "r1", "A", "X", "One", "Road"),
        record("Playlist", "q1", "B", "Y", "Two", "Home"),
        record("Whatever", "0r2", "C", "Z", "Three", "Road"),
        record("Playlist", "R1", "D", "W", "Four", "Road"),
    ];
    let m = build_mapping(&records);
    assert_eq!(m.tracks.len(), 0);
    assert_eq!(m.playlists.len(), 2);
    let (name, road) = m.playlists.get_index(0).unwrap();
    assert_eq!(name, "Road");
    assert_eq!(road.len(), 2);
    assert_eq!(road.get_index(0), Some((&key("R1"), &track("D", "W", "Four"))));
    assert_eq!(road.get_index(1), Some((&key("R2"), &track("C", "Z", "Three"))));
    let (name, home) = m.playlists.get_index(1).unwrap();
    assert_eq!(name, "Home");
    assert_eq!(home.len(), 1);
    assert_eq!(home.get_index(0), Some((&key("Q1"), &track("B", "Y", "Two"))));
}

#[test]
fn playlist_names_are_taken_as_written() {
    let records = vec![
        record("Playlist", "1", "A", "X", "One", "road"),
        record("Playlist", "2", "A", "X", "Two", "Road"),
        record("Playlist", "3", "A", "X", "Three", ""),
    ];
    let m = build_mapping(&records);
    assert_eq!(m.playlists.len(), 3);
    assert!(m.playlists.contains_key("road"));
    assert!(m.playlists.contains_key("Road"));
    assert!(m.playlists.contains_key(""));
}

#[test]
fn adding_to_a_playlist() {
    let mut playlists: OrderedMap<OrderedMap<Track>> = OrderedMap::new();
    add_to_playlist(&mut playlists, key("Mix"), key("A"), track("a", "b", "c"));
    add_to_playlist(&mut playlists, key("Other"), key("A"), track("x", "y", "z"));
    add_to_playlist(&mut playlists, key("Mix"), key("B"), track("d", "e", "f"));
    add_to_playlist(&mut playlists, key("Mix"), key("A"), track("g", "h", "i"));
    assert_eq!(playlists.len(), 2);
    let mix = playlists.get("Mix").unwrap();
    assert_eq!(mix.len(), 2);
    assert_eq!(mix.get_index(0), Some((&key("A"), &track("g", "h", "i"))));
    assert_eq!(mix.get_index(1), Some((&key("B"), &track("d", "e", "f"))));
    assert_eq!(playlists.get("Other").unwrap().len(), 1);
    assert_eq!(playlists.position("Mix"), Some(0));
}
