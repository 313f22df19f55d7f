//! Building the catalog of one source from the rows of its export.

use crate::models::{Album, Mappings, Record, Track};
use crate::normalize::{normalize, normalized};
use crate::ordered_map::{
    has_key, lemma_position_of, lemma_viewed_with_entry, position_of, viewed, with_entry,
    OrderedMap,
};
use crate::text::{lowercase_of, str_eq, to_lower, trim, trimmed_of};
use vstd::prelude::*;

verus! {

/// The section of a catalog that a row belongs to.
#[derive(Debug, Clone, Copy)]
pub enum Section {
    Artist,
    Album,
    Favorite,
    Playlist,
}

/// The section that a row of the given kind belongs to: a row that is
/// neither an artist, an album nor a favourite is an entry of a playlist.
pub open spec fn section_of(kind: Seq<char>) -> Section {
    if kind == "Artist"@ {
        Section::Artist
    } else if kind == "Album"@ {
        Section::Album
    } else if kind == "Favorite"@ {
        Section::Favorite
    } else {
        Section::Playlist
    }
}

/// The key under which an artist is filed: the name lower-cased and trimmed.
pub open spec fn artist_key(name: Seq<char>) -> Seq<char> {
    trimmed_of(lowercase_of(name))
}

/// The album that a row describes.
pub open spec fn album_of(r: Record) -> Album {
    Album { artist: r.artist_name, title: r.album }
}

/// The track that a row describes.
pub open spec fn track_of(r: Record) -> Track {
    Track { artist: r.artist_name, album: r.album, title: r.track_name }
}

/// The artists of an export: folded name to trimmed display name, in the
/// order of the rows, a repeated name keeping its first place and taking the
/// last display name.
pub open spec fn artists_of(records: Seq<Record>) -> Seq<(Seq<char>, Seq<char>)>
    decreases records.len(),
{
    if records.len() == 0 {
        Seq::empty()
    } else {
        let rest = artists_of(records.drop_last());
        let r = records.last();
        if section_of(r.kind@) is Artist {
            with_entry(rest, artist_key(r.track_name@), trimmed_of(r.track_name@))
        } else {
            rest
        }
    }
}

/// The albums of an export by identifier, in the order of the rows.
pub open spec fn albums_of(records: Seq<Record>) -> Seq<(Seq<char>, Album)>
    decreases records.len(),
{
    if records.len() == 0 {
        Seq::empty()
    } else {
        let rest = albums_of(records.drop_last());
        let r = records.last();
        if section_of(r.kind@) is Album {
            with_entry(rest, normalized(r.isrc@), album_of(r))
        } else {
            rest
        }
    }
}

/// The favourite tracks of an export by identifier, in the order of the rows.
pub open spec fn tracks_of(records: Seq<Record>) -> Seq<(Seq<char>, Track)>
    decreases records.len(),
{
    if records.len() == 0 {
        Seq::empty()
    } else {
        let rest = tracks_of(records.drop_last());
        let r = records.last();
        if section_of(r.kind@) is Favorite {
            with_entry(rest, normalized(r.isrc@), track_of(r))
        } else {
            rest
        }
    }
}

/// The tracks that the playlist `name` has among `playlists`: none where
/// there is no such playlist.
pub open spec fn playlist_named(
    playlists: Seq<(Seq<char>, Seq<(Seq<char>, Track)>)>,
    name: Seq<char>,
) -> Seq<(Seq<char>, Track)> {
    if has_key(playlists, name) {
        playlists[position_of(playlists, name)].1
    } else {
        Seq::empty()
    }
}

/// The playlists of an export by name, each with its tracks by identifier,
/// both in the order of the rows.
pub open spec fn playlists_of(records: Seq<Record>) -> Seq<(Seq<char>, Seq<(Seq<char>, Track)>)>
    decreases records.len(),
{
    if records.len() == 0 {
        Seq::empty()
    } else {
        let rest = playlists_of(records.drop_last());
        let r = records.last();
        if section_of(r.kind@) is Playlist {
            with_entry(
                rest,
                r.playlist_name@,
                with_entry(
                    playlist_named(rest, r.playlist_name@),
                    normalized(r.isrc@),
                    track_of(r),
                ),
            )
        } else {
            rest
        }
    }
}

/// Tells which section a row of the given kind belongs to.
pub fn classify(kind: &str) -> (section: Section)
    ensures
        section == section_of(kind@),
{
    if str_eq(kind, "Artist") {
        Section::Artist
    } else if str_eq(kind, "Album") {
        Section::Album
    } else if str_eq(kind, "Favorite") {
        Section::Favorite
    } else {
        Section::Playlist
    }
}

/// Files `track` under `identifier` in the playlist `name`, which is added
/// last where it does not exist yet.
pub fn add_to_playlist(
    playlists: &mut OrderedMap<OrderedMap<Track>>,
    name: String,
    identifier: String,
    track: Track,
)
    ensures
        viewed(final(playlists)@) == with_entry(
            viewed(old(playlists)@),
            name@,
            with_entry(playlist_named(viewed(old(playlists)@), name@), identifier@, track),
        ),
{
    proof {
        use_type_invariant(&*playlists);
        playlists.lemma_distinct();
    }
    let ghost before = playlists@;
    match playlists.position(name.as_str()) {
        Some(at) => {
            let mut tracks = playlists.replace_value(at, OrderedMap::new());
            tracks.insert(identifier, track);
            playlists.replace_value(at, tracks);
            proof {
                lemma_position_of(before, at as int);
                lemma_viewed_with_entry(before, name@, tracks);
                assert(playlists@ =~= before.update(at as int, (name@, tracks)));
            }
        },
        None => {
            let mut tracks = OrderedMap::new();
            tracks.insert(identifier, track);
            proof {
                lemma_viewed_with_entry(before, name@, tracks);
                assert(Seq::<(Seq<char>, Track)>::empty().push((identifier@, track)) =~= with_entry(
                    Seq::<(Seq<char>, Track)>::empty(),
                    identifier@,
                    track,
                ));
            }
            playlists.insert(name, tracks);
        },
    }
}

/// Builds the catalog of one source from the rows of its export, in the
/// order of the rows. A repeated identifier keeps its first place and takes
/// the last value.
pub fn build_mapping(records: &Vec<Record>) -> (m: Mappings)
    ensures
        viewed(m.artists@) == artists_of(records@),
        m.albums@ == albums_of(records@),
        m.tracks@ == tracks_of(records@),
        viewed(m.playlists@) == playlists_of(records@),
{
    let mut artists: OrderedMap<String> = OrderedMap::new();
    let mut albums: OrderedMap<Album> = OrderedMap::new();
    let mut tracks: OrderedMap<Track> = OrderedMap::new();
    let mut playlists: OrderedMap<OrderedMap<Track>> = OrderedMap::new();
    let n = records.len();
    let mut i: usize = 0;
    proof {
        assert(records@.take(0) =~= Seq::<Record>::empty());
        assert(viewed(artists@) =~= artists_of(records@.take(0)));
        assert(viewed(playlists@) =~= playlists_of(records@.take(0)));
    }
    while i < n
        invariant
            n == records@.len(),
            i <= n,
            viewed(artists@) == artists_of(records@.take(i as int)),
            albums@ == albums_of(records@.take(i as int)),
            tracks@ == tracks_of(records@.take(i as int)),
            viewed(playlists@) == playlists_of(records@.take(i as int)),
        decreases n - i,
    {
        let record = &records[i];
        proof {
            assert(records@.take(i as int + 1).drop_last() =~= records@.take(i as int));
            assert(records@.take(i as int + 1).last() == records@[i as int]);
        }
        let identifier = normalize(record.isrc.as_str());
        match classify(record.kind.as_str()) {
            Section::Artist => {
                let folded = to_lower(record.track_name.as_str());
                let key = trim(folded.as_str()).to_owned();
                let display = trim(record.track_name.as_str()).to_owned();
                proof {
                    use_type_invariant(&artists);
                    artists.lemma_distinct();
                    lemma_viewed_with_entry(artists@, key@, display);
                }
                artists.insert(key, display);
            },
            Section::Album => {
                albums.insert(
                    identifier,
                    Album { artist: record.artist_name.clone(), title: record.album.clone() },
                );
            },
            Section::Favorite => {
                tracks.insert(
                    identifier,
                    Track {
                        artist: record.artist_name.clone(),
                        album: record.album.clone(),
                        title: record.track_name.clone(),
                    },
                );
            },
            Section::Playlist => {
                add_to_playlist(
                    &mut playlists,
                    record.playlist_name.clone(),
                    identifier,
                    Track {
                        artist: record.artist_name.clone(),
                        album: record.album.clone(),
                        title: record.track_name.clone(),
                    },
                );
            },
        }
        i = i + 1;
    }
    proof {
        assert(records@.take(n as int) =~= records@);
    }
    Mappings { artists, albums, tracks, playlists }
}

} // verus!
