//! The records of an export and the entities of a catalog.

use crate::ordered_map::OrderedMap;
use crate::ordering::{
    compare_text, key_order, lemma_key_order_push_front, lemma_key_order_single, Entity,
};
use crate::text::{lowercase_of, to_lower};
use std::cmp::Ordering;
use vstd::prelude::*;
use vstd::std_specs::cmp::PartialOrdSpecImpl;

verus! {

/// One row of a service's export, in the common record shape.
#[derive(Debug, Clone)]
pub struct Record {
    pub track_name: String,
    pub artist_name: String,
    pub album: String,
    pub playlist_name: String,
    /// What the row describes: `"Artist"`, `"Album"`, `"Favorite"`, or
    /// anything else for a playlist entry.
    pub kind: String,
    pub isrc: String,
    pub tidal_id: Option<String>,
    pub spotify_id: Option<String>,
    pub qobuz_id: Option<String>,
}

/// An album of a catalog.
#[derive(Debug, Clone, PartialEq, Eq)]
pub struct Album {
    pub artist: String,
    pub title: String,
}

/// A track of a catalog or of a playlist.
#[derive(Debug, Clone, PartialEq, Eq)]
pub struct Track {
    pub artist: String,
    pub album: String,
    pub title: String,
}

/// The catalog of one source.
#[derive(Debug)]
pub struct Mappings {
    pub artists: OrderedMap<String>,
    pub albums: OrderedMap<Album>,
    pub tracks: OrderedMap<Track>,
    pub playlists: OrderedMap<OrderedMap<Track>>,
}

impl Entity for Album {
    /// Lower-cased artist, then lower-cased title.
    open spec fn sort_key(&self) -> Seq<Seq<char>> {
        seq![lowercase_of(self.artist@), lowercase_of(self.title@)]
    }

    fn cmp(&self, other: &Self) -> (o: Ordering) {
        proof {
            lemma_key_order_single(lowercase_of(self.title@), lowercase_of(other.title@));
            lemma_key_order_push_front(
                lowercase_of(self.artist@),
                lowercase_of(other.artist@),
                seq![lowercase_of(self.title@)],
                seq![lowercase_of(other.title@)],
            );
            assert(self.sort_key() =~= seq![lowercase_of(self.artist@)] + seq![
                lowercase_of(self.title@),
            ]);
            assert(other.sort_key() =~= seq![lowercase_of(other.artist@)] + seq![
                lowercase_of(other.title@),
            ]);
        }
        let by_artist = compare_text(
            to_lower(self.artist.as_str()).as_str(),
            to_lower(other.artist.as_str()).as_str(),
        );
        match by_artist {
            Ordering::Equal => compare_text(
                to_lower(self.title.as_str()).as_str(),
                to_lower(other.title.as_str()).as_str(),
            ),
            _ => by_artist,
        }
    }
}

impl Entity for Track {
    /// Lower-cased artist, then lower-cased album, then lower-cased title.
    open spec fn sort_key(&self) -> Seq<Seq<char>> {
        seq![lowercase_of(self.artist@), lowercase_of(self.album@), lowercase_of(self.title@)]
    }

    fn cmp(&self, other: &Self) -> (o: Ordering) {
        proof {
            let tail = seq![lowercase_of(self.album@)] + seq![lowercase_of(self.title@)];
            let other_tail = seq![lowercase_of(other.album@)] + seq![lowercase_of(other.title@)];
            lemma_key_order_single(lowercase_of(self.title@), lowercase_of(other.title@));
            lemma_key_order_push_front(
                lowercase_of(self.album@),
                lowercase_of(other.album@),
                seq![lowercase_of(self.title@)],
                seq![lowercase_of(other.title@)],
            );
            lemma_key_order_push_front(
                lowercase_of(self.artist@),
                lowercase_of(other.artist@),
                tail,
                other_tail,
            );
            assert(self.sort_key() =~= seq![lowercase_of(self.artist@)] + tail);
            assert(other.sort_key() =~= seq![lowercase_of(other.artist@)] + other_tail);
        }
        let by_artist = compare_text(
            to_lower(self.artist.as_str()).as_str(),
            to_lower(other.artist.as_str()).as_str(),
        );
        match by_artist {
            Ordering::Equal => {
                let by_album = compare_text(
                    to_lower(self.album.as_str()).as_str(),
                    to_lower(other.album.as_str()).as_str(),
                );
                match by_album {
                    Ordering::Equal => compare_text(
                        to_lower(self.title.as_str()).as_str(),
                        to_lower(other.title.as_str()).as_str(),
                    ),
                    _ => by_album,
                }
            },
            _ => by_artist,
        }
    }
}

impl Entity for String {
    /// The name as it is displayed.
    open spec fn sort_key(&self) -> Seq<Seq<char>> {
        seq![self@]
    }

    fn cmp(&self, other: &Self) -> (o: Ordering) {
        proof {
            lemma_key_order_single(self@, other@);
        }
        compare_text(self.as_str(), other.as_str())
    }
}

impl PartialOrd for Album {
    fn partial_cmp(&self, other: &Self) -> (o: Option<Ordering>) {
        Some(Entity::cmp(self, other))
    }
}

impl PartialOrdSpecImpl for Album {
    open spec fn obeys_partial_cmp_spec() -> bool {
        true
    }

    open spec fn partial_cmp_spec(&self, other: &Self) -> Option<Ordering> {
        Some(key_order(self.sort_key(), other.sort_key()))
    }
}

impl PartialOrd for Track {
    fn partial_cmp(&self, other: &Self) -> (o: Option<Ordering>) {
        Some(Entity::cmp(self, other))
    }
}

impl PartialOrdSpecImpl for Track {
    open spec fn obeys_partial_cmp_spec() -> bool {
        true
    }

    open spec fn partial_cmp_spec(&self, other: &Self) -> Option<Ordering> {
        Some(key_order(self.sort_key(), other.sort_key()))
    }
}

} // verus!
