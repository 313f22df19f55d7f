//! Comparison of one catalog section between two sources: the findings that
//! the order aligner and the set reconciler produce, in the order in which
//! they are reported.

use crate::align::{diverges_at, find_first_divergence, shared};
use crate::models::{Album, Mappings, Track};
use crate::ordered_map::{has_key, keys_of, position_of, OrderedMap};
use crate::ordering::Entity;
use crate::reconcile::{is_missing_report, missing_with, report_entries, Tolerance};
use vstd::prelude::*;

verus! {

/// One discrepancy between two sources.
#[derive(Debug, PartialEq)]
pub enum Finding<'a, V> {
    /// The entry at `position` of `other_source` (counted from 1) is the
    /// first that leaves the order of `reference_source`.
    OrderDivergence {
        position: usize,
        other_source: &'a str,
        reference_source: &'a str,
        item: &'a V,
    },
    /// `present_source` has `item` under `identifier`, `absent_source` has
    /// nothing that matches it.
    MissingFrom {
        absent_source: &'a str,
        present_source: &'a str,
        identifier: &'a String,
        item: &'a V,
    },
}

impl<'a, V> Finding<'a, V> {
    /// Whether the finding reports a divergence at `position` of the source
    /// named `other` against the source named `reference`, with `item`.
    pub open spec fn is_divergence(
        self,
        position: int,
        other: Seq<char>,
        reference: Seq<char>,
        item: V,
    ) -> bool {
        match self {
            Finding::OrderDivergence {
                position: found_position,
                other_source,
                reference_source,
                item: found_item,
            } => found_position == position && other_source@ == other && reference_source@
                == reference && *found_item == item,
            Finding::MissingFrom { .. } => false,
        }
    }

    /// Whether the finding reports `entry` as had by the source named
    /// `present` and missing from the source named `absent`.
    pub open spec fn is_missing(
        self,
        absent: Seq<char>,
        present: Seq<char>,
        entry: (Seq<char>, V),
    ) -> bool {
        match self {
            Finding::MissingFrom { absent_source, present_source, identifier, item } => absent_source@
                == absent && present_source@ == present && identifier@ == entry.0 && *item
                == entry.1,
            Finding::OrderDivergence { .. } => false,
        }
    }
}

/// Whether the findings from `start` on report the entries of `report`, one
/// each and in order, as missing from `absent`.
pub open spec fn reports_missing<V>(
    findings: Seq<Finding<V>>,
    start: int,
    report: Seq<(Seq<char>, V)>,
    absent: Seq<char>,
    present: Seq<char>,
) -> bool {
    forall|i: int|
        0 <= i < report.len() ==> findings[start + i].is_missing(absent, present, #[trigger] report[i])
}

/// How many divergences a comparison reports: one where the order is
/// compared and the shared entries come in different orders, else none.
pub open spec fn divergence_count(
    reference: Seq<Seq<char>>,
    other: Seq<Seq<char>>,
    aligned: bool,
) -> int {
    if aligned && shared(other, reference) != shared(reference, other) {
        1
    } else {
        0
    }
}

/// Whether `findings` is the comparison of `other` against `reference`: the
/// first divergence of order if the order is compared and there is one, then
/// the entries of `reference` missing from `other`, then the entries of
/// `other` missing from `reference`, both as the set reconciler reports them.
pub open spec fn is_comparison<V: Entity>(
    findings: Seq<Finding<V>>,
    reference: Seq<(Seq<char>, V)>,
    other: Seq<(Seq<char>, V)>,
    reference_label: Seq<char>,
    other_label: Seq<char>,
    aligned: bool,
    forward: Tolerance,
    backward: Tolerance,
) -> bool {
    exists|from_reference: Seq<(Seq<char>, V)>, from_other: Seq<(Seq<char>, V)>|
        {
            let d = divergence_count(keys_of(reference), keys_of(other), aligned);
            &&& #[trigger] is_missing_report(from_reference, reference, keys_of(other), forward)
            &&& #[trigger] is_missing_report(from_other, other, keys_of(reference), backward)
            &&& findings.len() == d + from_reference.len() + from_other.len()
            &&& d == 1 ==> exists|p: int|
                #[trigger] diverges_at(keys_of(reference), keys_of(other), p)
                    && findings[0].is_divergence(p + 1, other_label, reference_label, other[p].1)
            &&& reports_missing(findings, d, from_reference, other_label, reference_label)
            &&& reports_missing(
                findings,
                d + from_reference.len(),
                from_other,
                reference_label,
                other_label,
            )
        }
}

/// Appends to `findings` one `MissingFrom` for each entry of `report`.
fn push_missing<'a, V>(
    findings: &mut Vec<Finding<'a, V>>,
    report: Vec<(&'a String, &'a V)>,
    absent: &'a str,
    present: &'a str,
)
    ensures
        final(findings)@.len() == old(findings)@.len() + report@.len(),
        forall|i: int| 0 <= i < old(findings)@.len() ==> final(findings)@[i] == old(findings)@[i],
        reports_missing(
            final(findings)@,
            old(findings)@.len() as int,
            report_entries(report@),
            absent@,
            present@,
        ),
{
    let ghost start = findings@.len() as int;
    let n = report.len();
    let mut i: usize = 0;
    while i < n
        invariant
            n == report@.len(),
            i <= n,
            start == old(findings)@.len(),
            findings@.len() == start + i,
            forall|k: int| 0 <= k < start ==> findings@[k] == old(findings)@[k],
            forall|k: int|
                0 <= k < i ==> findings@[start + k].is_missing(
                    absent@,
                    present@,
                    #[trigger] report_entries(report@)[k],
                ),
        decreases n - i,
    {
        let pair = report[i];
        findings.push(
            Finding::MissingFrom {
                absent_source: absent,
                present_source: present,
                identifier: pair.0,
                item: pair.1,
            },
        );
        i = i + 1;
    }
}

/// Compares `other` against `reference`. With `aligned` set the order
/// aligner runs first; the set reconciler then runs in both directions,
/// under `forward` for the entries of `reference` and under `backward` for
/// the entries of `other`.
pub fn compare<'a, V: Entity>(
    reference: &'a OrderedMap<V>,
    other: &'a OrderedMap<V>,
    reference_label: &'a str,
    other_label: &'a str,
    aligned: bool,
    forward: Tolerance,
    backward: Tolerance,
) -> (findings: Vec<Finding<'a, V>>)
    ensures
        is_comparison(
            findings@,
            reference@,
            other@,
            reference_label@,
            other_label@,
            aligned,
            forward,
            backward,
        ),
{
    let mut findings: Vec<Finding<'a, V>> = Vec::new();
    if aligned {
        match find_first_divergence(reference, other) {
            Some((position, item)) => {
                findings.push(
                    Finding::OrderDivergence {
                        position,
                        other_source: other_label,
                        reference_source: reference_label,
                        item,
                    },
                );
            },
            None => {},
        }
    }
    let ghost d = findings@.len() as int;
    let ghost first = findings@;
    let from_reference = missing_with(reference, other, forward);
    let ghost forward_report = report_entries(from_reference@);
    push_missing(&mut findings, from_reference, other_label, reference_label);
    let ghost middle = findings@;
    let from_other = missing_with(other, reference, backward);
    let ghost backward_report = report_entries(from_other@);
    push_missing(&mut findings, from_other, reference_label, other_label);
    proof {
        assert(d == divergence_count(keys_of(reference@), keys_of(other@), aligned));
        assert(reports_missing(findings@, d, forward_report, other_label@, reference_label@)) by {
            assert forall|i: int| 0 <= i < forward_report.len() implies findings@[d + i].is_missing(
                other_label@,
                reference_label@,
                #[trigger] forward_report[i],
            ) by {
                assert(findings@[d + i] == middle[d + i]);
            }
        }
        if d == 1 {
            assert(findings@[0] == first[0]);
        }
        assert(is_missing_report(forward_report, reference@, keys_of(other@), forward));
        assert(is_missing_report(backward_report, other@, keys_of(reference@), backward));
    }
    findings
}

/// Compares the favourite tracks, or the tracks of a playlist, of two
/// sources: order first, then what each side lacks by exact identifier.
pub fn compare_tracks<'a>(
    reference: &'a OrderedMap<Track>,
    other: &'a OrderedMap<Track>,
    reference_label: &'a str,
    other_label: &'a str,
) -> (findings: Vec<Finding<'a, Track>>)
    ensures
        is_comparison(
            findings@,
            reference@,
            other@,
            reference_label@,
            other_label@,
            true,
            Tolerance::Exact,
            Tolerance::Exact,
        ),
{
    compare(
        reference,
        other,
        reference_label,
        other_label,
        true,
        Tolerance::Exact,
        Tolerance::Exact,
    )
}

/// Compares the albums of two sources where an identifier of `other` may be
/// a prefix of the identifier that `reference` gives the same album.
pub fn compare_albums<'a>(
    reference: &'a OrderedMap<Album>,
    other: &'a OrderedMap<Album>,
    reference_label: &'a str,
    other_label: &'a str,
) -> (findings: Vec<Finding<'a, Album>>)
    ensures
        is_comparison(
            findings@,
            reference@,
            other@,
            reference_label@,
            other_label@,
            false,
            Tolerance::ReferencePrefix,
            Tolerance::KeyPrefix,
        ),
{
    compare(
        reference,
        other,
        reference_label,
        other_label,
        false,
        Tolerance::ReferencePrefix,
        Tolerance::KeyPrefix,
    )
}

/// Compares the artists of two sources, keyed by folded name, where a folded
/// name of `other` may be a prefix of the one that `reference` has.
pub fn compare_artists<'a>(
    reference: &'a OrderedMap<String>,
    other: &'a OrderedMap<String>,
    reference_label: &'a str,
    other_label: &'a str,
) -> (findings: Vec<Finding<'a, String>>)
    ensures
        is_comparison(
            findings@,
            reference@,
            other@,
            reference_label@,
            other_label@,
            false,
            Tolerance::ReferencePrefix,
            Tolerance::KeyPrefix,
        ),
{
    compare(
        reference,
        other,
        reference_label,
        other_label,
        false,
        Tolerance::ReferencePrefix,
        Tolerance::KeyPrefix,
    )
}

/// What the comparison of one playlist of the reference source gave.
#[derive(Debug, PartialEq)]
pub enum PlaylistReport<'a> {
    /// Both sources have the playlist, and these are the findings on it.
    Compared { name: &'a String, findings: Vec<Finding<'a, Track>> },
    /// `absent_source` has no playlist of that name, so nothing was compared.
    Skipped { name: &'a String, absent_source: &'a str },
}

impl<'a> PlaylistReport<'a> {
    /// Whether this is the report owed for the playlist `name` with the
    /// tracks `tracks` of the reference source, against the playlists
    /// `others` of the other source.
    pub open spec fn is_report_on(
        self,
        name: Seq<char>,
        tracks: Seq<(Seq<char>, Track)>,
        others: Seq<(Seq<char>, OrderedMap<Track>)>,
        reference_label: Seq<char>,
        other_label: Seq<char>,
    ) -> bool {
        match self {
            PlaylistReport::Compared { name: found_name, findings } => found_name@ == name
                && has_key(others, name) && is_comparison(
                findings@,
                tracks,
                others[position_of(others, name)].1@,
                reference_label,
                other_label,
                true,
                Tolerance::Exact,
                Tolerance::Exact,
            ),
            PlaylistReport::Skipped { name: found_name, absent_source } => found_name@ == name
                && !has_key(others, name) && absent_source@ == other_label,
        }
    }
}

/// Compares the playlists of two sources: each playlist of `reference`, in
/// its order, with the playlist of the same name of `other`. A playlist that
/// `other` lacks is not compared and is reported as skipped.
pub fn compare_playlists<'a>(
    reference: &'a OrderedMap<OrderedMap<Track>>,
    other: &'a OrderedMap<OrderedMap<Track>>,
    reference_label: &'a str,
    other_label: &'a str,
) -> (reports: Vec<PlaylistReport<'a>>)
    ensures
        reports@.len() == reference@.len(),
        forall|i: int|
            0 <= i < reference@.len() ==> (#[trigger] reports@[i]).is_report_on(
                reference@[i].0,
                reference@[i].1@,
                other@,
                reference_label@,
                other_label@,
            ),
{
    let n = reference.len();
    let mut reports: Vec<PlaylistReport<'a>> = Vec::new();
    let mut i: usize = 0;
    while i < n
        invariant
            n == reference@.len(),
            i <= n,
            reports@.len() == i,
            forall|k: int|
                0 <= k < i ==> (#[trigger] reports@[k]).is_report_on(
                    reference@[k].0,
                    reference@[k].1@,
                    other@,
                    reference_label@,
                    other_label@,
                ),
        decreases n - i,
    {
        let (name, tracks) = reference.get_index(i).unwrap();
        let report = match other.get(name.as_str()) {
            Some(other_tracks) => PlaylistReport::Compared {
                name,
                findings: compare_tracks(tracks, other_tracks, reference_label, other_label),
            },
            None => PlaylistReport::Skipped { name, absent_source: other_label },
        };
        reports.push(report);
        i = i + 1;
    }
    reports
}

/// The findings of a full comparison of two sources, section by section.
#[derive(Debug, PartialEq)]
pub struct Comparison<'a> {
    pub artists: Vec<Finding<'a, String>>,
    pub albums: Vec<Finding<'a, Album>>,
    pub tracks: Vec<Finding<'a, Track>>,
    pub playlists: Vec<PlaylistReport<'a>>,
}

/// Compares the catalog `other` against the catalog `reference`: artists,
/// albums, favourite tracks, then each playlist of `reference`.
pub fn compare_mappings<'a>(
    reference: &'a Mappings,
    other: &'a Mappings,
    reference_label: &'a str,
    other_label: &'a str,
) -> (c: Comparison<'a>)
    ensures
        is_comparison(
            c.artists@,
            reference.artists@,
            other.artists@,
            reference_label@,
            other_label@,
            false,
            Tolerance::ReferencePrefix,
            Tolerance::KeyPrefix,
        ),
        is_comparison(
            c.albums@,
            reference.albums@,
            other.albums@,
            reference_label@,
            other_label@,
            false,
            Tolerance::ReferencePrefix,
            Tolerance::KeyPrefix,
        ),
        is_comparison(
            c.tracks@,
            reference.tracks@,
            other.tracks@,
            reference_label@,
            other_label@,
            true,
            Tolerance::Exact,
            Tolerance::Exact,
        ),
        c.playlists@.len() == reference.playlists@.len(),
        forall|i: int|
            0 <= i < reference.playlists@.len() ==> (#[trigger] c.playlists@[i]).is_report_on(
                reference.playlists@[i].0,
                reference.playlists@[i].1@,
                other.playlists@,
                reference_label@,
                other_label@,
            ),
{
    Comparison {
        artists: compare_artists(&reference.artists, &other.artists, reference_label, other_label),
        albums: compare_albums(&reference.albums, &other.albums, reference_label, other_label),
        tracks: compare_tracks(&reference.tracks, &other.tracks, reference_label, other_label),
        playlists: compare_playlists(
            &reference.playlists,
            &other.playlists,
            reference_label,
            other_label,
        ),
    }
}

} // verus!
