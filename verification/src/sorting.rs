//! Sorting positions into presentation order.

use crate::ordered_map::OrderedMap;
use crate::ordering::{key_order, Entity};
use crate::presentation::{in_presentation_order, increasing, positions_within, sort_key_of};
use std::cmp::Ordering;
use vstd::prelude::*;

verus! {

/// Compares the entities at two positions of `map` by their sort keys.
pub(crate) fn order_at<V: Entity>(map: &OrderedMap<V>, a: usize, b: usize) -> (o: Ordering)
    requires
        a < map@.len(),
        b < map@.len(),
    ensures
        o == key_order(sort_key_of(map@, a), sort_key_of(map@, b)),
{
    let left = map.get_index(a).unwrap().1;
    let right = map.get_index(b).unwrap().1;
    left.cmp(right)
}

/// `slice::sort_by` with `order_at` as the comparison: the positions are
/// rearranged, none lost or added, into ascending order of their entities,
/// and the sort is stable, so positions of equal sort key stay in the
/// ascending order in which they were given.
#[verifier::external_body]
pub(crate) fn sort_positions<V: Entity>(map: &OrderedMap<V>, positions: &mut Vec<usize>)
    requires
        positions_within(old(positions)@, map@.len()),
        increasing(old(positions)@),
    ensures
        final(positions)@.to_multiset() == old(positions)@.to_multiset(),
        in_presentation_order(map@, final(positions)@),
{
    positions.sort_by(|a, b| order_at(map, *a, *b));
}

} // verus!
