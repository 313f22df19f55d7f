//! Presentation order: positions of a mapping sorted by the entities that
//! stand at them.

use crate::ordering::{key_lt, Entity};
use vstd::prelude::*;

verus! {

/// The sort key of the entity at position `p` of `entries`.
pub open spec fn sort_key_at<V: Entity>(entries: Seq<(Seq<char>, V)>, p: int) -> Seq<Seq<char>> {
    entries[p].1.sort_key()
}

/// The sort key of the entity at position `p` of `entries`.
pub open spec fn sort_key_of<V: Entity>(entries: Seq<(Seq<char>, V)>, p: usize) -> Seq<Seq<char>> {
    sort_key_at(entries, p as int)
}

/// Whether the entry at position `p` is presented before the entry at
/// position `q`: by sort key, and by position where the keys are equal.
pub open spec fn comes_before<V: Entity>(entries: Seq<(Seq<char>, V)>, p: int, q: int) -> bool {
    key_lt(sort_key_at(entries, p), sort_key_at(entries, q)) || (!key_lt(
        sort_key_at(entries, q),
        sort_key_at(entries, p),
    ) && p < q)
}

/// Whether every position of the list is a position of a mapping with `len`
/// entries.
pub open spec fn positions_within(positions: Seq<usize>, len: nat) -> bool {
    forall|i: int| 0 <= i < positions.len() ==> (#[trigger] positions[i]) < len
}

/// Whether the positions of the list go strictly upwards.
pub open spec fn increasing(positions: Seq<usize>) -> bool {
    forall|i: int, j: int|
        0 <= i < j < positions.len() ==> (#[trigger] positions[i]) < (#[trigger] positions[j])
}

/// Whether the list gives its positions in presentation order.
pub open spec fn in_presentation_order<V: Entity>(
    entries: Seq<(Seq<char>, V)>,
    positions: Seq<usize>,
) -> bool {
    forall|i: int, j: int|
        0 <= i < j < positions.len() ==> comes_before(
            entries,
            (#[trigger] positions[i]) as int,
            (#[trigger] positions[j]) as int,
        )
}

} // verus!
