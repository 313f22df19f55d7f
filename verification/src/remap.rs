//! The identifier remapping step: known equivalences between the identifiers
//! that two sources give the same release, applied to one mapping before any
//! comparison.

use crate::ordered_map::{has_key, lemma_position_of, position_of, OrderedMap};
use vstd::prelude::*;

verus! {

/// Why an identifier could not be renamed.
#[derive(Debug, Clone, Copy, PartialEq, Eq)]
pub enum RenameError {
    /// The mapping has no entry at the identifier to rename.
    UnknownIdentifier,
    /// Another entry of the mapping already has the new identifier.
    IdentifierTaken,
}

/// The first remap of a list that could not be applied.
#[derive(Debug, Clone, Copy, PartialEq, Eq)]
pub struct RemapError {
    /// The position of the pair in the list, counted from 0.
    pub pair: usize,
    /// Why the pair could not be applied.
    pub cause: RenameError,
}

/// Whether `entries` has `current` and can give its entry the key `replacement` with the
/// keys staying unique.
pub open spec fn can_rename<V>(entries: Seq<(Seq<char>, V)>, current: Seq<char>, replacement: Seq<char>) -> bool {
    has_key(entries, current) && (replacement == current || !has_key(entries, replacement))
}

/// `entries` with the key `current` replaced by `replacement`: the entry keeps its value
/// and its position.
pub open spec fn renamed<V>(entries: Seq<(Seq<char>, V)>, current: Seq<char>, replacement: Seq<char>) -> Seq<
    (Seq<char>, V),
> {
    entries.update(position_of(entries, current), (replacement, entries[position_of(entries, current)].1))
}

/// Why `entries` cannot take a rename of `current`, where it cannot: the
/// identifier is unknown, or else the new one is taken.
pub open spec fn rename_fault<V>(entries: Seq<(Seq<char>, V)>, current: Seq<char>) -> RenameError {
    if has_key(entries, current) {
        RenameError::IdentifierTaken
    } else {
        RenameError::UnknownIdentifier
    }
}

/// The pairs of a remap list as character sequences.
pub open spec fn pair_views(pairs: Seq<(String, String)>) -> Seq<(Seq<char>, Seq<char>)> {
    Seq::new(pairs.len(), |i: int| (pairs[i].0@, pairs[i].1@))
}

/// `entries` after the renames of `pairs`, applied first to last.
pub open spec fn remapped<V>(entries: Seq<(Seq<char>, V)>, pairs: Seq<(Seq<char>, Seq<char>)>) -> Seq<
    (Seq<char>, V),
>
    decreases pairs.len(),
{
    if pairs.len() == 0 {
        entries
    } else {
        renamed(remapped(entries, pairs.drop_last()), pairs.last().0, pairs.last().1)
    }
}

/// Whether each rename of `pairs` can be made on what the renames before it
/// left.
pub open spec fn all_apply<V>(entries: Seq<(Seq<char>, V)>, pairs: Seq<(Seq<char>, Seq<char>)>) -> bool
    decreases pairs.len(),
{
    pairs.len() == 0 || (all_apply(entries, pairs.drop_last()) && can_rename(
        remapped(entries, pairs.drop_last()),
        pairs.last().0,
        pairs.last().1,
    ))
}

/// Replaces the identifier `current` of `map` by `replacement`. The entry keeps its value
/// and its position in the order. Fails, and leaves `map` as it is, where
/// `map` has no entry at `current` or another entry already has
/// `replacement`.
pub fn rename_key<V>(map: &mut OrderedMap<V>, current: &str, replacement: String) -> (r: Result<
    (),
    RenameError,
>)
    ensures
        match r {
            Ok(()) => can_rename(old(map)@, current@, replacement@) && final(map)@ == renamed(
                old(map)@,
                current@,
                replacement@,
            ),
            Err(RenameError::UnknownIdentifier) => final(map)@ == old(map)@ && !has_key(
                old(map)@,
                current@,
            ),
            Err(RenameError::IdentifierTaken) => final(map)@ == old(map)@ && has_key(
                old(map)@,
                current@,
            ) && replacement@ != current@ && has_key(old(map)@, replacement@),
        },
{
    proof {
        use_type_invariant(&*map);
        map.lemma_distinct();
    }
    match map.position(current) {
        None => Err(RenameError::UnknownIdentifier),
        Some(at) => {
            proof {
                lemma_position_of(map@, at as int);
            }
            match map.replace_key(at, replacement) {
                Ok(_) => {
                    proof {
                        if replacement@ != current@ && has_key(old(map)@, replacement@) {
                            let j = position_of(old(map)@, replacement@);
                            assert(old(map)@[j].0 == replacement@);
                        }
                    }
                    Ok(())
                },
                Err(j) => {
                    proof {
                        assert(old(map)@[j as int].0 == replacement@);
                    }
                    Err(RenameError::IdentifierTaken)
                },
            }
        },
    }
}

/// Applies the remaps of `pairs`, each an old and a new identifier, to `map`
/// in the order of the list. Stops at the first pair that cannot be applied,
/// with the pairs before it applied, and says which pair it was and why.
pub fn apply_remaps<V>(map: &mut OrderedMap<V>, pairs: &Vec<(String, String)>) -> (r: Result<
    (),
    RemapError,
>)
    ensures
        match r {
            Ok(()) => all_apply(old(map)@, pair_views(pairs@)) && final(map)@ == remapped(
                old(map)@,
                pair_views(pairs@),
            ),
            Err(e) => e.pair < pairs@.len() && all_apply(
                old(map)@,
                pair_views(pairs@).take(e.pair as int),
            ) && final(map)@ == remapped(old(map)@, pair_views(pairs@).take(e.pair as int))
                && e.cause == rename_fault(final(map)@, pairs@[e.pair as int].0@) && !can_rename(final(map)@, pairs@[e.pair as int].0@, pairs@[e.pair as int].1@),
        },
{
    let ghost all = pair_views(pairs@);
    let n = pairs.len();
    let mut i: usize = 0;
    proof {
        assert(all.take(0) =~= Seq::<(Seq<char>, Seq<char>)>::empty());
    }
    while i < n
        invariant
            all == pair_views(pairs@),
            n == pairs@.len(),
            i <= n,
            all_apply(old(map)@, all.take(i as int)),
            map@ == remapped(old(map)@, all.take(i as int)),
        decreases n - i,
    {
        let pair = &pairs[i];
        proof {
            assert(all.take(i as int + 1).drop_last() =~= all.take(i as int));
            assert(all.take(i as int + 1).last() == all[i as int]);
        }
        match rename_key(map, pair.0.as_str(), pair.1.clone()) {
            Ok(()) => {},
            Err(cause) => {
                return Err(RemapError { pair: i, cause });
            },
        }
        i = i + 1;
    }
    proof {
        assert(all.take(n as int) =~= all);
    }
    Ok(())
}

} // verus!
