//! The insertion-ordered key index that every ordered mapping is built on.
//!
//! The index is an `indexmap::IndexMap` from identifier to slot number. Verus
//! does not look inside it: the functions below state what each call does to
//! the sequence of entries the map holds, as the crate documents it.

use indexmap::IndexMap;
use vstd::prelude::*;

verus! {

#[verifier::external_type_specification]
#[verifier::external_body]
#[verifier::reject_recursive_types(K)]
#[verifier::reject_recursive_types(V)]
#[verifier::reject_recursive_types(S)]
pub struct ExIndexMap<K, V, S>(IndexMap<K, V, S>);

/// The entries of an index in iteration order: each key with its slot number.
pub uninterp spec fn index_entries(m: IndexMap<String, usize>) -> Seq<(Seq<char>, usize)>;

/// Whether some entry of `entries` has the key `key`.
pub open spec fn holds_key(entries: Seq<(Seq<char>, usize)>, key: Seq<char>) -> bool {
    exists|i: int| 0 <= i < entries.len() && (#[trigger] entries[i]).0 == key
}

/// `IndexMap::new`: a map without entries.
#[verifier::external_body]
pub(crate) fn index_new() -> (m: IndexMap<String, usize>)
    ensures
        index_entries(m) == Seq::<(Seq<char>, usize)>::empty(),
{
    IndexMap::new()
}

/// `IndexMap::len`: the number of entries.
#[verifier::external_body]
pub(crate) fn index_len(m: &IndexMap<String, usize>) -> (n: usize)
    ensures
        n == index_entries(*m).len(),
{
    m.len()
}

/// `IndexMap::get_index_of`: the position of an entry whose key equals `key`,
/// or `None` when no entry has that key.
#[verifier::external_body]
pub(crate) fn index_position(m: &IndexMap<String, usize>, key: &str) -> (r: Option<usize>)
    ensures
        match r {
            Some(i) => i < index_entries(*m).len() && index_entries(*m)[i as int].0 == key@,
            None => !holds_key(index_entries(*m), key@),
        },
{
    m.get_index_of(key)
}

/// `IndexMap::get_index`: the key and slot at position `i`, or `None` when `i`
/// is not a position of the map.
#[verifier::external_body]
pub(crate) fn index_entry_at(m: &IndexMap<String, usize>, i: usize) -> (r: Option<
    (&String, usize),
>)
    ensures
        match r {
            Some((key, slot)) => i < index_entries(*m).len() && key@ == index_entries(*m)[i as int].0
                && slot == index_entries(*m)[i as int].1,
            None => i >= index_entries(*m).len(),
        },
{
    m.get_index(i).map(|(key, slot)| (key, *slot))
}

/// `IndexMap::insert`: where an entry with an equal key exists, it keeps its
/// place and its slot becomes `slot`, and the earlier slot is returned; else
/// the pair is added last and `None` is returned.
#[verifier::external_body]
pub(crate) fn index_insert(m: &mut IndexMap<String, usize>, key: String, slot: usize) -> (r:
    Option<usize>)
    ensures
        match r {
            Some(earlier) => exists|i: int|
                0 <= i < index_entries(*old(m)).len() && (#[trigger] index_entries(*old(m))[i]).0
                    == key@ && index_entries(*old(m))[i].1 == earlier && index_entries(*final(m))
                    == index_entries(*old(m)).update(i, (key@, slot)),
            None => !holds_key(index_entries(*old(m)), key@) && index_entries(*final(m))
                == index_entries(*old(m)).push((key@, slot)),
        },
{
    m.insert(key, slot)
}

/// `IndexMap::replace_index`: puts `key` in place of the key at position `i`,
/// which keeps its slot and its place, and returns the earlier key; this
/// happens only where no other position has an equal key. Where another
/// position `j` has one, the map stays as it is and `j` comes back with `key`.
/// The call panics for `i` out of bounds.
#[verifier::external_body]
pub(crate) fn index_replace_key(m: &mut IndexMap<String, usize>, i: usize, key: String) -> (r:
    Result<String, (usize, String)>)
    requires
        i < index_entries(*old(m)).len(),
    ensures
        match r {
            Ok(earlier) => earlier@ == index_entries(*old(m))[i as int].0 && index_entries(
                *final(m),
            ) == index_entries(*old(m)).update(
                i as int,
                (key@, index_entries(*old(m))[i as int].1),
            ) && forall|j: int|
                0 <= j < index_entries(*old(m)).len() && j != i ==> (#[trigger] index_entries(
                    *old(m),
                )[j]).0 != key@,
            Err((j, given)) => j != i && j < index_entries(*old(m)).len() && index_entries(
                *old(m),
            )[j as int].0 == key@ && given@ == key@ && index_entries(*final(m)) == index_entries(
                *old(m),
            ),
        },
{
    m.replace_index(i, key)
}

} // verus!
