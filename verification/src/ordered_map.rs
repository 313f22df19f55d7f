//! An insertion-ordered mapping from identifier to value.
//!
//! The order of the entries is the order in which their keys were first
//! inserted; it is what the order aligner inspects. Keys are unique.

use crate::keys::{
    index_entries, index_entry_at, index_insert, index_len, index_new, index_position,
    index_replace_key,
};
use indexmap::IndexMap;
use vstd::prelude::*;

verus! {

/// Whether some entry of `entries` has the key `key`.
pub open spec fn has_key<V>(entries: Seq<(Seq<char>, V)>, key: Seq<char>) -> bool {
    exists|i: int| 0 <= i < entries.len() && (#[trigger] entries[i]).0 == key
}

/// The position of an entry of `entries` with the key `key`.
pub open spec fn position_of<V>(entries: Seq<(Seq<char>, V)>, key: Seq<char>) -> int {
    choose|i: int| 0 <= i < entries.len() && (#[trigger] entries[i]).0 == key
}

/// Whether no key occurs in two entries.
pub open spec fn distinct_keys<V>(entries: Seq<(Seq<char>, V)>) -> bool {
    forall|i: int, j: int|
        0 <= i < entries.len() && 0 <= j < entries.len() && i != j ==> (#[trigger] entries[i]).0
            != (#[trigger] entries[j]).0
}

/// The keys of `entries`, in order.
pub open spec fn keys_of<V>(entries: Seq<(Seq<char>, V)>) -> Seq<Seq<char>> {
    Seq::new(entries.len(), |i: int| entries[i].0)
}

/// `entries` after `key` was given the value `value`: an entry with that key
/// keeps its place and takes the value, else the pair is added last.
pub open spec fn with_entry<V>(entries: Seq<(Seq<char>, V)>, key: Seq<char>, value: V) -> Seq<
    (Seq<char>, V),
> {
    if has_key(entries, key) {
        entries.update(position_of(entries, key), (key, value))
    } else {
        entries.push((key, value))
    }
}

/// The entries with each value replaced by its view.
pub open spec fn viewed<V: View>(entries: Seq<(Seq<char>, V)>) -> Seq<(Seq<char>, V::V)> {
    Seq::new(entries.len(), |i: int| (entries[i].0, entries[i].1@))
}

/// In a mapping with distinct keys, the position of a key is the position at
/// which it stands.
pub proof fn lemma_position_of<V>(entries: Seq<(Seq<char>, V)>, i: int)
    requires
        distinct_keys(entries),
        0 <= i < entries.len(),
    ensures
        has_key(entries, entries[i].0),
        position_of(entries, entries[i].0) == i,
{
}

/// Giving a key a value commutes with viewing the values.
pub proof fn lemma_viewed_with_entry<V: View>(entries: Seq<(Seq<char>, V)>, key: Seq<char>, value: V)
    requires
        distinct_keys(entries),
    ensures
        viewed(with_entry(entries, key, value)) == with_entry(viewed(entries), key, value@),
        has_key(viewed(entries), key) == has_key(entries, key),
        has_key(entries, key) ==> position_of(viewed(entries), key) == position_of(entries, key),
        distinct_keys(viewed(entries)),
{
    let deep = viewed(entries);
    assert forall|i: int, j: int| 0 <= i < deep.len() && 0 <= j < deep.len() && i != j implies (
    #[trigger] deep[i]).0 != (#[trigger] deep[j]).0 by {
        assert(entries[i].0 != entries[j].0);
    }
    if has_key(entries, key) {
        let i = position_of(entries, key);
        assert(deep[i].0 == key);
        lemma_position_of(deep, i);
        assert(viewed(entries.update(i, (key, value))) =~= deep.update(i, (key, value@)));
    } else {
        if has_key(deep, key) {
            let i = position_of(deep, key);
            assert(entries[i].0 == key);
        }
        assert(viewed(entries.push((key, value))) =~= deep.push((key, value@)));
    }
}

/// An insertion-ordered mapping from identifier to `V`.
#[derive(Debug)]
pub struct OrderedMap<V> {
    index: IndexMap<String, usize>,
    items: Vec<V>,
}

impl<V> View for OrderedMap<V> {
    type V = Seq<(Seq<char>, V)>;

    /// The entries in iteration order.
    closed spec fn view(&self) -> Seq<(Seq<char>, V)> {
        Seq::new(self.items@.len(), |i: int| (index_entries(self.index)[i].0, self.items@[i]))
    }
}

impl<V> OrderedMap<V> {
    /// Every key stands at one position, and the value of the key at position
    /// `i` is item `i`.
    #[verifier::type_invariant]
    pub closed spec fn wf(&self) -> bool {
        &&& index_entries(self.index).len() == self.items@.len()
        &&& forall|i: int|
            0 <= i < self.items@.len() ==> (#[trigger] index_entries(self.index)[i]).1 == i
        &&& forall|i: int, j: int|
            0 <= i < self.items@.len() && 0 <= j < self.items@.len() && i != j ==> (
            #[trigger] index_entries(self.index)[i]).0 != (#[trigger] index_entries(
                self.index,
            )[j]).0
    }

    /// A well-formed mapping has distinct keys.
    pub proof fn lemma_distinct(self)
        requires
            self.wf(),
        ensures
            distinct_keys(self@),
    {
    }

    /// An empty mapping.
    pub fn new() -> (m: Self)
        ensures
            m@ == Seq::<(Seq<char>, V)>::empty(),
            m.wf(),
    {
        OrderedMap { index: index_new(), items: Vec::new() }
    }

    /// The number of entries.
    pub fn len(&self) -> (n: usize)
        ensures
            n == self@.len(),
            self.wf(),
    {
        proof {
            use_type_invariant(self);
        }
        index_len(&self.index)
    }

    /// The position of `key`, if the mapping has it.
    pub fn position(&self, key: &str) -> (r: Option<usize>)
        ensures
            self.wf(),
            distinct_keys(self@),
            match r {
                Some(i) => i < self@.len() && self@[i as int].0 == key@ && i == position_of(
                    self@,
                    key@,
                ),
                None => !has_key(self@, key@),
            },
    {
        proof {
            use_type_invariant(self);
        }
        let r = index_position(&self.index, key);
        proof {
            match r {
                Some(i) => {
                    assert(self@[i as int].0 == key@);
                },
                None => {
                    assert forall|i: int| 0 <= i < self@.len() implies (#[trigger] self@[i]).0
                        != key@ by {
                        assert(index_entries(self.index)[i].0 == self@[i].0);
                    }
                },
            }
        }
        r
    }

    /// Whether the mapping has an entry at exactly `key`.
    pub fn contains_key(&self, key: &str) -> (r: bool)
        ensures
            r == has_key(self@, key@),
    {
        self.position(key).is_some()
    }

    /// The key and value at position `i`, or `None` past the end.
    pub fn get_index(&self, i: usize) -> (r: Option<(&String, &V)>)
        ensures
            self.wf(),
            match r {
                Some((key, value)) => i < self@.len() && key@ == self@[i as int].0 && *value
                    == self@[i as int].1,
                None => i >= self@.len(),
            },
    {
        proof {
            use_type_invariant(self);
        }
        match index_entry_at(&self.index, i) {
            Some((key, slot)) => Some((key, &self.items[slot])),
            None => None,
        }
    }

    /// The value at `key`, if the mapping has it.
    pub fn get(&self, key: &str) -> (r: Option<&V>)
        ensures
            match r {
                Some(value) => has_key(self@, key@) && *value == self@[position_of(self@, key@)].1,
                None => !has_key(self@, key@),
            },
    {
        match self.position(key) {
            Some(i) => Some(&self.items[i]),
            None => None,
        }
    }

    /// Gives `key` the value `value`. A key that the mapping already has
    /// keeps its position and the value it had is returned; a new key goes
    /// last.
    pub fn insert(&mut self, key: String, value: V) -> (r: Option<V>)
        ensures
            final(self).wf(),
            final(self)@ == with_entry(old(self)@, key@, value),
            match r {
                Some(earlier) => has_key(old(self)@, key@) && earlier == old(self)@[position_of(
                    old(self)@,
                    key@,
                )].1,
                None => !has_key(old(self)@, key@),
            },
    {
        let mut taken = OrderedMap::new();
        core::mem::swap(self, &mut taken);
        proof {
            use_type_invariant(&taken);
        }
        let found = taken.position(key.as_str());
        let OrderedMap { index, items } = taken;
        let mut index = index;
        let mut items = items;
        let r = match found {
            Some(i) => {
                items.push(value);
                Some(items.swap_remove(i))
            },
            None => {
                let ghost before = index_entries(index);
                let n = items.len();
                let earlier = index_insert(&mut index, key, n);
                items.push(value);
                proof {
                    if earlier is Some {
                        let i = choose|i: int|
                            0 <= i < before.len() && (#[trigger] before[i]).0 == key@;
                        assert(old(self)@[i].0 == key@);
                    }
                }
                None
            },
        };
        *self = OrderedMap { index, items };
        proof {
            match found {
                Some(i) => {
                    assert(self@ =~= old(self)@.update(i as int, (key@, value)));
                },
                None => {
                    assert(self@ =~= old(self)@.push((key@, value)));
                },
            }
        }
        r
    }

    /// Puts `value` in place of the value at position `i` and returns the
    /// value that stood there.
    pub(crate) fn replace_value(&mut self, i: usize, value: V) -> (earlier: V)
        requires
            i < old(self)@.len(),
        ensures
            final(self).wf(),
            final(self)@ == old(self)@.update(i as int, (old(self)@[i as int].0, value)),
            earlier == old(self)@[i as int].1,
    {
        let mut taken = OrderedMap::new();
        core::mem::swap(self, &mut taken);
        proof {
            use_type_invariant(&taken);
        }
        let OrderedMap { index, items } = taken;
        let mut items = items;
        items.push(value);
        let earlier = items.swap_remove(i);
        *self = OrderedMap { index, items };
        assert(self@ =~= old(self)@.update(i as int, (old(self)@[i as int].0, value)));
        earlier
    }

    /// Puts `key` in place of the key at position `i`, which keeps its value
    /// and its position, and returns the key that stood there. Where another
    /// position already has `key`, nothing changes and that position comes
    /// back as the error.
    pub(crate) fn replace_key(&mut self, i: usize, key: String) -> (r: Result<String, usize>)
        requires
            i < old(self)@.len(),
        ensures
            final(self).wf(),
            match r {
                Ok(earlier) => earlier@ == old(self)@[i as int].0 && final(self)@ == old(
                    self,
                )@.update(i as int, (key@, old(self)@[i as int].1)) && forall|j: int|
                    0 <= j < old(self)@.len() && j != i ==> (#[trigger] old(self)@[j]).0 != key@,
                Err(j) => j != i && j < old(self)@.len() && old(self)@[j as int].0 == key@
                    && final(self)@ == old(self)@,
            },
    {
        let mut taken = OrderedMap::new();
        core::mem::swap(self, &mut taken);
        proof {
            use_type_invariant(&taken);
        }
        let OrderedMap { index, items } = taken;
        let mut index = index;
        let ghost before = index_entries(index);
        let r = index_replace_key(&mut index, i, key);
        *self = OrderedMap { index, items };
        match r {
            Ok(earlier) => {
                proof {
                    assert(self@ =~= old(self)@.update(i as int, (key@, old(self)@[i as int].1)));
                    assert forall|j: int| 0 <= j < old(self)@.len() && j != i implies (
                    #[trigger] old(self)@[j]).0 != key@ by {
                        assert(before[j].0 != key@);
                    }
                }
                Ok(earlier)
            },
            Err((j, _)) => {
                proof {
                    assert(self@ =~= old(self)@);
                }
                Err(j)
            },
        }
    }
}

} // verus!
