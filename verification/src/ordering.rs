//! The canonical order in which entities are presented.
//!
//! An entity is ordered by its sort key, a list of strings compared field by
//! field. The order is used only to present the set reconciler's findings:
//! the order aligner never sorts.

use crate::text::{lemma_lex_irreflexive, lemma_lex_total, lemma_lex_transitive, lex_lt, str_lt};
use std::cmp::Ordering;
use vstd::prelude::*;

verus! {

/// Whether the sort key `a` comes strictly before the sort key `b`: the first
/// field in which they differ decides, and a key that runs out first comes
/// first.
pub open spec fn key_lt(a: Seq<Seq<char>>, b: Seq<Seq<char>>) -> bool
    decreases a.len(),
{
    if b.len() == 0 {
        false
    } else if a.len() == 0 {
        true
    } else if a[0] != b[0] {
        lex_lt(a[0], b[0])
    } else {
        key_lt(a.drop_first(), b.drop_first())
    }
}

/// How the string `a` stands to the string `b`.
pub open spec fn text_order(a: Seq<char>, b: Seq<char>) -> Ordering {
    if lex_lt(a, b) {
        Ordering::Less
    } else if lex_lt(b, a) {
        Ordering::Greater
    } else {
        Ordering::Equal
    }
}

/// How the sort key `a` stands to the sort key `b`.
pub open spec fn key_order(a: Seq<Seq<char>>, b: Seq<Seq<char>>) -> Ordering {
    if key_lt(a, b) {
        Ordering::Less
    } else if key_lt(b, a) {
        Ordering::Greater
    } else {
        Ordering::Equal
    }
}

/// Something that findings can be sorted by.
pub trait Entity {
    /// The fields by which the entity is ordered, the most significant first.
    spec fn sort_key(&self) -> Seq<Seq<char>>;

    /// Compares two entities by their sort keys.
    fn cmp(&self, other: &Self) -> (o: Ordering)
        ensures
            o == key_order(self.sort_key(), other.sort_key()),
    ;
}

/// Compares two strings by the code points of their characters.
pub fn compare_text(a: &str, b: &str) -> (o: Ordering)
    ensures
        o == text_order(a@, b@),
        o is Equal <==> a@ == b@,
{
    proof {
        lemma_lex_total(a@, b@);
        lemma_lex_irreflexive(a@);
    }
    if str_lt(a, b) {
        Ordering::Less
    } else if str_lt(b, a) {
        Ordering::Greater
    } else {
        Ordering::Equal
    }
}

/// No sort key comes before itself.
pub proof fn lemma_key_irreflexive(a: Seq<Seq<char>>)
    ensures
        !key_lt(a, a),
    decreases a.len(),
{
    if a.len() > 0 {
        lemma_key_irreflexive(a.drop_first());
    }
}

/// Of two different sort keys one comes before the other.
pub proof fn lemma_key_total(a: Seq<Seq<char>>, b: Seq<Seq<char>>)
    ensures
        a == b || key_lt(a, b) || key_lt(b, a),
    decreases a.len(),
{
    if a.len() > 0 && b.len() > 0 {
        if a[0] == b[0] {
            lemma_key_total(a.drop_first(), b.drop_first());
            if a.drop_first() == b.drop_first() {
                assert(a =~= seq![a[0]] + a.drop_first());
                assert(b =~= seq![b[0]] + b.drop_first());
            }
        } else {
            lemma_lex_total(a[0], b[0]);
        }
    } else if a.len() == 0 && b.len() == 0 {
        assert(a =~= b);
    }
}

/// The order of sort keys is transitive.
pub proof fn lemma_key_transitive(a: Seq<Seq<char>>, b: Seq<Seq<char>>, c: Seq<Seq<char>>)
    requires
        key_lt(a, b),
        key_lt(b, c),
    ensures
        key_lt(a, c),
    decreases a.len(),
{
    if a.len() > 0 {
        if a[0] == b[0] && b[0] == c[0] {
            lemma_key_transitive(a.drop_first(), b.drop_first(), c.drop_first());
        } else if a[0] != b[0] && b[0] != c[0] {
            lemma_lex_transitive(a[0], b[0], c[0]);
            lemma_lex_irreflexive(a[0]);
        }
    }
}

/// A sort key cannot come both before and after another.
pub proof fn lemma_key_asymmetric(a: Seq<Seq<char>>, b: Seq<Seq<char>>)
    requires
        key_lt(a, b),
    ensures
        !key_lt(b, a),
{
    if key_lt(b, a) {
        lemma_key_transitive(a, b, a);
        lemma_key_irreflexive(a);
    }
}

/// A key of one field is ordered as its field is.
pub proof fn lemma_key_order_single(a: Seq<char>, b: Seq<char>)
    ensures
        key_order(seq![a], seq![b]) == text_order(a, b),
{
    reveal_with_fuel(key_lt, 2);
    lemma_lex_irreflexive(a);
    assert(seq![a].drop_first() =~= Seq::<Seq<char>>::empty());
    assert(seq![b].drop_first() =~= Seq::<Seq<char>>::empty());
}

/// Putting an equal field in front of two keys does not change their order;
/// putting different fields in front orders the keys as those fields.
pub proof fn lemma_key_order_push_front(
    x: Seq<char>,
    y: Seq<char>,
    a: Seq<Seq<char>>,
    b: Seq<Seq<char>>,
)
    ensures
        key_order(seq![x] + a, seq![y] + b) == if x == y {
            key_order(a, b)
        } else {
            text_order(x, y)
        },
{
    assert((seq![x] + a).drop_first() =~= a);
    assert((seq![y] + b).drop_first() =~= b);
    lemma_lex_total(x, y);
}

} // verus!
