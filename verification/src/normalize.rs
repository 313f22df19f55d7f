//! Identifier normalization: a raw catalog code becomes a comparable key.

use crate::text::{ascii_upper, to_upper, trim_start_char, upper, without_leading};
use vstd::prelude::*;
use vstd::utf8::is_ascii_chars;

verus! {

/// The identifier of a raw catalog code: the code without its leading run of
/// `'0'`, upper-cased. An empty or all-zero code gives the empty identifier.
pub open spec fn normalized(raw: Seq<char>) -> Seq<char> {
    upper(without_leading(raw, '0'))
}

/// Whether upper-casing `s` gives a string that upper-casing leaves alone and
/// that does not begin with `'0'`.
pub open spec fn upper_is_settled(s: Seq<char>) -> bool {
    &&& upper(upper(s)) == upper(s)
    &&& upper(s).len() > 0 ==> upper(s)[0] != '0'
}

/// Canonicalizes a raw catalog code into an identifier. Total: every input has
/// an identifier.
pub fn normalize(raw: &str) -> (id: String)
    ensures
        id@ == normalized(raw@),
{
    to_upper(trim_start_char(raw, '0'))
}

/// Removing the leading run of `c` yields a suffix of the input that does not
/// begin with `c`, and keeps ASCII text ASCII.
pub proof fn lemma_without_leading(s: Seq<char>, c: char)
    ensures
        without_leading(s, c).len() <= s.len(),
        without_leading(s, c) == s.subrange(
            s.len() - without_leading(s, c).len(),
            s.len() as int,
        ),
        without_leading(s, c).len() > 0 ==> without_leading(s, c)[0] != c,
        forall|i: int| 0 <= i < s.len() - without_leading(s, c).len() ==> s[i] == c,
        is_ascii_chars(s) ==> is_ascii_chars(without_leading(s, c)),
    decreases s.len(),
{
    if s.len() > 0 && s[0] == c {
        let t = s.drop_first();
        lemma_without_leading(t, c);
        let r = without_leading(t, c);
        assert(r == s.subrange(s.len() - r.len(), s.len() as int));
        assert forall|i: int| 0 <= i < s.len() - r.len() implies s[i] == c by {
            if i > 0 {
                assert(s[i] == t[i - 1]);
            }
        }
    } else {
        assert(s == s.subrange(0, s.len() as int));
    }
}

/// A string that does not begin with `c` has no leading run of `c` to lose.
pub proof fn lemma_without_leading_fixed(s: Seq<char>, c: char)
    requires
        s.len() > 0 ==> s[0] != c,
    ensures
        without_leading(s, c) == s,
{
}

/// ASCII upper-casing is idempotent, keeps ASCII text ASCII, and turns no
/// other character into `'0'`.
pub proof fn lemma_ascii_upper_settled(s: Seq<char>)
    requires
        is_ascii_chars(s),
    ensures
        is_ascii_chars(ascii_upper(s)),
        ascii_upper(ascii_upper(s)) == ascii_upper(s),
        upper(s) == ascii_upper(s),
        s.len() > 0 && s[0] != '0' ==> ascii_upper(s)[0] != '0',
{
    let u = ascii_upper(s);
    assert forall|i: int| 0 <= i < u.len() implies '\0' <= #[trigger] u[i] <= '\u{7f}' by {
        assert('\0' <= s[i] <= '\u{7f}');
    }
    assert(ascii_upper(u) =~= u);
}

/// Normalizing an identifier again changes nothing, for every raw code whose
/// form without leading zeros upper-cases to a settled string.
pub proof fn lemma_normalize_idempotent_when_settled(raw: Seq<char>)
    requires
        upper_is_settled(without_leading(raw, '0')),
    ensures
        normalized(normalized(raw)) == normalized(raw),
{
    lemma_without_leading_fixed(normalized(raw), '0');
}

/// Normalization is idempotent on ASCII codes: normalizing an identifier again
/// gives the same identifier.
pub proof fn lemma_normalize_idempotent_ascii(raw: Seq<char>)
    requires
        is_ascii_chars(raw),
    ensures
        normalized(normalized(raw)) == normalized(raw),
{
    let y = without_leading(raw, '0');
    lemma_without_leading(raw, '0');
    lemma_ascii_upper_settled(y);
    lemma_without_leading_fixed(ascii_upper(y), '0');
    lemma_ascii_upper_settled(ascii_upper(y));
}

} // verus!
