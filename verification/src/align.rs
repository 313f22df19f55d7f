//! The order aligner: where two sources, restricted to the identifiers they
//! share, first disagree on relative order.

use crate::ordered_map::{distinct_keys, keys_of, OrderedMap};
use vstd::prelude::*;

verus! {

/// The keys of `a` that `b` also has, in the order of `a`.
pub open spec fn shared(a: Seq<Seq<char>>, b: Seq<Seq<char>>) -> Seq<Seq<char>> {
    a.filter(|k: Seq<char>| b.contains(k))
}

/// Whether the first `n` keys of `other` keep to the order of `reference`:
/// those of them that `reference` has are the first of the keys that
/// `reference` shares with `other`.
pub open spec fn agrees_up_to(reference: Seq<Seq<char>>, other: Seq<Seq<char>>, n: int) -> bool {
    shared(other.take(n), reference).is_prefix_of(shared(reference, other))
}

/// Whether `other` first leaves the order of `reference` at its position `p`
/// (counted from 0).
pub open spec fn diverges_at(reference: Seq<Seq<char>>, other: Seq<Seq<char>>, p: int) -> bool {
    &&& 0 <= p < other.len()
    &&& agrees_up_to(reference, other, p)
    &&& !agrees_up_to(reference, other, p + 1)
}

/// Taking one more key of `a` adds it to the shared keys exactly when `b` has
/// it.
pub proof fn lemma_shared_step(a: Seq<Seq<char>>, b: Seq<Seq<char>>, i: int)
    requires
        0 <= i < a.len(),
    ensures
        shared(a.take(i + 1), b) == if b.contains(a[i]) {
            shared(a.take(i), b).push(a[i])
        } else {
            shared(a.take(i), b)
        },
{
    reveal(Seq::filter);
    assert(a.take(i + 1).drop_last() =~= a.take(i));
}

/// The keys shared by a prefix of `a` are a prefix of the keys shared by `a`.
pub proof fn lemma_shared_prefix(a: Seq<Seq<char>>, b: Seq<Seq<char>>, i: int)
    requires
        0 <= i <= a.len(),
    ensures
        shared(a.take(i), b).is_prefix_of(shared(a, b)),
        i < a.len() && b.contains(a[i]) ==> shared(a.take(i), b).len() < shared(a, b).len()
            && shared(a, b)[shared(a.take(i), b).len() as int] == a[i],
    decreases a.len() - i,
{
    if i == a.len() {
        assert(a.take(i) =~= a);
    } else {
        lemma_shared_step(a, b, i);
        lemma_shared_prefix(a, b, i + 1);
        if b.contains(a[i]) {
            let n = shared(a.take(i), b).len() as int;
            assert(shared(a.take(i + 1), b)[n] == a[i]);
        }
    }
}

/// A shared key is a key of both sequences, and a key of both is shared.
pub proof fn lemma_shared_members(a: Seq<Seq<char>>, b: Seq<Seq<char>>, k: Seq<char>)
    ensures
        shared(a, b).contains(k) <==> a.contains(k) && b.contains(k),
    decreases a.len(),
{
    reveal(Seq::filter);
    if a.len() > 0 {
        let front = a.drop_last();
        lemma_shared_members(front, b, k);
        if a.contains(k) && a.last() != k {
            let i = choose|i: int| 0 <= i < a.len() && a[i] == k;
            assert(front[i] == k);
        }
        if front.contains(k) {
            let i = choose|i: int| 0 <= i < front.len() && front[i] == k;
            assert(a[i] == k);
        }
        if shared(front, b).contains(k) {
            let i = choose|i: int| 0 <= i < shared(front, b).len() && shared(front, b)[i] == k;
            if b.contains(a.last()) {
                assert(shared(a, b)[i] == k);
            }
        }
        if b.contains(a.last()) {
            let s = shared(a, b);
            assert(s[s.len() - 1] == a.last());
            if s.contains(k) && a.last() != k {
                let i = choose|i: int| 0 <= i < s.len() && s[i] == k;
                assert(shared(front, b)[i] == k);
            }
        }
    }
}

/// When `other` has run through all its keys in agreement with a `reference`
/// in which no key occurs twice, the two share the same keys in the same
/// order.
pub proof fn lemma_agreement_is_equality(reference: Seq<Seq<char>>, other: Seq<Seq<char>>)
    requires
        reference.no_duplicates(),
        agrees_up_to(reference, other, other.len() as int),
    ensures
        shared(other, reference) == shared(reference, other),
    decreases reference.len(),
{
    assert(other.take(other.len() as int) =~= other);
    let mine = shared(other, reference);
    let theirs = shared(reference, other);
    if mine.len() < theirs.len() {
        // The next shared key of `reference` is one that `other` has, so it is
        // among the keys that agreed, and occurs in `reference` twice.
        let n = mine.len() as int;
        let k = theirs[n];
        assert(theirs.contains(k));
        lemma_shared_members(reference, other, k);
        lemma_shared_members(other, reference, k);
        let j = choose|j: int| 0 <= j < mine.len() && mine[j] == k;
        assert(theirs[j] == k);
        lemma_shared_distinct(reference, other);
    }
    assert(mine =~= theirs);
}

/// The shared keys of a sequence without repeated keys are not repeated.
pub proof fn lemma_shared_distinct(a: Seq<Seq<char>>, b: Seq<Seq<char>>)
    requires
        a.no_duplicates(),
    ensures
        shared(a, b).no_duplicates(),
    decreases a.len(),
{
    reveal(Seq::filter);
    if a.len() > 0 {
        let front = a.drop_last();
        lemma_shared_distinct(front, b);
        if b.contains(a.last()) {
            let s = shared(a, b);
            assert forall|i: int, j: int| 0 <= i < s.len() && 0 <= j < s.len() && i != j implies s[i]
                != s[j] by {
                if i == s.len() - 1 || j == s.len() - 1 {
                    let other_index = if i == s.len() - 1 {
                        j
                    } else {
                        i
                    };
                    let k = shared(front, b)[other_index];
                    assert(shared(front, b).contains(k));
                    lemma_shared_members(front, b, k);
                    let m = choose|m: int| 0 <= m < front.len() && front[m] == k;
                    assert(a[m] == k);
                }
            }
        }
    }
}

/// Whether `other` is `reference` with entries deleted and the rest kept in
/// order: entry `i` of `other` is the entry of `reference` at `at[i]`, and
/// `at` goes strictly upwards.
pub open spec fn is_selection<T>(other: Seq<T>, reference: Seq<T>, at: Seq<int>) -> bool {
    &&& at.len() == other.len()
    &&& forall|i: int|
        0 <= i < other.len() ==> 0 <= #[trigger] at[i] < reference.len() && other[i]
            == reference[at[i]]
    &&& forall|i: int, j: int| 0 <= i < j < at.len() ==> #[trigger] at[i] < #[trigger] at[j]
}

/// `s` with the entries at `j` and `j + 1` exchanged.
pub open spec fn swapped<T>(s: Seq<T>, j: int) -> Seq<T> {
    s.update(j, s[j + 1]).update(j + 1, s[j])
}

/// A sequence whose keys `b` all has shares all of them with `b`.
pub proof fn lemma_shared_all(a: Seq<Seq<char>>, b: Seq<Seq<char>>)
    requires
        forall|i: int| 0 <= i < a.len() ==> b.contains(#[trigger] a[i]),
    ensures
        shared(a, b) == a,
    decreases a.len(),
{
    reveal(Seq::filter);
    if a.len() > 0 {
        let front = a.drop_last();
        assert forall|i: int| 0 <= i < front.len() implies b.contains(#[trigger] front[i]) by {
            assert(front[i] == a[i]);
        }
        lemma_shared_all(front, b);
        assert(b.contains(a[a.len() - 1]));
        assert(front.push(a.last()) =~= a);
    }
}

/// What `a` shares with `b` depends only on which keys of `a` the sequence
/// `b` has.
pub proof fn lemma_shared_congruent(a: Seq<Seq<char>>, b: Seq<Seq<char>>, c: Seq<Seq<char>>)
    requires
        forall|i: int| 0 <= i < a.len() ==> b.contains(#[trigger] a[i]) == c.contains(a[i]),
    ensures
        shared(a, b) == shared(a, c),
    decreases a.len(),
{
    reveal(Seq::filter);
    if a.len() > 0 {
        let front = a.drop_last();
        assert forall|i: int| 0 <= i < front.len() implies b.contains(#[trigger] front[i])
            == c.contains(front[i]) by {
            assert(front[i] == a[i]);
        }
        lemma_shared_congruent(front, b, c);
        assert(b.contains(a[a.len() - 1]) == c.contains(a[a.len() - 1]));
    }
}

/// A selection of a sequence without repeated keys shares all its keys with
/// it, on both sides in the order of the selection.
pub proof fn lemma_selection_shares_all(
    reference: Seq<Seq<char>>,
    other: Seq<Seq<char>>,
    at: Seq<int>,
)
    requires
        reference.no_duplicates(),
        is_selection(other, reference, at),
    ensures
        shared(other, reference) == other,
        shared(reference, other) == other,
    decreases reference.len(),
{
    assert forall|i: int| 0 <= i < other.len() implies reference.contains(#[trigger] other[i]) by {
        assert(reference[at[i]] == other[i]);
    }
    lemma_shared_all(other, reference);
    reveal(Seq::filter);
    if reference.len() == 0 {
        if other.len() > 0 {
            assert(0 <= at[0] < reference.len());
        }
        assert(other =~= Seq::<Seq<char>>::empty());
    } else {
        let front = reference.drop_last();
        let last = reference.last();
        let top = reference.len() - 1;
        assert(front.no_duplicates());
        if other.len() > 0 && at.last() == top {
            let fewer = other.drop_last();
            let fewer_at = at.drop_last();
            assert(is_selection(fewer, front, fewer_at)) by {
                assert forall|i: int| 0 <= i < fewer.len() implies 0 <= #[trigger] fewer_at[i]
                    < front.len() && fewer[i] == front[fewer_at[i]] by {
                    assert(at[i] < at[at.len() - 1]);
                    assert(other[i] == reference[at[i]]);
                }
            }
            lemma_selection_shares_all(front, fewer, fewer_at);
            assert(other[other.len() - 1] == last);
            assert forall|i: int| 0 <= i < front.len() implies other.contains(#[trigger] front[i])
                == fewer.contains(front[i]) by {
                assert(front[i] == reference[i]);
                assert(reference[i] != reference[top]);
                if other.contains(front[i]) {
                    let k = choose|k: int| 0 <= k < other.len() && other[k] == front[i];
                    assert(fewer[k] == front[i]);
                }
                if fewer.contains(front[i]) {
                    let k = choose|k: int| 0 <= k < fewer.len() && fewer[k] == front[i];
                    assert(other[k] == front[i]);
                }
            }
            lemma_shared_congruent(front, other, fewer);
            assert(fewer.push(last) =~= other);
        } else {
            assert(is_selection(other, front, at)) by {
                assert forall|i: int| 0 <= i < other.len() implies 0 <= #[trigger] at[i]
                    < front.len() && other[i] == front[at[i]] by {
                    if i < at.len() - 1 {
                        assert(at[i] < at[at.len() - 1]);
                    }
                    assert(other[i] == reference[at[i]]);
                }
            }
            lemma_selection_shares_all(front, other, at);
            if other.contains(last) {
                let k = choose|k: int| 0 <= k < other.len() && other[k] == last;
                assert(reference[at[k]] == reference[top]);
            }
        }
    }
}

/// Agreement on the first `n` keys of `other` is agreement on any fewer.
pub proof fn lemma_agreement_monotone(
    reference: Seq<Seq<char>>,
    other: Seq<Seq<char>>,
    m: int,
    n: int,
)
    requires
        0 <= m <= n <= other.len(),
        agrees_up_to(reference, other, n),
    ensures
        agrees_up_to(reference, other, m),
{
    lemma_shared_prefix(other.take(n), reference, m);
    assert(other.take(n).take(m) =~= other.take(m));
}

/// The order of `other` leaves that of `reference` at one position at most.
pub proof fn lemma_divergence_unique(
    reference: Seq<Seq<char>>,
    other: Seq<Seq<char>>,
    p: int,
    q: int,
)
    requires
        diverges_at(reference, other, p),
        diverges_at(reference, other, q),
    ensures
        p == q,
{
    if p < q {
        lemma_agreement_monotone(reference, other, p + 1, q);
    } else if q < p {
        lemma_agreement_monotone(reference, other, q + 1, p);
    }
}

/// Where the shared keys come in the same order on both sides, the order of
/// `other` leaves that of `reference` nowhere.
pub proof fn lemma_same_order_never_diverges(
    reference: Seq<Seq<char>>,
    other: Seq<Seq<char>>,
    p: int,
)
    requires
        shared(other, reference) == shared(reference, other),
    ensures
        !diverges_at(reference, other, p),
{
    if 0 <= p < other.len() {
        lemma_shared_prefix(other, reference, p + 1);
    }
}

/// The order aligner reports no divergence when `other` is `reference` with
/// zero or more entries deleted and the remainder in its order: the shared
/// keys come in the same order on both sides, which is exactly when
/// `find_first_divergence` returns `None`.
pub proof fn lemma_deletion_never_diverges<V>(
    reference: Seq<(Seq<char>, V)>,
    other: Seq<(Seq<char>, V)>,
    at: Seq<int>,
)
    requires
        distinct_keys(reference),
        is_selection(other, reference, at),
    ensures
        shared(keys_of(other), keys_of(reference)) == shared(keys_of(reference), keys_of(other)),
        forall|p: int| !diverges_at(keys_of(reference), keys_of(other), p),
{
    let rk = keys_of(reference);
    let ok = keys_of(other);
    assert(is_selection(ok, rk, at)) by {
        assert forall|i: int| 0 <= i < ok.len() implies 0 <= #[trigger] at[i] < rk.len() && ok[i]
            == rk[at[i]] by {
            assert(other[i] == reference[at[i]]);
        }
    }
    lemma_selection_shares_all(rk, ok, at);
    assert forall|p: int| !diverges_at(rk, ok, p) by {
        lemma_same_order_never_diverges(rk, ok, p);
    }
}

/// The order aligner reports the first of two exchanged entries. Where the
/// keys that `other` shares with `reference` are those that `reference`
/// shares with `other` with two adjacent ones exchanged, ranks `j` and
/// `j + 1`, the order of `other` leaves that of `reference` at the position
/// `p` of the key that was moved forward, and nowhere else: that position,
/// counted from 1, is what `find_first_divergence` returns.
pub proof fn lemma_adjacent_swap_diverges(
    reference: Seq<Seq<char>>,
    other: Seq<Seq<char>>,
    j: int,
    p: int,
)
    requires
        reference.no_duplicates(),
        other.no_duplicates(),
        0 <= j,
        j + 1 < shared(reference, other).len(),
        shared(other, reference) == swapped(shared(reference, other), j),
        0 <= p < other.len(),
        other[p] == shared(reference, other)[j + 1],
    ensures
        diverges_at(reference, other, p),
        shared(other, reference) != shared(reference, other),
        forall|q: int| diverges_at(reference, other, q) ==> q == p,
{
    let theirs = shared(reference, other);
    let mine = shared(other, reference);
    lemma_shared_distinct(reference, other);
    lemma_shared_distinct(other, reference);
    assert(theirs.contains(theirs[j + 1]));
    lemma_shared_members(reference, other, other[p]);
    lemma_shared_prefix(other, reference, p);
    lemma_shared_step(other, reference, p);
    let before = shared(other.take(p), reference);
    let n = before.len() as int;
    assert(mine[n] == other[p]);
    assert(mine[j] == theirs[j + 1]);
    assert(n == j);
    assert(before.is_prefix_of(theirs)) by {
        assert forall|i: int| 0 <= i < before.len() implies before[i] == theirs[i] by {
            assert(before[i] == mine[i]);
        }
    }
    let after = shared(other.take(p + 1), reference);
    assert(after[j] == other[p]);
    assert(theirs[j] != theirs[j + 1]);
    assert(mine[j] != theirs[j]);
    assert forall|q: int| diverges_at(reference, other, q) implies q == p by {
        lemma_divergence_unique(reference, other, p, q);
    }
}

/// The order aligner. Walks `other` in its own order with a cursor into
/// `reference`; entries that the other side lacks are invisible on both
/// sides. Returns the position in `other`, counted from 1, and the item of
/// the first entry that is not the next shared entry of `reference`, or
/// `None` when the shared entries come in the same order.
pub fn find_first_divergence<'a, V>(reference: &OrderedMap<V>, other: &'a OrderedMap<V>) -> (r:
    Option<(usize, &'a V)>)
    ensures
        r is None <==> shared(keys_of(other@), keys_of(reference@)) == shared(
            keys_of(reference@),
            keys_of(other@),
        ),
        match r {
            Some((position, item)) => position >= 1 && diverges_at(
                keys_of(reference@),
                keys_of(other@),
                position - 1,
            ) && *item == other@[position - 1].1,
            None => true,
        },
{
    let ghost rk = keys_of(reference@);
    let ghost ok = keys_of(other@);
    let n = other.len();
    let m = reference.len();
    proof {
        reference.lemma_distinct();
        other.lemma_distinct();
        assert(rk.no_duplicates());
        assert(ok.no_duplicates());
    }
    let mut cursor: usize = 0;
    let mut i: usize = 0;
    proof {
        reveal(Seq::filter);
        assert(ok.take(0) =~= Seq::<Seq<char>>::empty());
        assert(rk.take(0) =~= Seq::<Seq<char>>::empty());
    }
    while i < n
        invariant
            rk == keys_of(reference@),
            ok == keys_of(other@),
            n == ok.len(),
            m == rk.len(),
            rk.no_duplicates(),
            ok.no_duplicates(),
            i <= n,
            cursor <= m,
            shared(ok.take(i as int), rk) == shared(rk.take(cursor as int), ok),
        decreases n - i,
    {
        match other.get_index(i) {
            Some((key, item)) => {
                proof {
                    lemma_shared_step(ok, rk, i as int);
                    assert(ok[i as int] == key@);
                }
                if reference.contains_key(key.as_str()) {
                    assert(rk.contains(key@)) by {
                        let j = choose|j: int|
                            0 <= j < reference@.len() && (#[trigger] reference@[j]).0 == key@;
                        assert(rk[j] == key@);
                    }
                    while cursor < m && !other.contains_key(key_at(reference, cursor).as_str())
                        invariant
                            rk == keys_of(reference@),
                            ok == keys_of(other@),
                            m == rk.len(),
                            cursor <= m,
                            shared(ok.take(i as int), rk) == shared(rk.take(cursor as int), ok),
                        decreases m - cursor,
                    {
                        proof {
                            lemma_shared_step(rk, ok, cursor as int);
                            if ok.contains(rk[cursor as int]) {
                                let j = choose|j: int|
                                    0 <= j < ok.len() && ok[j] == rk[cursor as int];
                                assert(other@[j].0 == rk[cursor as int]);
                            }
                        }
                        cursor = cursor + 1;
                    }
                    proof {
                        lemma_shared_prefix(ok, rk, i as int);
                        lemma_shared_prefix(rk, ok, cursor as int);
                    }
                    if cursor >= m {
                        proof {
                            // The cursor cannot run out while `other` still has
                            // a shared key: that key would occur in it twice.
                            assert(rk.take(cursor as int) =~= rk);
                            lemma_shared_members(rk, ok, key@);
                            lemma_shared_members(ok.take(i as int), rk, key@);
                            assert(ok.contains(key@));
                            let j = choose|j: int|
                                0 <= j < ok.take(i as int).len() && ok.take(i as int)[j] == key@;
                            assert(ok[j] == key@);
                            assert(false);
                        }
                        return None;
                    }
                    let expected = key_at(reference, cursor);
                    proof {
                        assert(ok.contains(rk[cursor as int])) by {
                            let j = choose|j: int|
                                0 <= j < other@.len() && (#[trigger] other@[j]).0
                                    == rk[cursor as int];
                            assert(ok[j] == rk[cursor as int]);
                        }
                        lemma_shared_step(rk, ok, cursor as int);
                    }
                    if *key != *expected {
                        proof {
                            let agreed = shared(ok.take(i as int), rk);
                            let next = shared(ok.take(i as int + 1), rk);
                            assert(next[agreed.len() as int] == key@);
                            if next.is_prefix_of(shared(rk, ok)) {
                                assert(shared(rk, ok)[agreed.len() as int] == next[agreed.len() as int]);
                            }
                            if shared(ok, rk) == shared(rk, ok) {
                                lemma_shared_prefix(ok, rk, i as int + 1);
                            }
                        }
                        return Some((i + 1, item));
                    }
                    cursor = cursor + 1;
                }
            },
            None => {
                return None;
            },
        }
        i = i + 1;
    }
    proof {
        lemma_shared_prefix(rk, ok, cursor as int);
        assert(ok.take(i as int) =~= ok);
        lemma_agreement_is_equality(rk, ok);
    }
    None
}

/// The key at position `i`.
fn key_at<V>(map: &OrderedMap<V>, i: usize) -> (key: &String)
    requires
        i < map@.len(),
    ensures
        key@ == map@[i as int].0,
{
    map.get_index(i).unwrap().0
}

} // verus!
