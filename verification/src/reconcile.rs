//! The set reconciler: which entries of one source the other source lacks,
//! optionally tolerating identifiers that are prefix variants of each other.

use crate::ordered_map::{distinct_keys, keys_of, lemma_position_of, position_of, OrderedMap};
use crate::ordering::{key_lt, lemma_key_asymmetric, lemma_key_irreflexive, Entity};
use crate::presentation::{
    comes_before, in_presentation_order, increasing, positions_within, sort_key_at,
};
use crate::sorting::sort_positions;
use crate::text::starts_with;
use vstd::prelude::*;
use vstd::seq_lib::to_multiset_contains;

verus! {

/// How an identifier of the present source may be matched in the reference.
#[derive(Debug, Clone, Copy)]
pub enum Tolerance {
    /// Only by an equal identifier.
    Exact,
    /// Also by a reference identifier that is a prefix of it.
    ReferencePrefix,
    /// Also by a reference identifier that it is a prefix of.
    KeyPrefix,
}

/// Whether `key` counts as present among the `reference` identifiers.
pub open spec fn covered(key: Seq<char>, reference: Seq<Seq<char>>, tolerance: Tolerance) -> bool {
    reference.contains(key) || match tolerance {
        Tolerance::Exact => false,
        Tolerance::ReferencePrefix => exists|j: int|
            0 <= j < reference.len() && (#[trigger] reference[j]).is_prefix_of(key),
        Tolerance::KeyPrefix => exists|j: int|
            0 <= j < reference.len() && key.is_prefix_of(#[trigger] reference[j]),
    }
}

/// Whether `key` matches the reference identifier `candidate` as a prefix
/// variant under `tolerance`.
pub open spec fn prefix_match(key: Seq<char>, candidate: Seq<char>, tolerance: Tolerance) -> bool {
    match tolerance {
        Tolerance::Exact => false,
        Tolerance::ReferencePrefix => candidate.is_prefix_of(key),
        Tolerance::KeyPrefix => key.is_prefix_of(candidate),
    }
}

/// Decides whether `key` counts as present in `reference`.
pub fn is_covered<V>(key: &str, reference: &OrderedMap<V>, tolerance: Tolerance) -> (r: bool)
    ensures
        r == covered(key@, keys_of(reference@), tolerance),
{
    let ghost rk = keys_of(reference@);
    if reference.contains_key(key) {
        proof {
            let j = choose|j: int|
                0 <= j < reference@.len() && (#[trigger] reference@[j]).0 == key@;
            assert(rk[j] == key@);
        }
        return true;
    }
    proof {
        if rk.contains(key@) {
            let j = choose|j: int| 0 <= j < rk.len() && rk[j] == key@;
            assert(reference@[j].0 == key@);
        }
    }
    if let Tolerance::Exact = tolerance {
        return false;
    }
    let n = reference.len();
    let mut j: usize = 0;
    while j < n
        invariant
            rk == keys_of(reference@),
            n == rk.len(),
            j <= n,
            !(tolerance is Exact),
            forall|k: int| 0 <= k < j ==> !prefix_match(key@, #[trigger] rk[k], tolerance),
        decreases n - j,
    {
        let candidate = reference.get_index(j).unwrap().0;
        let hit = match tolerance {
            Tolerance::Exact => false,
            Tolerance::ReferencePrefix => starts_with(key, candidate.as_str()),
            Tolerance::KeyPrefix => starts_with(candidate.as_str(), key),
        };
        if hit {
            assert(prefix_match(key@, rk[j as int], tolerance));
            return true;
        }
        j = j + 1;
    }
    false
}

/// Whether `order` lists exactly the positions of `present` whose identifiers
/// the reference does not cover, in presentation order.
pub open spec fn is_missing_order<V: Entity>(
    order: Seq<usize>,
    present: Seq<(Seq<char>, V)>,
    reference: Seq<Seq<char>>,
    tolerance: Tolerance,
) -> bool {
    &&& positions_within(order, present.len())
    &&& forall|p: usize|
        p < present.len() ==> (#[trigger] order.contains(p) <==> !covered(
            present[p as int].0,
            reference,
            tolerance,
        ))
    &&& in_presentation_order(present, order)
}

/// Whether `report` gives the entries of `present` at the positions `order`,
/// in that order.
pub open spec fn reports<V>(
    report: Seq<(Seq<char>, V)>,
    present: Seq<(Seq<char>, V)>,
    order: Seq<usize>,
) -> bool {
    &&& report.len() == order.len()
    &&& forall|i: int| 0 <= i < order.len() ==> #[trigger] report[i] == present[order[i] as int]
}

/// Whether `report` is what the set reconciler owes for `present` against
/// `reference`: the entries of `present` that the reference does not cover,
/// each once, sorted by the entity ordering, entries of equal sort key in the
/// order of `present`.
pub open spec fn is_missing_report<V: Entity>(
    report: Seq<(Seq<char>, V)>,
    present: Seq<(Seq<char>, V)>,
    reference: Seq<Seq<char>>,
    tolerance: Tolerance,
) -> bool {
    exists|order: Seq<usize>| #[trigger]
        is_missing_order(order, present, reference, tolerance) && reports(report, present, order)
}

/// The entries that a list of borrowed pairs stands for.
pub open spec fn report_entries<V>(out: Seq<(&String, &V)>) -> Seq<(Seq<char>, V)> {
    Seq::new(out.len(), |i: int| (out[i].0@, *out[i].1))
}

/// Whether the entities of `report` are in ascending order of their sort
/// keys.
pub open spec fn sorted_by_key<V: Entity>(report: Seq<(Seq<char>, V)>) -> bool {
    forall|i: int, j: int|
        0 <= i < j < report.len() ==> !key_lt(
            (#[trigger] report[j]).1.sort_key(),
            (#[trigger] report[i]).1.sort_key(),
        )
}

/// Whether entries of `report` with equal sort keys stand in the order in
/// which `present` has them.
pub open spec fn ties_keep_order<V: Entity>(
    report: Seq<(Seq<char>, V)>,
    present: Seq<(Seq<char>, V)>,
) -> bool {
    forall|i: int, j: int|
        0 <= i < j < report.len() && !key_lt(
            (#[trigger] report[i]).1.sort_key(),
            (#[trigger] report[j]).1.sort_key(),
        ) ==> position_of(present, report[i].0) < position_of(present, report[j].0)
}

/// Whether `report` names the identifier `key`.
pub open spec fn names<V>(report: Seq<(Seq<char>, V)>, key: Seq<char>) -> bool {
    keys_of(report).contains(key)
}

/// The positions of the entries of `present` that `reference` does not
/// cover, ascending.
fn uncovered_positions<V>(
    present: &OrderedMap<V>,
    reference: &OrderedMap<V>,
    tolerance: Tolerance,
) -> (positions: Vec<usize>)
    ensures
        present@.len() <= usize::MAX,
        positions_within(positions@, present@.len()),
        increasing(positions@),
        forall|p: usize|
            p < present@.len() ==> (#[trigger] positions@.contains(p) <==> !covered(
                present@[p as int].0,
                keys_of(reference@),
                tolerance,
            )),
{
    let n = present.len();
    let mut positions: Vec<usize> = Vec::new();
    let mut i: usize = 0;
    while i < n
        invariant
            n == present@.len(),
            i <= n,
            positions_within(positions@, i as nat),
            increasing(positions@),
            forall|p: usize|
                p < i ==> (#[trigger] positions@.contains(p) <==> !covered(
                    present@[p as int].0,
                    keys_of(reference@),
                    tolerance,
                )),
        decreases n - i,
    {
        let key = present.get_index(i).unwrap().0;
        let ghost before = positions@;
        if !is_covered(key.as_str(), reference, tolerance) {
            positions.push(i);
            proof {
                assert(positions@[before.len() as int] == i);
                assert forall|p: usize| p < i implies (#[trigger] positions@.contains(p)
                    <==> before.contains(p)) by {
                    if before.contains(p) {
                        let k = choose|k: int| 0 <= k < before.len() && before[k] == p;
                        assert(positions@[k] == p);
                    }
                    if positions@.contains(p) {
                        let k = choose|k: int| 0 <= k < positions@.len() && positions@[k] == p;
                        assert(before[k] == p);
                    }
                }
            }
        } else {
            proof {
                if positions@.contains(i) {
                    let k = choose|k: int| 0 <= k < positions@.len() && positions@[k] == i;
                    assert(positions@[k] < i);
                }
            }
        }
        i = i + 1;
    }
    positions
}

/// The set reconciler with an explicit matching direction: the entries of
/// `present` that `reference` does not cover under `tolerance`, sorted by the
/// entity ordering.
pub fn missing_with<'a, V: Entity>(
    present: &'a OrderedMap<V>,
    reference: &OrderedMap<V>,
    tolerance: Tolerance,
) -> (out: Vec<(&'a String, &'a V)>)
    ensures
        is_missing_report(report_entries(out@), present@, keys_of(reference@), tolerance),
        sorted_by_key(report_entries(out@)),
        ties_keep_order(report_entries(out@), present@),
        forall|p: int|
            0 <= p < present@.len() ==> (names(report_entries(out@), #[trigger] present@[p].0)
                <==> !covered(present@[p].0, keys_of(reference@), tolerance)),
{
    let mut positions = uncovered_positions(present, reference, tolerance);
    let ghost given = positions@;
    sort_positions(present, &mut positions);
    proof {
        assert forall|p: usize| #[trigger] positions@.contains(p) <==> given.contains(p) by {
            to_multiset_contains(positions@, p);
            to_multiset_contains(given, p);
        }
        assert forall|i: int| 0 <= i < positions@.len() implies (#[trigger] positions@[i])
            < present@.len() by {
            assert(positions@.contains(positions@[i]));
            let k = choose|k: int| 0 <= k < given.len() && given[k] == positions@[i];
        }
    }
    let count = positions.len();
    let mut out: Vec<(&'a String, &'a V)> = Vec::new();
    let mut i: usize = 0;
    while i < count
        invariant
            count == positions@.len(),
            i <= count,
            positions_within(positions@, present@.len()),
            out@.len() == i,
            forall|k: int|
                0 <= k < i ==> (#[trigger] report_entries(out@)[k]) == present@[positions@[k] as int],
        decreases count - i,
    {
        let found = present.get_index(positions[i]).unwrap();
        let ghost before = report_entries(out@);
        out.push((found.0, found.1));
        proof {
            assert forall|k: int| 0 <= k < i + 1 implies (#[trigger] report_entries(out@)[k])
                == present@[positions@[k] as int] by {
                if k < i {
                    assert(report_entries(out@)[k] == before[k]);
                }
            }
        }
        i = i + 1;
    }
    proof {
        let report = report_entries(out@);
        assert(reports(report, present@, positions@));
        assert(is_missing_order(positions@, present@, keys_of(reference@), tolerance));
        use_type_invariant(present);
        present.lemma_distinct();
        lemma_missing_report(report, present@, keys_of(reference@), tolerance);
    }
    out
}

/// The matching that the flag of `missing` selects.
pub open spec fn tolerance_of(prefix_tolerant: bool) -> Tolerance {
    if prefix_tolerant {
        Tolerance::ReferencePrefix
    } else {
        Tolerance::Exact
    }
}

/// The set reconciler: the entries of `present` whose identifier `reference`
/// lacks, sorted by the entity ordering. With `prefix_tolerant` set, an
/// identifier also counts as present where some reference identifier is a
/// prefix of it.
pub fn missing<'a, V: Entity>(
    present: &'a OrderedMap<V>,
    reference: &OrderedMap<V>,
    prefix_tolerant: bool,
) -> (out: Vec<(&'a String, &'a V)>)
    ensures
        is_missing_report(
            report_entries(out@),
            present@,
            keys_of(reference@),
            tolerance_of(prefix_tolerant),
        ),
        sorted_by_key(report_entries(out@)),
        ties_keep_order(report_entries(out@), present@),
        !prefix_tolerant ==> forall|p: int|
            0 <= p < present@.len() ==> (names(report_entries(out@), #[trigger] present@[p].0)
                <==> !keys_of(reference@).contains(present@[p].0)),
        prefix_tolerant ==> forall|p: int|
            0 <= p < present@.len() ==> (names(report_entries(out@), #[trigger] present@[p].0)
                <==> !exists|j: int|
                0 <= j < reference@.len() && (#[trigger] keys_of(reference@)[j]).is_prefix_of(
                    present@[p].0,
                )),
{
    if prefix_tolerant {
        let out = missing_with(present, reference, Tolerance::ReferencePrefix);
        proof {
            let rk = keys_of(reference@);
            assert forall|p: int| 0 <= p < present@.len() implies (covered(
                #[trigger] present@[p].0,
                rk,
                Tolerance::ReferencePrefix,
            ) <==> exists|j: int|
                0 <= j < reference@.len() && (#[trigger] rk[j]).is_prefix_of(present@[p].0)) by {
                let k = present@[p].0;
                if rk.contains(k) {
                    let j = choose|j: int| 0 <= j < rk.len() && rk[j] == k;
                    assert(rk[j].is_prefix_of(k));
                }
            }
        }
        out
    } else {
        missing_with(present, reference, Tolerance::Exact)
    }
}

/// A report of the set reconciler is sorted by the entity ordering, keeps
/// entries of equal sort key in the order of `present`, and names an
/// identifier of `present` exactly when the reference does not cover it.
pub proof fn lemma_missing_report<V: Entity>(
    report: Seq<(Seq<char>, V)>,
    present: Seq<(Seq<char>, V)>,
    reference: Seq<Seq<char>>,
    tolerance: Tolerance,
)
    requires
        distinct_keys(present),
        present.len() <= usize::MAX,
        is_missing_report(report, present, reference, tolerance),
    ensures
        sorted_by_key(report),
        ties_keep_order(report, present),
        forall|p: int|
            0 <= p < present.len() ==> (names(report, #[trigger] present[p].0) <==> !covered(
                present[p].0,
                reference,
                tolerance,
            )),
{
    let order = choose|order: Seq<usize>| #[trigger]
        is_missing_order(order, present, reference, tolerance) && reports(report, present, order);
    assert forall|i: int, j: int|
        0 <= i < j < report.len() && !key_lt(
            (#[trigger] report[i]).1.sort_key(),
            (#[trigger] report[j]).1.sort_key(),
        ) implies position_of(present, report[i].0) < position_of(present, report[j].0) by {
        assert(comes_before(present, order[i] as int, order[j] as int));
        lemma_position_of(present, order[i] as int);
        lemma_position_of(present, order[j] as int);
    }
    assert forall|i: int, j: int| 0 <= i < j < report.len() implies !key_lt(
        (#[trigger] report[j]).1.sort_key(),
        (#[trigger] report[i]).1.sort_key(),
    ) by {
        assert(comes_before(present, order[i] as int, order[j] as int));
        if key_lt(sort_key_at(present, order[i] as int), sort_key_at(present, order[j] as int)) {
            lemma_key_asymmetric(
                sort_key_at(present, order[i] as int),
                sort_key_at(present, order[j] as int),
            );
        }
    }
    assert forall|p: int| 0 <= p < present.len() implies (names(report, #[trigger] present[p].0)
        <==> !covered(present[p].0, reference, tolerance)) by {
        let q = p as usize;
        if order.contains(q) {
            let i = choose|i: int| 0 <= i < order.len() && order[i] == q;
            assert(report[i] == present[p]);
            assert(keys_of(report)[i] == present[p].0);
        }
        if keys_of(report).contains(present[p].0) {
            let i = choose|i: int|
                0 <= i < keys_of(report).len() && keys_of(report)[i] == present[p].0;
            assert(report[i] == present[order[i] as int]);
            assert(order[i] as int == p);
            assert(order.contains(q));
        }
    }
}

/// Positions in presentation order are never listed twice and never both
/// ways round.
pub proof fn lemma_comes_before_asymmetric<V: Entity>(
    entries: Seq<(Seq<char>, V)>,
    p: int,
    q: int,
)
    requires
        comes_before(entries, p, q),
    ensures
        !comes_before(entries, q, p),
        p != q,
{
    lemma_key_irreflexive(sort_key_at(entries, p));
    if key_lt(sort_key_at(entries, p), sort_key_at(entries, q)) {
        lemma_key_asymmetric(sort_key_at(entries, p), sort_key_at(entries, q));
    }
}

/// A set of positions has one presentation order: two lists in presentation
/// order that hold the same positions are the same list.
pub proof fn lemma_presentation_order_unique<V: Entity>(
    entries: Seq<(Seq<char>, V)>,
    a: Seq<usize>,
    b: Seq<usize>,
)
    requires
        in_presentation_order(entries, a),
        in_presentation_order(entries, b),
        forall|p: usize| a.contains(p) == b.contains(p),
    ensures
        a == b,
    decreases a.len(),
{
    if a.len() == 0 {
        if b.len() > 0 {
            assert(b.contains(b[0]));
            assert(a.contains(b[0]));
        }
        assert(a =~= b);
    } else {
        let top = a[a.len() - 1];
        assert(a.contains(top));
        assert(b.contains(top));
        let other_top = b[b.len() - 1];
        assert(b.contains(other_top));
        assert(a.contains(other_top));
        let k = choose|k: int| 0 <= k < b.len() && b[k] == top;
        let m = choose|m: int| 0 <= m < a.len() && a[m] == other_top;
        if top != other_top {
            assert(comes_before(entries, b[k] as int, b[b.len() - 1] as int));
            assert(comes_before(entries, a[m] as int, a[a.len() - 1] as int));
            lemma_comes_before_asymmetric(entries, top as int, other_top as int);
        }
        let fewer_a = a.drop_last();
        let fewer_b = b.drop_last();
        assert forall|p: usize| fewer_a.contains(p) == fewer_b.contains(p) by {
            if fewer_a.contains(p) {
                let i = choose|i: int| 0 <= i < fewer_a.len() && fewer_a[i] == p;
                assert(comes_before(entries, a[i] as int, a[a.len() - 1] as int));
                lemma_comes_before_asymmetric(entries, p as int, top as int);
                assert(a[i] == p);
                assert(a.contains(p));
                let j = choose|j: int| 0 <= j < b.len() && b[j] == p;
                assert(fewer_b[j] == p);
            }
            if fewer_b.contains(p) {
                let i = choose|i: int| 0 <= i < fewer_b.len() && fewer_b[i] == p;
                assert(comes_before(entries, b[i] as int, b[b.len() - 1] as int));
                lemma_comes_before_asymmetric(entries, p as int, top as int);
                assert(b[i] == p);
                assert(b.contains(p));
                let j = choose|j: int| 0 <= j < a.len() && a[j] == p;
                assert(fewer_a[j] == p);
            }
        }
        assert(in_presentation_order(entries, fewer_a)) by {
            assert forall|i: int, j: int| 0 <= i < j < fewer_a.len() implies comes_before(
                entries,
                (#[trigger] fewer_a[i]) as int,
                (#[trigger] fewer_a[j]) as int,
            ) by {
                assert(comes_before(entries, a[i] as int, a[j] as int));
            }
        }
        assert(in_presentation_order(entries, fewer_b)) by {
            assert forall|i: int, j: int| 0 <= i < j < fewer_b.len() implies comes_before(
                entries,
                (#[trigger] fewer_b[i]) as int,
                (#[trigger] fewer_b[j]) as int,
            ) by {
                assert(comes_before(entries, b[i] as int, b[j] as int));
            }
        }
        lemma_presentation_order_unique(entries, fewer_a, fewer_b);
        assert(a =~= fewer_a.push(top));
        assert(b =~= fewer_b.push(other_top));
    }
}

/// The set reconciler owes one report: two reports for the same mappings
/// under the same tolerance are equal, entry by entry.
pub proof fn lemma_missing_report_unique<V: Entity>(
    first: Seq<(Seq<char>, V)>,
    second: Seq<(Seq<char>, V)>,
    present: Seq<(Seq<char>, V)>,
    reference: Seq<Seq<char>>,
    tolerance: Tolerance,
)
    requires
        is_missing_report(first, present, reference, tolerance),
        is_missing_report(second, present, reference, tolerance),
    ensures
        first == second,
{
    let a = choose|order: Seq<usize>| #[trigger]
        is_missing_order(order, present, reference, tolerance) && reports(first, present, order);
    let b = choose|order: Seq<usize>| #[trigger]
        is_missing_order(order, present, reference, tolerance) && reports(second, present, order);
    assert forall|p: usize| a.contains(p) == b.contains(p) by {
        if a.contains(p) {
            let i = choose|i: int| 0 <= i < a.len() && a[i] == p;
            assert(a[i] < present.len());
        }
        if b.contains(p) {
            let i = choose|i: int| 0 <= i < b.len() && b[i] == p;
            assert(b[i] < present.len());
        }
    }
    lemma_presentation_order_unique(present, a, b);
    assert(first =~= second);
}

} // verus!
