//! What holds of the derivation and of the queries, whatever the input.

use crate::config::Sort;
use crate::cube::cube;
use crate::input::{derived, derived_all, value_at, Multiplying, Profiles, Sheet};
use crate::ordered::{distinct, has_key};
use crate::output::{
    absorbed_as, admitted, inhabited, merged, merged_rows, merged_step, rows_model, selected,
    sifted, table_distinct, table_model, Renaming, Rows, Summing, Table,
};
use crate::seqs::{first_occurrences, lemma_filter_keeps, lemma_filter_member};
use crate::sorting::{lemma_tags_order, peers, row_le, stably_sorted, tags_order};
use crate::specie::Specie;
use crate::tag::{
    ascending, lemma_tag_lt_irreflexive, lemma_tag_lt_transitive, same_members, tag_lt, tag_matches,
    tags_lt, PatternSpec, Tags, TagSpec,
};
use crate::reconcile::{
    implied_sn123, implied_sn13, implied_sn2, sn123_via, sn13_via, sn2_via, THREE, TWO,
};
use crate::value::{Arithmetic, Bound, Operation, Value};
use vstd::prelude::*;

verus! {

/// The rows derived from `n` fatty acids are `n³` rows.
pub proof fn lemma_derived_cardinality(multiplies: Multiplying, profiles: Profiles, rows: Rows)
    requires
        derived(multiplies, profiles, rows),
    ensures
        rows.len() == profiles.len() * profiles.len() * profiles.len(),
{
}

/// A derived composition has, for each species, as many rows as there are
/// ordered triples of its fatty acids.
pub proof fn lemma_derived_all_cardinality(
    multiplies: Multiplying,
    sheet: Sheet,
    table: Table,
    i: int,
)
    requires
        derived_all(multiplies, sheet, table),
        0 <= i < sheet.len(),
    ensures
        table[i].1.len() == cube(sheet[i].1.len() as int),
{
}

/// The derivation reads the names of the fatty acids and their percentages
/// at sn-1,3 and at sn-2, and nothing else: fatty acids that agree in these
/// have the same rows, whatever else their profiles hold or lack.
pub proof fn lemma_derived_reads_two_percentages(
    multiplies: Multiplying,
    profiles: Profiles,
    others: Profiles,
    rows: Rows,
)
    requires
        derived(multiplies, profiles, rows),
        others.len() == profiles.len(),
        forall|j: int|
            0 <= j < profiles.len() ==> {
                &&& (#[trigger] others[j]).0@ == profiles[j].0@
                &&& value_at(others[j].1, 0) == value_at(profiles[j].1, 0)
                &&& value_at(others[j].1, 1) == value_at(profiles[j].1, 1)
            },
    ensures
        derived(multiplies, others, rows),
{
    let n = profiles.len() as int;
    assert forall|t: int| 0 <= t < rows.len() implies {
        &&& (#[trigger] rows[t]).0@ == seq![crate::input::candidate(others, t)]
        &&& crate::input::abundance(
            multiplies,
            value_at(others[crate::cube::first(t, n)].1, 0),
            value_at(others[crate::cube::second(t, n)].1, 1),
            value_at(others[crate::cube::third(t, n)].1, 0),
            rows[t].1,
        )
    } by {
        crate::cube::lemma_triple_bounds(t, n);
    }
}

/// The species has the row in the composition.
pub open spec fn holds(table: Table, specie: Specie, row: (Tags, Value)) -> bool {
    exists|i: int, k: int|
        0 <= i < table.len() && 0 <= k < table[i].1.len() && (#[trigger] table[i]).0 == specie
            && #[trigger] table[i].1[k] == row
}

/// A selection holds the rows of the composition of which the predicate
/// holds, and no others.
pub proof fn lemma_selected_holds(
    table: Table,
    pred: spec_fn((Tags, Value)) -> bool,
    specie: Specie,
    row: (Tags, Value),
)
    ensures
        holds(selected(table, pred), specie, row) <==> holds(table, specie, row) && pred(row),
{
    let mid = sifted(table, pred);
    let out = selected(table, pred);
    if holds(out, specie, row) {
        let (i, k) = choose|i: int, k: int|
            0 <= i < out.len() && 0 <= k < out[i].1.len() && (#[trigger] out[i]).0 == specie
                && #[trigger] out[i].1[k] == row;
        lemma_filter_member(mid, inhabited(), i);
        let m = choose|m: int| 0 <= m < mid.len() && mid[m] == out[i];
        assert(mid[m].1 == table[m].1.filter(pred));
        lemma_filter_member(table[m].1, pred, k);
        let l = choose|l: int| 0 <= l < table[m].1.len() && table[m].1[l] == row;
        assert(table[m].0 == specie && table[m].1[l] == row);
    }
    if holds(table, specie, row) && pred(row) {
        let (i, k) = choose|i: int, k: int|
            0 <= i < table.len() && 0 <= k < table[i].1.len() && (#[trigger] table[i]).0 == specie
                && #[trigger] table[i].1[k] == row;
        lemma_filter_keeps(table[i].1, pred, k);
        let kept = table[i].1.filter(pred);
        let l = choose|l: int| 0 <= l < kept.len() && kept[l] == row;
        assert(mid[i] == (specie, kept));
        assert(inhabited()(mid[i]));
        lemma_filter_keeps(mid, inhabited(), i);
        let m = choose|m: int| 0 <= m < out.len() && out[m] == mid[i];
        assert(out[m].0 == specie && out[m].1[l] == row);
    }
}

/// Raising an inclusive threshold loses rows and gains none: where `x >= y`,
/// every row that the threshold `x` lets through the threshold `y` lets
/// through as well.
pub proof fn lemma_bound_monotone(table: Table, x: Value, y: Value, specie: Specie, row: (Tags, Value))
    requires
        x.spec_ge(y),
        holds(selected(table, admitted(Bound::Included(x))), specie, row),
    ensures
        holds(selected(table, admitted(Bound::Included(y))), specie, row),
{
    lemma_selected_holds(table, admitted(Bound::Included(x)), specie, row);
    lemma_selected_holds(table, admitted(Bound::Included(y)), specie, row);
}

/// An exclusive threshold lets no row through whose quantity equals it.
pub proof fn lemma_bound_excludes(table: Table, x: Value, specie: Specie, row: (Tags, Value))
    requires
        holds(selected(table, admitted(Bound::Excluded(x))), specie, row),
    ensures
        !row.1.spec_equals(x),
        row.1.spec_gt(x),
{
    lemma_selected_holds(table, admitted(Bound::Excluded(x)), specie, row);
}

/// The renaming gives back the set that it was given.
pub open spec fn keeps_sets(renames: Renaming) -> bool {
    forall|from: Tags, to: Tags| #[trigger] renames(from, to) ==> to@ == from@
}

/// Renaming every set to itself merges nothing: the rows hold what they
/// held.
pub proof fn lemma_identity_rows(renames: Renaming, sums: Summing, rows: Rows, out: Rows)
    requires
        keeps_sets(renames),
        distinct(rows),
        merged_rows(renames, sums, rows, out),
    ensures
        rows_model(out) == rows_model(rows),
    decreases rows.len(),
{
    if rows.len() == 0 {
        assert(rows_model(out) =~= rows_model(rows));
    } else {
        let (so_far, key) = choose|so_far: Rows, key: Tags|
            merged_rows(renames, sums, rows.drop_last(), so_far) && #[trigger] merged_step(
                renames,
                sums,
                rows,
                so_far,
                key,
                out,
            );
        let rest = rows.drop_last();
        assert(distinct(rest)) by {
            assert forall|i: int, j: int| 0 <= i < j < rest.len() implies (#[trigger] rest[i]).0@ != (
            #[trigger] rest[j]).0@ by {
                assert(rows[i].0@ != rows[j].0@);
            }
        }
        lemma_identity_rows(renames, sums, rest, so_far);
        assert(key@ == rows.last().0@);
        assert(rows_model(so_far).len() == so_far.len());
        assert(rows_model(rest).len() == rest.len());
        assert(!has_key(so_far, key@)) by {
            if has_key(so_far, key@) {
                let m = choose|m: int| 0 <= m < so_far.len() && (#[trigger] so_far[m]).0@ == key@;
                assert(rows_model(so_far)[m] == rows_model(rest)[m]);
                assert(rows_model(so_far)[m].0 == so_far[m].0@);
                assert(rows_model(rest)[m].0 == rest[m].0@);
                assert(rows[m].0@ != rows[rows.len() - 1].0@);
            }
        }
        let quantity = choose|quantity: Value|
            absorbed_as(sums, so_far, key, rows.last().1, quantity, out);
        assert(out == so_far.push((key, rows.last().1)));
        assert(rows_model(out) =~= rows_model(so_far).push((key@, rows.last().1)));
        assert(rows =~= rest.push(rows.last()));
        assert(rows_model(rows) =~= rows_model(rest).push((rows.last().0@, rows.last().1)));
    }
}

/// Renaming every set to itself yields a composition that holds what the
/// composition held before: the same species, sets and quantities in the
/// same order, nothing counted twice and nothing lost.
pub proof fn lemma_map_identity(renames: Renaming, sums: Summing, table: Table, out: Table)
    requires
        keeps_sets(renames),
        table_distinct(table),
        merged(renames, sums, table, out),
    ensures
        table_model(out) == table_model(table),
{
    assert forall|i: int| 0 <= i < table.len() implies table_model(out)[i] == table_model(
        table,
    )[i] by {
        lemma_identity_rows(renames, sums, table[i].1, out[i].1);
    }
    assert(table_model(out) =~= table_model(table));
}

/// The pattern that names no fatty acid matches every triacylglycerol.
pub proof fn lemma_pattern_wildcard(tag: TagSpec)
    ensures
        tag_matches(tag, (None, None, None)),
{
}

/// A pattern that names a fatty acid at every position matches that one
/// triacylglycerol alone.
pub proof fn lemma_pattern_full(tag: TagSpec, a: Seq<char>, b: Seq<char>, c: Seq<char>)
    ensures
        tag_matches(tag, (Some(a), Some(b), Some(c))) <==> tag == (a, b, c),
{
}

/// Among the derived rows of a species, a pattern that names a fatty acid at
/// every position matches at most one.
pub proof fn lemma_pattern_full_one_row(rows: Rows, pattern: PatternSpec, i: int, j: int)
    requires
        distinct(rows),
        pattern.0 is Some,
        pattern.1 is Some,
        pattern.2 is Some,
        0 <= i < rows.len(),
        0 <= j < rows.len(),
        rows[i].0@.len() == 1,
        rows[j].0@.len() == 1,
        tag_matches(rows[i].0@[0], pattern),
        tag_matches(rows[j].0@[0], pattern),
    ensures
        i == j,
{
    assert(rows[i].0@ =~= rows[j].0@);
    if i < j {
        assert(rows[i].0@ != rows[j].0@);
    } else if j < i {
        assert(rows[j].0@ != rows[i].0@);
    }
}

/// Sorted by key, no set comes before a set that stands before it; the sets
/// being distinct, each row's set comes strictly before the next row's.
pub proof fn lemma_sorted_by_key(rows: Rows, out: Rows, i: int, j: int)
    requires
        stably_sorted(Sort::Key, rows, out),
        0 <= i < j < out.len(),
    ensures
        !tags_lt(out[j].0@, out[i].0@),
        distinct(out) ==> tags_lt(out[i].0@, out[j].0@),
{
    assert(row_le(Sort::Key, out[i], out[j]));
    if distinct(out) {
        lemma_tags_order();
        assert(out[i].0@ != out[j].0@);
        assert(tags_order()(out[i].0@, out[j].0@) || tags_order()(out[j].0@, out[i].0@));
    }
}

/// Sorted by value, no quantity comes after a quantity that stands after it
/// in the total order of quantities.
pub proof fn lemma_sorted_by_value(rows: Rows, out: Rows, i: int, j: int)
    requires
        stably_sorted(Sort::Value, rows, out),
        0 <= i < j < out.len(),
    ensures
        out[i].1.rank() <= out[j].1.rank(),
{
    assert(row_le(Sort::Value, out[i], out[j]));
}

/// Of two places in a sequence at which the predicate holds, the items stand
/// in the same order among what is kept.
proof fn lemma_filter_order<A>(s: Seq<A>, pred: spec_fn(A) -> bool, i: int, j: int)
    requires
        0 <= i < j < s.len(),
        pred(s[i]),
        pred(s[j]),
    ensures
        exists|a: int, b: int|
            0 <= a < b < s.filter(pred).len() && #[trigger] s.filter(pred)[a] == s[i]
                && #[trigger] s.filter(pred)[b] == s[j],
    decreases s.len(),
{
    reveal(Seq::filter);
    let kept = s.filter(pred);
    let rest = s.drop_last();
    let kept_rest = rest.filter(pred);
    if j == s.len() - 1 {
        lemma_filter_keeps(rest, pred, i);
        let a = choose|a: int| 0 <= a < kept_rest.len() && kept_rest[a] == rest[i];
        let b = kept.len() - 1;
        assert(kept[a] == s[i]);
        assert(kept[b] == s[j]);
    } else {
        lemma_filter_order(rest, pred, i, j);
        let (a, b) = choose|a: int, b: int|
            0 <= a < b < kept_rest.len() && #[trigger] kept_rest[a] == rest[i]
                && #[trigger] kept_rest[b] == rest[j];
        assert(kept[a] == s[i]);
        assert(kept[b] == s[j]);
    }
}

/// Of two places among what is kept, the items stand in the same order in
/// the sequence.
proof fn lemma_filter_origin<A>(s: Seq<A>, pred: spec_fn(A) -> bool, a: int, b: int)
    requires
        0 <= a < b < s.filter(pred).len(),
    ensures
        exists|i: int, j: int|
            0 <= i < j < s.len() && #[trigger] s[i] == s.filter(pred)[a] && #[trigger] s[j]
                == s.filter(pred)[b],
    decreases s.len(),
{
    reveal(Seq::filter);
    let kept = s.filter(pred);
    let rest = s.drop_last();
    let kept_rest = rest.filter(pred);
    if s.len() > 0 {
        if b < kept_rest.len() {
            lemma_filter_origin(rest, pred, a, b);
            let (i, j) = choose|i: int, j: int|
                0 <= i < j < rest.len() && #[trigger] rest[i] == kept_rest[a] && #[trigger] rest[j]
                    == kept_rest[b];
            assert(s[i] == kept[a]);
            assert(s[j] == kept[b]);
        } else {
            lemma_filter_member(rest, pred, a);
            let i = choose|i: int| 0 <= i < rest.len() && rest[i] == kept_rest[a];
            let j = s.len() - 1;
            assert(s[i] == kept[a]);
            assert(s[j] == kept[b]);
        }
    }
}

/// Sorting is stable: of two rows that the order does not tell apart, the
/// one that stood first stands first.
pub proof fn lemma_sort_stable(sort: Sort, rows: Rows, out: Rows, i: int, j: int)
    requires
        stably_sorted(sort, rows, out),
        0 <= i < j < rows.len(),
        row_le(sort, rows[i], rows[j]),
        row_le(sort, rows[j], rows[i]),
    ensures
        exists|a: int, b: int|
            0 <= a < b < out.len() && #[trigger] out[a] == rows[i] && #[trigger] out[b] == rows[j],
{
    let pred = peers(sort, rows[i]);
    assert(pred(rows[i]));
    assert(pred(rows[j]));
    lemma_filter_order(rows, pred, i, j);
    let kept = rows.filter(pred);
    let (a, b) = choose|a: int, b: int|
        0 <= a < b < kept.len() && #[trigger] kept[a] == rows[i] && #[trigger] kept[b] == rows[j];
    assert(out.filter(pred) == kept);
    lemma_filter_origin(out, pred, a, b);
}

/// Sorted by value, two rows of equal quantity keep the order in which they
/// stood.
pub proof fn lemma_sort_by_value_stable(rows: Rows, out: Rows, i: int, j: int)
    requires
        stably_sorted(Sort::Value, rows, out),
        0 <= i < j < rows.len(),
        rows[i].1 == rows[j].1,
    ensures
        exists|a: int, b: int|
            0 <= a < b < out.len() && #[trigger] out[a] == rows[i] && #[trigger] out[b] == rows[j],
{
    lemma_sort_stable(Sort::Value, rows, out, i, j);
}

/// A set of triacylglycerols is fixed by its members: two ascending
/// sequences that hold the same triacylglycerols are one sequence.
pub proof fn lemma_ascending_unique(a: Seq<TagSpec>, b: Seq<TagSpec>)
    requires
        ascending(a),
        ascending(b),
        same_members(a, b),
    ensures
        a == b,
    decreases a.len(),
{
    if a.len() == 0 {
        if b.len() > 0 {
            assert(b.contains(b[0]));
        }
        assert(a =~= b);
    } else if b.len() == 0 {
        assert(a.contains(a[0]));
    } else {
        let x = a.last();
        let y = b.last();
        assert(a.contains(x));
        assert(b.contains(y));
        let i = choose|i: int| 0 <= i < b.len() && b[i] == x;
        let j = choose|j: int| 0 <= j < a.len() && a[j] == y;
        if x != y {
            lemma_tag_lt_irreflexive(x);
            lemma_tag_lt_irreflexive(y);
            assert(tag_lt(b[i], b[b.len() - 1]));
            assert(tag_lt(a[j], a[a.len() - 1]));
            lemma_tag_lt_transitive(x, y, x);
        }
        let a0 = a.drop_last();
        let b0 = b.drop_last();
        assert forall|tag: TagSpec| a0.contains(tag) <==> b0.contains(tag) by {
            lemma_tag_lt_irreflexive(tag);
            if a0.contains(tag) {
                let k = choose|k: int| 0 <= k < a0.len() && a0[k] == tag;
                assert(a[k] == tag);
                assert(tag_lt(a[k], a[a.len() - 1]));
                assert(a.contains(tag));
                let m = choose|m: int| 0 <= m < b.len() && b[m] == tag;
                assert(b0[m] == tag);
            }
            if b0.contains(tag) {
                let k = choose|k: int| 0 <= k < b0.len() && b0[k] == tag;
                assert(b[k] == tag);
                assert(tag_lt(b[k], b[b.len() - 1]));
                assert(b.contains(tag));
                let m = choose|m: int| 0 <= m < a.len() && a[m] == tag;
                assert(a0[m] == tag);
            }
        }
        assert(ascending(a0)) by {
            assert forall|i: int, j: int| 0 <= i < j < a0.len() implies tag_lt(
                #[trigger] a0[i],
                #[trigger] a0[j],
            ) by {
                assert(tag_lt(a[i], a[j]));
            }
        }
        assert(ascending(b0)) by {
            assert forall|i: int, j: int| 0 <= i < j < b0.len() implies tag_lt(
                #[trigger] b0[i],
                #[trigger] b0[j],
            ) by {
                assert(tag_lt(b[i], b[j]));
            }
        }
        lemma_ascending_unique(a0, b0);
        assert(a =~= a0.push(x));
        assert(b =~= b0.push(y));
    }
}

/// A list of first occurrences, as the lists of fatty acids and of sets are,
/// holds every item of what it was made of and nothing else, each once.
pub proof fn lemma_first_occurrences<A>(s: Seq<A>)
    ensures
        first_occurrences(s).no_duplicates(),
        forall|x: A| #[trigger] first_occurrences(s).contains(x) <==> s.contains(x),
    decreases s.len(),
{
    let out = first_occurrences(s);
    if s.len() > 0 {
        let rest = s.drop_last();
        let seen = first_occurrences(rest);
        lemma_first_occurrences(rest);
        assert forall|x: A| out.contains(x) <==> s.contains(x) by {
            if out.contains(x) {
                let k = choose|k: int| 0 <= k < out.len() && out[k] == x;
                if k < seen.len() {
                    assert(seen[k] == x);
                    assert(seen.contains(x));
                    assert(first_occurrences(rest).contains(x));
                    assert(rest.contains(x));
                    let m = choose|m: int| 0 <= m < rest.len() && rest[m] == x;
                    assert(s[m] == x);
                } else {
                    assert(s[s.len() - 1] == x);
                }
            }
            if s.contains(x) {
                let m = choose|m: int| 0 <= m < s.len() && s[m] == x;
                if m < rest.len() {
                    assert(rest[m] == x);
                    assert(rest.contains(x));
                    assert(first_occurrences(rest).contains(x) <==> rest.contains(x));
                    let k = choose|k: int| 0 <= k < seen.len() && seen[k] == x;
                    assert(out[k] == x);
                } else if seen.contains(x) {
                } else {
                    assert(out[out.len() - 1] == x);
                }
            }
        }
    } else {
        assert forall|x: A| !s.contains(x) by {}
    }
}

/// The arithmetic is exact under a reading of quantities as whole numbers of
/// some unit: what it gives for an operation reads as the result of the
/// operation on what its operands read as, a quotient being what gives the
/// dividend when it is multiplied by the divisor.
pub open spec fn exact(does: Arithmetic, reading: spec_fn(Value) -> int) -> bool {
    &&& reading(Value { bits: TWO }) == 2
    &&& reading(Value { bits: THREE }) == 3
    &&& forall|operation: Operation, a: Value, b: Value, result: Value| #[trigger]
        does(operation, a, b, result) ==> match operation {
            Operation::Plus => reading(result) == reading(a) + reading(b),
            Operation::Minus => reading(result) == reading(a) - reading(b),
            Operation::Times => reading(result) == reading(a) * reading(b),
            Operation::Divide => reading(result) * reading(b) == reading(a),
        }
}

/// What the identity for sn-1,2,3 says under an exact arithmetic: three
/// times the percentage at sn-1,2,3 is twice that at sn-1,3 plus that at
/// sn-2.
pub proof fn lemma_sn123_exact(
    does: Arithmetic,
    reading: spec_fn(Value) -> int,
    sn13: Value,
    sn2: Value,
    sn123: Value,
)
    requires
        exact(does, reading),
        implied_sn123(does, sn13, sn2, sn123),
    ensures
        3 * reading(sn123) == 2 * reading(sn13) + reading(sn2),
{
    let (double, sum) = choose|double: Value, sum: Value|
        sn123_via(does, sn13, sn2, double, sum, sn123);
    assert(does(Operation::Times, Value { bits: TWO }, sn13, double));
    assert(does(Operation::Plus, double, sn2, sum));
    assert(does(Operation::Divide, sum, Value { bits: THREE }, sn123));
    assert(reading(double) == 2 * reading(sn13));
    assert(reading(sn123) * 3 == reading(sum));
}

/// What the identity for sn-1,3 says under an exact arithmetic: twice the
/// percentage at sn-1,3 is three times that at sn-1,2,3 minus that at sn-2.
pub proof fn lemma_sn13_exact(
    does: Arithmetic,
    reading: spec_fn(Value) -> int,
    sn123: Value,
    sn2: Value,
    sn13: Value,
)
    requires
        exact(does, reading),
        implied_sn13(does, sn123, sn2, sn13),
    ensures
        2 * reading(sn13) == 3 * reading(sn123) - reading(sn2),
{
    let (triple, rest) = choose|triple: Value, rest: Value|
        sn13_via(does, sn123, sn2, triple, rest, sn13);
    assert(does(Operation::Times, Value { bits: THREE }, sn123, triple));
    assert(does(Operation::Minus, triple, sn2, rest));
    assert(does(Operation::Divide, rest, Value { bits: TWO }, sn13));
    assert(reading(triple) == 3 * reading(sn123));
    assert(reading(sn13) * 2 == reading(rest));
}

/// What the identity for sn-2 says under an exact arithmetic: the
/// percentage at sn-2 is three times that at sn-1,2,3 minus twice that at
/// sn-1,3.
pub proof fn lemma_sn2_exact(
    does: Arithmetic,
    reading: spec_fn(Value) -> int,
    sn123: Value,
    sn13: Value,
    sn2: Value,
)
    requires
        exact(does, reading),
        implied_sn2(does, sn123, sn13, sn2),
    ensures
        reading(sn2) == 3 * reading(sn123) - 2 * reading(sn13),
{
    let (triple, double) = choose|triple: Value, double: Value|
        sn2_via(does, sn123, sn13, triple, double, sn2);
    assert(does(Operation::Times, Value { bits: THREE }, sn123, triple));
    assert(does(Operation::Times, Value { bits: TWO }, sn13, double));
    assert(does(Operation::Minus, triple, double, sn2));
    assert(reading(triple) == 3 * reading(sn123));
    assert(reading(double) == 2 * reading(sn13));
}

/// Under an exact arithmetic the identities undo each other: the percentage
/// at sn-1,2,3 that two percentages imply, taken with either of the two,
/// implies the other one.
pub proof fn lemma_reconcile_round_trip(
    does: Arithmetic,
    reading: spec_fn(Value) -> int,
    sn13: Value,
    sn2: Value,
    sn123: Value,
    sn13_back: Value,
    sn2_back: Value,
)
    requires
        exact(does, reading),
        implied_sn123(does, sn13, sn2, sn123),
        implied_sn13(does, sn123, sn2, sn13_back),
        implied_sn2(does, sn123, sn13, sn2_back),
    ensures
        reading(sn13_back) == reading(sn13),
        reading(sn2_back) == reading(sn2),
{
    lemma_sn123_exact(does, reading, sn13, sn2, sn123);
    lemma_sn13_exact(does, reading, sn123, sn2, sn13_back);
    lemma_sn2_exact(does, reading, sn123, sn13, sn2_back);
}

/// Under an exact arithmetic the percentage at sn-1,3 or at sn-2 that the
/// two others imply, taken with the one of them that it was not made of,
/// implies the percentage at sn-1,2,3 again.
pub proof fn lemma_reconcile_round_trip_sn123(
    does: Arithmetic,
    reading: spec_fn(Value) -> int,
    sn123: Value,
    sn13: Value,
    sn2: Value,
    by_sn13: Value,
    by_sn2: Value,
    back_by_sn13: Value,
    back_by_sn2: Value,
)
    requires
        exact(does, reading),
        implied_sn13(does, sn123, sn2, by_sn13),
        implied_sn123(does, by_sn13, sn2, back_by_sn13),
        implied_sn2(does, sn123, sn13, by_sn2),
        implied_sn123(does, sn13, by_sn2, back_by_sn2),
    ensures
        reading(back_by_sn13) == reading(sn123),
        reading(back_by_sn2) == reading(sn123),
{
    lemma_sn13_exact(does, reading, sn123, sn2, by_sn13);
    lemma_sn123_exact(does, reading, by_sn13, sn2, back_by_sn13);
    lemma_sn2_exact(does, reading, sn123, sn13, by_sn2);
    lemma_sn123_exact(does, reading, sn13, by_sn2, back_by_sn2);
}

} // verus!
