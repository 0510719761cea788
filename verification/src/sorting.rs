//! Stable sorting of the rows of a species.

use crate::config::Sort;
use crate::order::{lemma_lex_strict_total, strict_total};
use crate::ordered::distinct;
use crate::output::Rows;
use crate::seqs::{lemma_filter_empty, lemma_filter_none, lemma_filter_push};
use crate::tag::{lemma_tag_order, tag_order, tags_lt, Tags, TagSpec};
use crate::value::Value;
use vstd::prelude::*;
use vstd::seq_lib::lemma_multiset_commutative;

verus! {

/// `a` may stand before `b`: by key, `b`'s set does not come before `a`'s; by
/// value, `a`'s quantity does not come after `b`'s in the total order of
/// quantities.
pub open spec fn row_le(sort: Sort, a: (Tags, Value), b: (Tags, Value)) -> bool {
    match sort {
        Sort::Key => !tags_lt(b.0@, a.0@),
        Sort::Value => a.1.rank() <= b.1.rank(),
    }
}

/// The rows that the order does not tell from `x`.
pub open spec fn peers(sort: Sort, x: (Tags, Value)) -> spec_fn((Tags, Value)) -> bool {
    |row: (Tags, Value)| row_le(sort, row, x) && row_le(sort, x, row)
}

/// No row stands before a row that must stand before it.
pub open spec fn in_order(sort: Sort, rows: Rows) -> bool {
    forall|i: int, j: int|
        0 <= i < j < rows.len() ==> row_le(sort, #[trigger] rows[i], #[trigger] rows[j])
}

/// `out` holds the rows of `rows`, each as often, in order, and the rows that
/// the order does not tell apart stand as they stood: for every row `x`, the
/// rows that the order does not tell from `x` are the same in both, in the
/// same order.
pub open spec fn stably_sorted(sort: Sort, rows: Rows, out: Rows) -> bool {
    &&& out.to_multiset() == rows.to_multiset()
    &&& in_order(sort, out)
    &&& forall|x: (Tags, Value)| #[trigger]
        out.filter(peers(sort, x)) == rows.filter(peers(sort, x))
}

/// The relation on the views of sets, for the lemmas on orders.
pub open spec fn tags_order() -> spec_fn(Seq<TagSpec>, Seq<TagSpec>) -> bool {
    |a: Seq<TagSpec>, b: Seq<TagSpec>| tags_lt(a, b)
}

/// Sets of triacylglycerols are strictly and totally ordered.
pub proof fn lemma_tags_order()
    ensures
        strict_total(tags_order()),
{
    lemma_tag_order();
    lemma_lex_strict_total(tag_order());
    let lex = |a: Seq<TagSpec>, b: Seq<TagSpec>| crate::order::lex_lt(tag_order(), a, b);
    let lt = tags_order();
    assert forall|a: Seq<TagSpec>| !#[trigger] lt(a, a) by {
        assert(!lex(a, a));
    }
    assert forall|a: Seq<TagSpec>, b: Seq<TagSpec>, c: Seq<TagSpec>| #[trigger] lt(a, b)
        && #[trigger] lt(b, c) implies lt(a, c) by {
        assert(lex(a, b) && lex(b, c));
        assert(lex(a, c));
    }
    assert forall|a: Seq<TagSpec>, b: Seq<TagSpec>| a != b implies #[trigger] lt(a, b) || lt(
        b,
        a,
    ) by {
        assert(lex(a, b) || lex(b, a));
    }
}

/// Of two rows one may stand before the other.
pub proof fn lemma_row_le_total(sort: Sort, a: (Tags, Value), b: (Tags, Value))
    ensures
        row_le(sort, a, b) || row_le(sort, b, a),
{
    lemma_tags_order();
    let lt = tags_order();
    if lt(a.0@, b.0@) && lt(b.0@, a.0@) {
        assert(lt(a.0@, a.0@));
    }
}

/// What may stand before a row may stand before what that row may stand
/// before.
pub proof fn lemma_row_le_transitive(
    sort: Sort,
    a: (Tags, Value),
    b: (Tags, Value),
    c: (Tags, Value),
)
    requires
        row_le(sort, a, b),
        row_le(sort, b, c),
    ensures
        row_le(sort, a, c),
{
    lemma_tags_order();
    let lt = tags_order();
    if sort == Sort::Key && lt(c.0@, a.0@) {
        if a.0@ == b.0@ {
            assert(lt(c.0@, b.0@));
        } else {
            assert(lt(a.0@, b.0@) || lt(b.0@, a.0@));
            assert(lt(c.0@, a.0@) && lt(a.0@, b.0@));
            assert(lt(c.0@, b.0@));
        }
    }
}

/// Whether `a` may stand before `b`.
pub fn may_precede(sort: Sort, a: &(Tags, Value), b: &(Tags, Value)) -> (r: bool)
    ensures
        r == row_le(sort, *a, *b),
{
    match sort {
        Sort::Key => !b.0.lt(&a.0),
        Sort::Value => a.1.total_le(b.1),
    }
}

/// A row put before others comes first among what is kept, where the
/// predicate holds of it.
proof fn lemma_filter_prepend(row: (Tags, Value), rows: Rows, pred: spec_fn((Tags, Value)) -> bool)
    ensures
        (seq![row] + rows).filter(pred) == (if pred(row) {
            seq![row] + rows.filter(pred)
        } else {
            rows.filter(pred)
        }),
{
    Seq::filter_distributes_over_add(seq![row], rows, pred);
    lemma_filter_empty(pred);
    lemma_filter_push(Seq::<(Tags, Value)>::empty(), row, pred);
    assert(Seq::<(Tags, Value)>::empty().push(row) =~= seq![row]);
    if !pred(row) {
        assert(Seq::<(Tags, Value)>::empty() + rows.filter(pred) =~= rows.filter(pred));
    }
}

/// The row is one of the rows from place `from` on.
pub open spec fn in_tail(rows: Rows, from: int, row: (Tags, Value)) -> bool {
    exists|k: int| from <= k < rows.len() && #[trigger] rows[k] == row
}

/// The rows in the opposite order.
fn reversed(rows: Vec<(Tags, Value)>) -> (out: Vec<(Tags, Value)>)
    ensures
        out@ == rows@.reverse(),
{
    let mut rows = rows;
    let ghost given = rows@;
    let mut out: Vec<(Tags, Value)> = Vec::new();
    while rows.len() > 0
        invariant
            rows@ == given.subrange(0, rows@.len() as int),
            rows@.len() <= given.len(),
            out@.len() == given.len() - rows@.len(),
            forall|k: int| 0 <= k < out@.len() ==> #[trigger] out@[k] == given[given.len() - 1 - k],
        decreases rows.len(),
    {
        match rows.pop() {
            Some(row) => {
                out.push(row);
            },
            None => {},
        }
    }
    assert(out@ =~= given.reverse());
    out
}

/// The rows of both in order, `left` and `right` being in order: of rows
/// that the order does not tell apart, those of `left` come first, and the
/// rows of each stay as they stood.
fn merge(left: Vec<(Tags, Value)>, right: Vec<(Tags, Value)>, sort: Sort) -> (out: Vec<(Tags, Value)>)
    requires
        in_order(sort, left@),
        in_order(sort, right@),
    ensures
        in_order(sort, out@),
        out@.to_multiset() == left@.to_multiset().add(right@.to_multiset()),
        forall|x: (Tags, Value)| #[trigger]
            out@.filter(peers(sort, x)) == left@.filter(peers(sort, x)) + right@.filter(
                peers(sort, x),
            ),
{
    let mut left = left;
    let mut right = right;
    let ghost l0 = left@;
    let ghost r0 = right@;
    let mut back: Vec<(Tags, Value)> = Vec::new();
    let ghost mut merged: Rows = Seq::empty();
    proof {
        assert(l0.subrange(l0.len() as int, l0.len() as int) =~= Seq::<(Tags, Value)>::empty());
        assert(r0.subrange(r0.len() as int, r0.len() as int) =~= Seq::<(Tags, Value)>::empty());
        assert(l0.subrange(0, l0.len() as int) =~= l0);
        assert(r0.subrange(0, r0.len() as int) =~= r0);
        assert(back@.reverse() =~= merged);
        assert(merged.to_multiset() =~= Seq::<(Tags, Value)>::empty().to_multiset().add(
            Seq::<(Tags, Value)>::empty().to_multiset(),
        )) by {
            lemma_multiset_commutative(
                Seq::<(Tags, Value)>::empty(),
                Seq::<(Tags, Value)>::empty(),
            );
            assert(Seq::<(Tags, Value)>::empty() + Seq::<(Tags, Value)>::empty() =~= merged);
        }
        assert forall|x: (Tags, Value)| #[trigger]
            merged.filter(peers(sort, x)) == Seq::<(Tags, Value)>::empty().filter(peers(sort, x))
                + Seq::<(Tags, Value)>::empty().filter(peers(sort, x)) by {
            lemma_filter_empty(peers(sort, x));
            assert(Seq::<(Tags, Value)>::empty() + Seq::<(Tags, Value)>::empty() =~= merged);
        }
    }
    while left.len() > 0 || right.len() > 0
        invariant
            in_order(sort, l0),
            in_order(sort, r0),
            left@.len() <= l0.len(),
            right@.len() <= r0.len(),
            left@ == l0.subrange(0, left@.len() as int),
            right@ == r0.subrange(0, right@.len() as int),
            back@.reverse() == merged,
            in_order(sort, merged),
            forall|a: int, b: int|
                left@.len() <= a < l0.len() && 0 <= b < right@.len() ==> !row_le(
                    sort,
                    #[trigger] l0[a],
                    #[trigger] r0[b],
                ),
            forall|a: int, b: int|
                0 <= a < left@.len() && right@.len() <= b < r0.len() ==> row_le(
                    sort,
                    #[trigger] l0[a],
                    #[trigger] r0[b],
                ),
            forall|k: int|
                0 <= k < merged.len() ==> in_tail(l0, left@.len() as int, #[trigger] merged[k])
                    || in_tail(r0, right@.len() as int, merged[k]),
            merged.to_multiset() == l0.subrange(left@.len() as int, l0.len() as int).to_multiset().add(
                r0.subrange(right@.len() as int, r0.len() as int).to_multiset(),
            ),
            forall|x: (Tags, Value)| #[trigger]
                merged.filter(peers(sort, x)) == l0.subrange(
                    left@.len() as int,
                    l0.len() as int,
                ).filter(peers(sort, x)) + r0.subrange(right@.len() as int, r0.len() as int).filter(
                    peers(sort, x),
                ),
        decreases left.len() + right.len(),
    {
        let ghost i = left@.len() as int;
        let ghost j = right@.len() as int;
        let ghost l_tail = l0.subrange(i, l0.len() as int);
        let ghost r_tail = r0.subrange(j, r0.len() as int);
        let ghost before = merged;
        let from_right = if left.len() == 0 {
            true
        } else if right.len() == 0 {
            false
        } else {
            may_precede(sort, &left[left.len() - 1], &right[right.len() - 1])
        };
        if from_right {
            let taken = right.pop();
            match taken {
                Some(row) => {
                    back.push(row);
                    proof {
                        merged = seq![row] + before;
                        let r_next = r0.subrange(j - 1, r0.len() as int);
                        assert(row == r0[j - 1]);
                        assert(r_next =~= seq![row] + r_tail);
                        assert(back@.reverse() =~= merged);
                        // Every row of `left` that was taken comes strictly
                        // after `row`.
                        assert forall|k: int| 0 <= k < before.len() implies row_le(
                            sort,
                            row,
                            #[trigger] before[k],
                        ) by {
                            if in_tail(l0, i, before[k]) {
                                let a = choose|a: int| i <= a < l0.len() && #[trigger] l0[a] == before[k];
                                assert(!row_le(sort, l0[a], r0[j - 1]));
                                lemma_row_le_total(sort, l0[a], row);
                            } else {
                                let b = choose|b: int| j <= b < r0.len() && #[trigger] r0[b] == before[k];
                                assert(row_le(sort, r0[j - 1], r0[b]));
                            }
                        }
                        assert forall|a: int, b: int| 0 <= a < b < merged.len() implies row_le(
                            sort,
                            #[trigger] merged[a],
                            #[trigger] merged[b],
                        ) by {
                            if a == 0 {
                                assert(merged[b] == before[b - 1]);
                            } else {
                                assert(row_le(sort, before[a - 1], before[b - 1]));
                            }
                        }
                        assert forall|a: int, b: int|
                            0 <= a < i && j - 1 <= b < r0.len() implies row_le(
                            sort,
                            #[trigger] l0[a],
                            #[trigger] r0[b],
                        ) by {
                            if b == j - 1 {
                                if a < i - 1 {
                                    assert(row_le(sort, l0[a], l0[i - 1]));
                                }
                                assert(left@[i - 1] == l0[i - 1]);
                                lemma_row_le_transitive(sort, l0[a], l0[i - 1], r0[j - 1]);
                            }
                        }
                        assert forall|k: int| 0 <= k < merged.len() implies in_tail(
                            l0,
                            i,
                            #[trigger] merged[k],
                        ) || in_tail(r0, j - 1, merged[k]) by {
                            if k == 0 {
                                assert(r0[j - 1] == merged[k]);
                            } else {
                                assert(merged[k] == before[k - 1]);
                                if in_tail(r0, j, before[k - 1]) {
                                    let b = choose|b: int|
                                        j <= b < r0.len() && #[trigger] r0[b] == before[k - 1];
                                    assert(r0[b] == merged[k]);
                                }
                            }
                        }
                        assert(merged.to_multiset() =~= l_tail.to_multiset().add(
                            r_next.to_multiset(),
                        )) by {
                            lemma_multiset_commutative(seq![row], before);
                            lemma_multiset_commutative(seq![row], r_tail);
                        }
                        assert forall|x: (Tags, Value)| #[trigger]
                            merged.filter(peers(sort, x)) == l_tail.filter(peers(sort, x))
                                + r_next.filter(peers(sort, x)) by {
                            let pred = peers(sort, x);
                            assert(before.filter(pred) == l_tail.filter(pred) + r_tail.filter(pred));
                            lemma_filter_prepend(row, before, pred);
                            lemma_filter_prepend(row, r_tail, pred);
                            if pred(row) {
                                assert forall|q: int| 0 <= q < l_tail.len() implies !pred(
                                    #[trigger] l_tail[q],
                                ) by {
                                    assert(l_tail[q] == l0[i + q]);
                                    assert(!row_le(sort, l0[i + q], r0[j - 1]));
                                    if pred(l_tail[q]) {
                                        lemma_row_le_transitive(sort, l_tail[q], x, row);
                                    }
                                }
                                lemma_filter_none(l_tail, pred);
                                assert(seq![row] + (Seq::<(Tags, Value)>::empty() + r_tail.filter(
                                    pred,
                                )) =~= Seq::<(Tags, Value)>::empty() + (seq![row] + r_tail.filter(
                                    pred,
                                )));
                            }
                        }
                    }
                },
                None => {},
            }
        } else {
            let taken = left.pop();
            match taken {
                Some(row) => {
                    back.push(row);
                    proof {
                        merged = seq![row] + before;
                        let l_next = l0.subrange(i - 1, l0.len() as int);
                        assert(row == l0[i - 1]);
                        assert(l_next =~= seq![row] + l_tail);
                        assert(back@.reverse() =~= merged);
                        if j > 0 {
                            assert(right@[j - 1] == r0[j - 1]);
                            assert(!row_le(sort, l0[i - 1], r0[j - 1]));
                        }
                        assert forall|k: int| 0 <= k < before.len() implies row_le(
                            sort,
                            row,
                            #[trigger] before[k],
                        ) by {
                            if in_tail(l0, i, before[k]) {
                                let a = choose|a: int| i <= a < l0.len() && #[trigger] l0[a] == before[k];
                                assert(row_le(sort, l0[i - 1], l0[a]));
                            } else {
                                let b = choose|b: int| j <= b < r0.len() && #[trigger] r0[b] == before[k];
                                assert(row_le(sort, l0[i - 1], r0[b]));
                            }
                        }
                        assert forall|a: int, b: int| 0 <= a < b < merged.len() implies row_le(
                            sort,
                            #[trigger] merged[a],
                            #[trigger] merged[b],
                        ) by {
                            if a == 0 {
                                assert(merged[b] == before[b - 1]);
                            } else {
                                assert(row_le(sort, before[a - 1], before[b - 1]));
                            }
                        }
                        assert forall|a: int, b: int|
                            i - 1 <= a < l0.len() && 0 <= b < j implies !row_le(
                            sort,
                            #[trigger] l0[a],
                            #[trigger] r0[b],
                        ) by {
                            if a == i - 1 {
                                if row_le(sort, l0[a], r0[b]) {
                                    if b < j - 1 {
                                        assert(row_le(sort, r0[b], r0[j - 1]));
                                    }
                                    lemma_row_le_transitive(sort, l0[a], r0[b], r0[j - 1]);
                                }
                            }
                        }
                        assert forall|k: int| 0 <= k < merged.len() implies in_tail(
                            l0,
                            i - 1,
                            #[trigger] merged[k],
                        ) || in_tail(r0, j, merged[k]) by {
                            if k == 0 {
                                assert(l0[i - 1] == merged[k]);
                            } else {
                                assert(merged[k] == before[k - 1]);
                                if in_tail(l0, i, before[k - 1]) {
                                    let a = choose|a: int|
                                        i <= a < l0.len() && #[trigger] l0[a] == before[k - 1];
                                    assert(l0[a] == merged[k]);
                                }
                            }
                        }
                        assert(merged.to_multiset() =~= l_next.to_multiset().add(
                            r_tail.to_multiset(),
                        )) by {
                            lemma_multiset_commutative(seq![row], before);
                            lemma_multiset_commutative(seq![row], l_tail);
                        }
                        assert forall|x: (Tags, Value)| #[trigger]
                            merged.filter(peers(sort, x)) == l_next.filter(peers(sort, x))
                                + r_tail.filter(peers(sort, x)) by {
                            let pred = peers(sort, x);
                            assert(before.filter(pred) == l_tail.filter(pred) + r_tail.filter(pred));
                            lemma_filter_prepend(row, before, pred);
                            lemma_filter_prepend(row, l_tail, pred);
                            if pred(row) {
                                assert(seq![row] + (l_tail.filter(pred) + r_tail.filter(pred))
                                    =~= (seq![row] + l_tail.filter(pred)) + r_tail.filter(pred));
                            }
                        }
                    }
                },
                None => {},
            }
        }
    }
    proof {
        assert(l0.subrange(0, l0.len() as int) =~= l0);
        assert(r0.subrange(0, r0.len() as int) =~= r0);
    }
    let out = reversed(back);
    assert(out@ =~= merged) by {
        assert(back@.reverse().reverse() =~= back@);
    }
    out
}

/// Rows with distinct sets, put in another order, have distinct sets.
proof fn lemma_rearranged_distinct(rows: Rows, out: Rows)
    requires
        distinct(rows),
        out.to_multiset() == rows.to_multiset(),
    ensures
        distinct(out),
{
    rows.to_multiset_ensures();
    out.to_multiset_ensures();
    assert(rows.no_duplicates()) by {
        assert forall|i: int, j: int| 0 <= i < rows.len() && 0 <= j < rows.len() && i != j implies rows[i]
            != rows[j] by {
            if i < j {
                assert(rows[i].0@ != rows[j].0@);
            } else {
                assert(rows[j].0@ != rows[i].0@);
            }
        }
    }
    rows.lemma_multiset_has_no_duplicates();
    out.lemma_multiset_has_no_duplicates_conv();
    assert forall|i: int, j: int| 0 <= i < j < out.len() implies (#[trigger] out[i]).0@ != (
    #[trigger] out[j]).0@ by {
        assert(out.contains(out[i]));
        assert(out.contains(out[j]));
        assert(rows.to_multiset().count(out[i]) > 0);
        assert(rows.to_multiset().count(out[j]) > 0);
        assert(rows.contains(out[i]));
        assert(rows.contains(out[j]));
        let a = choose|a: int| 0 <= a < rows.len() && rows[a] == out[i];
        let b = choose|b: int| 0 <= b < rows.len() && rows[b] == out[j];
        assert(out[i] != out[j]);
        if a < b {
            assert(rows[a].0@ != rows[b].0@);
        } else if b < a {
            assert(rows[b].0@ != rows[a].0@);
        }
    }
}

/// The rows in order; rows that the order does not tell apart stay as they
/// stood.
pub fn sort_rows(rows: Vec<(Tags, Value)>, sort: Sort) -> (out: Vec<(Tags, Value)>)
    ensures
        stably_sorted(sort, rows@, out@),
        out@.len() == rows@.len(),
        distinct(rows@) ==> distinct(out@),
    decreases rows@.len(),
{
    if rows.len() <= 1 {
        return rows;
    }
    let ghost given = rows@;
    let mut left = rows;
    let middle = left.len() / 2;
    let right = left.split_off(middle);
    let ghost l0 = left@;
    let ghost r0 = right@;
    let left = sort_rows(left, sort);
    let right = sort_rows(right, sort);
    let out = merge(left, right, sort);
    proof {
        assert(given =~= l0 + r0);
        lemma_multiset_commutative(l0, r0);
        assert(out@.to_multiset() =~= given.to_multiset());
        assert forall|x: (Tags, Value)| #[trigger]
            out@.filter(peers(sort, x)) == given.filter(peers(sort, x)) by {
            let pred = peers(sort, x);
            assert(left@.filter(pred) == l0.filter(pred));
            assert(right@.filter(pred) == r0.filter(pred));
            Seq::filter_distributes_over_add(l0, r0, pred);
        }
        out@.to_multiset_ensures();
        given.to_multiset_ensures();
        if distinct(given) {
            lemma_rearranged_distinct(given, out@);
        }
    }
    out
}

} // verus!
