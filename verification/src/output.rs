//! Compositions: for each species the mole percent of each set of
//! triacylglycerols, and the queries over them.

use crate::config::{Composition, Config, Sort};
use crate::ordered::{distinct, has_key, place_of, with_entry, OrderedMap};
use crate::seqs::{first_occurrences, lemma_filter_empty, lemma_filter_push};
use crate::sorting::{sort_rows, stably_sorted};
use crate::specie::Specie;
use crate::laws::lemma_first_occurrences;
use crate::tag::{
    any_matches, ascending, either_way, flat, lemma_flat_injective, PatternSpec, Tags, TagSpec,
};
use itertools::Itertools;
use crate::value::{Bound, Operation, Value};
use vstd::prelude::*;

verus! {

/// The rows of one species: sets of triacylglycerols with their quantities.
pub type Rows = Seq<(Tags, Value)>;

/// A composition: the species in their order, each with its rows.
pub type Table = Seq<(Specie, Rows)>;

/// What a composition holds, whatever objects hold it.
pub type TableModel = Seq<(Seq<Seq<char>>, Seq<(Seq<TagSpec>, Value)>)>;

/// What the rows hold.
pub open spec fn rows_model(rows: Rows) -> Seq<(Seq<TagSpec>, Value)> {
    rows.map_values(|row: (Tags, Value)| (row.0@, row.1))
}

/// What the composition holds.
pub open spec fn table_model(table: Table) -> TableModel {
    table.map_values(|entry: (Specie, Rows)| (entry.0@, rows_model(entry.1)))
}

/// No set of triacylglycerols occurs twice among the rows.
pub open spec fn rows_distinct(rows: Rows) -> bool {
    distinct(rows)
}

/// No species occurs twice, and within a species no set of triacylglycerols.
pub open spec fn table_distinct(table: Table) -> bool {
    &&& forall|i: int, j: int|
        0 <= i < j < table.len() ==> (#[trigger] table[i]).0@ != (#[trigger] table[j]).0@
    &&& forall|i: int| 0 <= i < table.len() ==> rows_distinct((#[trigger] table[i]).1)
}

/// The species of a map with the rows of each.
pub open spec fn table_of(species: Seq<(Specie, OrderedMap<Tags, Value>)>) -> Table {
    species.map_values(|entry: (Specie, OrderedMap<Tags, Value>)| (entry.0, entry.1@))
}

/// What was said of a row: whether it stays.
pub type Verdict = spec_fn((Tags, Value), bool) -> bool;

/// What a predicate can say of a row: of each row, every answer that the
/// predicate can give when it is asked of the row's set and quantity.
pub open spec fn verdict_of<F: Fn(&Tags, Value) -> bool>(f: F) -> Verdict {
    |row: (Tags, Value), keep: bool| f.ensures((&row.0, row.1), keep)
}

/// Every verdict on a row is what `pred` says of it.
pub open spec fn decided_by(says: Verdict, pred: spec_fn((Tags, Value)) -> bool) -> bool {
    forall|row: (Tags, Value), keep: bool| #[trigger] says(row, keep) ==> keep == pred(row)
}

/// `kept` is what stays of `rows` where each row got a verdict in turn: the
/// rows that were to stay, in their order.
pub open spec fn kept_rows(says: Verdict, rows: Rows, kept: Rows) -> bool
    decreases rows.len(),
{
    if rows.len() == 0 {
        kept.len() == 0
    } else {
        ||| says(rows.last(), true) && kept.len() > 0 && kept.last() == rows.last() && kept_rows(
            says,
            rows.drop_last(),
            kept.drop_last(),
        )
        ||| says(rows.last(), false) && kept_rows(says, rows.drop_last(), kept)
    }
}

/// A species with its rows has rows.
pub open spec fn inhabited() -> spec_fn((Specie, Rows)) -> bool {
    |entry: (Specie, Rows)| entry.1.len() > 0
}

/// `sifted` has the species of `table`, each with what stays of its rows.
pub open spec fn sifted_table(says: Verdict, table: Table, sifted: Table) -> bool {
    &&& sifted.len() == table.len()
    &&& forall|i: int|
        0 <= i < table.len() ==> (#[trigger] sifted[i]).0 == table[i].0 && kept_rows(
            says,
            table[i].1,
            sifted[i].1,
        )
}

/// `out` is what stays of `table` where each row got a verdict in turn: the
/// rows that were to stay, and the species of which a row stays.
pub open spec fn filtered(says: Verdict, table: Table, out: Table) -> bool {
    exists|sifted: Table| sifted_table(says, table, sifted) && out == sifted.filter(inhabited())
}

/// The species of `table`, each with the rows of which `pred` holds.
pub open spec fn sifted(table: Table, pred: spec_fn((Tags, Value)) -> bool) -> Table {
    table.map_values(|entry: (Specie, Rows)| (entry.0, entry.1.filter(pred)))
}

/// The rows of which `pred` holds, and the species that have such a row.
pub open spec fn selected(table: Table, pred: spec_fn((Tags, Value)) -> bool) -> Table {
    sifted(table, pred).filter(inhabited())
}

/// A threshold lets the quantity of a row through.
pub open spec fn admitted(bound: Bound) -> spec_fn((Tags, Value)) -> bool {
    |row: (Tags, Value)| bound.spec_admits(row.1)
}

/// Where every verdict is what `pred` says, what stays of the rows is the
/// rows of which `pred` holds.
pub proof fn lemma_kept_rows_decided(
    says: Verdict,
    pred: spec_fn((Tags, Value)) -> bool,
    rows: Rows,
    kept: Rows,
)
    requires
        decided_by(says, pred),
        kept_rows(says, rows, kept),
    ensures
        kept == rows.filter(pred),
    decreases rows.len(),
{
    reveal(Seq::filter);
    if rows.len() == 0 {
        assert(kept =~= rows.filter(pred));
    } else if says(rows.last(), true) && kept.len() > 0 && kept.last() == rows.last() && kept_rows(
        says,
        rows.drop_last(),
        kept.drop_last(),
    ) {
        lemma_kept_rows_decided(says, pred, rows.drop_last(), kept.drop_last());
        assert(kept =~= kept.drop_last().push(kept.last()));
    } else {
        lemma_kept_rows_decided(says, pred, rows.drop_last(), kept);
    }
}

/// Where every verdict is what `pred` says, what stays of a composition is
/// its rows of which `pred` holds and the species that have such a row.
pub proof fn lemma_filtered_decided(
    says: Verdict,
    pred: spec_fn((Tags, Value)) -> bool,
    table: Table,
    out: Table,
)
    requires
        decided_by(says, pred),
        filtered(says, table, out),
    ensures
        out == selected(table, pred),
{
    let mid = choose|mid: Table| sifted_table(says, table, mid) && out == mid.filter(inhabited());
    assert forall|i: int| 0 <= i < table.len() implies mid[i] == sifted(table, pred)[i] by {
        lemma_kept_rows_decided(says, pred, table[i].1, mid[i].1);
    }
    assert(mid =~= sifted(table, pred));
}

/// What a renaming can make of a set: the second set is one that the
/// renaming can give for the first.
pub type Renaming = spec_fn(Tags, Tags) -> bool;

/// What an addition can make of two quantities: the third is one that the
/// addition can give for the first two.
pub type Summing = spec_fn(Value, Value, Value) -> bool;

/// What `f` can make of a set.
pub open spec fn renaming_of<F: Fn(Tags) -> Tags>(f: F) -> Renaming {
    |from: Tags, to: Tags| f.ensures((from,), to)
}

/// What `arithmetic` can make of two quantities by adding them.
pub open spec fn summing_of<A: Fn(Operation, Value, Value) -> Value>(arithmetic: A) -> Summing {
    |a: Value, b: Value, total: Value| arithmetic.ensures((Operation::Plus, a, b), total)
}

/// `out` is `rows` after a row with that set and quantity was merged in:
/// where the set has a row, that row keeps its place and its set, and holds
/// what the addition made of its quantity and the new one, in that order;
/// else the new row comes last.
pub open spec fn absorbed(sums: Summing, rows: Rows, key: Tags, value: Value, out: Rows) -> bool {
    exists|quantity: Value| absorbed_as(sums, rows, key, value, quantity, out)
}

/// `out` is `rows` after a row with that set was merged in and the row of
/// the set got the quantity `quantity`.
pub open spec fn absorbed_as(
    sums: Summing,
    rows: Rows,
    key: Tags,
    value: Value,
    quantity: Value,
    out: Rows,
) -> bool {
    &&& out == with_entry(rows, key, quantity)
    &&& if has_key(rows, key@) {
        sums(rows[place_of(rows, key@)].1, value, quantity)
    } else {
        quantity == value
    }
}

/// `out` is what comes of `rows` where each row in turn had its set renamed
/// and was merged into the rows made so far.
pub open spec fn merged_rows(renames: Renaming, sums: Summing, rows: Rows, out: Rows) -> bool
    decreases rows.len(),
{
    if rows.len() == 0 {
        out.len() == 0
    } else {
        exists|so_far: Rows, key: Tags|
            merged_rows(renames, sums, rows.drop_last(), so_far) && #[trigger] merged_step(
                renames,
                sums,
                rows,
                so_far,
                key,
                out,
            )
    }
}

/// `out` comes of `so_far` and the last of `rows`, whose set was renamed to
/// `key`.
pub open spec fn merged_step(
    renames: Renaming,
    sums: Summing,
    rows: Rows,
    so_far: Rows,
    key: Tags,
    out: Rows,
) -> bool {
    &&& rows.len() > 0
    &&& renames(rows.last().0, key)
    &&& absorbed(sums, so_far, key, rows.last().1, out)
}

/// `out` has the species of `table`, each with its rows renamed and merged.
pub open spec fn merged(renames: Renaming, sums: Summing, table: Table, out: Table) -> bool {
    &&& out.len() == table.len()
    &&& forall|i: int|
        0 <= i < table.len() ==> (#[trigger] out[i]).0 == table[i].0 && merged_rows(
            renames,
            sums,
            table[i].1,
            out[i].1,
        )
}

/// `out` has the species of `table`, each with its rows in order.
pub open spec fn sorted(sort: Sort, table: Table, out: Table) -> bool {
    &&& out.len() == table.len()
    &&& forall|i: int|
        0 <= i < table.len() ==> (#[trigger] out[i]).0 == table[i].0 && stably_sorted(
            sort,
            table[i].1,
            out[i].1,
        )
}

/// A set is folded into the set of its members in both orientations.
pub open spec fn folding() -> Renaming {
    |from: Tags, to: Tags|
        ascending(to@) && forall|tag: TagSpec| to@.contains(tag) <==> either_way(from@, tag)
}

/// Some member of the set of a row matches the pattern.
pub open spec fn matching(pattern: PatternSpec) -> spec_fn((Tags, Value)) -> bool {
    |row: (Tags, Value)| any_matches(row.0@, pattern)
}

/// `grouped` is `table` grouped as asked: where a grouping is asked for,
/// each set is folded with its other orientation and the rows are merged;
/// else the composition stays as it is. Both groupings fold alike.
pub open spec fn grouped_as(
    composition: Option<Composition>,
    sums: Summing,
    table: Table,
    grouped: Table,
) -> bool {
    match composition {
        Some(_) => merged(folding(), sums, table, grouped),
        None => grouped == table,
    }
}

/// The order that a query asks for: by key where it names none.
pub open spec fn order_of(sort: Option<Sort>) -> Sort {
    match sort {
        Some(sort) => sort,
        None => Sort::Key,
    }
}

/// `out` answers the query over `table`: the rows that the threshold lets
/// through, grouped as asked, of these the rows that match the pattern, in
/// the order asked for.
pub open spec fn configured(sums: Summing, table: Table, config: Config, out: Table) -> bool {
    exists|grouped: Table|
        {
            &&& #[trigger] grouped_as(
                config.composition,
                sums,
                selected(table, admitted(config.bound)),
                grouped,
            )
            &&& sorted(order_of(config.sort), selected(grouped, matching(config.pattern@)), out)
        }
}

/// A merge under a renaming is a merge under every renaming that allows as
/// much.
pub proof fn lemma_merged_rows_weaken(
    strict: Renaming,
    loose: Renaming,
    sums: Summing,
    rows: Rows,
    out: Rows,
)
    requires
        forall|from: Tags, to: Tags| #[trigger] strict(from, to) ==> loose(from, to),
        merged_rows(strict, sums, rows, out),
    ensures
        merged_rows(loose, sums, rows, out),
    decreases rows.len(),
{
    if rows.len() > 0 {
        let (so_far, key) = choose|so_far: Rows, key: Tags|
            merged_rows(strict, sums, rows.drop_last(), so_far) && #[trigger] merged_step(
                strict,
                sums,
                rows,
                so_far,
                key,
                out,
            );
        lemma_merged_rows_weaken(strict, loose, sums, rows.drop_last(), so_far);
        assert(merged_step(loose, sums, rows, so_far, key, out));
    }
}

/// What comes of the rows of one species where each has its set renamed and
/// is merged into the rows made so far.
fn merge_rows<F: Fn(Tags) -> Tags, A: Fn(Operation, Value, Value) -> Value>(
    rows: OrderedMap<Tags, Value>,
    f: &F,
    arithmetic: &A,
) -> (out: OrderedMap<Tags, Value>)
    requires
        forall|key: Tags| f.requires((key,)),
        forall|operation: Operation, a: Value, b: Value| arithmetic.requires((operation, a, b)),
    ensures
        merged_rows(renaming_of(*f), summing_of(*arithmetic), rows@, out@),
{
    let ghost renames = renaming_of(*f);
    let ghost sums = summing_of(*arithmetic);
    let entries = rows.into_entries();
    let mut out: OrderedMap<Tags, Value> = OrderedMap::new();
    for row in it: entries
        invariant
            it.seq() == entries@,
            renames == renaming_of(*f),
            sums == summing_of(*arithmetic),
            forall|key: Tags| f.requires((key,)),
            forall|operation: Operation, a: Value, b: Value| arithmetic.requires((operation, a, b)),
            merged_rows(renames, sums, it.seq().subrange(0, it.index()), out@),
    {
        let ghost so_far = out@;
        let ghost upto = it.seq().subrange(0, it.index());
        let ghost next = it.seq().subrange(0, it.index() + 1);
        proof {
            assert(next.drop_last() =~= upto);
            assert(next.last() == row);
        }
        let (from, value) = row;
        let key = f(from);
        assert(renames(from, key));
        let quantity = match out.get(&key) {
            Some(held) => arithmetic(Operation::Plus, *held, value),
            None => value,
        };
        out.insert(key, quantity);
        proof {
            assert(absorbed_as(sums, so_far, key, value, quantity, out@));
            assert(merged_step(renames, sums, next, so_far, key, out@));
        }
    }
    assert(entries@.subrange(0, entries@.len() as int) =~= entries@);
    out
}

/// The species is the species of one of the first `upto` entries.
pub open spec fn among<V>(entries: Seq<(Specie, V)>, upto: int, specie: Specie) -> bool {
    exists|m: int| 0 <= m < upto && (#[trigger] entries[m]).0 == specie
}

/// What stays of the rows of one species.
fn filter_rows<F: Fn(&Tags, Value) -> bool>(rows: OrderedMap<Tags, Value>, f: &F) -> (kept:
    OrderedMap<Tags, Value>)
    requires
        forall|key: &Tags, value: Value| f.requires((key, value)),
    ensures
        kept_rows(verdict_of(*f), rows@, kept@),
{
    let ghost says = verdict_of(*f);
    let entries = rows.into_entries();
    let mut kept: Vec<(Tags, Value)> = Vec::new();
    for row in it: entries
        invariant
            it.seq() == entries@,
            distinct(entries@),
            says == verdict_of(*f),
            forall|key: &Tags, value: Value| f.requires((key, value)),
            kept_rows(says, it.seq().subrange(0, it.index()), kept@),
            distinct(kept@),
            forall|k: int|
                0 <= k < kept@.len() ==> exists|m: int|
                    0 <= m < it.index() && it.seq()[m] == #[trigger] kept@[k],
    {
        let ghost before = kept@;
        let ghost upto = it.seq().subrange(0, it.index());
        let ghost next = it.seq().subrange(0, it.index() + 1);
        let ghost at = it.index();
        proof {
            assert(next.drop_last() =~= upto);
            assert(next.last() == row);
        }
        let keep = f(&row.0, row.1);
        assert(says(row, keep));
        if keep {
            kept.push(row);
            proof {
                assert(kept@.drop_last() =~= before);
                assert forall|k: int, l: int| 0 <= k < l < kept@.len() implies (#[trigger] kept@[k]).0@
                    != (#[trigger] kept@[l]).0@ by {
                    if l == kept@.len() - 1 {
                        assert(kept@[k] == before[k]);
                        let m = choose|m: int| 0 <= m < at && entries@[m] == before[k];
                        assert(entries@[m].0@ != entries@[at].0@);
                    } else {
                        assert(before[k].0@ != before[l].0@);
                    }
                }
                assert forall|k: int| 0 <= k < kept@.len() implies exists|m: int|
                    0 <= m < at + 1 && entries@[m] == #[trigger] kept@[k] by {
                    if k < before.len() {
                        let m = choose|m: int| 0 <= m < at && entries@[m] == before[k];
                        assert(entries@[m] == kept@[k]);
                    } else {
                        assert(entries@[at] == kept@[k]);
                    }
                }
            }
        }
    }
    assert(entries@.subrange(0, entries@.len() as int) =~= entries@);
    OrderedMap::from_distinct(kept)
}

/// The sets of the rows of one species.
pub open spec fn sets_of(rows: Rows) -> Seq<Seq<TagSpec>> {
    rows.map_values(|row: (Tags, Value)| row.0@)
}

/// The sets of the rows of every species, species by species.
pub open spec fn all_sets(table: Table) -> Seq<Seq<TagSpec>>
    decreases table.len(),
{
    if table.len() == 0 {
        Seq::empty()
    } else {
        all_sets(table.drop_last()) + sets_of(table.last().1)
    }
}

/// What each set of a sequence holds.
pub open spec fn set_views(sets: Seq<Tags>) -> Seq<Seq<TagSpec>> {
    sets.map_values(|set: Tags| set@)
}

/// A set with the names of `set` stands among `sets`.
pub open spec fn named_among(sets: Seq<Tags>, set: Tags) -> bool {
    exists|i: int| 0 <= i < sets.len() && flat((#[trigger] sets[i])@) == flat(set@)
}

/// The sets in the order in which the names of each first occur: a set
/// stays where no set before it has its names.
pub open spec fn first_by_names(sets: Seq<Tags>) -> Seq<Tags>
    decreases sets.len(),
{
    if sets.len() == 0 {
        Seq::empty()
    } else {
        let seen = first_by_names(sets.drop_last());
        if named_among(sets.drop_last(), sets.last()) {
            seen
        } else {
            seen.push(sets.last())
        }
    }
}

/// Calls `itertools::Itertools::unique_by` on the sets, with the names of a
/// set as its key, and collects what it yields. The contract claims that a
/// set is yielded where no set before it has the same names, and nowhere
/// else, lists of names being the same when they hold the same texts.
#[verifier::external_body]
fn unique_sets(sets: Vec<Tags>) -> (unique: Vec<Tags>)
    ensures
        unique@ == first_by_names(sets@),
{
    sets.into_iter().unique_by(|set| set.names()).collect()
}

/// The sets in the order in which their names first occur are the sets in
/// the order in which each first occurs: the names of a set tell the set.
pub proof fn lemma_first_by_names(sets: Seq<Tags>)
    ensures
        set_views(first_by_names(sets)) == first_occurrences(set_views(sets)),
    decreases sets.len(),
{
    if sets.len() == 0 {
        assert(set_views(first_by_names(sets)) =~= first_occurrences(set_views(sets)));
    } else {
        let rest = sets.drop_last();
        let last = sets.last();
        let seen = first_by_names(rest);
        let found = first_occurrences(set_views(rest));
        lemma_first_by_names(rest);
        lemma_first_occurrences(set_views(rest));
        assert(set_views(sets).drop_last() =~= set_views(rest));
        assert(set_views(sets).last() == last@);
        if named_among(rest, last) {
            let i = choose|i: int| 0 <= i < rest.len() && flat((#[trigger] rest[i])@) == flat(last@);
            lemma_flat_injective(rest[i]@, last@);
            assert(set_views(rest)[i] == last@);
            assert(set_views(rest).contains(last@));
            assert(found.contains(last@));
        } else {
            if found.contains(last@) {
                assert(set_views(rest).contains(last@));
                let i = choose|i: int| 0 <= i < set_views(rest).len() && set_views(rest)[i] == last@;
                assert(flat(rest[i]@) == flat(last@));
                assert(named_among(rest, last));
            }
            assert(set_views(seen.push(last)) =~= set_views(seen).push(last@));
        }
    }
}

/// `total` is what comes of `zero` where the quantity of each row in turn
/// was added to what came so far.
pub open spec fn totalled(sums: Summing, rows: Rows, zero: Value, total: Value) -> bool
    decreases rows.len(),
{
    if rows.len() == 0 {
        total == zero
    } else {
        exists|so_far: Value|
            totalled(sums, rows.drop_last(), zero, so_far) && #[trigger] sums(
                so_far,
                rows.last().1,
                total,
            )
    }
}

/// What comes of `zero` where the quantity of each row in turn is added to
/// what came so far. The addition is the caller's: `arithmetic` is asked for
/// what came so far plus the quantity of the next row.
pub fn total<A: Fn(Operation, Value, Value) -> Value>(rows: &OrderedMap<Tags, Value>, zero: Value, arithmetic: A) -> (total:
    Value)
    requires
        forall|operation: Operation, a: Value, b: Value| arithmetic.requires((operation, a, b)),
    ensures
        totalled(summing_of(arithmetic), rows@, zero, total),
{
    let entries = rows.entries();
    let mut total = zero;
    let mut i: usize = 0;
    assert(entries@.subrange(0, 0) =~= Seq::<(Tags, Value)>::empty());
    while i < entries.len()
        invariant
            i <= entries.len(),
            forall|operation: Operation, a: Value, b: Value| arithmetic.requires((operation, a, b)),
            totalled(summing_of(arithmetic), entries@.subrange(0, i as int), zero, total),
        decreases entries.len() - i,
    {
        let ghost so_far = total;
        let ghost next = entries@.subrange(0, i + 1);
        total = arithmetic(Operation::Plus, total, entries[i].1);
        proof {
            assert(next.drop_last() =~= entries@.subrange(0, i as int));
            assert(next.last() == entries@[i as int]);
            assert(totalled(summing_of(arithmetic), next.drop_last(), zero, so_far));
            assert(summing_of(arithmetic)(so_far, next.last().1, total));
            assert(totalled(summing_of(arithmetic), next, zero, total));
        }
        i += 1;
    }
    assert(entries@.subrange(0, i as int) =~= entries@);
    total
}

/// A composition: for each species, in the order in which the species came,
/// the mole percent of each set of triacylglycerols, in the order of the
/// rows.
#[derive(Debug)]
pub struct Output {
    species: OrderedMap<Specie, OrderedMap<Tags, Value>>,
}

impl View for Output {
    type V = Table;

    closed spec fn view(&self) -> Table {
        table_of(self.species@)
    }
}

impl Default for Output {
    fn default() -> (output: Self)
        ensures
            output@ == Seq::<(Specie, Rows)>::empty(),
    {
        let output = Output { species: OrderedMap::new() };
        assert(output@ =~= Seq::<(Specie, Rows)>::empty());
        output
    }
}

impl Clone for Output {
    fn clone(&self) -> (copy: Self)
        ensures
            table_model(copy@) == table_model(self@),
    {
        let entries = self.to_vec();
        let n = self.len();
        let mut species: Vec<(Specie, OrderedMap<Tags, Value>)> = Vec::new();
        for entry in it: entries
            invariant
                it.seq() == entries@,
                entries@.len() == self@.len(),
                table_distinct(self@),
                forall|i: int|
                    0 <= i < self@.len() ==> (#[trigger] entries@[i]).0@ == self@[i].0@
                        && rows_model(entries@[i].1@) == rows_model(self@[i].1),
                species@.len() == it.index(),
                forall|i: int|
                    0 <= i < it.index() ==> (#[trigger] species@[i]).0@ == self@[i].0@
                        && rows_model(species@[i].1@) == rows_model(self@[i].1),
        {
            let ghost at = it.index();
            let (specie, rows) = entry;
            proof {
                assert(rows_model(rows@) == rows_model(self@[at].1));
                assert forall|k: int, l: int| 0 <= k < l < rows@.len() implies (#[trigger] rows@[k]).0@
                    != (#[trigger] rows@[l]).0@ by {
                    assert(rows_model(rows@)[k].0 == rows@[k].0@);
                    assert(rows_model(rows@)[l].0 == rows@[l].0@);
                    assert(rows_model(self@[at].1)[k].0 == self@[at].1[k].0@);
                    assert(rows_model(self@[at].1)[l].0 == self@[at].1[l].0@);
                    assert(self@[at].1[k].0@ != self@[at].1[l].0@);
                }
            }
            species.push((specie, OrderedMap::from_distinct(rows)));
        }
        let copy = Output { species: OrderedMap::from_distinct(species) };
        assert(table_model(copy@) =~= table_model(self@));
        copy
    }
}

impl Output {
    /// The composition that the map holds.
    pub fn new(output: OrderedMap<Specie, OrderedMap<Tags, Value>>) -> (made: Self)
        ensures
            made@ == table_of(output@),
    {
        Output { species: output }
    }

    /// How many species the composition has.
    pub fn len(&self) -> (n: usize)
        ensures
            n == self@.len(),
            table_distinct(self@),
    {
        let entries = self.species.entries();
        let mut i: usize = 0;
        while i < entries.len()
            invariant
                i <= entries.len(),
                self@ == table_of(entries@),
                forall|k: int| 0 <= k < i ==> rows_distinct((#[trigger] self@[k]).1),
            decreases entries.len() - i,
        {
            let _ = entries[i].1.len();
            i += 1;
        }
        proof {
            assert forall|i: int, j: int| 0 <= i < j < self@.len() implies (#[trigger] self@[i]).0@
                != (#[trigger] self@[j]).0@ by {
                assert(entries@[i].0@ != entries@[j].0@);
            }
        }
        self.species.len()
    }

    /// The species at place `i` and its rows.
    pub fn get_index(&self, i: usize) -> (entry: (&Specie, &OrderedMap<Tags, Value>))
        requires
            i < self@.len(),
        ensures
            *entry.0 == self@[i as int].0,
            entry.1@ == self@[i as int].1,
    {
        self.species.get_index(i)
    }

    /// The place of a species.
    pub fn find(&self, specie: &Specie) -> (place: Option<usize>)
        ensures
            match place {
                Some(at) => at < self@.len() && self@[at as int].0@ == specie@,
                None => forall|i: int| 0 <= i < self@.len() ==> (#[trigger] self@[i]).0@ != specie@,
            },
    {
        let place = self.species.find(specie);
        proof {
            if place is None {
                assert forall|i: int| 0 <= i < self@.len() implies (#[trigger] self@[i]).0@
                    != specie@ by {
                    if self@[i].0@ == specie@ {
                        assert(self.species@[i].0@ == specie@);
                    }
                }
            }
        }
        place
    }

    /// The species in their order.
    pub fn species(&self) -> (species: Vec<Specie>)
        ensures
            species@.len() == self@.len(),
            forall|i: int| 0 <= i < species@.len() ==> (#[trigger] species@[i])@ == self@[i].0@,
    {
        let entries = self.species.entries();
        let mut species: Vec<Specie> = Vec::new();
        let mut i: usize = 0;
        while i < entries.len()
            invariant
                i <= entries.len(),
                self@ == table_of(entries@),
                species@.len() == i,
                forall|k: int| 0 <= k < i ==> (#[trigger] species@[k])@ == self@[k].0@,
            decreases entries.len() - i,
        {
            species.push(entries[i].0.clone());
            i += 1;
        }
        species
    }

    /// The sets of all species, each where it first occurs.
    pub fn tags(&self) -> (sets: Vec<Tags>)
        ensures
            set_views(sets@) == first_occurrences(all_sets(self@)),
    {
        let entries = self.species.entries();
        let mut sets: Vec<Tags> = Vec::new();
        let mut i: usize = 0;
        proof {
            assert(self@.subrange(0, 0) =~= Seq::<(Specie, Rows)>::empty());
            assert(set_views(sets@) =~= all_sets(self@.subrange(0, 0)));
        }
        while i < entries.len()
            invariant
                i <= entries.len(),
                self@ == table_of(entries@),
                set_views(sets@) == all_sets(self@.subrange(0, i as int)),
            decreases entries.len() - i,
        {
            let rows = entries[i].1.entries();
            let ghost start = set_views(sets@);
            let mut j: usize = 0;
            assert(start + sets_of(rows@).subrange(0, 0) =~= start);
            while j < rows.len()
                invariant
                    j <= rows.len(),
                    i < self@.len(),
                    rows@ == self@[i as int].1,
                    set_views(sets@) == start + sets_of(rows@).subrange(0, j as int),
                decreases rows.len() - j,
            {
                let ghost before = set_views(sets@);
                sets.push(rows[j].0.clone());
                proof {
                    assert(set_views(sets@) =~= before.push(rows@[j as int].0@));
                    assert(sets_of(rows@).subrange(0, j + 1) =~= sets_of(rows@).subrange(
                        0,
                        j as int,
                    ).push(rows@[j as int].0@));
                    assert(set_views(sets@) =~= start + sets_of(rows@).subrange(0, j + 1));
                }
                j += 1;
            }
            proof {
                assert(sets_of(rows@).subrange(0, j as int) =~= sets_of(rows@));
                let next = self@.subrange(0, i + 1);
                assert(next.drop_last() =~= self@.subrange(0, i as int));
                assert(next.last() == self@[i as int]);
            }
            i += 1;
        }
        assert(self@.subrange(0, i as int) =~= self@);
        proof {
            lemma_first_by_names(sets@);
        }
        unique_sets(sets)
    }

    /// A copy of the species and of the rows of each, in their order.
    pub fn to_vec(&self) -> (copy: Vec<(Specie, Vec<(Tags, Value)>)>)
        ensures
            copy@.len() == self@.len(),
            forall|i: int|
                0 <= i < self@.len() ==> (#[trigger] copy@[i]).0@ == self@[i].0@ && rows_model(
                    copy@[i].1@,
                ) == rows_model(self@[i].1),
    {
        let entries = self.species.entries();
        let mut copy: Vec<(Specie, Vec<(Tags, Value)>)> = Vec::new();
        let mut i: usize = 0;
        while i < entries.len()
            invariant
                i <= entries.len(),
                self@ == table_of(entries@),
                copy@.len() == i,
                forall|k: int|
                    0 <= k < i ==> (#[trigger] copy@[k]).0@ == self@[k].0@ && rows_model(
                        copy@[k].1@,
                    ) == rows_model(self@[k].1),
            decreases entries.len() - i,
        {
            let rows = entries[i].1.entries();
            let mut rows_copy: Vec<(Tags, Value)> = Vec::new();
            let mut j: usize = 0;
            while j < rows.len()
                invariant
                    j <= rows.len(),
                    rows_model(rows_copy@) == rows_model(rows@).subrange(0, j as int),
                decreases rows.len() - j,
            {
                let ghost before = rows_model(rows_copy@);
                rows_copy.push((rows[j].0.clone(), rows[j].1));
                assert(rows_model(rows_copy@) =~= before.push((rows@[j as int].0@, rows@[j as int].1)));
                assert(rows_model(rows_copy@) =~= rows_model(rows@).subrange(0, j + 1));
                j += 1;
            }
            assert(rows_model(rows@).subrange(0, j as int) =~= rows_model(rows@));
            copy.push((entries[i].0.clone(), rows_copy));
            i += 1;
        }
        copy
    }

    /// The rows of which `f` says that they stay, and the species of which a
    /// row stays. `f` is asked once of each row, species by species and row by
    /// row.
    pub fn filter<F: Fn(&Tags, Value) -> bool>(self, f: F) -> (out: Self)
        requires
            forall|key: &Tags, value: Value| f.requires((key, value)),
        ensures
            filtered(verdict_of(f), self@, out@),
    {
        let ghost says = verdict_of(f);
        let ghost table = self@;
        let species = self.species.into_entries();
        let mut kept: Vec<(Specie, OrderedMap<Tags, Value>)> = Vec::new();
        let ghost mut mid: Table = Seq::empty();
        proof {
            lemma_filter_empty(inhabited());
        }
        for entry in it: species
            invariant
                it.seq() == species@,
                table == table_of(species@),
                distinct(species@),
                says == verdict_of(f),
                forall|key: &Tags, value: Value| f.requires((key, value)),
                mid.len() == it.index(),
                forall|i: int|
                    0 <= i < it.index() ==> (#[trigger] mid[i]).0 == table[i].0 && kept_rows(
                        says,
                        table[i].1,
                        mid[i].1,
                    ),
                table_of(kept@) == mid.filter(inhabited()),
                distinct(kept@),
                forall|k: int|
                    0 <= k < kept@.len() ==> among(species@, it.index(), (#[trigger] kept@[k]).0),
        {
            let ghost before = kept@;
            let ghost at = it.index();
            let (specie, rows) = entry;
            assert(rows@ == table[at].1);
            let rows = filter_rows(rows, &f);
            proof {
                lemma_filter_push(mid, (specie, rows@), inhabited());
                mid = mid.push((specie, rows@));
            }
            if rows.len() > 0 {
                kept.push((specie, rows));
                proof {
                    assert(table_of(kept@) =~= table_of(before).push((specie, rows@)));
                    assert forall|k: int, l: int| 0 <= k < l < kept@.len() implies (
                    #[trigger] kept@[k]).0@ != (#[trigger] kept@[l]).0@ by {
                        if l == kept@.len() - 1 {
                            assert(kept@[k] == before[k]);
                            assert(among(species@, at, before[k].0));
                            let m = choose|m: int| 0 <= m < at && species@[m].0 == before[k].0;
                            assert(species@[m].0@ != species@[at].0@);
                        } else {
                            assert(before[k].0@ != before[l].0@);
                        }
                    }
                    assert forall|k: int| 0 <= k < kept@.len() implies among(
                        species@,
                        at + 1,
                        (#[trigger] kept@[k]).0,
                    ) by {
                        if k < before.len() {
                            assert(among(species@, at, before[k].0));
                            let m = choose|m: int| 0 <= m < at && species@[m].0 == before[k].0;
                            assert(species@[m].0 == kept@[k].0);
                        } else {
                            assert(species@[at].0 == kept@[k].0);
                        }
                    }
                }
            } else {
                proof {
                    assert forall|k: int| 0 <= k < kept@.len() implies among(
                        species@,
                        at + 1,
                        (#[trigger] kept@[k]).0,
                    ) by {
                        assert(among(species@, at, before[k].0));
                        let m = choose|m: int| 0 <= m < at && species@[m].0 == before[k].0;
                        assert(species@[m].0 == kept@[k].0);
                    }
                }
            }
        }
        proof {
            assert(sifted_table(says, table, mid));
        }
        Output { species: OrderedMap::from_distinct(kept) }
    }

    /// The rows whose quantity the threshold lets through, and the species
    /// that have such a row.
    pub fn bound(self, bound: Bound) -> (out: Self)
        ensures
            out@ == selected(self@, admitted(bound)),
    {
        let f = |key: &Tags, value: Value| -> (keep: bool)
            ensures
                keep == bound.spec_admits(value),
            { bound.admits(value) };
        let out = self.filter(f);
        proof {
            assert(decided_by(verdict_of(f), admitted(bound)));
            lemma_filtered_decided(verdict_of(f), admitted(bound), self@, out@);
        }
        out
    }

    /// The composition with the set of each row renamed by `f`. Rows whose
    /// sets become the same set are merged: the row stands where the first
    /// of them stood, and its quantity is what `arithmetic` gives for the
    /// quantity merged so far plus the next one, row by row.
    pub fn map<F: Fn(Tags) -> Tags, A: Fn(Operation, Value, Value) -> Value>(self, f: F, arithmetic: A) -> (out:
        Self)
        requires
            forall|key: Tags| f.requires((key,)),
            forall|operation: Operation, a: Value, b: Value| arithmetic.requires((operation, a, b)),
        ensures
            merged(renaming_of(f), summing_of(arithmetic), self@, out@),
    {
        let ghost table = self@;
        let species = self.species.into_entries();
        let mut made: Vec<(Specie, OrderedMap<Tags, Value>)> = Vec::new();
        for entry in it: species
            invariant
                it.seq() == species@,
                table == table_of(species@),
                forall|key: Tags| f.requires((key,)),
                forall|operation: Operation, a: Value, b: Value| arithmetic.requires((operation, a, b)),
                made@.len() == it.index(),
                forall|i: int|
                    0 <= i < it.index() ==> (#[trigger] made@[i]).0 == species@[i].0
                        && merged_rows(
                        renaming_of(f),
                        summing_of(arithmetic),
                        species@[i].1@,
                        made@[i].1@,
                    ),
        {
            let (specie, rows) = entry;
            let rows = merge_rows(rows, &f, &arithmetic);
            made.push((specie, rows));
        }
        proof {
            assert forall|i: int, j: int| 0 <= i < j < made@.len() implies (#[trigger] made@[i]).0@
                != (#[trigger] made@[j]).0@ by {
                assert(species@[i].0@ != species@[j].0@);
            }
        }
        Output { species: OrderedMap::from_distinct(made) }
    }

    /// The rows of each species in the order asked for. Rows that the order
    /// does not tell apart stay as they stood.
    pub fn sort(self, sort: Sort) -> (out: Self)
        ensures
            sorted(sort, self@, out@),
    {
        let ghost table = self@;
        let species = self.species.into_entries();
        let mut made: Vec<(Specie, OrderedMap<Tags, Value>)> = Vec::new();
        for entry in it: species
            invariant
                it.seq() == species@,
                table == table_of(species@),
                made@.len() == it.index(),
                forall|i: int|
                    0 <= i < it.index() ==> (#[trigger] made@[i]).0 == species@[i].0
                        && stably_sorted(sort, species@[i].1@, made@[i].1@),
        {
            let (specie, rows) = entry;
            let rows = sort_rows(rows.into_entries(), sort);
            made.push((specie, OrderedMap::from_distinct(rows)));
        }
        proof {
            assert forall|i: int, j: int| 0 <= i < j < made@.len() implies (#[trigger] made@[i]).0@
                != (#[trigger] made@[j]).0@ by {
                assert(species@[i].0@ != species@[j].0@);
            }
        }
        Output { species: OrderedMap::from_distinct(made) }
    }

    /// The answer to a query: the rows that the threshold lets through,
    /// grouped as asked, of these the rows of which a member matches the
    /// pattern, in the order asked for. Where rows are merged, `arithmetic`
    /// adds their quantities.
    pub fn configure<A: Fn(Operation, Value, Value) -> Value>(self, config: &Config, arithmetic: A) -> (out: Self)
        requires
            forall|operation: Operation, a: Value, b: Value| arithmetic.requires((operation, a, b)),
        ensures
            configured(summing_of(arithmetic), self@, *config, out@),
    {
        let ghost table = self@;
        let bounded = self.bound(config.bound);
        let ghost bounded_table = bounded@;
        let grouped = match config.composition {
            Some(_) => {
                let f = |tags: Tags| -> (folded: Tags)
                    ensures
                        folding()(tags, folded),
                    { tags.with_reversed() };
                let grouped = bounded.map(f, &arithmetic);
                proof {
                    assert forall|i: int| 0 <= i < bounded_table.len() implies merged_rows(
                        folding(),
                        summing_of(arithmetic),
                        bounded_table[i].1,
                        (#[trigger] grouped@[i]).1,
                    ) by {
                        assert(summing_of(&arithmetic) =~= summing_of(arithmetic));
                        lemma_merged_rows_weaken(
                            renaming_of(f),
                            folding(),
                            summing_of(arithmetic),
                            bounded_table[i].1,
                            grouped@[i].1,
                        );
                    }
                }
                grouped
            },
            None => bounded,
        };
        let ghost grouped_table = grouped@;
        assert(grouped_as(config.composition, summing_of(arithmetic), bounded_table, grouped_table));
        let pattern = &config.pattern;
        let g = |key: &Tags, value: Value| -> (keep: bool)
            ensures
                keep == any_matches(key@, pattern@),
            { key.matches(pattern) };
        let matched = grouped.filter(g);
        proof {
            assert(decided_by(verdict_of(g), matching(pattern@)));
            lemma_filtered_decided(verdict_of(g), matching(pattern@), grouped_table, matched@);
        }
        let sort = match config.sort {
            Some(sort) => sort,
            None => Sort::Key,
        };
        matched.sort(sort)
    }
}

} // verus!
