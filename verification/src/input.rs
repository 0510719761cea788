//! Measured distributions: for each species and fatty acid the percentages
//! at sn-1,3, at sn-2 and at sn-1,2,3.

use crate::cube::{
    cube, first, index_triples, lemma_triple_bounds, lemma_triple_injective, second, third,
};
use crate::error::Error;
use crate::ordered::{distinct, has_key, lemma_place, place_of, with_entry, without, OrderedMap};
use crate::output::{Output, Rows, Table};
use crate::seqs::first_occurrences;
use crate::specie::Specie;
use crate::tag::{Tag, Tags, TagSpec};
use crate::text::texts;
use crate::value::{Operation, Value};
use itertools::Itertools;
use vstd::prelude::*;

verus! {

/// The fatty acids of one species, each with its percentages.
pub type Profiles = Seq<(String, Vec<Value>)>;

/// The species in their order, each with its fatty acids.
pub type Sheet = Seq<(Specie, Profiles)>;

/// The species of a map with the fatty acids of each.
pub open spec fn sheet_of(species: Seq<(Specie, OrderedMap<String, Vec<Value>>)>) -> Sheet {
    species.map_values(|entry: (Specie, OrderedMap<String, Vec<Value>>)| (entry.0, entry.1@))
}

/// Calls `itertools::Itertools::unique` on the names and collects what it
/// yields. The contract claims that each name is yielded where it first
/// occurs and nowhere else, names being the same when they hold the same
/// text.
#[verifier::external_body]
fn unique_names(names: Vec<String>) -> (unique: Vec<String>)
    ensures
        texts(unique@) == first_occurrences(texts(names@)),
{
    names.into_iter().unique().collect()
}

/// The names of the fatty acids of every species, species by species.
pub open spec fn all_names(sheet: Sheet) -> Seq<Seq<char>>
    decreases sheet.len(),
{
    if sheet.len() == 0 {
        Seq::empty()
    } else {
        all_names(sheet.drop_last()) + names_of(sheet.last().1)
    }
}

/// The names of the fatty acids of one species.
pub open spec fn names_of(profiles: Profiles) -> Seq<Seq<char>> {
    profiles.map_values(|profile: (String, Vec<Value>)| profile.0@)
}

/// The distributions after a fatty acid of a species got its percentages:
/// where the species is there, it keeps its place and the fatty acid is put
/// among its fatty acids; else the species comes last, with that fatty acid
/// alone.
pub open spec fn recorded(sheet: Sheet, specie: Specie, fatty_acid: String, values: Vec<Value>) -> Sheet {
    if has_key(sheet, specie@) {
        let at = place_of(sheet, specie@);
        sheet.update(at, (sheet[at].0, with_entry(sheet[at].1, fatty_acid, values)))
    } else {
        sheet.push((specie, seq![(fatty_acid, values)]))
    }
}

/// What the percentages of each fatty acid of a species are.
pub open spec fn profiles_model(profiles: Profiles) -> Seq<(Seq<char>, Seq<Value>)> {
    profiles.map_values(|profile: (String, Vec<Value>)| (profile.0@, profile.1@))
}

/// The ordered triples over the fatty acids of every species can be counted
/// on this machine.
pub open spec fn countable(sheet: Sheet) -> bool {
    forall|i: int| 0 <= i < sheet.len() ==> cube((#[trigger] sheet[i]).1.len() as int) <= usize::MAX
}

/// A profile holds the three percentages.
pub open spec fn well_formed(profile: Vec<Value>) -> bool {
    profile@.len() >= 3
}

/// The percentage at place `k` of a profile. A percentage that the profile
/// lacks counts as zero.
pub open spec fn value_at(profile: Vec<Value>, k: int) -> Value {
    if 0 <= k < profile@.len() {
        profile@[k]
    } else {
        Value { bits: 0 }
    }
}

/// The percentage at place `k` of a profile, or zero where the profile has
/// none there.
pub fn percentage(profile: &Vec<Value>, k: usize) -> (value: Value)
    ensures
        value == value_at(*profile, k as int),
{
    if k < profile.len() {
        profile[k]
    } else {
        Value::from_bits(0)
    }
}

/// The fatty acid at place `j` of the species at place `i` lacks a
/// percentage.
pub open spec fn malformed_at(sheet: Sheet, i: int, j: int) -> bool {
    &&& 0 <= i < sheet.len()
    &&& 0 <= j < sheet[i].1.len()
    &&& !well_formed(sheet[i].1[j].1)
}

/// Some fatty acid of some species lacks a percentage.
pub open spec fn malformed(sheet: Sheet) -> bool {
    exists|i: int, j: int| malformed_at(sheet, i, j)
}

/// The place `(i, j)` comes before the place `(k, l)`.
pub open spec fn earlier(i: int, j: int, k: int, l: int) -> bool {
    i < k || (i == k && j < l)
}

/// `(i, j)` is the first place at which a fatty acid lacks a percentage.
pub open spec fn first_malformed_at(sheet: Sheet, i: int, j: int) -> bool {
    &&& malformed_at(sheet, i, j)
    &&& forall|k: int, l: int| earlier(k, l, i, j) ==> !malformed_at(sheet, k, l)
}

/// The triacylglycerol with number `t` over the fatty acids of a species.
pub open spec fn candidate(profiles: Profiles, t: int) -> TagSpec {
    let n = profiles.len() as int;
    (profiles[first(t, n)].0@, profiles[second(t, n)].0@, profiles[third(t, n)].0@)
}

/// The bits of one ten-thousandth: what the product of three percentages is
/// multiplied by to give a mole percent.
pub const SCALE: u64 = 0x3f1a_36e2_eb1c_432d;

/// What a multiplication can make of two quantities: the third is one that
/// the multiplication can give for the first two.
pub type Multiplying = spec_fn(Value, Value, Value) -> bool;

/// What `arithmetic` can make of two quantities by multiplying them.
pub open spec fn multiplying_of<A: Fn(Operation, Value, Value) -> Value>(arithmetic: A) -> Multiplying {
    |a: Value, b: Value, product: Value| arithmetic.ensures((Operation::Times, a, b), product)
}

/// `value` is the abundance that came by way of `first` and `second`: `first`
/// of the percentages at sn-1 and sn-2, `second` of `first` and the
/// percentage at sn-3, `value` of `second` and one ten-thousandth.
pub open spec fn abundance_via(
    multiplies: Multiplying,
    sn1: Value,
    sn2: Value,
    sn3: Value,
    first: Value,
    second: Value,
    value: Value,
) -> bool {
    &&& multiplies(sn1, sn2, first)
    &&& multiplies(first, sn3, second)
    &&& multiplies(second, Value { bits: SCALE }, value)
}

/// `value` is the abundance of a triacylglycerol: the product of the three
/// percentages and of one ten-thousandth, multiplied from left to right.
pub open spec fn abundance(multiplies: Multiplying, sn1: Value, sn2: Value, sn3: Value, value: Value) -> bool {
    exists|first: Value, second: Value|
        abundance_via(multiplies, sn1, sn2, sn3, first, second, value)
}

/// The rows are what the derivation makes of the fatty acids of one species:
/// one row for each ordered triple of fatty acids, the last position running
/// fastest, whose quantity is the abundance from the percentage at sn-1,3 of
/// the first fatty acid, at sn-2 of the second and at sn-1,3 of the third. A
/// percentage that a profile lacks counts as zero.
pub open spec fn derived(multiplies: Multiplying, profiles: Profiles, rows: Rows) -> bool {
    let n = profiles.len() as int;
    &&& rows.len() == cube(n)
    &&& forall|t: int|
        0 <= t < rows.len() ==> {
            &&& (#[trigger] rows[t]).0@ == seq![candidate(profiles, t)]
            &&& abundance(
                multiplies,
                value_at(profiles[first(t, n)].1, 0),
                value_at(profiles[second(t, n)].1, 1),
                value_at(profiles[third(t, n)].1, 0),
                rows[t].1,
            )
        }
}

/// Measured distributions: for each species, in the order in which the
/// species came, its fatty acids in their order, each with its percentages
/// at sn-1,3, at sn-2 and at sn-1,2,3.
#[derive(Debug)]
pub struct Input {
    species: OrderedMap<Specie, OrderedMap<String, Vec<Value>>>,
}

impl View for Input {
    type V = Sheet;

    closed spec fn view(&self) -> Sheet {
        sheet_of(self.species@)
    }
}

impl Default for Input {
    fn default() -> (input: Self)
        ensures
            input@ == Seq::<(Specie, Profiles)>::empty(),
    {
        let input = Input { species: OrderedMap::new() };
        assert(input@ =~= Seq::<(Specie, Profiles)>::empty());
        input
    }
}

/// What the distributions hold, whatever objects hold it.
pub open spec fn sheet_model(sheet: Sheet) -> Seq<(Seq<Seq<char>>, Seq<(Seq<char>, Seq<Value>)>)> {
    sheet.map_values(|entry: (Specie, Profiles)| (entry.0@, profiles_model(entry.1)))
}

impl Clone for Input {
    fn clone(&self) -> (copy: Self)
        ensures
            sheet_model(copy@) == sheet_model(self@),
    {
        let entries = self.species.entries();
        let mut species: Vec<(Specie, OrderedMap<String, Vec<Value>>)> = Vec::new();
        let mut i: usize = 0;
        while i < entries.len()
            invariant
                i <= entries.len(),
                self@ == sheet_of(entries@),
                distinct(entries@),
                species@.len() == i,
                forall|k: int|
                    0 <= k < i ==> (#[trigger] species@[k]).0@ == entries@[k].0@ && profiles_model(
                        species@[k].1@,
                    ) == profiles_model(entries@[k].1@),
            decreases entries.len() - i,
        {
            let profiles = entries[i].1.entries();
            let mut copy: Vec<(String, Vec<Value>)> = Vec::new();
            let mut j: usize = 0;
            while j < profiles.len()
                invariant
                    j <= profiles.len(),
                    profiles_model(copy@) == profiles_model(profiles@).subrange(0, j as int),
                decreases profiles.len() - j,
            {
                let ghost before = profiles_model(copy@);
                copy.push((profiles[j].0.clone(), profiles[j].1.clone()));
                proof {
                    assert(copy@.last().1@ == profiles@[j as int].1@);
                    assert(profiles_model(copy@) =~= before.push(
                        (profiles@[j as int].0@, profiles@[j as int].1@),
                    ));
                    assert(profiles_model(copy@) =~= profiles_model(profiles@).subrange(0, j + 1));
                }
                j += 1;
            }
            proof {
                assert(profiles_model(profiles@).subrange(0, j as int) =~= profiles_model(
                    profiles@,
                ));
                assert forall|k: int, l: int| 0 <= k < l < copy@.len() implies (#[trigger] copy@[k]).0@
                    != (#[trigger] copy@[l]).0@ by {
                    assert(profiles_model(copy@)[k].0 == copy@[k].0@);
                    assert(profiles_model(copy@)[l].0 == copy@[l].0@);
                    assert(profiles_model(profiles@)[k].0 == profiles@[k].0@);
                    assert(profiles_model(profiles@)[l].0 == profiles@[l].0@);
                    assert(profiles@[k].0@ != profiles@[l].0@);
                }
            }
            species.push((entries[i].0.clone(), OrderedMap::from_distinct(copy)));
            i += 1;
        }
        proof {
            assert forall|k: int, l: int| 0 <= k < l < species@.len() implies (
            #[trigger] species@[k]).0@ != (#[trigger] species@[l]).0@ by {
                assert(entries@[k].0@ != entries@[l].0@);
            }
        }
        let copy = Input { species: OrderedMap::from_distinct(species) };
        assert(sheet_model(copy@) =~= sheet_model(self@));
        copy
    }
}

impl Input {
    /// The distributions that the map holds.
    pub fn new(input: OrderedMap<Specie, OrderedMap<String, Vec<Value>>>) -> (made: Self)
        ensures
            made@ == sheet_of(input@),
    {
        Input { species: input }
    }

    /// Whether every fatty acid has its three percentages: where one has
    /// not, the first such fatty acid is reported.
    pub fn validate(&self) -> (r: Result<(), Error>)
        ensures
            match r {
                Ok(_) => !malformed(self@),
                Err(Error::MalformedProfile { specie, fatty_acid }) => exists|i: int, j: int|
                    first_malformed_at(self@, i, j) && specie@ == self@[i].0@ && fatty_acid@
                        == self@[i].1[j].0@,
                Err(_) => false,
            },
    {
        let species = self.species.entries();
        match self.first_malformed() {
            Some((i, j)) => {
                let profiles = species[i].1.entries();
                Err(
                    Error::MalformedProfile {
                        specie: species[i].0.clone(),
                        fatty_acid: profiles[j].0.clone(),
                    },
                )
            },
            None => Ok(()),
        }
    }

    /// The first place at which a fatty acid lacks a percentage.
    fn first_malformed(&self) -> (place: Option<(usize, usize)>)
        ensures
            match place {
                Some((i, j)) => first_malformed_at(self@, i as int, j as int),
                None => !malformed(self@),
            },
    {
        let species = self.species.entries();
        let mut i: usize = 0;
        while i < species.len()
            invariant
                i <= species.len(),
                self@ == sheet_of(species@),
                forall|k: int, l: int| 0 <= k < i ==> !malformed_at(self@, k, l),
            decreases species.len() - i,
        {
            let profiles = species[i].1.entries();
            let mut j: usize = 0;
            while j < profiles.len()
                invariant
                    i < species.len(),
                    j <= profiles.len(),
                    self@ == sheet_of(species@),
                    profiles@ == self@[i as int].1,
                    forall|k: int, l: int| 0 <= k < i ==> !malformed_at(self@, k, l),
                    forall|l: int| 0 <= l < j ==> !malformed_at(self@, i as int, l),
                decreases profiles.len() - j,
            {
                if profiles[j].1.len() < 3 {
                    assert(malformed_at(self@, i as int, j as int));
                    return Some((i, j));
                }
                j += 1;
            }
            i += 1;
        }
        None
    }

    /// How many species there are.
    pub fn len(&self) -> (n: usize)
        ensures
            n == self@.len(),
    {
        self.species.len()
    }

    /// Whether the ordered triples over the fatty acids of every species can
    /// be counted on this machine, as the derivation asks.
    pub fn derivable(&self) -> (r: bool)
        ensures
            r == countable(self@),
    {
        let species = self.species.entries();
        let mut i: usize = 0;
        while i < species.len()
            invariant
                i <= species.len(),
                self@ == sheet_of(species@),
                forall|k: int|
                    0 <= k < i ==> cube((#[trigger] self@[k]).1.len() as int) <= usize::MAX,
            decreases species.len() - i,
        {
            let n = species[i].1.len();
            let fits = match n.checked_mul(n) {
                Some(square) => square.checked_mul(n).is_some(),
                None => false,
            };
            if !fits {
                proof {
                    let m = n as int;
                    assert(cube(m) > usize::MAX) by (nonlinear_arith)
                        requires
                            m >= 0,
                            m * m > usize::MAX || m * m * m > usize::MAX,
                            cube(m) == m * m * m,
                    ;
                    assert(cube(self@[i as int].1.len() as int) > usize::MAX);
                }
                return false;
            }
            i += 1;
        }
        true
    }

    /// The species at place `i` and its fatty acids.
    pub fn get_index(&self, i: usize) -> (entry: (&Specie, &OrderedMap<String, Vec<Value>>))
        requires
            i < self@.len(),
        ensures
            *entry.0 == self@[i as int].0,
            entry.1@ == self@[i as int].1,
    {
        self.species.get_index(i)
    }

    /// The place of a species.
    pub fn find(&self, specie: &Specie) -> (place: Option<usize>)
        ensures
            match place {
                Some(at) => at < self@.len() && has_key(self@, specie@) && at == place_of(
                    self@,
                    specie@,
                ),
                None => !has_key(self@, specie@),
            },
    {
        let place = self.species.find(specie);
        proof {
            match place {
                Some(at) => {
                    lemma_sheet_place(self.species@, specie@, at as int);
                },
                None => {
                    if has_key(self@, specie@) {
                        let m = choose|m: int|
                            0 <= m < self@.len() && (#[trigger] self@[m]).0@ == specie@;
                        assert(self.species@[m].0@ == specie@);
                    }
                },
            }
        }
        place
    }

    /// The fatty acids of a species.
    pub fn get(&self, specie: &Specie) -> (profiles: Option<&OrderedMap<String, Vec<Value>>>)
        ensures
            match profiles {
                Some(profiles) => has_key(self@, specie@) && profiles@ == self@[place_of(
                    self@,
                    specie@,
                )].1,
                None => !has_key(self@, specie@),
            },
    {
        match self.find(specie) {
            Some(at) => Some(self.species.get_index(at).1),
            None => None,
        }
    }

    /// Gives a species its fatty acids, and hands back those that it had:
    /// a species that is there keeps its place, a new one comes last.
    pub fn insert(&mut self, specie: Specie, profiles: OrderedMap<String, Vec<Value>>) -> (before:
        Option<OrderedMap<String, Vec<Value>>>)
        ensures
            final(self)@ == with_entry(old(self)@, specie, profiles@),
            match before {
                Some(before) => has_key(old(self)@, specie@) && before@ == old(self)@[place_of(
                    old(self)@,
                    specie@,
                )].1,
                None => !has_key(old(self)@, specie@),
            },
    {
        match self.find(&specie) {
            Some(at) => {
                let before = self.species.replace_value(at, profiles);
                assert(self@ =~= with_entry(old(self)@, specie, profiles@));
                Some(before)
            },
            None => {
                let ghost held = self.species@;
                self.species.insert(specie, profiles);
                proof {
                    assert(!has_key(held, specie@)) by {
                        if has_key(held, specie@) {
                            let m = choose|m: int|
                                0 <= m < held.len() && (#[trigger] held[m]).0@ == specie@;
                            assert(old(self)@[m].0@ == specie@);
                        }
                    }
                    assert(self@ =~= with_entry(old(self)@, specie, profiles@));
                }
                None
            },
        }
    }

    /// Takes a species out and hands back its fatty acids. The last species
    /// takes the place of the one that left.
    pub fn remove(&mut self, specie: &Specie) -> (before: Option<OrderedMap<String, Vec<Value>>>)
        ensures
            match before {
                Some(before) => {
                    &&& has_key(old(self)@, specie@)
                    &&& before@ == old(self)@[place_of(old(self)@, specie@)].1
                    &&& final(self)@ == without(old(self)@, place_of(old(self)@, specie@))
                },
                None => !has_key(old(self)@, specie@) && final(self)@ == old(self)@,
            },
    {
        match self.find(specie) {
            Some(at) => {
                let ghost held = self.species@;
                proof {
                    use_type_invariant(&self.species);
                    self.species.lemma_keys_distinct();
                    lemma_place(held, specie@, at as int);
                }
                let before = self.species.remove(specie);
                assert(self@ =~= without(old(self)@, at as int));
                before
            },
            None => None,
        }
    }

    /// Takes a fatty acid of a species out and hands back its percentages.
    /// The last fatty acid of the species takes the place of the one that
    /// left.
    pub fn remove_fatty_acid(&mut self, specie: &Specie, fatty_acid: &String) -> (before: Option<
        Vec<Value>,
    >)
        ensures
            match before {
                Some(before) => {
                    let i = place_of(old(self)@, specie@);
                    let j = place_of(old(self)@[i].1, fatty_acid@);
                    &&& has_key(old(self)@, specie@)
                    &&& has_key(old(self)@[i].1, fatty_acid@)
                    &&& before == old(self)@[i].1[j].1
                    &&& final(self)@ == old(self)@.update(
                        i,
                        (old(self)@[i].0, without(old(self)@[i].1, j)),
                    )
                },
                None => {
                    &&& final(self)@ == old(self)@
                    &&& has_key(old(self)@, specie@) ==> !has_key(
                        old(self)@[place_of(old(self)@, specie@)].1,
                        fatty_acid@,
                    )
                },
            },
    {
        match self.find(specie) {
            Some(at) => {
                let mut profiles = self.species.replace_value(at, OrderedMap::new());
                let before = profiles.remove(fatty_acid);
                self.species.replace_value(at, profiles);
                assert(before is None ==> self@ =~= old(self)@);
                assert(before is Some ==> self@ =~= old(self)@.update(
                    at as int,
                    (
                        old(self)@[at as int].0,
                        without(
                            old(self)@[at as int].1,
                            place_of(old(self)@[at as int].1, fatty_acid@),
                        ),
                    ),
                ));
                before
            },
            None => None,
        }
    }

    /// Gives the fatty acid `from` of a species the name `to`: it keeps its
    /// place and its percentages. Hands back its place. Nothing changes where
    /// the species or the fatty acid is not there, or where the species has a
    /// fatty acid of the name `to`.
    pub fn replace_fatty_acid(&mut self, specie: &Specie, from: &String, to: String) -> (place:
        Option<usize>)
        ensures
            match place {
                Some(j) => {
                    let i = place_of(old(self)@, specie@);
                    &&& has_key(old(self)@, specie@)
                    &&& has_key(old(self)@[i].1, from@)
                    &&& !has_key(old(self)@[i].1, to@)
                    &&& j == place_of(old(self)@[i].1, from@)
                    &&& final(self)@ == old(self)@.update(
                        i,
                        (
                            old(self)@[i].0,
                            old(self)@[i].1.update(j as int, (to, old(self)@[i].1[j as int].1)),
                        ),
                    )
                },
                None => {
                    &&& final(self)@ == old(self)@
                    &&& has_key(old(self)@, specie@) ==> {
                        let i = place_of(old(self)@, specie@);
                        !has_key(old(self)@[i].1, from@) || has_key(old(self)@[i].1, to@)
                    }
                },
            },
    {
        match self.find(specie) {
            Some(at) => {
                let mut profiles = self.species.replace_value(at, OrderedMap::new());
                let place = profiles.replace(from, to);
                self.species.replace_value(at, profiles);
                assert(place is None ==> self@ =~= old(self)@);
                assert(place is Some ==> self@ =~= old(self)@.update(
                    at as int,
                    (
                        old(self)@[at as int].0,
                        old(self)@[at as int].1.update(
                            place->Some_0 as int,
                            (to, old(self)@[at as int].1[place->Some_0 as int].1),
                        ),
                    ),
                ));
                place
            },
            None => None,
        }
    }

    /// Sets one percentage of a fatty acid of a species, and says whether
    /// there was such a percentage to set.
    pub fn set_value(&mut self, specie: &Specie, fatty_acid: &String, index: usize, value: Value) -> (set:
        bool)
        ensures
            final(self)@.len() == old(self)@.len(),
            set <==> {
                &&& has_key(old(self)@, specie@)
                &&& has_key(old(self)@[place_of(old(self)@, specie@)].1, fatty_acid@)
                &&& index < old(self)@[place_of(old(self)@, specie@)].1[place_of(
                    old(self)@[place_of(old(self)@, specie@)].1,
                    fatty_acid@,
                )].1@.len()
            },
            !set ==> final(self)@ == old(self)@,
            set ==> {
                let i = place_of(old(self)@, specie@);
                let j = place_of(old(self)@[i].1, fatty_acid@);
                &&& forall|k: int|
                    0 <= k < old(self)@.len() && k != i ==> (#[trigger] final(self)@[k]) == old(
                        self,
                    )@[k]
                &&& final(self)@[i].0 == old(self)@[i].0
                &&& profiles_model(final(self)@[i].1) == profiles_model(old(self)@[i].1).update(
                    j,
                    (fatty_acid@, old(self)@[i].1[j].1@.update(index as int, value)),
                )
            },
    {
        match self.find(specie) {
            Some(at) => {
                let found = self.species.get_index(at).1.find(fatty_acid);
                match found {
                    Some(j) => {
                        proof {
                            lemma_place(old(self)@[at as int].1, fatty_acid@, j as int);
                        }
                        let mut profiles = self.species.replace_value(at, OrderedMap::new());
                        let mut values = profiles.replace_value(j, Vec::new());
                        let set = index < values.len();
                        if set {
                            values.set(index, value);
                        }
                        let ghost after = values;
                        profiles.replace_value(j, values);
                        self.species.replace_value(at, profiles);
                        proof {
                            if set {
                                assert(profiles_model(self@[at as int].1) =~= profiles_model(
                                    old(self)@[at as int].1,
                                ).update(
                                    j as int,
                                    (
                                        fatty_acid@,
                                        old(self)@[at as int].1[j as int].1@.update(
                                            index as int,
                                            value,
                                        ),
                                    ),
                                ));
                            } else {
                                assert(self@[at as int].1 =~= old(self)@[at as int].1);
                                assert(self@ =~= old(self)@);
                            }
                        }
                        set
                    },
                    None => false,
                }
            },
            None => false,
        }
    }

    /// Gives a fatty acid of a species its percentages.
    pub fn record(&mut self, specie: Specie, fatty_acid: String, values: Vec<Value>)
        ensures
            final(self)@ == recorded(old(self)@, specie, fatty_acid, values),
    {
        let mut taken = OrderedMap::new();
        core::mem::swap(&mut self.species, &mut taken);
        let found = taken.find(&specie);
        let mut entries = taken.into_entries();
        let ghost before = entries@;
        match found {
            Some(at) => {
                proof {
                    crate::ordered::lemma_place(entries@, specie@, at as int);
                    assert(has_key(old(self)@, specie@)) by {
                        assert(old(self)@[at as int].0@ == specie@);
                    }
                    lemma_sheet_place(before, specie@, at as int);
                }
                let (kept, mut profiles) = entries.remove(at);
                profiles.insert(fatty_acid, values);
                entries.insert(at, (kept, profiles));
                proof {
                    assert forall|i: int, j: int| 0 <= i < j < entries@.len() implies (
                    #[trigger] entries@[i]).0@ != (#[trigger] entries@[j]).0@ by {
                        assert(entries@[i].0 == before[i].0);
                        assert(entries@[j].0 == before[j].0);
                    }
                    assert(sheet_of(entries@) =~= recorded(old(self)@, specie, fatty_acid, values));
                }
            },
            None => {
                proof {
                    assert(!has_key(old(self)@, specie@)) by {
                        if has_key(old(self)@, specie@) {
                            let m = choose|m: int|
                                0 <= m < old(self)@.len() && (#[trigger] old(self)@[m]).0@
                                    == specie@;
                            assert(before[m].0@ == specie@);
                        }
                    }
                }
                let mut profiles = OrderedMap::new();
                profiles.insert(fatty_acid, values);
                entries.push((specie, profiles));
                proof {
                    assert forall|i: int, j: int| 0 <= i < j < entries@.len() implies (
                    #[trigger] entries@[i]).0@ != (#[trigger] entries@[j]).0@ by {
                        assert(entries@[i] == before[i]);
                        if j < before.len() {
                            assert(entries@[j] == before[j]);
                        }
                    }
                    assert(profiles@ =~= seq![(fatty_acid, values)]);
                    assert(sheet_of(entries@) =~= recorded(old(self)@, specie, fatty_acid, values));
                }
            },
        }
        self.species = OrderedMap::from_distinct(entries);
    }

    /// The names of the fatty acids of all species, each where it first
    /// occurs.
    pub fn fatty_acids(&self) -> (names: Vec<String>)
        ensures
            texts(names@) == first_occurrences(all_names(self@)),
    {
        let species = self.species.entries();
        let mut names: Vec<String> = Vec::new();
        let mut i: usize = 0;
        proof {
            assert(self@.subrange(0, 0) =~= Seq::<(Specie, Profiles)>::empty());
            assert(texts(names@) =~= all_names(self@.subrange(0, 0)));
        }
        while i < species.len()
            invariant
                i <= species.len(),
                self@ == sheet_of(species@),
                texts(names@) == all_names(self@.subrange(0, i as int)),
            decreases species.len() - i,
        {
            let profiles = species[i].1.entries();
            let ghost start = texts(names@);
            let mut j: usize = 0;
            while j < profiles.len()
                invariant
                    j <= profiles.len(),
                    profiles@ == self@[i as int].1,
                    i < self@.len(),
                    texts(names@) == start + names_of(profiles@).subrange(0, j as int),
                decreases profiles.len() - j,
            {
                let ghost before = texts(names@);
                names.push(profiles[j].0.clone());
                proof {
                    assert(texts(names@) =~= before.push(profiles@[j as int].0@));
                    assert(names_of(profiles@).subrange(0, j + 1) =~= names_of(profiles@).subrange(
                        0,
                        j as int,
                    ).push(profiles@[j as int].0@));
                    assert(texts(names@) =~= start + names_of(profiles@).subrange(0, j + 1));
                }
                j += 1;
            }
            proof {
                assert(names_of(profiles@).subrange(0, j as int) =~= names_of(profiles@));
                let next = self@.subrange(0, i + 1);
                assert(next.drop_last() =~= self@.subrange(0, i as int));
                assert(next.last() == self@[i as int]);
            }
            i += 1;
        }
        assert(self@.subrange(0, i as int) =~= self@);
        unique_names(names)
    }

    /// The species in their order.
    pub fn species(&self) -> (species: Vec<Specie>)
        ensures
            species@.len() == self@.len(),
            forall|i: int| 0 <= i < species@.len() ==> (#[trigger] species@[i])@ == self@[i].0@,
    {
        let entries = self.species.entries();
        let mut species: Vec<Specie> = Vec::new();
        let mut i: usize = 0;
        while i < entries.len()
            invariant
                i <= entries.len(),
                self@ == sheet_of(entries@),
                species@.len() == i,
                forall|k: int| 0 <= k < i ==> (#[trigger] species@[k])@ == self@[k].0@,
            decreases entries.len() - i,
        {
            species.push(entries[i].0.clone());
            i += 1;
        }
        species
    }

    /// The composition that the independence of the positions gives: for each
    /// species one row for each ordered triple of its fatty acids, with the
    /// product of the percentage at sn-1,3 of the first fatty acid, of that
    /// at sn-2 of the second, of that at sn-1,3 of the third and of one
    /// ten-thousandth. The multiplication of two quantities is the caller's:
    /// `arithmetic` is asked three times for each row, from left to right.
    ///
    /// A percentage that a profile lacks counts as zero, so that every
    /// fatty acid has its rows whatever its profile holds; `validate` tells
    /// whether a profile lacks one.
    pub fn output<A: Fn(Operation, Value, Value) -> Value>(&self, arithmetic: A) -> (output: Output)
        requires
            forall|operation: Operation, a: Value, b: Value| arithmetic.requires((operation, a, b)),
            countable(self@),
        ensures
            derived_all(multiplying_of(arithmetic), self@, output@),
    {
        let species = self.species.entries();
        let mut derived_species: Vec<(Specie, OrderedMap<Tags, Value>)> = Vec::new();
        let mut i: usize = 0;
        while i < species.len()
            invariant
                i <= species.len(),
                self@ == sheet_of(species@),
                distinct(species@),
                forall|operation: Operation, a: Value, b: Value| arithmetic.requires((operation, a, b)),
                forall|k: int|
                    0 <= k < self@.len() ==> cube((#[trigger] self@[k]).1.len() as int)
                        <= usize::MAX,
                derived_species@.len() == i,
                forall|k: int|
                    0 <= k < i ==> (#[trigger] derived_species@[k]).0@ == self@[k].0@ && derived(
                        multiplying_of(arithmetic),
                        self@[k].1,
                        derived_species@[k].1@,
                    ),
            decreases species.len() - i,
        {
            let profiles = species[i].1.entries();
            proof {
                assert(cube(self@[i as int].1.len() as int) <= usize::MAX);
            }
            let rows = derive_rows(profiles, &arithmetic);
            derived_species.push((species[i].0.clone(), rows));
            i += 1;
        }
        proof {
            assert forall|k: int, l: int| 0 <= k < l < derived_species@.len() implies (
            #[trigger] derived_species@[k]).0@ != (#[trigger] derived_species@[l]).0@ by {
                assert(species@[k].0@ != species@[l].0@);
                assert(self@[k].0 == species@[k].0);
                assert(self@[l].0 == species@[l].0);
            }
        }
        Output::new(OrderedMap::from_distinct(derived_species))
    }
}

/// The composition is what the derivation makes of the distributions: the
/// same species in the same order, each with the rows derived from its fatty
/// acids.
pub open spec fn derived_all(multiplies: Multiplying, sheet: Sheet, table: Table) -> bool {
    &&& table.len() == sheet.len()
    &&& forall|i: int|
        0 <= i < sheet.len() ==> (#[trigger] table[i]).0@ == sheet[i].0@ && derived(
            multiplies,
            sheet[i].1,
            table[i].1,
        )
}

/// The rows derived from the fatty acids of one species.
fn derive_rows<A: Fn(Operation, Value, Value) -> Value>(
    profiles: &Vec<(String, Vec<Value>)>,
    arithmetic: &A,
) -> (rows: OrderedMap<Tags, Value>)
    requires
        distinct(profiles@),
        cube(profiles@.len() as int) <= usize::MAX,
        forall|operation: Operation, a: Value, b: Value| arithmetic.requires((operation, a, b)),
    ensures
        derived(multiplying_of(*arithmetic), profiles@, rows@),
{
    let n = profiles.len();
    let triples = index_triples(n);
    let mut rows: Vec<(Tags, Value)> = Vec::new();
    let mut t: usize = 0;
    while t < triples.len()
        invariant
            t <= triples.len(),
            n == profiles@.len(),
            triples@.len() == cube(n as int),
            forall|u: int|
                0 <= u < triples@.len() ==> (#[trigger] triples@[u])@ == seq![
                    first(u, n as int) as usize,
                    second(u, n as int) as usize,
                    third(u, n as int) as usize,
                ],
            forall|operation: Operation, a: Value, b: Value| arithmetic.requires((operation, a, b)),
            rows@.len() == t,
            forall|u: int|
                0 <= u < t ==> {
                    &&& (#[trigger] rows@[u]).0@ == seq![candidate(profiles@, u)]
                    &&& abundance(
                        multiplying_of(*arithmetic),
                        value_at(profiles@[first(u, n as int)].1, 0),
                        value_at(profiles@[second(u, n as int)].1, 1),
                        value_at(profiles@[third(u, n as int)].1, 0),
                        rows@[u].1,
                    )
                },
        decreases triples.len() - t,
    {
        proof {
            lemma_triple_bounds(t as int, n as int);
        }
        let triple = &triples[t];
        assert(triple@ == seq![
            first(t as int, n as int) as usize,
            second(t as int, n as int) as usize,
            third(t as int, n as int) as usize,
        ]);
        let a = triple[0];
        let b = triple[1];
        let c = triple[2];
        let tag = Tag::new([profiles[a].0.clone(), profiles[b].0.clone(), profiles[c].0.clone()]);
        let sn1 = percentage(&profiles[a].1, 0);
        let sn2 = percentage(&profiles[b].1, 1);
        let sn3 = percentage(&profiles[c].1, 0);
        let one = arithmetic(Operation::Times, sn1, sn2);
        let two = arithmetic(Operation::Times, one, sn3);
        let value = arithmetic(Operation::Times, two, Value::from_bits(SCALE));
        assert(abundance_via(multiplying_of(*arithmetic), sn1, sn2, sn3, one, two, value));
        rows.push((Tags::singleton(tag), value));
        t += 1;
    }
    proof {
        assert forall|u: int, v: int| 0 <= u < v < rows@.len() implies (#[trigger] rows@[u]).0@ != (
        #[trigger] rows@[v]).0@ by {
            lemma_candidates_differ(profiles@, u, v);
            assert(seq![candidate(profiles@, u)][0] == candidate(profiles@, u));
            assert(seq![candidate(profiles@, v)][0] == candidate(profiles@, v));
        }
    }
    OrderedMap::from_distinct(rows)
}

/// Triples with different numbers are different triacylglycerols, the names
/// of the fatty acids being distinct.
pub proof fn lemma_candidates_differ(profiles: Profiles, u: int, v: int)
    requires
        distinct(profiles),
        0 <= u < cube(profiles.len() as int),
        0 <= v < cube(profiles.len() as int),
        u != v,
    ensures
        candidate(profiles, u) != candidate(profiles, v),
{
    let n = profiles.len() as int;
    lemma_triple_bounds(u, n);
    lemma_triple_bounds(v, n);
    if candidate(profiles, u) == candidate(profiles, v) {
        lemma_same_name(profiles, first(u, n), first(v, n));
        lemma_same_name(profiles, second(u, n), second(v, n));
        lemma_same_name(profiles, third(u, n), third(v, n));
        lemma_triple_injective(u, v, n);
    }
}

/// Among distinct species the place of a species is the one place where it
/// is.
proof fn lemma_sheet_place(
    entries: Seq<(Specie, OrderedMap<String, Vec<Value>>)>,
    specie: Seq<Seq<char>>,
    at: int,
)
    requires
        distinct(entries),
        0 <= at < entries.len(),
        entries[at].0@ == specie,
    ensures
        has_key(sheet_of(entries), specie),
        place_of(sheet_of(entries), specie) == at,
{
    let sheet = sheet_of(entries);
    assert(sheet[at].0@ == specie);
    let found = place_of(sheet, specie);
    assert(sheet[found].0 == entries[found].0);
    if found < at {
        assert(entries[found].0@ != entries[at].0@);
    } else if at < found {
        assert(entries[at].0@ != entries[found].0@);
    }
}

/// Among distinct names, two places with the same name are one place.
proof fn lemma_same_name(profiles: Profiles, i: int, j: int)
    requires
        distinct(profiles),
        0 <= i < profiles.len(),
        0 <= j < profiles.len(),
        profiles[i].0@ == profiles[j].0@,
    ensures
        i == j,
{
    if i < j {
        assert(profiles[i].0@ != profiles[j].0@);
    } else if j < i {
        assert(profiles[j].0@ != profiles[i].0@);
    }
}

} // verus!
