//! Maps that keep their entries in the order in which the keys came.

use crate::specie::Specie;
use crate::tag::Tags;
use vstd::prelude::*;

verus! {

/// What can be the key of an ordered map: two keys are the same key when
/// they have the same view.
pub trait Key: View + Sized {
    /// Whether both are the same key.
    fn same(&self, other: &Self) -> (r: bool)
        ensures
            r == (self@ == other@),
    ;
}

impl Key for String {
    fn same(&self, other: &Self) -> (r: bool) {
        *self == *other
    }
}

impl Key for Specie {
    fn same(&self, other: &Self) -> (r: bool) {
        Specie::same(self, other)
    }
}

impl Key for Tags {
    fn same(&self, other: &Self) -> (r: bool) {
        Tags::same(self, other)
    }
}

/// No key occurs twice.
pub open spec fn distinct<K: Key, V>(entries: Seq<(K, V)>) -> bool {
    forall|i: int, j: int|
        0 <= i < j < entries.len() ==> (#[trigger] entries[i]).0@ != (#[trigger] entries[j]).0@
}

/// Whether `key` is the key of an entry.
pub open spec fn has_key<K: Key, V>(entries: Seq<(K, V)>, key: K::V) -> bool {
    exists|i: int| 0 <= i < entries.len() && (#[trigger] entries[i]).0@ == key
}

/// The place of the first entry with that key, where there is one.
pub open spec fn place_of<K: Key, V>(entries: Seq<(K, V)>, key: K::V) -> int {
    choose|i: int| 0 <= i < entries.len() && (#[trigger] entries[i]).0@ == key
}

/// The entries after `key` got `value`: where the key was there, its entry
/// keeps its place and its key and holds the new value; else a new entry
/// comes last.
pub open spec fn with_entry<K: Key, V>(entries: Seq<(K, V)>, key: K, value: V) -> Seq<(K, V)> {
    if has_key(entries, key@) {
        let at = place_of(entries, key@);
        entries.update(at, (entries[at].0, value))
    } else {
        entries.push((key, value))
    }
}

/// The entries after each of `more` was put in turn.
pub open spec fn with_entries<K: Key, V>(entries: Seq<(K, V)>, more: Seq<(K, V)>) -> Seq<(K, V)>
    decreases more.len(),
{
    if more.len() == 0 {
        entries
    } else {
        with_entry(with_entries(entries, more.drop_last()), more.last().0, more.last().1)
    }
}

/// Putting an entry keeps the keys distinct.
pub proof fn lemma_with_entry_distinct<K: Key, V>(entries: Seq<(K, V)>, key: K, value: V)
    requires
        distinct(entries),
    ensures
        distinct(with_entry(entries, key, value)),
{
    let after = with_entry(entries, key, value);
    if has_key(entries, key@) {
        let at = place_of(entries, key@);
        assert forall|i: int, j: int| 0 <= i < j < after.len() implies (#[trigger] after[i]).0@ != (
        #[trigger] after[j]).0@ by {
            assert(after[i].0 == entries[i].0);
            assert(after[j].0 == entries[j].0);
        }
    } else {
        assert forall|i: int, j: int| 0 <= i < j < after.len() implies (#[trigger] after[i]).0@ != (
        #[trigger] after[j]).0@ by {
            assert(after[i] == entries[i]);
            if j < entries.len() {
                assert(after[j] == entries[j]);
            }
        }
    }
}

/// A map that keeps its entries in the order in which their keys first came.
#[derive(Debug)]
pub struct OrderedMap<K: Key, V> {
    entries: Vec<(K, V)>,
}

impl<K: Key, V> View for OrderedMap<K, V> {
    type V = Seq<(K, V)>;

    closed spec fn view(&self) -> Seq<(K, V)> {
        self.entries@
    }
}

impl<K: Key, V> OrderedMap<K, V> {
    /// No key occurs twice.
    #[verifier::type_invariant]
    pub closed spec fn keys_distinct(self) -> bool {
        distinct(self.entries@)
    }

    /// What `keys_distinct` says, over the view.
    pub proof fn lemma_keys_distinct(self)
        requires
            self.keys_distinct(),
        ensures
            distinct(self@),
    {
    }

    /// The map without entries.
    pub fn new() -> (map: Self)
        ensures
            map@ == Seq::<(K, V)>::empty(),
    {
        OrderedMap { entries: Vec::new() }
    }

    /// The map of the given entries, which have distinct keys.
    pub(crate) fn from_distinct(entries: Vec<(K, V)>) -> (map: Self)
        requires
            distinct(entries@),
        ensures
            map@ == entries@,
    {
        OrderedMap { entries }
    }

    /// The map that holds the entries after each was put in turn: of the
    /// entries with one key the first gives the place and the last the
    /// value.
    pub fn from_entries(entries: Vec<(K, V)>) -> (map: Self)
        ensures
            map@ == with_entries(Seq::<(K, V)>::empty(), entries@),
            distinct(map@),
    {
        let mut map = OrderedMap::new();
        let ghost empty = Seq::<(K, V)>::empty();
        for entry in it: entries
            invariant
                it.seq() == entries@,
                empty == Seq::<(K, V)>::empty(),
                map@ == with_entries(empty, it.seq().subrange(0, it.index())),
        {
            proof {
                let next = it.seq().subrange(0, it.index() + 1);
                assert(next.drop_last() =~= it.seq().subrange(0, it.index()));
                assert(next.last() == entry);
            }
            let (key, value) = entry;
            map.insert(key, value);
        }
        proof {
            assert(entries@.subrange(0, entries@.len() as int) =~= entries@);
            use_type_invariant(&map);
        }
        map
    }

    /// The entries in their order.
    pub fn into_entries(self) -> (entries: Vec<(K, V)>)
        ensures
            entries@ == self@,
            distinct(entries@),
    {
        proof {
            use_type_invariant(&self);
        }
        self.entries
    }

    /// The entries in their order.
    pub fn entries(&self) -> (entries: &Vec<(K, V)>)
        ensures
            entries@ == self@,
            distinct(entries@),
    {
        proof {
            use_type_invariant(self);
        }
        &self.entries
    }

    /// How many entries the map has.
    pub fn len(&self) -> (n: usize)
        ensures
            n == self@.len(),
            distinct(self@),
    {
        proof {
            use_type_invariant(self);
        }
        self.entries.len()
    }

    /// The key and the value at place `i`.
    pub fn get_index(&self, i: usize) -> (entry: (&K, &V))
        requires
            i < self@.len(),
        ensures
            *entry.0 == self@[i as int].0,
            *entry.1 == self@[i as int].1,
    {
        (&self.entries[i].0, &self.entries[i].1)
    }

    /// The place of the entry with that key.
    pub fn find(&self, key: &K) -> (place: Option<usize>)
        ensures
            distinct(self@),
            match place {
                Some(at) => at < self@.len() && self@[at as int].0@ == key@,
                None => !has_key(self@, key@),
            },
    {
        proof {
            use_type_invariant(self);
        }
        let mut i: usize = 0;
        while i < self.entries.len()
            invariant
                i <= self.entries.len(),
                distinct(self@),
                forall|j: int| 0 <= j < i ==> (#[trigger] self@[j]).0@ != key@,
            decreases self.entries.len() - i,
        {
            if self.entries[i].0.same(key) {
                return Some(i);
            }
            i += 1;
        }
        None
    }

    /// The value of that key.
    pub fn get(&self, key: &K) -> (value: Option<&V>)
        ensures
            match value {
                Some(value) => has_key(self@, key@) && *value == self@[place_of(self@, key@)].1,
                None => !has_key(self@, key@),
            },
    {
        match self.find(key) {
            Some(at) => {
                proof {
                    lemma_place(self@, key@, at as int);
                }
                Some(&self.entries[at].1)
            },
            None => None,
        }
    }

    /// Gives `key` the value `value`, and hands back the value that it had.
    pub fn insert(&mut self, key: K, value: V) -> (before: Option<V>)
        ensures
            final(self)@ == with_entry(old(self)@, key, value),
            match before {
                Some(before) => has_key(old(self)@, key@) && before == old(self)@[place_of(
                    old(self)@,
                    key@,
                )].1,
                None => !has_key(old(self)@, key@),
            },
    {
        proof {
            use_type_invariant(&*self);
            lemma_with_entry_distinct(self@, key, value);
        }
        let found = self.find(&key);
        let mut taken = OrderedMap::new();
        core::mem::swap(self, &mut taken);
        let mut entries = taken.into_entries();
        let before = match found {
            Some(at) => {
                proof {
                    lemma_place(entries@, key@, at as int);
                }
                let (kept, before) = entries.remove(at);
                entries.insert(at, (kept, value));
                assert(entries@ =~= with_entry(old(self)@, key, value));
                Some(before)
            },
            None => {
                entries.push((key, value));
                None
            },
        };
        *self = OrderedMap { entries };
        before
    }
}

impl<K: Key, V> OrderedMap<K, V> {
    /// Gives the entry of `from` the key `to`: the entry keeps its place and
    /// its value. Hands back the place. Nothing changes where `from` has no
    /// entry or `to` has one.
    pub fn replace(&mut self, from: &K, to: K) -> (place: Option<usize>)
        ensures
            match place {
                Some(at) => {
                    &&& has_key(old(self)@, from@)
                    &&& !has_key(old(self)@, to@)
                    &&& at == place_of(old(self)@, from@)
                    &&& final(self)@ == old(self)@.update(at as int, (to, old(self)@[at as int].1))
                },
                None => {
                    &&& final(self)@ == old(self)@
                    &&& !has_key(old(self)@, from@) || has_key(old(self)@, to@)
                },
            },
    {
        let taken = self.find(&to);
        if taken.is_some() {
            proof {
                assert(self@[taken->Some_0 as int].0@ == to@);
            }
            return None;
        }
        let found = self.find(from);
        match found {
            Some(at) => {
                let mut taken = OrderedMap::new();
                core::mem::swap(self, &mut taken);
                let mut entries = taken.into_entries();
                let ghost before = entries@;
                proof {
                    lemma_place(before, from@, at as int);
                }
                let (_, value) = entries.remove(at);
                entries.insert(at, (to, value));
                proof {
                    assert(entries@ =~= before.update(at as int, (to, before[at as int].1)));
                    assert forall|i: int, j: int| 0 <= i < j < entries@.len() implies (
                    #[trigger] entries@[i]).0@ != (#[trigger] entries@[j]).0@ by {
                        if i == at {
                            assert(before[j].0@ != to@);
                        } else if j == at {
                            assert(before[i].0@ != to@);
                        } else {
                            assert(before[i].0@ != before[j].0@);
                        }
                    }
                }
                *self = OrderedMap { entries };
                Some(at)
            },
            None => None,
        }
    }
}

/// The entries without the one at place `at`: the last entry takes its
/// place.
pub open spec fn without<K: Key, V>(entries: Seq<(K, V)>, at: int) -> Seq<(K, V)> {
    entries.update(at, entries.last()).drop_last()
}

impl<K: Key, V> OrderedMap<K, V> {
    /// Takes the entry of `key` out and hands back its value. The last entry
    /// takes the place of the one that left.
    pub fn remove(&mut self, key: &K) -> (value: Option<V>)
        ensures
            match value {
                Some(value) => {
                    &&& has_key(old(self)@, key@)
                    &&& value == old(self)@[place_of(old(self)@, key@)].1
                    &&& final(self)@ == without(old(self)@, place_of(old(self)@, key@))
                },
                None => !has_key(old(self)@, key@) && final(self)@ == old(self)@,
            },
    {
        let found = self.find(key);
        match found {
            Some(at) => {
                let mut taken = OrderedMap::new();
                core::mem::swap(self, &mut taken);
                let mut entries = taken.into_entries();
                let ghost before = entries@;
                proof {
                    lemma_place(before, key@, at as int);
                }
                let (_, value) = entries.swap_remove(at);
                proof {
                    assert forall|i: int, j: int| 0 <= i < j < entries@.len() implies (
                    #[trigger] entries@[i]).0@ != (#[trigger] entries@[j]).0@ by {
                        let last = before.len() - 1;
                        if i == at {
                            assert(before[j].0@ != before[last].0@);
                        } else if j == at {
                            assert(before[i].0@ != before[last].0@);
                        } else {
                            assert(before[i].0@ != before[j].0@);
                        }
                    }
                }
                *self = OrderedMap { entries };
                Some(value)
            },
            None => None,
        }
    }

    /// Puts `value` in the place of the value at place `at`, and hands back
    /// the value that was there.
    pub fn replace_value(&mut self, at: usize, value: V) -> (before: V)
        requires
            at < old(self)@.len(),
        ensures
            before == old(self)@[at as int].1,
            final(self)@ == old(self)@.update(at as int, (old(self)@[at as int].0, value)),
    {
        let mut taken = OrderedMap::new();
        core::mem::swap(self, &mut taken);
        let mut entries = taken.into_entries();
        let ghost held = entries@;
        let (key, before) = entries.remove(at);
        entries.insert(at, (key, value));
        proof {
            assert(entries@ =~= held.update(at as int, (held[at as int].0, value)));
            assert forall|i: int, j: int| 0 <= i < j < entries@.len() implies (
            #[trigger] entries@[i]).0@ != (#[trigger] entries@[j]).0@ by {
                assert(entries@[i].0 == held[i].0);
                assert(entries@[j].0 == held[j].0);
            }
        }
        *self = OrderedMap { entries };
        before
    }
}

/// Among distinct keys the place of a key is the one place where it is.
pub proof fn lemma_place<K: Key, V>(entries: Seq<(K, V)>, key: K::V, at: int)
    requires
        distinct(entries),
        0 <= at < entries.len(),
        entries[at].0@ == key,
    ensures
        has_key(entries, key),
        place_of(entries, key) == at,
{
    let found = place_of(entries, key);
    if found < at {
        assert(entries[found].0@ != entries[at].0@);
    } else if at < found {
        assert(entries[at].0@ != entries[found].0@);
    }
}

} // verus!
