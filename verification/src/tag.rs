//! Triacylglycerols: one fatty acid at each of the three positions of the
//! glycerol, sets of them that are reported together, and patterns that
//! select them.

use crate::order::{
    agree_upto, lemma_lex_differ_at, lemma_lex_prefix, lex_lt, strict_total,
};
use crate::text::{
    join, join_strings, lemma_text_lt_connected, lemma_text_lt_irreflexive,
    lemma_text_lt_transitive, str_lt, text_lt, texts,
};
use vstd::prelude::*;

verus! {

/// What a triacylglycerol is: the fatty acids at sn-1, sn-2 and sn-3.
pub type TagSpec = (Seq<char>, Seq<char>, Seq<char>);

/// What a pattern is: for each position, the fatty acid asked for there, if
/// any.
pub type PatternSpec = (Option<Seq<char>>, Option<Seq<char>>, Option<Seq<char>>);

/// The same fatty acids with sn-1 and sn-3 exchanged.
pub open spec fn reversed(tag: TagSpec) -> TagSpec {
    (tag.2, tag.1, tag.0)
}

/// Strict order on triacylglycerols: by sn-1, then sn-2, then sn-3.
pub open spec fn tag_lt(a: TagSpec, b: TagSpec) -> bool {
    ||| text_lt(a.0, b.0)
    ||| a.0 == b.0 && text_lt(a.1, b.1)
    ||| a.0 == b.0 && a.1 == b.1 && text_lt(a.2, b.2)
}

/// The order on triacylglycerols, as a relation.
pub open spec fn tag_order() -> spec_fn(TagSpec, TagSpec) -> bool {
    |a: TagSpec, b: TagSpec| tag_lt(a, b)
}

/// Strict order on sets of triacylglycerols: lexicographic over their members
/// in ascending order.
pub open spec fn tags_lt(a: Seq<TagSpec>, b: Seq<TagSpec>) -> bool {
    lex_lt(tag_order(), a, b)
}

/// Each member comes strictly before the next one.
pub open spec fn ascending(tags: Seq<TagSpec>) -> bool {
    forall|i: int, j: int| 0 <= i < j < tags.len() ==> tag_lt(#[trigger] tags[i], #[trigger] tags[j])
}

/// Whether a position of a pattern lets a fatty acid through.
pub open spec fn slot_admits(slot: Option<Seq<char>>, fatty_acid: Seq<char>) -> bool {
    match slot {
        Some(wanted) => wanted == fatty_acid,
        None => true,
    }
}

/// Whether a triacylglycerol matches a pattern: at every position where the
/// pattern names a fatty acid, the triacylglycerol holds that one.
pub open spec fn tag_matches(tag: TagSpec, pattern: PatternSpec) -> bool {
    &&& slot_admits(pattern.0, tag.0)
    &&& slot_admits(pattern.1, tag.1)
    &&& slot_admits(pattern.2, tag.2)
}

/// Whether some member of a set matches a pattern.
pub open spec fn any_matches(tags: Seq<TagSpec>, pattern: PatternSpec) -> bool {
    exists|i: int| 0 <= i < tags.len() && tag_matches(#[trigger] tags[i], pattern)
}

/// Triacylglycerols are strictly and totally ordered.
pub proof fn lemma_tag_order()
    ensures
        strict_total(tag_order()),
{
    let lt = tag_order();
    assert forall|a: TagSpec| !#[trigger] lt(a, a) by {
        lemma_text_lt_irreflexive(a.0);
        lemma_text_lt_irreflexive(a.1);
        lemma_text_lt_irreflexive(a.2);
    }
    assert forall|a: TagSpec, b: TagSpec, c: TagSpec| #[trigger] lt(a, b) && #[trigger] lt(
        b,
        c,
    ) implies lt(a, c) by {
        if text_lt(a.0, b.0) && text_lt(b.0, c.0) {
            lemma_text_lt_transitive(a.0, b.0, c.0);
        }
        if text_lt(a.1, b.1) && text_lt(b.1, c.1) {
            lemma_text_lt_transitive(a.1, b.1, c.1);
        }
        if text_lt(a.2, b.2) && text_lt(b.2, c.2) {
            lemma_text_lt_transitive(a.2, b.2, c.2);
        }
    }
    assert forall|a: TagSpec, b: TagSpec| a != b implies #[trigger] lt(a, b) || lt(b, a) by {
        if a.0 != b.0 {
            lemma_text_lt_connected(a.0, b.0);
        } else if a.1 != b.1 {
            lemma_text_lt_connected(a.1, b.1);
        } else {
            assert(a.2 != b.2);
            lemma_text_lt_connected(a.2, b.2);
        }
    }
}

pub proof fn lemma_tag_lt_irreflexive(a: TagSpec)
    ensures
        !tag_lt(a, a),
{
    lemma_tag_order();
    assert(!tag_order()(a, a));
}

pub proof fn lemma_tag_lt_transitive(a: TagSpec, b: TagSpec, c: TagSpec)
    requires
        tag_lt(a, b),
        tag_lt(b, c),
    ensures
        tag_lt(a, c),
{
    lemma_tag_order();
    assert(tag_order()(a, b) && tag_order()(b, c));
    assert(tag_order()(a, c));
}

pub proof fn lemma_tag_lt_connected(a: TagSpec, b: TagSpec)
    requires
        a != b,
    ensures
        tag_lt(a, b) || tag_lt(b, a),
{
    lemma_tag_order();
    assert(tag_order()(a, b) || tag_order()(b, a));
}

/// A triacylglycerol: the fatty acids at sn-1, sn-2 and sn-3.
#[derive(Debug, Default, PartialEq, Eq, PartialOrd, Ord, Hash)]
pub struct Tag {
    fatty_acids: [String; 3],
}

impl View for Tag {
    type V = TagSpec;

    closed spec fn view(&self) -> TagSpec {
        (self.fatty_acids@[0]@, self.fatty_acids@[1]@, self.fatty_acids@[2]@)
    }
}

impl Clone for Tag {
    fn clone(&self) -> (tag: Self)
        ensures
            tag@ == self@,
    {
        Tag {
            fatty_acids: [
                self.fatty_acids[0].clone(),
                self.fatty_acids[1].clone(),
                self.fatty_acids[2].clone(),
            ],
        }
    }
}

impl Tag {
    pub fn new(fatty_acids: [String; 3]) -> (tag: Self)
        ensures
            tag@ == (fatty_acids@[0]@, fatty_acids@[1]@, fatty_acids@[2]@),
    {
        Tag { fatty_acids }
    }

    /// The triacylglycerol of the first three names; a position for which
    /// there is no name holds the empty name.
    pub fn from_iter(names: &Vec<String>) -> (tag: Self)
        ensures
            tag@.0 == (if names.len() > 0 { names[0]@ } else { Seq::<char>::empty() }),
            tag@.1 == (if names.len() > 1 { names[1]@ } else { Seq::<char>::empty() }),
            tag@.2 == (if names.len() > 2 { names[2]@ } else { Seq::<char>::empty() }),
    {
        let one = if names.len() > 0 { names[0].clone() } else { String::new() };
        let two = if names.len() > 1 { names[1].clone() } else { String::new() };
        let three = if names.len() > 2 { names[2].clone() } else { String::new() };
        Tag { fatty_acids: [one, two, three] }
    }

    /// The same fatty acids with sn-1 and sn-3 exchanged.
    pub fn reverse(self) -> (tag: Self)
        ensures
            tag@ == reversed(self@),
    {
        let one = self.fatty_acids[0].clone();
        let two = self.fatty_acids[1].clone();
        let three = self.fatty_acids[2].clone();
        Tag { fatty_acids: [three, two, one] }
    }

    /// The fatty acids at sn-1, sn-2 and sn-3.
    pub fn fatty_acids(&self) -> (fatty_acids: &[String; 3])
        ensures
            self@ == (fatty_acids@[0]@, fatty_acids@[1]@, fatty_acids@[2]@),
    {
        &self.fatty_acids
    }

    /// The three names one after the other.
    pub fn to_string(&self) -> (text: String)
        ensures
            text@ == name(self@),
    {
        let mut text = self.fatty_acids[0].clone();
        text.append(self.fatty_acids[1].as_str());
        text.append(self.fatty_acids[2].as_str());
        text
    }

    /// Whether both hold the same fatty acids at the same positions.
    pub fn same(&self, other: &Tag) -> (r: bool)
        ensures
            r == (self@ == other@),
    {
        self.fatty_acids[0] == other.fatty_acids[0] && self.fatty_acids[1] == other.fatty_acids[1]
            && self.fatty_acids[2] == other.fatty_acids[2]
    }

    /// Whether `self` comes strictly before `other`.
    pub fn lt(&self, other: &Tag) -> (r: bool)
        ensures
            r == tag_lt(self@, other@),
    {
        proof {
            lemma_text_lt_irreflexive(self@.0);
            lemma_text_lt_irreflexive(self@.1);
            lemma_text_lt_irreflexive(self@.2);
        }
        if self.fatty_acids[0] != other.fatty_acids[0] {
            str_lt(self.fatty_acids[0].as_str(), other.fatty_acids[0].as_str())
        } else if self.fatty_acids[1] != other.fatty_acids[1] {
            str_lt(self.fatty_acids[1].as_str(), other.fatty_acids[1].as_str())
        } else {
            str_lt(self.fatty_acids[2].as_str(), other.fatty_acids[2].as_str())
        }
    }

    /// Whether the triacylglycerol matches the pattern.
    pub fn matches(&self, pattern: &Pattern) -> (r: bool)
        ensures
            r == tag_matches(self@, pattern@),
    {
        let mut index: usize = 0;
        while index < 3
            invariant
                index <= 3,
                forall|i: int| 0 <= i < index ==> slot_admits(pattern.slot(i), self.at(i)),
            decreases 3 - index,
        {
            if let Some(fatty_acid) = &pattern.fatty_acids[index] {
                if *fatty_acid != self.fatty_acids[index] {
                    assert(!slot_admits(pattern.slot(index as int), self.at(index as int)));
                    return false;
                }
            }
            index += 1;
        }
        assert(slot_admits(pattern.slot(0), self.at(0)));
        assert(slot_admits(pattern.slot(1), self.at(1)));
        assert(slot_admits(pattern.slot(2), self.at(2)));
        true
    }

    /// The fatty acid at position `i`, counted from 0.
    closed spec fn at(&self, i: int) -> Seq<char> {
        self.fatty_acids@[i]@
    }
}

/// For each position the fatty acid asked for there, if any.
#[derive(Debug, Default)]
pub struct Pattern {
    pub fatty_acids: [Option<String>; 3],
}

impl View for Pattern {
    type V = PatternSpec;

    open spec fn view(&self) -> PatternSpec {
        (self.slot(0), self.slot(1), self.slot(2))
    }
}

impl Clone for Pattern {
    fn clone(&self) -> (pattern: Self)
        ensures
            pattern@ == self@,
    {
        let one = match &self.fatty_acids[0] {
            Some(fatty_acid) => Some(fatty_acid.clone()),
            None => None,
        };
        let two = match &self.fatty_acids[1] {
            Some(fatty_acid) => Some(fatty_acid.clone()),
            None => None,
        };
        let three = match &self.fatty_acids[2] {
            Some(fatty_acid) => Some(fatty_acid.clone()),
            None => None,
        };
        Pattern { fatty_acids: [one, two, three] }
    }
}

impl Pattern {
    /// What the pattern asks for at position `i`, counted from 0.
    pub open spec fn slot(&self, i: int) -> Option<Seq<char>> {
        match self.fatty_acids@[i] {
            Some(fatty_acid) => Some(fatty_acid@),
            None => None,
        }
    }

    pub fn new(fatty_acids: [Option<String>; 3]) -> (pattern: Self)
        ensures
            pattern.fatty_acids == fatty_acids,
    {
        Pattern { fatty_acids }
    }
}

/// The names of the fatty acids of each triacylglycerol in turn: three for
/// each.
pub open spec fn flat(tags: Seq<TagSpec>) -> Seq<Seq<char>>
    decreases tags.len(),
{
    if tags.len() == 0 {
        Seq::empty()
    } else {
        flat(tags.drop_last()).push(tags.last().0).push(tags.last().1).push(tags.last().2)
    }
}

/// There are three names for each triacylglycerol.
pub proof fn lemma_flat_len(tags: Seq<TagSpec>)
    ensures
        flat(tags).len() == 3 * tags.len(),
    decreases tags.len(),
{
    if tags.len() > 0 {
        lemma_flat_len(tags.drop_last());
    }
}

/// The names in turn tell which triacylglycerols they are the names of.
pub proof fn lemma_flat_injective(a: Seq<TagSpec>, b: Seq<TagSpec>)
    requires
        flat(a) == flat(b),
    ensures
        a == b,
    decreases a.len(),
{
    lemma_flat_len(a);
    lemma_flat_len(b);
    if a.len() == 0 {
        assert(a =~= b);
    } else {
        let fa = flat(a.drop_last());
        let fb = flat(b.drop_last());
        lemma_flat_len(a.drop_last());
        lemma_flat_len(b.drop_last());
        let n = flat(a).len() as int;
        assert(flat(a)[n - 3] == a.last().0);
        assert(flat(a)[n - 2] == a.last().1);
        assert(flat(a)[n - 1] == a.last().2);
        assert(flat(b)[n - 3] == b.last().0);
        assert(flat(b)[n - 2] == b.last().1);
        assert(flat(b)[n - 1] == b.last().2);
        assert(fa =~= flat(a).subrange(0, n - 3));
        assert(fb =~= flat(b).subrange(0, n - 3));
        lemma_flat_injective(a.drop_last(), b.drop_last());
        assert(a =~= a.drop_last().push(a.last()));
        assert(b =~= b.drop_last().push(b.last()));
    }
}

/// What each triacylglycerol of a sequence is.
pub open spec fn views(tags: Seq<Tag>) -> Seq<TagSpec> {
    tags.map_values(|tag: Tag| tag@)
}

/// Both sequences hold the same triacylglycerols.
pub open spec fn same_members(a: Seq<TagSpec>, b: Seq<TagSpec>) -> bool {
    forall|tag: TagSpec| a.contains(tag) <==> b.contains(tag)
}

/// Puts `tag` at its place in an ascending vector, unless it is there.
fn insert_ascending(tags: &mut Vec<Tag>, tag: Tag)
    requires
        ascending(views(old(tags)@)),
    ensures
        ascending(views(final(tags)@)),
        forall|other: TagSpec|
            views(final(tags)@).contains(other) <==> (views(old(tags)@).contains(other) || other
                == tag@),
{
    let ghost before = views(tags@);
    let mut at: usize = 0;
    while at < tags.len() && tags[at].lt(&tag)
        invariant
            at <= tags.len(),
            tags@ == old(tags)@,
            before == views(tags@),
            forall|j: int| 0 <= j < at ==> tag_lt(#[trigger] before[j], tag@),
        decreases tags.len() - at,
    {
        assert(before[at as int] == tags@[at as int]@);
        at += 1;
    }
    if at < tags.len() && tags[at].same(&tag) {
        assert(before[at as int] == tag@);
        assert(before.contains(tag@));
        return ;
    }
    proof {
        if at < tags.len() {
            lemma_tag_lt_connected(tag@, before[at as int]);
        }
        assert forall|j: int| at <= j < before.len() implies tag_lt(tag@, #[trigger] before[j]) by {
            if j > at {
                assert(tag_lt(before[at as int], before[j]));
                lemma_tag_lt_transitive(tag@, before[at as int], before[j]);
            }
        }
    }
    tags.insert(at, tag);
    proof {
        let after = views(tags@);
        assert(after =~= before.insert(at as int, tag@));
        assert forall|i: int, j: int| 0 <= i < j < after.len() implies tag_lt(
            #[trigger] after[i],
            #[trigger] after[j],
        ) by {
            if i < at && j > at {
                assert(tag_lt(before[i], before[j - 1]));
            } else if i > at {
                assert(tag_lt(before[i - 1], before[j - 1]));
            } else if j < at {
                assert(tag_lt(before[i], before[j]));
            }
        }
        assert forall|other: TagSpec|
            after.contains(other) <==> (before.contains(other) || other == tag@) by {
            if after.contains(other) {
                let k = choose|k: int| 0 <= k < after.len() && after[k] == other;
                if k < at {
                    assert(before[k] == other);
                } else if k > at {
                    assert(before[k - 1] == other);
                }
            }
            if before.contains(other) {
                let k = choose|k: int| 0 <= k < before.len() && before[k] == other;
                if k < at {
                    assert(after[k] == other);
                } else {
                    assert(after[k + 1] == other);
                }
            }
            if other == tag@ {
                assert(after[at as int] == other);
            }
        }
    }
}

/// A set of triacylglycerols that are reported together, kept in ascending
/// order.
#[derive(Debug, Default, PartialEq, Eq, PartialOrd, Ord, Hash)]
pub struct Tags {
    tags: Vec<Tag>,
}

impl View for Tags {
    type V = Seq<TagSpec>;

    closed spec fn view(&self) -> Seq<TagSpec> {
        views(self.tags@)
    }
}

impl Clone for Tags {
    fn clone(&self) -> (tags: Self)
        ensures
            tags@ == self@,
    {
        proof {
            use_type_invariant(self);
        }
        let mut tags: Vec<Tag> = Vec::new();
        let mut i: usize = 0;
        while i < self.tags.len()
            invariant
                i <= self.tags.len(),
                views(tags@) == views(self.tags@).subrange(0, i as int),
            decreases self.tags.len() - i,
        {
            let ghost before = views(tags@);
            tags.push(self.tags[i].clone());
            assert(views(tags@) =~= before.push(self.tags@[i as int]@));
            assert(views(tags@) =~= views(self.tags@).subrange(0, i + 1));
            i += 1;
        }
        assert(views(tags@) =~= views(self.tags@));
        Tags { tags }
    }
}

impl Tags {
    /// The members come in ascending order, none twice.
    #[verifier::type_invariant]
    pub closed spec fn ordered(self) -> bool {
        ascending(views(self.tags@))
    }

    /// The set of the given triacylglycerols.
    pub fn new(tags: Vec<Tag>) -> (set: Self)
        ensures
            ascending(set@),
            same_members(set@, views(tags@)),
    {
        let ghost given = views(tags@);
        let mut members: Vec<Tag> = Vec::new();
        let mut i: usize = 0;
        while i < tags.len()
            invariant
                i <= tags.len(),
                given == views(tags@),
                ascending(views(members@)),
                forall|tag: TagSpec|
                    views(members@).contains(tag) <==> given.subrange(0, i as int).contains(tag),
            decreases tags.len() - i,
        {
            let ghost before = views(members@);
            insert_ascending(&mut members, tags[i].clone());
            proof {
                let upto = given.subrange(0, i as int);
                let next = given.subrange(0, i + 1);
                assert(next =~= upto.push(given[i as int]));
                assert forall|tag: TagSpec|
                    views(members@).contains(tag) <==> next.contains(tag) by {
                    if upto.contains(tag) {
                        let k = choose|k: int| 0 <= k < upto.len() && upto[k] == tag;
                        assert(next[k] == tag);
                    }
                    if tag == given[i as int] {
                        assert(next[i as int] == tag);
                    }
                    if next.contains(tag) {
                        let k = choose|k: int| 0 <= k < next.len() && next[k] == tag;
                        if k < i {
                            assert(upto[k] == tag);
                        }
                    }
                }
            }
            i += 1;
        }
        assert(given.subrange(0, i as int) =~= given);
        Tags { tags: members }
    }

    /// The set of one triacylglycerol.
    pub fn singleton(tag: Tag) -> (set: Self)
        ensures
            set@ == seq![tag@],
    {
        let mut tags: Vec<Tag> = Vec::new();
        tags.push(tag);
        assert(views(tags@) =~= seq![tag@]);
        Tags { tags }
    }

    /// How many members the set has.
    pub fn len(&self) -> (n: usize)
        ensures
            n == self@.len(),
            ascending(self@),
    {
        proof {
            use_type_invariant(self);
        }
        self.tags.len()
    }

    /// The names of the fatty acids of each member in turn: three for each
    /// member, the members in ascending order.
    pub fn names(&self) -> (names: Vec<String>)
        ensures
            texts(names@) == flat(self@),
    {
        let mut names: Vec<String> = Vec::new();
        let mut i: usize = 0;
        assert(self@.subrange(0, 0) =~= Seq::<TagSpec>::empty());
        assert(texts(names@) =~= flat(self@.subrange(0, 0)));
        while i < self.tags.len()
            invariant
                i <= self.tags.len(),
                self@ == views(self.tags@),
                texts(names@) == flat(self@.subrange(0, i as int)),
            decreases self.tags.len() - i,
        {
            let ghost before = texts(names@);
            let ghost next = self@.subrange(0, i + 1);
            let fatty_acids = self.tags[i].fatty_acids();
            names.push(fatty_acids[0].clone());
            names.push(fatty_acids[1].clone());
            names.push(fatty_acids[2].clone());
            proof {
                assert(next.drop_last() =~= self@.subrange(0, i as int));
                assert(next.last() == self@[i as int]);
                assert(texts(names@) =~= before.push(next.last().0).push(next.last().1).push(
                    next.last().2,
                ));
            }
            i += 1;
        }
        assert(self@.subrange(0, i as int) =~= self@);
        names
    }

    /// The members in ascending order.
    pub fn members(&self) -> (members: &Vec<Tag>)
        ensures
            views(members@) == self@,
            ascending(self@),
    {
        proof {
            use_type_invariant(self);
        }
        &self.tags
    }

    /// The member at place `i` of the ascending order.
    pub fn get(&self, i: usize) -> (tag: &Tag)
        requires
            i < self@.len(),
        ensures
            tag@ == self@[i as int],
    {
        &self.tags[i]
    }

    /// Whether both sets hold the same members.
    pub fn same(&self, other: &Tags) -> (r: bool)
        ensures
            r == (self@ == other@),
    {
        if self.tags.len() != other.tags.len() {
            return false;
        }
        let mut i: usize = 0;
        while i < self.tags.len()
            invariant
                i <= self.tags.len(),
                self.tags.len() == other.tags.len(),
                agree_upto(self@, other@, i as int),
            decreases self.tags.len() - i,
        {
            if !self.tags[i].same(&other.tags[i]) {
                assert(self@[i as int] != other@[i as int]);
                return false;
            }
            i += 1;
        }
        assert(self@ =~= other@);
        true
    }

    /// Whether `self` comes strictly before `other`.
    pub fn lt(&self, other: &Tags) -> (r: bool)
        ensures
            r == tags_lt(self@, other@),
    {
        proof {
            lemma_tag_order();
        }
        let mut i: usize = 0;
        while i < self.tags.len() && i < other.tags.len()
            invariant
                agree_upto(self@, other@, i as int),
                strict_total(tag_order()),
            decreases self.tags.len() - i,
        {
            if !self.tags[i].same(&other.tags[i]) {
                proof {
                    lemma_lex_differ_at(tag_order(), self@, other@, i as int);
                }
                return self.tags[i].lt(&other.tags[i]);
            }
            i += 1;
        }
        proof {
            lemma_lex_prefix(tag_order(), self@, other@, i as int);
        }
        self.tags.len() < other.tags.len()
    }

    /// Whether some member matches the pattern.
    pub fn matches(&self, pattern: &Pattern) -> (r: bool)
        ensures
            r == any_matches(self@, pattern@),
    {
        let mut i: usize = 0;
        while i < self.tags.len()
            invariant
                i <= self.tags.len(),
                forall|j: int| 0 <= j < i ==> !tag_matches(#[trigger] self@[j], pattern@),
            decreases self.tags.len() - i,
        {
            if self.tags[i].matches(pattern) {
                assert(tag_matches(self@[i as int], pattern@));
                return true;
            }
            i += 1;
        }
        false
    }

    /// The members, and with each member the same fatty acids with sn-1 and
    /// sn-3 exchanged.
    pub fn with_reversed(&self) -> (set: Self)
        ensures
            ascending(set@),
            forall|tag: TagSpec|
                set@.contains(tag) <==> (self@.contains(tag) || self@.contains(reversed(tag))),
    {
        let mut both: Vec<Tag> = Vec::new();
        let mut i: usize = 0;
        while i < self.tags.len()
            invariant
                i <= self.tags.len(),
                self@ == views(self.tags@),
                ascending(views(both@)),
                forall|tag: TagSpec|
                    views(both@).contains(tag) <==> either_way(self@.subrange(0, i as int), tag),
            decreases self.tags.len() - i,
        {
            let ghost upto = self@.subrange(0, i as int);
            let ghost next = self@.subrange(0, i + 1);
            let ghost before = views(both@);
            let ghost member = self@[i as int];
            insert_ascending(&mut both, self.tags[i].clone());
            let ghost between = views(both@);
            insert_ascending(&mut both, self.tags[i].clone().reverse());
            proof {
                assert(next =~= upto.push(member));
                assert forall|tag: TagSpec|
                    views(both@).contains(tag) <==> either_way(next, tag) by {
                    assert(views(both@).contains(tag) <==> (before.contains(tag) || tag == member
                        || tag == reversed(member)));
                    assert(next.last() == member);
                    if upto.contains(tag) {
                        let k = choose|k: int| 0 <= k < upto.len() && upto[k] == tag;
                        assert(next[k] == tag);
                    }
                    if upto.contains(reversed(tag)) {
                        let k = choose|k: int| 0 <= k < upto.len() && upto[k] == reversed(tag);
                        assert(next[k] == reversed(tag));
                    }
                    if tag == member {
                        assert(next[i as int] == tag);
                    }
                    if tag == reversed(member) {
                        assert(next[i as int] == reversed(tag));
                    }
                    if next.contains(tag) {
                        let k = choose|k: int| 0 <= k < next.len() && next[k] == tag;
                        if k < i {
                            assert(upto[k] == tag);
                        }
                    }
                    if next.contains(reversed(tag)) {
                        let k = choose|k: int| 0 <= k < next.len() && next[k] == reversed(tag);
                        if k < i {
                            assert(upto[k] == reversed(tag));
                        }
                    }
                }
            }
            i += 1;
        }
        assert(self@.subrange(0, i as int) =~= self@);
        Tags { tags: both }
    }

    /// The members in ascending order, each as its three names one after the
    /// other, with a comma and a space between members.
    pub fn to_string(&self) -> (text: String)
        ensures
            text@ == join(names(self@), seq![',', ' ']),
    {
        let mut parts: Vec<String> = Vec::new();
        let mut index: usize = 0;
        while index < self.tags.len()
            invariant
                index <= self.tags.len(),
                self@ == views(self.tags@),
                texts(parts@) == names(self@).subrange(0, index as int),
            decreases self.tags.len() - index,
        {
            let ghost before = texts(parts@);
            parts.push(self.tags[index].to_string());
            assert(texts(parts@) =~= before.push(name(self@[index as int])));
            assert(texts(parts@) =~= names(self@).subrange(0, index + 1));
            index += 1;
        }
        assert(names(self@).subrange(0, index as int) =~= names(self@));
        proof {
            reveal_strlit(", ");
            assert(", "@ =~= seq![',', ' ']);
        }
        join_strings(&parts, ", ")
    }
}

/// The three names of a triacylglycerol one after the other.
pub open spec fn name(tag: TagSpec) -> Seq<char> {
    tag.0 + tag.1 + tag.2
}

/// The name of each triacylglycerol of a sequence.
pub open spec fn names(tags: Seq<TagSpec>) -> Seq<Seq<char>> {
    tags.map_values(|tag: TagSpec| name(tag))
}

/// Whether `tags` holds `tag` or the same fatty acids with sn-1 and sn-3
/// exchanged.
pub open spec fn either_way(tags: Seq<TagSpec>, tag: TagSpec) -> bool {
    tags.contains(tag) || tags.contains(reversed(tag))
}

} // verus!
