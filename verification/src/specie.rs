//! Species: a taxonomic path whose last step names the species.

use crate::text::{join, join_strings, texts};
use vstd::prelude::*;

verus! {

/// The title-case form of a text, as the crate `inflector` writes it.
pub uninterp spec fn title_case(text: Seq<char>) -> Seq<char>;

/// Calls `inflector::cases::titlecase::to_title_case`. The contract gives
/// the result a name and claims nothing more of it: the function reads its
/// argument alone.
#[verifier::external_body]
fn to_title_case(text: &str) -> (titled: String)
    ensures
        titled@ == title_case(text@),
{
    inflector::cases::titlecase::to_title_case(text)
}

/// The title-case form of each step.
pub open spec fn titled(steps: Seq<Seq<char>>) -> Seq<Seq<char>> {
    steps.map_values(|step: Seq<char>| title_case(step))
}

/// A species, as the steps of its taxonomy from the widest rank down.
#[derive(Debug, Default, PartialEq, Eq, PartialOrd, Ord, Hash)]
pub struct Specie {
    taxonomy: Vec<String>,
}

impl View for Specie {
    type V = Seq<Seq<char>>;

    closed spec fn view(&self) -> Seq<Seq<char>> {
        texts(self.taxonomy@)
    }
}

impl Clone for Specie {
    fn clone(&self) -> (specie: Self)
        ensures
            specie@ == self@,
    {
        let mut taxonomy: Vec<String> = Vec::new();
        let mut i: usize = 0;
        while i < self.taxonomy.len()
            invariant
                i <= self.taxonomy.len(),
                texts(taxonomy@) == texts(self.taxonomy@).subrange(0, i as int),
            decreases self.taxonomy.len() - i,
        {
            let ghost before = texts(taxonomy@);
            taxonomy.push(self.taxonomy[i].clone());
            assert(texts(taxonomy@) =~= before.push(self.taxonomy@[i as int]@));
            assert(texts(taxonomy@) =~= texts(self.taxonomy@).subrange(0, i + 1));
            i += 1;
        }
        assert(texts(taxonomy@) =~= texts(self.taxonomy@));
        Specie { taxonomy }
    }
}

impl Specie {
    /// The species without a taxonomy.
    pub fn new() -> (specie: Self)
        ensures
            specie@ == Seq::<Seq<char>>::empty(),
    {
        let specie = Specie { taxonomy: Vec::new() };
        assert(specie@ =~= Seq::<Seq<char>>::empty());
        specie
    }

    /// The species of the given steps.
    pub fn from(taxonomy: Vec<String>) -> (specie: Self)
        ensures
            specie@ == texts(taxonomy@),
    {
        Specie { taxonomy }
    }

    /// The species whose steps are the given ones in title case.
    pub fn from_path(path: &Vec<String>) -> (specie: Self)
        ensures
            specie@ == titled(texts(path@)),
    {
        let mut taxonomy: Vec<String> = Vec::new();
        let mut i: usize = 0;
        while i < path.len()
            invariant
                i <= path.len(),
                texts(taxonomy@) == titled(texts(path@)).subrange(0, i as int),
            decreases path.len() - i,
        {
            let ghost before = texts(taxonomy@);
            let step = to_title_case(path[i].as_str());
            taxonomy.push(step);
            assert(texts(taxonomy@) =~= before.push(title_case(path@[i as int]@)));
            assert(texts(taxonomy@) =~= titled(texts(path@)).subrange(0, i + 1));
            i += 1;
        }
        assert(texts(taxonomy@) =~= titled(texts(path@)));
        Specie { taxonomy }
    }

    /// The steps, from the widest rank down.
    pub fn steps(&self) -> (steps: &Vec<String>)
        ensures
            texts(steps@) == self@,
    {
        &self.taxonomy
    }

    /// The steps with `sep` between each two.
    pub fn taxonomy(&self, sep: &str) -> (text: String)
        ensures
            text@ == join(self@, sep@),
    {
        join_strings(&self.taxonomy, sep)
    }

    /// The last step, which names the species; the empty text where there
    /// is no step.
    pub fn to_string(&self) -> (text: String)
        ensures
            text@ == (if self@.len() > 0 { self@.last() } else { Seq::<char>::empty() }),
    {
        let n = self.taxonomy.len();
        if n > 0 {
            self.taxonomy[n - 1].clone()
        } else {
            String::new()
        }
    }

    /// Whether both have the same steps.
    pub fn same(&self, other: &Specie) -> (r: bool)
        ensures
            r == (self@ == other@),
    {
        if self.taxonomy.len() != other.taxonomy.len() {
            assert(self@.len() != other@.len());
            return false;
        }
        let mut i: usize = 0;
        while i < self.taxonomy.len()
            invariant
                i <= self.taxonomy.len(),
                self.taxonomy.len() == other.taxonomy.len(),
                forall|j: int| 0 <= j < i ==> self@[j] == other@[j],
            decreases self.taxonomy.len() - i,
        {
            if self.taxonomy[i] != other.taxonomy[i] {
                assert(self@[i as int] != other@[i as int]);
                return false;
            }
            i += 1;
        }
        assert(self@ =~= other@);
        true
    }
}

} // verus!
