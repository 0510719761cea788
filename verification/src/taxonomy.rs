//! Taxonomic paths that are held as plain lists of steps.

use crate::text::{join, join_strings, texts};
use vstd::prelude::*;

verus! {

/// What can be read as a taxonomic path.
pub trait Taxonomy {
    /// The steps of the path.
    spec fn steps(&self) -> Seq<Seq<char>>;

    /// The steps with `sep` between each two.
    fn taxonomy(&self, sep: &str) -> (text: String)
        ensures
            text@ == join(self.steps(), sep@),
    ;

    /// The last step; the empty text where there is no step.
    fn name(&self) -> (text: &str)
        ensures
            text@ == (if self.steps().len() > 0 {
                self.steps().last()
            } else {
                Seq::<char>::empty()
            }),
    ;
}

impl Taxonomy for Vec<String> {
    open spec fn steps(&self) -> Seq<Seq<char>> {
        texts(self@)
    }

    fn taxonomy(&self, sep: &str) -> (text: String) {
        join_strings(self, sep)
    }

    fn name(&self) -> (text: &str) {
        let n = self.len();
        if n > 0 {
            self[n - 1].as_str()
        } else {
            proof {
                reveal_strlit("");
                assert(""@ =~= Seq::<char>::empty());
            }
            ""
        }
    }
}

} // verus!
