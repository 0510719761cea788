//! Triplets of names, and the same with an order between the two primary
//! positions.

use crate::tag::{name, reversed, TagSpec};
use crate::text::{str_lt, text_lt};
use vstd::prelude::*;

verus! {

/// Three things at the three positions of a glycerol.
#[derive(Clone, Debug, Default, PartialEq, Eq, PartialOrd, Ord, Hash)]
pub struct Triglyceride<T>(pub [T; 3]);

impl Triglyceride<String> {
    /// The three names one after the other.
    pub fn to_string(&self) -> (text: String)
        ensures
            text@ == self.0@[0]@ + self.0@[1]@ + self.0@[2]@,
    {
        let mut text = self.0[0].clone();
        text.append(self.0[1].as_str());
        text.append(self.0[2].as_str());
        text
    }
}

/// The fatty acids at sn-1, sn-2 and sn-3.
#[derive(Debug, Default, PartialEq, Eq, PartialOrd, Ord, Hash)]
pub struct Triplet(pub [String; 3]);

impl View for Triplet {
    type V = TagSpec;

    open spec fn view(&self) -> TagSpec {
        (self.0@[0]@, self.0@[1]@, self.0@[2]@)
    }
}

/// The orientation in which sn-1 does not come after sn-3.
pub open spec fn normalized(triplet: TagSpec) -> TagSpec {
    if text_lt(triplet.2, triplet.0) {
        reversed(triplet)
    } else {
        triplet
    }
}

/// A triplet as it is displayed in full: its names and, where sn-1 and sn-3
/// differ, after a comma and a space the names in the other orientation.
pub open spec fn both_orientations(triplet: TagSpec) -> Seq<char> {
    if triplet.0 != triplet.2 {
        name(triplet) + seq![',', ' '] + name(reversed(triplet))
    } else {
        name(triplet)
    }
}

impl Triplet {
    /// Exchanges sn-1 and sn-3 where sn-1 comes after sn-3.
    pub fn normalize(self) -> (triplet: Self)
        ensures
            triplet@ == normalized(self@),
    {
        if str_lt(self.0[2].as_str(), self.0[0].as_str()) {
            let one = self.0[0].clone();
            let two = self.0[1].clone();
            let three = self.0[2].clone();
            Triplet([three, two, one])
        } else {
            self
        }
    }

    /// The three names one after the other.
    pub fn to_string(&self) -> (text: String)
        ensures
            text@ == name(self@),
    {
        let mut text = self.0[0].clone();
        text.append(self.0[1].as_str());
        text.append(self.0[2].as_str());
        text
    }

    /// The three names and, where sn-1 and sn-3 differ, the names in the
    /// other orientation.
    pub fn to_string_alternate(&self) -> (text: String)
        ensures
            text@ == both_orientations(self@),
    {
        let mut text = self.to_string();
        if self.0[0] != self.0[2] {
            proof {
                reveal_strlit(", ");
                assert(", "@ =~= seq![',', ' ']);
            }
            text.append(", ");
            text.append(self.0[2].as_str());
            text.append(self.0[1].as_str());
            text.append(self.0[0].as_str());
            assert(text@ =~= both_orientations(self@));
        }
        text
    }
}

} // verus!
