//! The positions of the glycerol that a percentage can speak of.

use crate::error::Error;
use crate::text::str_eq;
use vstd::prelude::*;

verus! {

/// A position, or a pool of positions, of the glycerol.
#[derive(Clone, Copy, Debug, PartialEq, Eq, Structural)]
pub enum Position {
    /// All three positions together.
    SnOneTwoThree,
    /// The secondary position.
    SnTwo,
    /// The two primary positions together.
    SnOneThree,
}

impl Position {
    /// The position that a key of a document names.
    pub open spec fn parse(text: Seq<char>) -> Option<Position> {
        if text == "sn-123"@ {
            Some(Position::SnOneTwoThree)
        } else if text == "sn-13"@ {
            Some(Position::SnOneThree)
        } else if text == "sn-2"@ {
            Some(Position::SnTwo)
        } else {
            None
        }
    }

    /// The position that `from` names: "sn-123", "sn-13" or "sn-2".
    pub fn try_from(from: &str) -> (r: Result<Position, Error>)
        ensures
            match Self::parse(from@) {
                Some(position) => r == Ok::<Position, Error>(position),
                None => r is Err && r->Err_0 is InvalidPosition,
            },
    {
        if str_eq(from, "sn-123") {
            Ok(Position::SnOneTwoThree)
        } else if str_eq(from, "sn-13") {
            Ok(Position::SnOneThree)
        } else if str_eq(from, "sn-2") {
            Ok(Position::SnTwo)
        } else {
            Err(Error::InvalidPosition)
        }
    }

    /// The name of the position as it is displayed.
    pub fn to_string(&self) -> (text: String)
        ensures
            text@ == match *self {
                Position::SnOneTwoThree => "sn-1,2,3"@,
                Position::SnTwo => "sn-2"@,
                Position::SnOneThree => "sn-1,3"@,
            },
    {
        match self {
            Position::SnOneTwoThree => "sn-1,2,3".to_owned(),
            Position::SnTwo => "sn-2".to_owned(),
            Position::SnOneThree => "sn-1,3".to_owned(),
        }
    }
}

} // verus!
