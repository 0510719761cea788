//! What the library refuses.

use crate::specie::Specie;
use crate::text::join;
use vstd::prelude::*;

verus! {

/// Why an input was refused.
#[derive(Debug)]
pub enum Error {
    /// The text names none of the positions.
    InvalidPosition,
    /// A file came without its bytes.
    MissingBytes,
    /// The bytes of a file are no text in UTF-8.
    InvalidUtf8,
    /// A fatty acid has fewer than the three percentages of a profile.
    MalformedProfile { specie: Specie, fatty_acid: String },
}

impl Error {
    /// What went wrong, in words: for a malformed profile the taxonomy of
    /// the species, with dots between its steps, and the fatty acid.
    pub open spec fn message(self) -> Seq<char> {
        match self {
            Error::InvalidPosition => "Invalid position"@,
            Error::MissingBytes => "Dropped file bytes is none"@,
            Error::InvalidUtf8 => "Dropped file bytes are not valid UTF-8"@,
            Error::MalformedProfile { specie, fatty_acid } => "Malformed profile: "@ + join(
                specie@,
                "."@,
            ) + " "@ + fatty_acid@,
        }
    }

    /// What went wrong, in words.
    pub fn to_string(&self) -> (text: String)
        ensures
            text@ == self.message(),
    {
        match self {
            Error::InvalidPosition => "Invalid position".to_owned(),
            Error::MissingBytes => "Dropped file bytes is none".to_owned(),
            Error::InvalidUtf8 => "Dropped file bytes are not valid UTF-8".to_owned(),
            Error::MalformedProfile { specie, fatty_acid } => {
                let mut text = "Malformed profile: ".to_owned();
                text.append(specie.taxonomy(".").as_str());
                text.append(" ");
                text.append(fatty_acid.as_str());
                text
            },
        }
    }
}

} // verus!
