//! Files that were handed over: their text, and a line that describes them.

use crate::error::Error;
use vstd::prelude::*;
use vstd::utf8::{decode_utf8, valid_utf8};

verus! {

/// Calls `String::from_utf8` and hands back the text where it made one. The
/// contract claims that it makes one of exactly the byte sequences that are
/// valid UTF-8, and that the text is what the bytes encode.
#[verifier::external_body]
fn string_from_utf8(bytes: Vec<u8>) -> (text: Option<String>)
    ensures
        text is Some <==> valid_utf8(bytes@),
        text matches Some(text) ==> text@ == decode_utf8(bytes@),
{
    match String::from_utf8(bytes) {
        Ok(text) => Some(text),
        Err(_) => None,
    }
}

/// The text of a file from its bytes.
pub fn read(bytes: Option<Vec<u8>>) -> (r: Result<String, Error>)
    ensures
        match bytes {
            None => r is Err && r->Err_0 is MissingBytes,
            Some(bytes) => if valid_utf8(bytes@) {
                r is Ok && r->Ok_0@ == decode_utf8(bytes@)
            } else {
                r is Err && r->Err_0 is InvalidUtf8
            },
        },
{
    match bytes {
        None => Err(Error::MissingBytes),
        Some(bytes) => match string_from_utf8(bytes) {
            Some(text) => Ok(text),
            None => Err(Error::InvalidUtf8),
        },
    }
}

/// The decimal digit for a number below ten.
pub open spec fn digit(d: int) -> char {
    if d == 0 {
        '0'
    } else if d == 1 {
        '1'
    } else if d == 2 {
        '2'
    } else if d == 3 {
        '3'
    } else if d == 4 {
        '4'
    } else if d == 5 {
        '5'
    } else if d == 6 {
        '6'
    } else if d == 7 {
        '7'
    } else if d == 8 {
        '8'
    } else {
        '9'
    }
}

/// A number in decimal digits, without leading zeros.
pub open spec fn decimal(n: nat) -> Seq<char>
    decreases n,
{
    if n < 10 {
        seq![digit(n as int)]
    } else {
        decimal(n / 10).push(digit((n % 10) as int))
    }
}

/// The text of one decimal digit.
fn digit_str(d: usize) -> (text: &'static str)
    requires
        d < 10,
    ensures
        text@ == seq![digit(d as int)],
{
    proof {
        reveal_strlit("0");
        reveal_strlit("1");
        reveal_strlit("2");
        reveal_strlit("3");
        reveal_strlit("4");
        reveal_strlit("5");
        reveal_strlit("6");
        reveal_strlit("7");
        reveal_strlit("8");
        reveal_strlit("9");
    }
    let text = if d == 0 {
        "0"
    } else if d == 1 {
        "1"
    } else if d == 2 {
        "2"
    } else if d == 3 {
        "3"
    } else if d == 4 {
        "4"
    } else if d == 5 {
        "5"
    } else if d == 6 {
        "6"
    } else if d == 7 {
        "7"
    } else if d == 8 {
        "8"
    } else {
        "9"
    };
    assert(text@ =~= seq![digit(d as int)]);
    text
}

/// A number in decimal digits.
pub fn to_decimal(n: usize) -> (text: String)
    ensures
        text@ == decimal(n as nat),
    decreases n,
{
    if n < 10 {
        digit_str(n).to_owned()
    } else {
        let mut text = to_decimal(n / 10);
        text.append(digit_str(n % 10));
        assert(text@ =~= decimal(n as nat));
        text
    }
}

/// What names a file that was dropped: its path; failing that its name,
/// unless that is empty; failing that a question mark in angle brackets.
pub open spec fn dropped_label(path: Option<Seq<char>>, name: Seq<char>) -> Seq<char> {
    match path {
        Some(path) => path,
        None => if name.len() > 0 {
            name
        } else {
            seq!['<', '?', '>']
        },
    }
}

/// The label and what follows it in brackets, with a space between them
/// unless the label is empty.
pub open spec fn with_note(label: Seq<char>, note: Option<Seq<char>>) -> Seq<char> {
    match note {
        Some(note) => if label.len() > 0 {
            label + seq![' '] + note
        } else {
            note
        },
        None => label,
    }
}

/// The note on the size of a file: the number of its bytes and the word
/// "bytes", in round brackets.
pub open spec fn size_note(bytes: nat) -> Seq<char> {
    seq!['('] + decimal(bytes) + seq![' ', 'b', 'y', 't', 'e', 's', ')']
}

/// The note on the kind of a file: its media type in square brackets.
pub open spec fn kind_note(mime: Seq<char>) -> Seq<char> {
    seq!['['] + mime + seq![']']
}

/// The line that describes a file that was dropped: what names it and, where
/// its bytes are there, their number.
pub fn dropped_file_info(path: Option<&str>, name: &str, bytes: Option<usize>) -> (text: String)
    ensures
        text@ == with_note(
            dropped_label(
                match path {
                    Some(path) => Some(path@),
                    None => None,
                },
                name@,
            ),
            match bytes {
                Some(bytes) => Some(size_note(bytes as nat)),
                None => None,
            },
        ),
{
    proof {
        reveal_strlit("<?>");
        reveal_strlit(" ");
        reveal_strlit("(");
        reveal_strlit(" bytes)");
        assert("<?>"@ =~= seq!['<', '?', '>']);
        assert(" "@ =~= seq![' ']);
        assert("("@ =~= seq!['(']);
        assert(" bytes)"@ =~= seq![' ', 'b', 'y', 't', 'e', 's', ')']);
    }
    let mut buffer = match path {
        Some(path) => path.to_owned(),
        None => if !name.is_empty() {
            name.to_owned()
        } else {
            "<?>".to_owned()
        },
    };
    match bytes {
        Some(bytes) => {
            let ghost label = buffer@;
            let empty = buffer.as_str().is_empty();
            if !empty {
                buffer.append(" ");
            }
            buffer.append("(");
            buffer.append(to_decimal(bytes).as_str());
            buffer.append(" bytes)");
            assert(buffer@ =~= with_note(label, Some(size_note(bytes as nat))));
        },
        None => {},
    }
    buffer
}

/// The line that describes a file that hovers: its path, or a question mark
/// in angle brackets, and its media type where it has one.
pub fn hovered_file_info(path: Option<&str>, mime: &str) -> (text: String)
    ensures
        text@ == with_note(
            match path {
                Some(path) => path@,
                None => seq!['<', '?', '>'],
            },
            if mime@.len() > 0 {
                Some(kind_note(mime@))
            } else {
                None
            },
        ),
{
    proof {
        reveal_strlit("<?>");
        reveal_strlit(" ");
        reveal_strlit("[");
        reveal_strlit("]");
        assert("<?>"@ =~= seq!['<', '?', '>']);
        assert(" "@ =~= seq![' ']);
        assert("["@ =~= seq!['[']);
        assert("]"@ =~= seq![']']);
    }
    let mut buffer = match path {
        Some(path) => path.to_owned(),
        None => "<?>".to_owned(),
    };
    if !mime.is_empty() {
        let ghost label = buffer@;
        let empty = buffer.as_str().is_empty();
        if !empty {
            buffer.append(" ");
        }
        buffer.append("[");
        buffer.append(mime);
        buffer.append("]");
        assert(buffer@ =~= with_note(label, Some(kind_note(mime@))));
    }
    buffer
}

} // verus!
