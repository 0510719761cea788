//! Ordering of identifiers.
//!
//! Identifiers are strings, ordered as the standard library orders strings:
//! lexicographically by the bytes of their UTF-8 encoding.

use crate::order::{
    agree_upto, lemma_lex_connected, lemma_lex_differ_at, lemma_lex_irreflexive, lemma_lex_prefix,
    lemma_lex_transitive, lex_lt, strict_total,
};
use vstd::prelude::*;
use vstd::utf8::{decode_utf8, encode_utf8, encode_utf8_decode_utf8};

verus! {

/// The order of bytes.
pub open spec fn byte_lt() -> spec_fn(u8, u8) -> bool {
    |x: u8, y: u8| x < y
}

/// Strict order on identifiers: the lexicographic order of their UTF-8
/// encodings.
pub open spec fn text_lt(a: Seq<char>, b: Seq<char>) -> bool {
    lex_lt(byte_lt(), encode_utf8(a), encode_utf8(b))
}

/// The order on identifiers, as a relation.
pub open spec fn text_order() -> spec_fn(Seq<char>, Seq<char>) -> bool {
    |a: Seq<char>, b: Seq<char>| text_lt(a, b)
}

pub proof fn lemma_byte_order()
    ensures
        strict_total(byte_lt()),
{
}

/// Identifiers are strictly and totally ordered.
pub proof fn lemma_text_order()
    ensures
        strict_total(text_order()),
{
    let lt = text_order();
    lemma_byte_order();
    assert forall|a: Seq<char>| !#[trigger] lt(a, a) by {
        lemma_lex_irreflexive(byte_lt(), encode_utf8(a));
    }
    assert forall|a: Seq<char>, b: Seq<char>, c: Seq<char>| #[trigger] lt(a, b) && #[trigger] lt(
        b,
        c,
    ) implies lt(a, c) by {
        lemma_lex_transitive(byte_lt(), encode_utf8(a), encode_utf8(b), encode_utf8(c));
    }
    assert forall|a: Seq<char>, b: Seq<char>| a != b implies #[trigger] lt(a, b) || lt(b, a) by {
        encode_utf8_decode_utf8(a);
        encode_utf8_decode_utf8(b);
        assert(decode_utf8(encode_utf8(a)) == a);
        assert(decode_utf8(encode_utf8(b)) == b);
        lemma_lex_connected(byte_lt(), encode_utf8(a), encode_utf8(b));
    }
}

pub proof fn lemma_text_lt_irreflexive(a: Seq<char>)
    ensures
        !text_lt(a, a),
{
    lemma_text_order();
    assert(!text_order()(a, a));
}

pub proof fn lemma_text_lt_transitive(a: Seq<char>, b: Seq<char>, c: Seq<char>)
    requires
        text_lt(a, b),
        text_lt(b, c),
    ensures
        text_lt(a, c),
{
    lemma_text_order();
    assert(text_order()(a, b) && text_order()(b, c));
    assert(text_order()(a, c));
}

pub proof fn lemma_text_lt_connected(a: Seq<char>, b: Seq<char>)
    requires
        a != b,
    ensures
        text_lt(a, b) || text_lt(b, a),
{
    lemma_text_order();
    assert(text_order()(a, b) || text_order()(b, a));
}

/// Whether `a` comes strictly before `b`.
pub fn str_lt(a: &str, b: &str) -> (r: bool)
    ensures
        r == text_lt(a@, b@),
{
    let x = a.as_bytes();
    let y = b.as_bytes();
    proof {
        lemma_byte_order();
    }
    let mut i: usize = 0;
    while i < x.len() && i < y.len()
        invariant
            x@ == encode_utf8(a@),
            y@ == encode_utf8(b@),
            agree_upto(x@, y@, i as int),
            strict_total(byte_lt()),
        decreases x.len() - i,
    {
        if x[i] != y[i] {
            proof {
                lemma_lex_differ_at(byte_lt(), x@, y@, i as int);
            }
            return x[i] < y[i];
        }
        i += 1;
    }
    proof {
        lemma_lex_prefix(byte_lt(), x@, y@, i as int);
    }
    x.len() < y.len()
}

/// Whether `a` and `b` are the same identifier.
pub fn str_eq(a: &str, b: &str) -> (r: bool)
    ensures
        r == (a@ == b@),
{
    let x = a.as_bytes();
    let y = b.as_bytes();
    proof {
        encode_utf8_decode_utf8(a@);
        encode_utf8_decode_utf8(b@);
    }
    if x.len() != y.len() {
        return false;
    }
    let mut i: usize = 0;
    while i < x.len()
        invariant
            x@ == encode_utf8(a@),
            y@ == encode_utf8(b@),
            x.len() == y.len(),
            agree_upto(x@, y@, i as int),
        decreases x.len() - i,
    {
        if x[i] != y[i] {
            return false;
        }
        i += 1;
    }
    assert(x@ =~= y@);
    true
}

/// The parts one after the other, with `sep` between each two.
pub open spec fn join(parts: Seq<Seq<char>>, sep: Seq<char>) -> Seq<char>
    decreases parts.len(),
{
    if parts.len() == 0 {
        Seq::empty()
    } else if parts.len() == 1 {
        parts[0]
    } else {
        join(parts.drop_last(), sep) + sep + parts.last()
    }
}

/// What each string of a sequence holds.
pub open spec fn texts(parts: Seq<String>) -> Seq<Seq<char>> {
    parts.map_values(|part: String| part@)
}

/// The parts one after the other, with `sep` between each two.
pub fn join_strings(parts: &Vec<String>, sep: &str) -> (text: String)
    ensures
        text@ == join(texts(parts@), sep@),
{
    let mut text = String::new();
    let mut index: usize = 0;
    while index < parts.len()
        invariant
            index <= parts.len(),
            text@ == join(texts(parts@).subrange(0, index as int), sep@),
        decreases parts.len() - index,
    {
        let ghost upto = texts(parts@).subrange(0, index as int);
        let ghost next = texts(parts@).subrange(0, index + 1);
        if index != 0 {
            text.append(sep);
        }
        text.append(parts[index].as_str());
        proof {
            assert(next.drop_last() =~= upto);
            assert(next.last() == parts@[index as int]@);
            if index == 0 {
                assert(text@ =~= next[0]);
            }
        }
        index += 1;
    }
    assert(texts(parts@).subrange(0, index as int) =~= texts(parts@));
    text
}

} // verus!
