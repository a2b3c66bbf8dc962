//! A reader for the wire format, as a mathematical function, and the proof
//! that it reads back what the encoder writes.
//!
//! Nothing here is executable. [`decode`] says what a conforming reader makes
//! of a byte string; [`lemma_decode_round_trip`] says that the bytes of one
//! whole value are read back as the very tokens they were written from.
use vstd::prelude::*;
use crate::encoder::EncoderView;
use crate::grammar::{
    is_value,
    lemma_serialize_concat,
    lemma_serialize_push,
    literals_ok,
    serialize,
};
use crate::integer::{digits, is_decimal, is_digit, lemma_digits_are_digits};
use crate::order::ordered;
use crate::state_tracker::Tok;

verus! {

/// The place of the first `b` in `bytes` at or after `from`; the length of
/// `bytes` where there is none.
pub open spec fn find(bytes: Seq<u8>, b: u8, from: int) -> int
    decreases bytes.len() - from,
{
    if from < 0 || from >= bytes.len() {
        bytes.len() as int
    } else if bytes[from] == b {
        from
    } else {
        find(bytes, b, from + 1)
    }
}

/// The number that a run of decimal digits stands for.
pub open spec fn parse_digits(d: Seq<u8>) -> nat
    decreases d.len(),
{
    if d.len() == 0 {
        0
    } else {
        parse_digits(d.drop_last()) * 10 + (d.last() - 48) as nat
    }
}

/// The token at the front of `bytes`, and the number of bytes it takes.
///
/// A number is `i`, decimal text, `e`. A byte string is its length in decimal
/// digits without leading zeros, a colon, and that many bytes.
pub open spec fn read_token(bytes: Seq<u8>) -> Option<(Tok, int)> {
    if bytes.len() == 0 {
        None
    } else if bytes[0] == 108 {
        Some((Tok::List, 1))
    } else if bytes[0] == 100 {
        Some((Tok::Dict, 1))
    } else if bytes[0] == 101 {
        Some((Tok::End, 1))
    } else if bytes[0] == 105 {
        let end = find(bytes, 101, 1);
        let text = bytes.subrange(1, end);
        if end < bytes.len() && is_decimal(text) {
            Some((Tok::Num(text), end + 1))
        } else {
            None
        }
    } else if is_digit(bytes[0]) {
        let colon = find(bytes, 58, 0);
        let head = bytes.subrange(0, colon);
        let len = parse_digits(head);
        if colon < bytes.len() && head == digits(len) && colon + 1 + len <= bytes.len() {
            Some((Tok::String(bytes.subrange(colon + 1, colon + 1 + len)), colon + 1 + len))
        } else {
            None
        }
    } else {
        None
    }
}

/// The tokens that `bytes` is made of, or `None` where it cannot be read to
/// its end.
pub open spec fn tokenize(bytes: Seq<u8>) -> Option<Seq<Tok>>
    decreases bytes.len(),
{
    if bytes.len() == 0 {
        Some(Seq::empty())
    } else {
        match read_token(bytes) {
            Some((t, n)) => if 0 < n <= bytes.len() {
                match tokenize(bytes.skip(n)) {
                    Some(rest) => Some(seq![t] + rest),
                    None => None,
                }
            } else {
                None
            },
            None => None,
        }
    }
}

/// What a reader of the format makes of `bytes`: the tokens of the one whole
/// value that `bytes` holds, or `None` where it holds anything else.
pub open spec fn decode(bytes: Seq<u8>) -> Option<Seq<Tok>> {
    match tokenize(bytes) {
        Some(ts) => if is_value(ts) {
            Some(ts)
        } else {
            None
        },
        None => None,
    }
}

/// Whether `bytes` is one whole value of the format, the keys of every
/// dictionary strictly increasing.
pub open spec fn conforms(bytes: Seq<u8>) -> bool {
    match decode(bytes) {
        Some(ts) => ordered(ts),
        None => false,
    }
}

/// Where `b` stands at `at` and nowhere between `from` and `at`, the search
/// from `from` finds it at `at`.
pub proof fn lemma_find_first(bytes: Seq<u8>, b: u8, from: int, at: int)
    requires
        0 <= from <= at < bytes.len(),
        bytes[at] == b,
        forall|i: int| from <= i < at ==> bytes[i] != b,
    ensures
        find(bytes, b, from) == at,
    decreases at - from,
{
    if from < at {
        lemma_find_first(bytes, b, from + 1, at);
    }
}

/// Digits are read back as the number they were written from.
pub proof fn lemma_parse_digits(n: nat)
    ensures
        parse_digits(digits(n)) == n,
    decreases n,
{
    if n < 10 {
        assert(digits(n).drop_last() =~= Seq::<u8>::empty());
        assert(parse_digits(digits(n).drop_last()) == 0);
    } else {
        lemma_parse_digits(n / 10);
        assert(digits(n).drop_last() =~= digits(n / 10));
    }
}

/// The token at the front of a well-formed token's bytes is that token,
/// whatever follows.
pub proof fn lemma_read_token(t: Tok, rest: Seq<u8>)
    requires
        t.wf(),
    ensures
        read_token(t.encoding() + rest) == Some((t, t.encoding().len() as int)),
        t.encoding().len() > 0,
{
    let bytes = t.encoding() + rest;
    match t {
        Tok::List => {},
        Tok::Dict => {},
        Tok::End => {},
        Tok::Num(text) => {
            let end = text.len() as int + 1;
            assert(bytes[0] == 105);
            assert(bytes[end] == 101);
            assert forall|i: int| 1 <= i < end implies bytes[i] != 101 by {
                assert(bytes[i] == text[i - 1]);
                if text[0] == 45 {
                    if i > 1 {
                        assert(text.skip(1)[i - 2] == text[i - 1]);
                        assert(is_digit(text.skip(1)[i - 2]));
                    }
                } else {
                    assert(is_digit(text[i - 1]));
                }
            }
            lemma_find_first(bytes, 101, 1, end);
            assert(bytes.subrange(1, end) =~= text);
        },
        Tok::String(s) => {
            let head = digits(s.len());
            lemma_digits_are_digits(s.len());
            lemma_parse_digits(s.len());
            let colon = head.len() as int;
            assert(bytes[0] == head[0]);
            assert(is_digit(head[0]));
            assert(bytes[colon] == 58);
            assert forall|i: int| 0 <= i < colon implies bytes[i] != 58 by {
                assert(bytes[i] == head[i]);
                assert(is_digit(head[i]));
            }
            lemma_find_first(bytes, 58, 0, colon);
            assert(bytes.subrange(0, colon) =~= head);
            assert(bytes.subrange(colon + 1, colon + 1 + s.len()) =~= s);
        },
    }
}

/// The bytes of a token sequence start with the bytes of its first token.
pub proof fn lemma_serialize_front(ts: Seq<Tok>)
    requires
        ts.len() > 0,
    ensures
        serialize(ts) == ts[0].encoding() + serialize(ts.skip(1)),
{
    assert(ts =~= seq![ts[0]] + ts.skip(1));
    lemma_serialize_concat(seq![ts[0]], ts.skip(1));
    lemma_serialize_push(Seq::empty(), ts[0]);
    assert(Seq::<Tok>::empty().push(ts[0]) =~= seq![ts[0]]);
    assert(serialize(seq![ts[0]]) =~= ts[0].encoding());
}

/// The bytes of well-formed tokens are read back as those tokens.
pub proof fn lemma_tokenize_serialize(ts: Seq<Tok>)
    requires
        literals_ok(ts),
    ensures
        tokenize(serialize(ts)) == Some(ts),
    decreases ts.len(),
{
    if ts.len() == 0 {
        assert(ts =~= Seq::<Tok>::empty());
    } else {
        let t = ts[0];
        let rest = ts.skip(1);
        let bytes = serialize(ts);
        lemma_serialize_front(ts);
        assert(t.wf());
        lemma_read_token(t, serialize(rest));
        let n = t.encoding().len() as int;
        assert(bytes.skip(n) =~= serialize(rest));
        assert(literals_ok(rest)) by {
            assert forall|i: int| 0 <= i < rest.len() implies (#[trigger] rest[i]).wf() by {
                assert(rest[i] == ts[i + 1]);
            }
        }
        lemma_tokenize_serialize(rest);
        assert(seq![t] + rest =~= ts);
    }
}

/// The bytes of one whole value are read back as the tokens they were
/// written from.
pub proof fn lemma_decode_round_trip(ts: Seq<Tok>)
    requires
        is_value(ts),
        literals_ok(ts),
    ensures
        decode(serialize(ts)) == Some(ts),
{
    lemma_tokenize_serialize(ts);
}

/// The bytes of one whole value whose keys are in order conform to the
/// format.
pub proof fn lemma_ordered_value_conforms(ts: Seq<Tok>)
    requires
        is_value(ts),
        literals_ok(ts),
        ordered(ts),
    ensures
        conforms(serialize(ts)),
        decode(serialize(ts)) == Some(ts),
{
    lemma_decode_round_trip(ts);
}

/// What a finished encoder hands out is read back as the tokens that the
/// encoder accepted.
pub proof fn lemma_finished_output_decodes(v: EncoderView)
    requires
        v.wf(),
        v.machine.shape.finished(),
    ensures
        decode(v.output) == Some(v.tokens),
{
    lemma_decode_round_trip(v.tokens);
}

} // verus!
