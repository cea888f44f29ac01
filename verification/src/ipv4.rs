//! IPv4 address literals in dotted-quad form: four decimal octets separated by
//! dots, each of one to three digits, none above 255, and none written with a
//! leading zero.

use crate::text::{
    all_digits, ascii_len, char_at, decimal, is_digit, lemma_split_fields, lemma_split_single, split,
    split_spans, Span,
};
use vstd::prelude::*;

verus! {

/// The octet that `s` denotes, if it is one: one to three decimal digits, no
/// leading zero before another digit, and a value of at most 255.
pub open spec fn octet(s: Seq<char>) -> Option<u8> {
    if 1 <= s.len() <= 3 && all_digits(s) && (s.len() > 1 ==> s[0] != '0') && decimal(s) <= 255 {
        Some(decimal(s) as u8)
    } else {
        None
    }
}

/// The 32-bit address whose octets, from the most significant, are `a`, `b`,
/// `c` and `d`.
pub open spec fn quad(a: u8, b: u8, c: u8, d: u8) -> u32 {
    (((a as int * 256 + b as int) * 256 + c as int) * 256 + d as int) as u32
}

/// The address that `s` denotes, if `s` is an IPv4 literal.
pub open spec fn ipv4_literal(s: Seq<char>) -> Option<u32> {
    let parts = split(s, '.');
    if parts.len() == 4 && octet(parts[0]) is Some && octet(parts[1]) is Some && octet(
        parts[2],
    ) is Some && octet(parts[3]) is Some {
        Some(
            quad(
                octet(parts[0]).unwrap(),
                octet(parts[1]).unwrap(),
                octet(parts[2]).unwrap(),
                octet(parts[3]).unwrap(),
            ),
        )
    } else {
        None
    }
}

/// An IPv4 literal holds nothing but decimal digits and dots, and at least one
/// dot.
pub proof fn lemma_ipv4_characters(s: Seq<char>)
    requires
        ipv4_literal(s) is Some,
    ensures
        forall|i: int| 0 <= i < s.len() ==> s[i] == '.' || is_digit(#[trigger] s[i]),
        exists|i: int| 0 <= i < s.len() && s[i] == '.',
{
    let parts = split(s, '.');
    lemma_split_fields(s, '.');
    lemma_split_single(s, '.');
    assert forall|i: int| 0 <= i < s.len() implies s[i] == '.' || is_digit(#[trigger] s[i]) by {
        if s[i] != '.' {
            let (k, j) = choose|k: int, j: int|
                0 <= k < parts.len() && 0 <= j < parts[k].len() && parts[k][j] == s[i];
            assert(octet(parts[k]) is Some);
            assert(is_digit(parts[k][j]));
        }
    }
}

/// Reads the octet that `span` covers.
pub(crate) fn parse_octet(text: &str, span: Span) -> (r: Option<u8>)
    requires
        text.is_ascii(),
        span.within(0, text@.len() as int),
    ensures
        r == octet(span.of(text@)),
{
    let n = span.end - span.start;
    if n == 0 || n > 3 {
        return None;
    }
    let first = char_at(text, span.start);
    if n > 1 && first == 48 {
        assert(span.of(text@)[0] == '0');
        return None;
    }
    let mut value: u16 = 0;
    let mut i: usize = span.start;
    while i < span.end
        invariant
            text.is_ascii(),
            span.within(0, text@.len() as int),
            span.start <= i <= span.end,
            span.end - span.start <= 3,
            all_digits(text@.subrange(span.start as int, i as int)),
            value == decimal(text@.subrange(span.start as int, i as int)),
            i - span.start == 0 ==> value == 0,
            i - span.start == 1 ==> value <= 9,
            i - span.start == 2 ==> value <= 99,
            i - span.start == 3 ==> value <= 999,
        decreases span.end - i,
    {
        let b = char_at(text, i);
        if b < 48 || b > 57 {
            assert(span.of(text@)[i - span.start] == text@[i as int]);
            return None;
        }
        proof {
            let more = text@.subrange(span.start as int, i + 1);
            assert(more.drop_last() =~= text@.subrange(span.start as int, i as int));
            assert(more.last() == text@[i as int]);
        }
        value = value * 10 + (b - 48) as u16;
        i = i + 1;
    }
    assert(text@.subrange(span.start as int, i as int) == span.of(text@));
    if value > 255 {
        None
    } else {
        Some(value as u8)
    }
}

/// Puts four octets together, the most significant first.
pub fn make_quad(a: u8, b: u8, c: u8, d: u8) -> (r: u32)
    ensures
        r == quad(a, b, c, d),
{
    ((a as u32 * 256 + b as u32) * 256 + c as u32) * 256 + d as u32
}

/// Reads the IPv4 literal that `span` covers.
pub(crate) fn parse_ipv4_span(text: &str, span: Span) -> (r: Option<u32>)
    requires
        text.is_ascii(),
        span.within(0, text@.len() as int),
    ensures
        r == ipv4_literal(span.of(text@)),
{
    let spans = split_spans(text, span.start, span.end, 46);
    if spans.len() != 4 {
        return None;
    }
    assert(spans@[0].within(span.start as int, span.end as int));
    assert(spans@[1].within(span.start as int, span.end as int));
    assert(spans@[2].within(span.start as int, span.end as int));
    assert(spans@[3].within(span.start as int, span.end as int));
    let a = match parse_octet(text, spans[0]) {
        Some(v) => v,
        None => { return None; },
    };
    let b = match parse_octet(text, spans[1]) {
        Some(v) => v,
        None => { return None; },
    };
    let c = match parse_octet(text, spans[2]) {
        Some(v) => v,
        None => { return None; },
    };
    let d = match parse_octet(text, spans[3]) {
        Some(v) => v,
        None => { return None; },
    };
    Some(make_quad(a, b, c, d))
}

/// Reads an IPv4 literal.
pub fn parse_ipv4(text: &str) -> (r: Option<u32>)
    ensures
        r == ipv4_literal(text@),
{
    if !text.is_ascii() {
        proof {
            if ipv4_literal(text@) is Some {
                lemma_ipv4_characters(text@);
            }
        }
        return None;
    }
    let n = ascii_len(text);
    assert(text@.subrange(0, n as int) =~= text@);
    parse_ipv4_span(text, Span { start: 0, end: n })
}

} // verus!
