//! IPv6 address literals: eight groups of one to four hexadecimal digits
//! separated by colons, where one run of zero groups may be left out and marked
//! by a double colon, and the last two groups may be written as an IPv4
//! dotted quad.

use crate::ipv4::{ipv4_literal, lemma_ipv4_characters, parse_ipv4_span};
use crate::text::{
    all_hex_digits, ascii_len, char_at, fields, hexadecimal, is_hex_digit, lemma_split_fields,
    lemma_split_single, spans_mark, split, split_spans, Span,
};
use vstd::prelude::*;

verus! {

/// The group that `s` denotes, if it is one: one to four hexadecimal digits.
pub open spec fn hex_group(s: Seq<char>) -> Option<u16> {
    if 1 <= s.len() <= 4 && all_hex_digits(s) {
        Some(hexadecimal(s) as u16)
    } else {
        None
    }
}

/// The groups that the fields denote, if each of them is a group.
pub open spec fn all_groups(parts: Seq<Seq<char>>) -> Option<Seq<u16>> {
    if forall|k: int| 0 <= k < parts.len() ==> hex_group(#[trigger] parts[k]) is Some {
        Some(Seq::new(parts.len(), |k: int| hex_group(parts[k]).unwrap()))
    } else {
        None
    }
}

/// The upper group of a dotted quad.
pub open spec fn upper_group(quad: u32) -> u16 {
    (quad / 65536) as u16
}

/// The lower group of a dotted quad.
pub open spec fn lower_group(quad: u32) -> u16 {
    (quad % 65536) as u16
}

/// The groups that a run of fields denotes, if each field is a group or, where
/// `quad_allowed`, the last one is a dotted quad, which stands for two groups.
pub open spec fn groups_of(parts: Seq<Seq<char>>, quad_allowed: bool) -> Option<Seq<u16>> {
    if parts.len() == 0 {
        Some(Seq::<u16>::empty())
    } else {
        match all_groups(parts.drop_last()) {
            None => None,
            Some(front) => match hex_group(parts.last()) {
                Some(g) => Some(front.push(g)),
                None => match ipv4_literal(parts.last()) {
                    Some(quad) => if quad_allowed {
                        Some(front.push(upper_group(quad)).push(lower_group(quad)))
                    } else {
                        None
                    },
                    None => None,
                },
            },
        }
    }
}

/// Whether a double colon stands at position `i` of `s`.
pub open spec fn gap_at(s: Seq<char>, i: int) -> bool {
    0 <= i && i + 1 < s.len() && s[i] == ':' && s[i + 1] == ':'
}

/// Whether the first double colon of `s` stands at position `i`.
pub open spec fn first_gap_at(s: Seq<char>, i: int) -> bool {
    gap_at(s, i) && forall|j: int| 0 <= j < i ==> !gap_at(s, j)
}

/// The position of the first double colon of `s`, if it has one.
pub open spec fn first_gap(s: Seq<char>) -> Option<int> {
    if exists|i: int| first_gap_at(s, i) {
        Some(choose|i: int| first_gap_at(s, i))
    } else {
        None
    }
}

/// `n` groups of zero.
pub open spec fn zero_groups(n: int) -> Seq<u16> {
    Seq::new(n as nat, |k: int| 0u16)
}

/// The eight groups that `s` denotes, if `s` is an IPv6 literal. Without a
/// double colon the fields must come to eight groups. With one, the fields
/// before it are groups, those after it are groups with perhaps a dotted quad
/// at the end, there are seven groups at most, and zero groups fill the gap.
pub open spec fn ipv6_groups(s: Seq<char>) -> Option<Seq<u16>> {
    match first_gap(s) {
        None => match groups_of(split(s, ':'), true) {
            Some(groups) => if groups.len() == 8 {
                Some(groups)
            } else {
                None
            },
            None => None,
        },
        Some(i) => match (
            groups_of(fields(s.take(i), ':'), false),
            groups_of(fields(s.skip(i + 2), ':'), true),
        ) {
            (Some(head), Some(tail)) => if head.len() + tail.len() <= 7 {
                Some(head + zero_groups(8 - head.len() - tail.len()) + tail)
            } else {
                None
            },
            _ => None,
        },
    }
}

/// The number whose digits in base 65536, from the most significant, are
/// `groups`.
pub open spec fn pack(groups: Seq<u16>) -> nat
    decreases groups.len(),
{
    if groups.len() == 0 {
        0
    } else {
        pack(groups.drop_last()) * 65536 + groups.last() as nat
    }
}

/// The 128-bit address that `s` denotes, if `s` is an IPv6 literal.
pub open spec fn ipv6_literal(s: Seq<char>) -> Option<u128> {
    match ipv6_groups(s) {
        Some(groups) => Some(pack(groups) as u128),
        None => None,
    }
}

/// The largest number that `n` groups can denote, for `n` up to eight.
pub open spec fn pack_limit(n: int) -> nat {
    if n <= 0 {
        0
    } else if n == 1 {
        0xffff
    } else if n == 2 {
        0xffff_ffff
    } else if n == 3 {
        0xffff_ffff_ffff
    } else if n == 4 {
        0xffff_ffff_ffff_ffff
    } else if n == 5 {
        0xffff_ffff_ffff_ffff_ffff
    } else if n == 6 {
        0xffff_ffff_ffff_ffff_ffff_ffff
    } else if n == 7 {
        0xffff_ffff_ffff_ffff_ffff_ffff_ffff
    } else {
        0xffff_ffff_ffff_ffff_ffff_ffff_ffff_ffff
    }
}

/// Up to eight groups denote a number of at most 128 bits.
pub proof fn lemma_pack_bound(groups: Seq<u16>)
    requires
        groups.len() <= 8,
    ensures
        pack(groups) <= pack_limit(groups.len() as int),
    decreases groups.len(),
{
    if groups.len() > 0 {
        lemma_pack_bound(groups.drop_last());
    }
}

/// Reads the group that `span` covers.
pub(crate) fn parse_hex_group(text: &str, span: Span) -> (r: Option<u16>)
    requires
        text.is_ascii(),
        span.within(0, text@.len() as int),
    ensures
        r == hex_group(span.of(text@)),
{
    let n = span.end - span.start;
    if n == 0 || n > 4 {
        return None;
    }
    let mut value: u32 = 0;
    let mut i: usize = span.start;
    while i < span.end
        invariant
            text.is_ascii(),
            span.within(0, text@.len() as int),
            span.start <= i <= span.end,
            span.end - span.start <= 4,
            all_hex_digits(text@.subrange(span.start as int, i as int)),
            value == hexadecimal(text@.subrange(span.start as int, i as int)),
            i - span.start == 0 ==> value == 0,
            i - span.start == 1 ==> value <= 0xf,
            i - span.start == 2 ==> value <= 0xff,
            i - span.start == 3 ==> value <= 0xfff,
            i - span.start == 4 ==> value <= 0xffff,
        decreases span.end - i,
    {
        let b = char_at(text, i);
        let digit: u32 = if 48 <= b && b <= 57 {
            (b - 48) as u32
        } else if 97 <= b && b <= 102 {
            (b - 97 + 10) as u32
        } else if 65 <= b && b <= 70 {
            (b - 65 + 10) as u32
        } else {
            assert(span.of(text@)[i - span.start] == text@[i as int]);
            return None;
        };
        proof {
            let more = text@.subrange(span.start as int, i + 1);
            assert(more.drop_last() =~= text@.subrange(span.start as int, i as int));
            assert(more.last() == text@[i as int]);
        }
        value = value * 16 + digit;
        i = i + 1;
    }
    assert(text@.subrange(span.start as int, i as int) == span.of(text@));
    Some(value as u16)
}

/// Finds the first double colon of a text of `n` characters.
pub(crate) fn find_gap(text: &str, n: usize) -> (r: Option<usize>)
    requires
        text.is_ascii(),
        n == text@.len(),
    ensures
        match r {
            Some(i) => first_gap(text@) == Some(i as int),
            None => first_gap(text@) is None,
        },
{
    let mut i: usize = 0;
    while i < n && i + 1 < n
        invariant
            text.is_ascii(),
            n == text@.len(),
            i <= n,
            forall|j: int| 0 <= j < i ==> !gap_at(text@, j),
        decreases n - i,
    {
        if char_at(text, i) == 58 && char_at(text, i + 1) == 58 {
            assert(first_gap_at(text@, i as int));
            assert forall|j: int| first_gap_at(text@, j) implies j == i by {
                if j < i {
                    assert(!gap_at(text@, j));
                } else if i < j {
                    assert(gap_at(text@, i as int));
                }
            }
            return Some(i);
        }
        i = i + 1;
    }
    assert forall|j: int| !first_gap_at(text@, j) by {
        if 0 <= j < i {
            assert(!gap_at(text@, j));
        }
    }
    None
}

/// Reads the groups written between `from` and `to`.
pub(crate) fn parse_groups(text: &str, from: usize, to: usize, quad_allowed: bool) -> (r: Option<
    Vec<u16>,
>)
    requires
        text.is_ascii(),
        from <= to <= text@.len(),
    ensures
        match r {
            Some(groups) => groups_of(
                fields(text@.subrange(from as int, to as int), ':'),
                quad_allowed,
            ) == Some(groups@),
            None => groups_of(fields(text@.subrange(from as int, to as int), ':'), quad_allowed)
                is None,
        },
{
    let mut groups: Vec<u16> = Vec::new();
    if from == to {
        return Some(groups);
    }
    let ghost parts = split(text@.subrange(from as int, to as int), ':');
    let spans = split_spans(text, from, to, 58);
    let last = spans.len() - 1;
    let mut k: usize = 0;
    while k < last
        invariant
            text.is_ascii(),
            from < to <= text@.len(),
            last == spans@.len() - 1,
            0 <= k <= last,
            spans_mark(spans@, text@, from as int, to as int, parts),
            parts == split(text@.subrange(from as int, to as int), ':'),
            groups@.len() == k,
            forall|j: int| 0 <= j < k ==> hex_group(#[trigger] parts[j]) == Some(groups@[j]),
        decreases last - k,
    {
        assert(spans@[k as int].within(from as int, to as int));
        match parse_hex_group(text, spans[k]) {
            Some(g) => {
                groups.push(g);
            },
            None => {
                assert(parts.drop_last()[k as int] == parts[k as int]);
                assert(hex_group(parts.drop_last()[k as int]) is None);
                return None;
            },
        }
        k = k + 1;
    }
    proof {
        let front = parts.drop_last();
        assert forall|j: int| 0 <= j < front.len() implies hex_group(#[trigger] front[j])
            is Some by {
            assert(front[j] == parts[j]);
        }
        assert(all_groups(front) == Some(groups@)) by {
            assert forall|j: int| 0 <= j < front.len() implies hex_group(front[j]).unwrap()
                == groups@[j] by {
                assert(front[j] == parts[j]);
            }
            assert(all_groups(front).unwrap() =~= groups@);
        }
        assert(spans@[last as int].within(from as int, to as int));
    }
    match parse_hex_group(text, spans[last]) {
        Some(g) => {
            groups.push(g);
            Some(groups)
        },
        None => {
            if !quad_allowed {
                return None;
            }
            match parse_ipv4_span(text, spans[last]) {
                Some(quad) => {
                    groups.push((quad / 65536) as u16);
                    groups.push((quad % 65536) as u16);
                    Some(groups)
                },
                None => None,
            }
        },
    }
}

/// Packs eight groups into one number, the first group the most significant.
fn pack_groups(groups: &Vec<u16>) -> (r: u128)
    requires
        groups@.len() == 8,
    ensures
        r == pack(groups@),
{
    let mut value: u128 = 0;
    let mut i: usize = 0;
    while i < 8
        invariant
            groups@.len() == 8,
            i <= 8,
            value == pack(groups@.take(i as int)),
            value <= pack_limit(i as int),
        decreases 8 - i,
    {
        proof {
            assert(groups@.take(i + 1).drop_last() =~= groups@.take(i as int));
            lemma_pack_bound(groups@.take(i + 1));
        }
        value = value * 65536 + groups[i] as u128;
        i = i + 1;
    }
    assert(groups@.take(8) =~= groups@);
    value
}

/// Whether `c` may occur in an address literal of either family.
pub open spec fn is_address_char(c: char) -> bool {
    is_hex_digit(c) || c == ':' || c == '.'
}

/// Fields that denote groups hold hexadecimal digits and dots only.
proof fn lemma_groups_characters(parts: Seq<Seq<char>>, quad_allowed: bool)
    requires
        groups_of(parts, quad_allowed) is Some,
    ensures
        forall|k: int, j: int|
            0 <= k < parts.len() && 0 <= j < parts[k].len() ==> is_address_char(
                #[trigger] parts[k][j],
            ),
        groups_of(parts, quad_allowed).unwrap().len() <= parts.len() + 1,
{
    if parts.len() > 0 {
        let front = parts.drop_last();
        assert forall|k: int, j: int|
            0 <= k < parts.len() && 0 <= j < parts[k].len() implies is_address_char(
            #[trigger] parts[k][j],
        ) by {
            if k < parts.len() - 1 {
                assert(front[k] == parts[k]);
                assert(hex_group(front[k]) is Some);
            } else if hex_group(parts.last()) is None {
                lemma_ipv4_characters(parts.last());
            }
        }
    }
}

/// Where every field of a text is made of address characters, and the
/// separator is one, the whole text is made of them.
proof fn lemma_text_characters(s: Seq<char>, sep: char)
    requires
        is_address_char(sep),
        forall|k: int, j: int|
            0 <= k < fields(s, sep).len() && 0 <= j < fields(s, sep)[k].len() ==> is_address_char(
                #[trigger] fields(s, sep)[k][j],
            ),
    ensures
        forall|i: int| 0 <= i < s.len() ==> is_address_char(#[trigger] s[i]),
{
    lemma_split_fields(s, sep);
    assert forall|i: int| 0 <= i < s.len() implies is_address_char(#[trigger] s[i]) by {
        if s[i] != sep {
            let parts = split(s, sep);
            let (k, j) = choose|k: int, j: int|
                0 <= k < parts.len() && 0 <= j < parts[k].len() && parts[k][j] == s[i];
            assert(is_address_char(fields(s, sep)[k][j]));
        }
    }
}

/// An IPv6 literal holds nothing but hexadecimal digits, colons and dots, and
/// at least one colon.
pub proof fn lemma_ipv6_characters(s: Seq<char>)
    requires
        ipv6_literal(s) is Some,
    ensures
        forall|i: int| 0 <= i < s.len() ==> is_address_char(#[trigger] s[i]),
        exists|i: int| 0 <= i < s.len() && s[i] == ':',
{
    match first_gap(s) {
        None => {
            let parts = split(s, ':');
            lemma_groups_characters(parts, true);
            lemma_split_single(s, ':');
            if s.len() > 0 {
                lemma_text_characters(s, ':');
            }
        },
        Some(i) => {
            assert(first_gap_at(s, i));
            let head = s.take(i);
            let tail = s.skip(i + 2);
            lemma_groups_characters(fields(head, ':'), false);
            lemma_groups_characters(fields(tail, ':'), true);
            lemma_text_characters(head, ':');
            lemma_text_characters(tail, ':');
            assert forall|j: int| 0 <= j < s.len() implies is_address_char(#[trigger] s[j]) by {
                if j < i {
                    assert(head[j] == s[j]);
                } else if j >= i + 2 {
                    assert(tail[j - i - 2] == s[j]);
                }
            }
            assert(s[i] == ':');
        },
    }
}

/// Reads an IPv6 literal.
pub fn parse_ipv6(text: &str) -> (r: Option<u128>)
    ensures
        r == ipv6_literal(text@),
{
    if !text.is_ascii() {
        proof {
            if ipv6_literal(text@) is Some {
                lemma_ipv6_characters(text@);
            }
        }
        return None;
    }
    let n = ascii_len(text);
    let (head, mut tail) = match find_gap(text, n) {
        None => {
            assert(text@.subrange(0, n as int) =~= text@);
            if n == 0 {
                assert(split(text@, ':')[0].len() == 0);
                return None;
            }
            match parse_groups(text, 0, n, true) {
                Some(groups) => {
                    if groups.len() != 8 {
                        return None;
                    }
                    return Some(pack_groups(&groups));
                },
                None => {
                    return None;
                },
            }
        },
        Some(i) => {
            assert(first_gap_at(text@, i as int));
            assert(text@.subrange(0, i as int) =~= text@.take(i as int));
            assert(text@.subrange(i + 2, n as int) =~= text@.skip(i + 2));
            let head = match parse_groups(text, 0, i, false) {
                Some(groups) => groups,
                None => {
                    return None;
                },
            };
            let tail = match parse_groups(text, i + 2, n, true) {
                Some(groups) => groups,
                None => {
                    return None;
                },
            };
            (head, tail)
        },
    };
    if head.len() > 7 || tail.len() > 7 - head.len() {
        return None;
    }
    let ghost front = head@;
    let full = 8 - tail.len();
    let mut groups = head;
    while groups.len() < full
        invariant
            front.len() <= groups@.len() <= full,
            groups@ =~= front + zero_groups(groups@.len() - front.len()),
        decreases full - groups@.len(),
    {
        groups.push(0);
    }
    groups.append(&mut tail);
    Some(pack_groups(&groups))
}

} // verus!
