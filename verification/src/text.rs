//! Characters and numerals: the classes of characters that address and port
//! literals are made of, the numbers that runs of digits stand for, and the
//! division of a text into the fields between separators.

use vstd::prelude::*;
use vstd::string::*;

verus! {

/// Whether `c` is one of the ten decimal digits.
pub open spec fn is_digit(c: char) -> bool {
    '0' <= c && c <= '9'
}

/// The number that the decimal digit `c` stands for.
pub open spec fn digit_value(c: char) -> nat {
    (c as nat - '0' as nat) as nat
}

/// Whether `c` is a hexadecimal digit, in either case.
pub open spec fn is_hex_digit(c: char) -> bool {
    is_digit(c) || ('a' <= c && c <= 'f') || ('A' <= c && c <= 'F')
}

/// The number that the hexadecimal digit `c` stands for.
pub open spec fn hex_digit_value(c: char) -> nat {
    if is_digit(c) {
        digit_value(c)
    } else if 'a' <= c && c <= 'f' {
        (c as nat - 'a' as nat + 10) as nat
    } else {
        (c as nat - 'A' as nat + 10) as nat
    }
}

/// Whether `s` holds decimal digits only.
pub open spec fn all_digits(s: Seq<char>) -> bool {
    forall|i: int| 0 <= i < s.len() ==> is_digit(#[trigger] s[i])
}

/// Whether `s` holds hexadecimal digits only.
pub open spec fn all_hex_digits(s: Seq<char>) -> bool {
    forall|i: int| 0 <= i < s.len() ==> is_hex_digit(#[trigger] s[i])
}

/// The number that `s` denotes when read as a decimal numeral, most
/// significant digit first.
pub open spec fn decimal(s: Seq<char>) -> nat
    decreases s.len(),
{
    if s.len() == 0 {
        0
    } else {
        decimal(s.drop_last()) * 10 + digit_value(s.last())
    }
}

/// The number that `s` denotes when read as a hexadecimal numeral, most
/// significant digit first.
pub open spec fn hexadecimal(s: Seq<char>) -> nat
    decreases s.len(),
{
    if s.len() == 0 {
        0
    } else {
        hexadecimal(s.drop_last()) * 16 + hex_digit_value(s.last())
    }
}

/// The fields of `s` between occurrences of `sep`, in order. A text without
/// `sep` is one field; two separators in a row, or one at either end, bound an
/// empty field.
pub open spec fn split(s: Seq<char>, sep: char) -> Seq<Seq<char>>
    decreases s.len(),
{
    if s.len() == 0 {
        seq![Seq::<char>::empty()]
    } else {
        let before = split(s.drop_last(), sep);
        if s.last() == sep {
            before.push(Seq::<char>::empty())
        } else {
            before.drop_last().push(before.last().push(s.last()))
        }
    }
}

/// The fields of `s` where an empty text has no field at all.
pub open spec fn fields(s: Seq<char>, sep: char) -> Seq<Seq<char>> {
    if s.len() == 0 {
        Seq::<Seq<char>>::empty()
    } else {
        split(s, sep)
    }
}

/// A half-open range of positions in a text.
#[derive(Clone, Copy, Debug)]
pub struct Span {
    pub start: usize,
    pub end: usize,
}

impl Span {
    /// The part of `s` that the span covers.
    pub open spec fn of(self, s: Seq<char>) -> Seq<char> {
        s.subrange(self.start as int, self.end as int)
    }

    /// Whether the span lies within `from..to`.
    pub open spec fn within(self, from: int, to: int) -> bool {
        from <= self.start <= self.end <= to
    }
}

/// Whether `spans` mark, in order, the fields of `s` between `from` and `to`.
pub open spec fn spans_mark(
    spans: Seq<Span>,
    s: Seq<char>,
    from: int,
    to: int,
    parts: Seq<Seq<char>>,
) -> bool {
    &&& spans.len() == parts.len()
    &&& forall|k: int|
        0 <= k < spans.len() ==> (#[trigger] spans[k]).within(from, to) && spans[k].of(s)
            == parts[k]
}

/// A split always yields at least one field.
pub proof fn lemma_split_nonempty(s: Seq<char>, sep: char)
    ensures
        split(s, sep).len() >= 1,
    decreases s.len(),
{
    if s.len() > 0 {
        lemma_split_nonempty(s.drop_last(), sep);
    }
}

/// No field of a split holds the separator, and every character of the text
/// that is not the separator occurs in some field.
pub proof fn lemma_split_fields(s: Seq<char>, sep: char)
    ensures
        forall|k: int, i: int|
            0 <= k < split(s, sep).len() && 0 <= i < split(s, sep)[k].len() ==> split(
                s,
                sep,
            )[k][i] != sep,
        forall|i: int|
            0 <= i < s.len() && s[i] != sep ==> exists|k: int, j: int|
                0 <= k < split(s, sep).len() && 0 <= j < split(s, sep)[k].len() && split(
                    s,
                    sep,
                )[k][j] == s[i],
    decreases s.len(),
{
    if s.len() > 0 {
        let init = s.drop_last();
        let before = split(init, sep);
        let now = split(s, sep);
        lemma_split_fields(init, sep);
        lemma_split_nonempty(init, sep);
        assert forall|i: int| 0 <= i < s.len() && s[i] != sep implies exists|k: int, j: int|
            0 <= k < now.len() && 0 <= j < now[k].len() && now[k][j] == s[i] by {
            if i < s.len() - 1 {
                assert(init[i] == s[i]);
                let (k, j) = choose|k: int, j: int|
                    0 <= k < before.len() && 0 <= j < before[k].len() && before[k][j] == init[i];
                assert(0 <= k < now.len() && 0 <= j < now[k].len() && now[k][j] == s[i]);
            } else {
                let k = now.len() - 1;
                let j = now[k].len() - 1;
                assert(0 <= k < now.len() && 0 <= j < now[k].len() && now[k][j] == s[i]);
            }
        }
    }
}

/// A text holds the separator exactly when its split has more than one field.
pub proof fn lemma_split_single(s: Seq<char>, sep: char)
    ensures
        split(s, sep).len() == 1 <==> (forall|i: int| 0 <= i < s.len() ==> s[i] != sep),
        split(s, sep).len() == 1 ==> split(s, sep)[0] == s,
    decreases s.len(),
{
    lemma_split_nonempty(s, sep);
    if s.len() > 0 {
        let init = s.drop_last();
        lemma_split_single(init, sep);
        lemma_split_nonempty(init, sep);
        if s.last() == sep {
        } else if split(init, sep).len() == 1 {
            assert(init.push(s.last()) =~= s);
            assert forall|i: int| 0 <= i < s.len() implies s[i] != sep by {
                if i < s.len() - 1 {
                    assert(init[i] == s[i]);
                }
            }
        } else {
            let i = choose|i: int| 0 <= i < init.len() && init[i] == sep;
            assert(s[i] == sep);
        }
    } else {
        assert(split(s, sep)[0] =~= s);
    }
}

/// The character at position `i` of an ASCII text.
pub(crate) fn char_at(text: &str, i: usize) -> (b: u8)
    requires
        text.is_ascii(),
        i < text@.len(),
    ensures
        b as char == text@[i as int],
        b < 128,
{
    text.get_ascii(i)
}

/// The number of characters of an ASCII text.
pub(crate) fn ascii_len(text: &str) -> (n: usize)
    requires
        text.is_ascii(),
    ensures
        n == text@.len(),
{
    proof {
        is_ascii_spec_bytes(text);
    }
    text.as_bytes().len()
}

/// Marks the fields between `from` and `to` that `sep` separates.
pub(crate) fn split_spans(text: &str, from: usize, to: usize, sep: u8) -> (spans: Vec<Span>)
    requires
        text.is_ascii(),
        from <= to <= text@.len(),
    ensures
        spans_mark(
            spans@,
            text@,
            from as int,
            to as int,
            split(text@.subrange(from as int, to as int), sep as char),
        ),
{
    let mut spans: Vec<Span> = Vec::new();
    let mut start: usize = from;
    let mut i: usize = from;
    while i < to
        invariant
            text.is_ascii(),
            from <= start <= i <= to <= text@.len(),
            split(text@.subrange(from as int, i as int), sep as char).len() == spans@.len() + 1,
            split(text@.subrange(from as int, i as int), sep as char).last() == text@.subrange(
                start as int,
                i as int,
            ),
            forall|k: int|
                0 <= k < spans@.len() ==> (#[trigger] spans@[k]).within(from as int, to as int)
                    && spans@[k].of(text@) == split(
                    text@.subrange(from as int, i as int),
                    sep as char,
                )[k],
        decreases to - i,
    {
        let b = char_at(text, i);
        proof {
            let done = text@.subrange(from as int, i as int);
            let more = text@.subrange(from as int, i + 1);
            assert(more.drop_last() =~= done);
            assert(more.last() == text@[i as int]);
            assert(text@.subrange(start as int, i as int).push(text@[i as int])
                =~= text@.subrange(start as int, i + 1));
            assert(Seq::<char>::empty() =~= text@.subrange(i + 1, i + 1));
        }
        if b == sep {
            spans.push(Span { start, end: i });
            start = i + 1;
        }
        i = i + 1;
    }
    spans.push(Span { start, end: to });
    spans
}

} // verus!
