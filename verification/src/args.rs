//! Targets named by a list of command-line words: `-4` and `-6` are each
//! followed by an address literal of that family, `-p` by a port. Other words
//! are passed over. Without an address the target is the local host, and
//! without a port it is port 80.

use crate::address::{literal, parse_address, ConfigError, Family, IpAddress, Target};
use crate::ipv4::{make_quad, quad};
use crate::text::{all_digits, ascii_len, char_at, decimal};
use vstd::prelude::*;

verus! {

/// The port that `s` denotes, if it denotes one: decimal digits, at least
/// one, after at most one plus sign, with a value of at most 65535. Leading
/// zeros are allowed.
pub open spec fn port_literal(s: Seq<char>) -> Option<u16> {
    let digits = if s.len() > 0 && s[0] == '+' {
        s.skip(1)
    } else {
        s
    };
    if digits.len() >= 1 && all_digits(digits) && decimal(digits) <= 65535 {
        Some(decimal(digits) as u16)
    } else {
        None
    }
}

/// Whether `s` is the option of the given letter: a hyphen and the letter.
pub open spec fn option_named(s: Seq<char>, letter: char) -> bool {
    s.len() == 2 && s[0] == '-' && s[1] == letter
}

/// The target of a list of words that names none.
pub open spec fn default_target() -> Target {
    Target { address: IpAddress::V4(quad(127, 0, 0, 1)), port: 80 }
}

/// The target that the words from position `at` on make of `target`, or the
/// first error among them.
pub open spec fn scan(args: Seq<String>, at: int, target: Target) -> Result<Target, ConfigError>
    decreases args.len() - at,
{
    if at < 0 || at >= args.len() {
        Ok(target)
    } else if option_named(args[at]@, '4') || option_named(args[at]@, '6') {
        let family = if option_named(args[at]@, '4') {
            Family::V4
        } else {
            Family::V6
        };
        if at + 1 >= args.len() {
            Err(ConfigError::MissingValue { option: args[at] })
        } else {
            match literal(args[at + 1]@, family) {
                Some(address) => scan(args, at + 2, Target { address, port: target.port }),
                None => Err(ConfigError::InvalidAddress { host: args[at + 1], family }),
            }
        }
    } else if option_named(args[at]@, 'p') {
        if at + 1 >= args.len() {
            Err(ConfigError::MissingValue { option: args[at] })
        } else {
            match port_literal(args[at + 1]@) {
                Some(port) => scan(args, at + 2, Target { address: target.address, port }),
                None => Err(ConfigError::InvalidPort { text: args[at + 1] }),
            }
        }
    } else {
        scan(args, at + 1, target)
    }
}

/// The target that a list of words names. The first word is the name of the
/// program and is passed over; a list of fewer than five words is refused.
pub open spec fn arguments(args: Seq<String>) -> Result<Target, ConfigError> {
    if args.len() < 5 {
        Err(ConfigError::TooFewArguments)
    } else {
        scan(args, 1, default_target())
    }
}

/// The number that the first digits of a numeral denote is at most the number
/// that the whole numeral denotes.
pub proof fn lemma_decimal_prefix(s: Seq<char>, k: int)
    requires
        0 <= k <= s.len(),
    ensures
        decimal(s.take(k)) <= decimal(s),
    decreases s.len(),
{
    if k < s.len() {
        lemma_decimal_prefix(s.drop_last(), k);
        assert(s.drop_last().take(k) =~= s.take(k));
    } else {
        assert(s.take(k) =~= s);
    }
}

/// Reads a port.
pub fn parse_port(text: &str) -> (r: Option<u16>)
    ensures
        r == port_literal(text@),
{
    if !text.is_ascii() {
        proof {
            if port_literal(text@) is Some {
                let s = text@;
                let off: int = if s[0] == '+' {
                    1
                } else {
                    0
                };
                assert forall|i: int| 0 <= i < s.len() implies '\0' <= #[trigger] s[i]
                    <= '\u{7f}' by {
                    if i >= off {
                        assert(s.skip(off)[i - off] == s[i]);
                    }
                }
            }
        }
        return None;
    }
    let n = ascii_len(text);
    let start: usize = if n > 0 && char_at(text, 0) == 43 {
        1
    } else {
        0
    };
    let ghost digits = text@.subrange(start as int, n as int);
    assert(digits =~= if text@.len() > 0 && text@[0] == '+' {
        text@.skip(1)
    } else {
        text@
    });
    if start == n {
        return None;
    }
    let mut value: u32 = 0;
    let mut i: usize = start;
    while i < n
        invariant
            text.is_ascii(),
            n == text@.len(),
            start <= i <= n,
            start < n,
            digits == text@.subrange(start as int, n as int),
            port_literal(text@) == (if all_digits(digits) && decimal(digits) <= 65535 {
                Some(decimal(digits) as u16)
            } else {
                None
            }),
            all_digits(text@.subrange(start as int, i as int)),
            value == decimal(text@.subrange(start as int, i as int)),
            value <= 65535,
        decreases n - i,
    {
        let b = char_at(text, i);
        if b < 48 || b > 57 {
            assert(digits[i - start] == text@[i as int]);
            return None;
        }
        proof {
            let more = text@.subrange(start as int, i + 1);
            assert(more.drop_last() =~= text@.subrange(start as int, i as int));
            assert(more.last() == text@[i as int]);
            assert(digits.take(i + 1 - start) =~= more);
            lemma_decimal_prefix(digits, i + 1 - start);
        }
        value = value * 10 + (b - 48) as u32;
        if value > 65535 {
            return None;
        }
        i = i + 1;
    }
    assert(text@.subrange(start as int, i as int) == digits);
    Some(value as u16)
}

/// Whether `text` is the option of the given letter.
fn is_option(text: &str, letter: u8) -> (r: bool)
    requires
        letter < 128,
    ensures
        r == option_named(text@, letter as char),
{
    if !text.is_ascii() {
        return false;
    }
    let n = ascii_len(text);
    n == 2 && char_at(text, 0) == 45 && char_at(text, 1) == letter
}

/// Reads the target that a list of command-line words names.
pub fn parse_arg_list(args: &Vec<String>) -> (r: Result<Target, ConfigError>)
    ensures
        r == arguments(args@),
{
    if args.len() < 5 {
        return Err(ConfigError::TooFewArguments);
    }
    let mut target = Target { address: IpAddress::V4(make_quad(127, 0, 0, 1)), port: 80 };
    let mut at: usize = 1;
    while at < args.len()
        invariant
            1 <= at <= args@.len(),
            arguments(args@) == scan(args@, at as int, target),
        decreases args@.len() - at,
    {
        let word = args[at].as_str();
        let v4 = is_option(word, 52);
        let v6 = is_option(word, 54);
        if v4 || v6 {
            let family = if v4 {
                Family::V4
            } else {
                Family::V6
            };
            if at + 1 >= args.len() {
                return Err(ConfigError::MissingValue { option: args[at].clone() });
            }
            match parse_address(args[at + 1].as_str(), family) {
                Some(address) => {
                    target = Target { address, port: target.port };
                },
                None => {
                    return Err(
                        ConfigError::InvalidAddress { host: args[at + 1].clone(), family },
                    );
                },
            }
            at = at + 2;
        } else if is_option(word, 112) {
            if at + 1 >= args.len() {
                return Err(ConfigError::MissingValue { option: args[at].clone() });
            }
            match parse_port(args[at + 1].as_str()) {
                Some(port) => {
                    target = Target { address: target.address, port };
                },
                None => {
                    return Err(ConfigError::InvalidPort { text: args[at + 1].clone() });
                },
            }
            at = at + 2;
        } else {
            at = at + 1;
        }
    }
    Ok(target)
}

} // verus!
