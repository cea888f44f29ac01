//! The report as text. Latencies are shown in milliseconds with three decimal
//! places, rounded to the nearest thousandth, a half upwards. Targets are
//! shown as address and port, an IPv6 address in its shortest form.

use crate::address::{IpAddress, Target};
use crate::ping::Line;
use crate::stats::Summary;
use vstd::prelude::*;
use vstd::string::*;

verus! {

/// The character of the digit `d`, in lower case from ten on.
pub open spec fn digit_char(d: nat) -> char {
    if d < 10 {
        (48 + d) as u8 as char
    } else {
        (87 + d) as u8 as char
    }
}

/// The decimal numeral of `n`, without leading zeros.
pub open spec fn numeral(n: nat) -> Seq<char>
    decreases n,
{
    if n < 10 {
        seq![digit_char(n)]
    } else {
        numeral(n / 10).push(digit_char(n % 10))
    }
}

/// A latency in thousandths of a millisecond, rounded to the nearest, a half
/// upwards.
pub open spec fn thousandths(nanos: u64) -> nat {
    ((nanos + 500) / 1000) as nat
}

/// A latency in milliseconds, with three decimal places.
pub open spec fn millis_text(nanos: u64) -> Seq<char> {
    let t = thousandths(nanos);
    numeral(t / 1000) + seq![
        '.',
        digit_char(t / 100 % 10),
        digit_char(t / 10 % 10),
        digit_char(t % 10),
    ]
}

/// The line that reports a successful trial.
pub open spec fn trial_text(latency: u64) -> Seq<char> {
    "TCP ping elapsed "@ + millis_text(latency) + " ms"@
}

/// The line that sums up a series.
pub open spec fn summary_text(summary: Summary) -> Seq<char> {
    "tcp ping min/avg/max = "@ + millis_text(summary.min) + "/"@ + millis_text(summary.avg) + "/"@
        + millis_text(summary.max) + " ms"@
}

/// Rounding keeps the order of latencies.
pub proof fn lemma_thousandths_monotonic(a: u64, b: u64)
    requires
        a <= b,
    ensures
        thousandths(a) <= thousandths(b),
{
}

/// The text of one digit.
fn digit_str(d: u8) -> (r: &'static str)
    requires
        d < 16,
    ensures
        r@ == seq![digit_char(d as nat)],
{
    let r = match d {
        0 => "0",
        1 => "1",
        2 => "2",
        3 => "3",
        4 => "4",
        5 => "5",
        6 => "6",
        7 => "7",
        8 => "8",
        9 => "9",
        10 => "a",
        11 => "b",
        12 => "c",
        13 => "d",
        14 => "e",
        _ => "f",
    };
    proof {
        reveal_strlit("0");
        reveal_strlit("1");
        reveal_strlit("2");
        reveal_strlit("3");
        reveal_strlit("4");
        reveal_strlit("5");
        reveal_strlit("6");
        reveal_strlit("7");
        reveal_strlit("8");
        reveal_strlit("9");
        reveal_strlit("a");
        reveal_strlit("b");
        reveal_strlit("c");
        reveal_strlit("d");
        reveal_strlit("e");
        reveal_strlit("f");
        assert(r@ =~= seq![digit_char(d as nat)]);
    }
    r
}

/// Writes the decimal numeral of `n` at the end of `out`.
pub fn push_numeral(out: &mut String, n: u64)
    ensures
        final(out)@ == old(out)@ + numeral(n as nat),
    decreases n,
{
    if n >= 10 {
        push_numeral(out, n / 10);
    }
    out.append(digit_str((n % 10) as u8));
    proof {
        let c = digit_char((n % 10) as nat);
        if n >= 10 {
            assert(old(out)@ + numeral((n / 10) as nat) + seq![c] =~= old(out)@ + numeral(
                (n / 10) as nat,
            ).push(c));
        }
    }
}

/// Writes a latency in milliseconds, with three decimal places, at the end of
/// `out`.
pub fn push_millis(out: &mut String, nanos: u64)
    ensures
        final(out)@ == old(out)@ + millis_text(nanos),
{
    let t: u64 = nanos / 1000 + if nanos % 1000 >= 500 {
        1
    } else {
        0
    };
    assert(t == thousandths(nanos));
    push_numeral(out, t / 1000);
    out.append(".");
    out.append(digit_str((t / 100 % 10) as u8));
    out.append(digit_str((t / 10 % 10) as u8));
    out.append(digit_str((t % 10) as u8));
    proof {
        reveal_strlit(".");
        assert("."@ =~= seq!['.']);
        let a = digit_char((t / 100 % 10) as nat);
        let b = digit_char((t / 10 % 10) as nat);
        let c = digit_char((t % 10) as nat);
        assert(old(out)@ + numeral((t / 1000) as nat) + seq!['.'] + seq![a] + seq![b] + seq![c]
            =~= old(out)@ + (numeral((t / 1000) as nat) + seq!['.', a, b, c]));
    }
}

/// A latency in milliseconds, with three decimal places.
pub fn millis(nanos: u64) -> (r: String)
    ensures
        r@ == millis_text(nanos),
{
    let mut out = String::new();
    push_millis(&mut out, nanos);
    assert(Seq::<char>::empty() + millis_text(nanos) =~= millis_text(nanos));
    out
}

/// The line that reports a successful trial.
pub fn trial_line(latency: u64) -> (r: String)
    ensures
        r@ == trial_text(latency),
{
    let mut out = String::new();
    out.append("TCP ping elapsed ");
    push_millis(&mut out, latency);
    out.append(" ms");
    assert(Seq::<char>::empty() + "TCP ping elapsed "@ =~= "TCP ping elapsed "@);
    out
}

/// The line that sums up a series.
pub fn summary_line(summary: Summary) -> (r: String)
    ensures
        r@ == summary_text(summary),
{
    let mut out = String::new();
    out.append("tcp ping min/avg/max = ");
    push_millis(&mut out, summary.min);
    out.append("/");
    push_millis(&mut out, summary.avg);
    out.append("/");
    push_millis(&mut out, summary.max);
    out.append(" ms");
    assert(Seq::<char>::empty() + "tcp ping min/avg/max = "@ =~= "tcp ping min/avg/max = "@);
    out
}

/// The hexadecimal numeral of `n`, in lower case and without leading zeros.
pub open spec fn hex_numeral(n: nat) -> Seq<char>
    decreases n,
{
    if n < 16 {
        seq![digit_char(n)]
    } else {
        hex_numeral(n / 16).push(digit_char(n % 16))
    }
}

/// The four octets of an IPv4 address, the most significant first.
pub open spec fn octets(bits: u32) -> Seq<u8> {
    seq![
        (bits / 0x100_0000) as u8,
        (bits / 0x1_0000 % 256) as u8,
        (bits / 0x100 % 256) as u8,
        (bits % 256) as u8,
    ]
}

/// An IPv4 address in dotted-quad form.
pub open spec fn ipv4_text(bits: u32) -> Seq<char> {
    let o = octets(bits);
    numeral(o[0] as nat) + seq!['.'] + numeral(o[1] as nat) + seq!['.'] + numeral(o[2] as nat)
        + seq!['.'] + numeral(o[3] as nat)
}

/// The eight groups of an IPv6 address, the most significant first.
pub open spec fn unpack(bits: u128) -> Seq<u16> {
    seq![
        (bits / 0x1_0000_0000_0000_0000_0000_0000_0000) as u16,
        (bits / 0x1_0000_0000_0000_0000_0000_0000 % 0x1_0000) as u16,
        (bits / 0x1_0000_0000_0000_0000_0000 % 0x1_0000) as u16,
        (bits / 0x1_0000_0000_0000_0000 % 0x1_0000) as u16,
        (bits / 0x1_0000_0000_0000 % 0x1_0000) as u16,
        (bits / 0x1_0000_0000 % 0x1_0000) as u16,
        (bits / 0x1_0000 % 0x1_0000) as u16,
        (bits % 0x1_0000) as u16,
    ]
}

/// The number of zero groups in a row from position `i` on.
pub open spec fn zero_run(groups: Seq<u16>, i: int) -> nat
    decreases groups.len() - i,
{
    if 0 <= i < groups.len() && groups[i] == 0 {
        1 + zero_run(groups, i + 1)
    } else {
        0
    }
}

/// Whether the longest run of zero groups starts at `start`, and no run as
/// long starts before it.
pub open spec fn is_widest_gap(groups: Seq<u16>, start: int) -> bool {
    &&& 0 <= start < groups.len()
    &&& forall|j: int| 0 <= j < groups.len() ==> zero_run(groups, j) <= zero_run(groups, start)
    &&& forall|j: int| 0 <= j < start ==> zero_run(groups, j) < zero_run(groups, start)
}

/// Where the first of the longest runs of zero groups starts.
pub open spec fn widest_gap(groups: Seq<u16>) -> int {
    choose|start: int| is_widest_gap(groups, start)
}

/// Groups as hexadecimal numerals with colons between them.
pub open spec fn joined(groups: Seq<u16>) -> Seq<char>
    decreases groups.len(),
{
    if groups.len() == 0 {
        Seq::<char>::empty()
    } else if groups.len() == 1 {
        hex_numeral(groups[0] as nat)
    } else {
        joined(groups.drop_last()) + seq![':'] + hex_numeral(groups.last() as nat)
    }
}

/// Whether the groups are those of an IPv4 address mapped into IPv6: five
/// zero groups and one of all ones before the address.
pub open spec fn is_mapped(groups: Seq<u16>) -> bool {
    groups.len() == 8 && groups[0] == 0 && groups[1] == 0 && groups[2] == 0 && groups[3] == 0
        && groups[4] == 0 && groups[5] == 0xffff
}

/// An IPv6 address in its shortest form: a mapped IPv4 address with a
/// dotted quad at the end; otherwise the groups in lower case without leading
/// zeros, where the first of the longest runs of two or more zero groups is
/// left out and marked by a double colon.
pub open spec fn ipv6_text(bits: u128) -> Seq<char> {
    let groups = unpack(bits);
    if is_mapped(groups) {
        "::ffff:"@ + ipv4_text((bits % 0x1_0000_0000) as u32)
    } else {
        let start = widest_gap(groups);
        let n = zero_run(groups, start);
        if n >= 2 {
            joined(groups.take(start)) + "::"@ + joined(groups.skip(start + n))
        } else {
            joined(groups)
        }
    }
}

/// An address as text, in the form of its family.
pub open spec fn address_text(address: IpAddress) -> Seq<char> {
    match address {
        IpAddress::V4(bits) => ipv4_text(bits),
        IpAddress::V6(bits) => ipv6_text(bits),
    }
}

/// A target as address and port: an IPv4 address, a colon and the port; an
/// IPv6 address in square brackets, a colon and the port.
pub open spec fn target_text(target: Target) -> Seq<char> {
    match target.address {
        IpAddress::V4(bits) => ipv4_text(bits) + ":"@ + numeral(target.port as nat),
        IpAddress::V6(bits) => "["@ + ipv6_text(bits) + "]:"@ + numeral(target.port as nat),
    }
}

/// The line that tells of a failed connection.
pub open spec fn failure_text(target: Target) -> Seq<char> {
    "Failed connect to "@ + target_text(target) + " !"@
}

/// A line of the report as text.
pub open spec fn line_text(line: Line) -> Seq<char> {
    match line {
        Line::Trial { latency } => trial_text(latency),
        Line::Failure { target } => failure_text(target),
        Line::Summary { summary } => summary_text(summary),
    }
}

/// Writes the hexadecimal numeral of `n` at the end of `out`.
pub fn push_hex(out: &mut String, n: u16)
    ensures
        final(out)@ == old(out)@ + hex_numeral(n as nat),
    decreases n,
{
    if n >= 16 {
        push_hex(out, n / 16);
    }
    out.append(digit_str((n % 16) as u8));
    proof {
        let c = digit_char((n % 16) as nat);
        if n >= 16 {
            assert(old(out)@ + hex_numeral((n / 16) as nat) + seq![c] =~= old(out)@ + hex_numeral(
                (n / 16) as nat,
            ).push(c));
        }
    }
}

/// Writes an IPv4 address in dotted-quad form at the end of `out`.
pub fn push_ipv4(out: &mut String, bits: u32)
    ensures
        final(out)@ == old(out)@ + ipv4_text(bits),
{
    push_numeral(out, (bits / 0x100_0000) as u64);
    out.append(".");
    push_numeral(out, (bits / 0x1_0000 % 256) as u64);
    out.append(".");
    push_numeral(out, (bits / 0x100 % 256) as u64);
    out.append(".");
    push_numeral(out, (bits % 256) as u64);
    proof {
        reveal_strlit(".");
        assert("."@ =~= seq!['.']);
        let o = octets(bits);
        let dot = seq!['.'];
        assert(old(out)@ + numeral(o[0] as nat) + dot + numeral(o[1] as nat) + dot + numeral(
            o[2] as nat,
        ) + dot + numeral(o[3] as nat) =~= old(out)@ + ipv4_text(bits));
    }
}

/// Takes an IPv6 address apart into its eight groups.
pub fn groups_of_bits(bits: u128) -> (r: Vec<u16>)
    ensures
        r@ == unpack(bits),
{
    let mut groups: Vec<u16> = Vec::new();
    groups.push((bits / 0x1_0000_0000_0000_0000_0000_0000_0000) as u16);
    groups.push((bits / 0x1_0000_0000_0000_0000_0000_0000 % 0x1_0000) as u16);
    groups.push((bits / 0x1_0000_0000_0000_0000_0000 % 0x1_0000) as u16);
    groups.push((bits / 0x1_0000_0000_0000_0000 % 0x1_0000) as u16);
    groups.push((bits / 0x1_0000_0000_0000 % 0x1_0000) as u16);
    groups.push((bits / 0x1_0000_0000 % 0x1_0000) as u16);
    groups.push((bits / 0x1_0000 % 0x1_0000) as u16);
    groups.push((bits % 0x1_0000) as u16);
    assert(groups@ =~= unpack(bits));
    groups
}

/// Finds the first of the longest runs of zero groups: where it starts and
/// how long it is.
pub(crate) fn find_widest_gap(groups: &Vec<u16>) -> (r: (usize, usize))
    requires
        groups@.len() > 0,
    ensures
        r.0 == widest_gap(groups@),
        r.1 == zero_run(groups@, r.0 as int),
        r.0 + r.1 <= groups@.len(),
{
    let n = groups.len();
    let mut i: usize = n - 1;
    let mut run: usize = if groups[i] == 0 {
        1
    } else {
        0
    };
    assert(zero_run(groups@, n as int) == 0);
    let mut start: usize = i;
    let mut longest: usize = run;
    while i > 0
        invariant
            n == groups@.len(),
            i <= start < n,
            run == zero_run(groups@, i as int),
            longest == zero_run(groups@, start as int),
            i + run <= n,
            start + longest <= n,
            forall|j: int| i <= j < n ==> zero_run(groups@, j) <= longest,
            forall|j: int| i <= j < start ==> zero_run(groups@, j) < longest,
        decreases i,
    {
        i = i - 1;
        if groups[i] == 0 {
            run = run + 1;
        } else {
            run = 0;
        }
        if run >= longest {
            start = i;
            longest = run;
        }
    }
    proof {
        assert(is_widest_gap(groups@, start as int));
        let chosen = widest_gap(groups@);
        assert(is_widest_gap(groups@, chosen));
        if chosen < start {
            assert(zero_run(groups@, chosen) < zero_run(groups@, start as int));
            assert(zero_run(groups@, start as int) <= zero_run(groups@, chosen));
        } else if start < chosen {
            assert(zero_run(groups@, start as int) < zero_run(groups@, chosen));
            assert(zero_run(groups@, chosen) <= zero_run(groups@, start as int));
        }
    }
    (start, longest)
}

/// Writes the groups from `from` up to `to`, with colons between them, at the
/// end of `out`.
pub(crate) fn push_joined(out: &mut String, groups: &Vec<u16>, from: usize, to: usize)
    requires
        from <= to <= groups@.len(),
    ensures
        final(out)@ == old(out)@ + joined(groups@.subrange(from as int, to as int)),
{
    let mut i: usize = from;
    assert(old(out)@ + joined(groups@.subrange(from as int, from as int)) =~= old(out)@);
    while i < to
        invariant
            from <= i <= to <= groups@.len(),
            out@ == old(out)@ + joined(groups@.subrange(from as int, i as int)),
        decreases to - i,
    {
        let ghost before = groups@.subrange(from as int, i as int);
        let ghost now = groups@.subrange(from as int, i + 1);
        assert(now.drop_last() =~= before);
        if i > from {
            out.append(":");
        }
        push_hex(out, groups[i]);
        proof {
            reveal_strlit(":");
            assert(":"@ =~= seq![':']);
            let h = hex_numeral(groups@[i as int] as nat);
            if i > from {
                assert(old(out)@ + joined(before) + seq![':'] + h =~= old(out)@ + (joined(before)
                    + seq![':'] + h));
            } else {
                assert(old(out)@ + joined(before) + h =~= old(out)@ + h);
            }
        }
        i = i + 1;
    }
}

/// Writes an IPv6 address in its shortest form at the end of `out`.
pub fn push_ipv6(out: &mut String, bits: u128)
    ensures
        final(out)@ == old(out)@ + ipv6_text(bits),
{
    let groups = groups_of_bits(bits);
    let mapped = groups[0] == 0 && groups[1] == 0 && groups[2] == 0 && groups[3] == 0
        && groups[4] == 0 && groups[5] == 0xffff;
    if mapped {
        let low = (bits % 0x1_0000_0000) as u32;
        out.append("::ffff:");
        push_ipv4(out, low);
        assert(old(out)@ + "::ffff:"@ + ipv4_text(low) =~= old(out)@ + ("::ffff:"@ + ipv4_text(
            low,
        )));
    } else {
        let (start, n) = find_widest_gap(&groups);
        if n >= 2 {
            push_joined(out, &groups, 0, start);
            out.append("::");
            push_joined(out, &groups, start + n, 8);
            proof {
                let head = joined(groups@.take(start as int));
                let tail = joined(groups@.skip(start + n));
                assert(groups@.subrange(0, start as int) =~= groups@.take(start as int));
                assert(groups@.subrange(start + n, 8) =~= groups@.skip(start + n));
                assert(old(out)@ + head + "::"@ + tail =~= old(out)@ + (head + "::"@ + tail));
            }
        } else {
            push_joined(out, &groups, 0, 8);
            assert(groups@.subrange(0, 8) =~= groups@);
        }
    }
}

/// Writes a target, as address and port, at the end of `out`.
pub fn push_target(out: &mut String, target: Target)
    ensures
        final(out)@ == old(out)@ + target_text(target),
{
    match target.address {
        IpAddress::V4(bits) => {
            push_ipv4(out, bits);
            out.append(":");
            push_numeral(out, target.port as u64);
            assert(old(out)@ + ipv4_text(bits) + ":"@ + numeral(target.port as nat) =~= old(out)@
                + (ipv4_text(bits) + ":"@ + numeral(target.port as nat)));
        },
        IpAddress::V6(bits) => {
            out.append("[");
            push_ipv6(out, bits);
            out.append("]:");
            push_numeral(out, target.port as u64);
            assert(old(out)@ + "["@ + ipv6_text(bits) + "]:"@ + numeral(target.port as nat)
                =~= old(out)@ + ("["@ + ipv6_text(bits) + "]:"@ + numeral(target.port as nat)));
        },
    }
}

/// An address as text, in the form of its family.
pub fn address_string(address: IpAddress) -> (r: String)
    ensures
        r@ == address_text(address),
{
    let mut out = String::new();
    match address {
        IpAddress::V4(bits) => push_ipv4(&mut out, bits),
        IpAddress::V6(bits) => push_ipv6(&mut out, bits),
    }
    assert(Seq::<char>::empty() + address_text(address) =~= address_text(address));
    out
}

/// A target as address and port.
pub fn target_string(target: Target) -> (r: String)
    ensures
        r@ == target_text(target),
{
    let mut out = String::new();
    push_target(&mut out, target);
    assert(Seq::<char>::empty() + target_text(target) =~= target_text(target));
    out
}

/// The line that tells of a failed connection.
pub fn failure_line(target: Target) -> (r: String)
    ensures
        r@ == failure_text(target),
{
    let mut out = String::new();
    out.append("Failed connect to ");
    push_target(&mut out, target);
    out.append(" !");
    assert(Seq::<char>::empty() + "Failed connect to "@ =~= "Failed connect to "@);
    out
}

/// A line of the report as text.
pub fn render_line(line: Line) -> (r: String)
    ensures
        r@ == line_text(line),
{
    match line {
        Line::Trial { latency } => trial_line(latency),
        Line::Failure { target } => failure_line(target),
        Line::Summary { summary } => summary_line(summary),
    }
}

} // verus!
