//! Writing and reading back: the text that an address or a port is shown as
//! is a literal of that address or port.

use crate::address::{literal, resolve, Cli, ConfigError, IpAddress, Target};
use crate::args::port_literal;
use crate::ipv4::{ipv4_literal, lemma_ipv4_characters, octet, quad};
use crate::ipv6::{
    all_groups, first_gap, first_gap_at, gap_at, groups_of, hex_group, ipv6_groups, ipv6_literal,
    lower_group, pack, upper_group, zero_groups,
};
use crate::render::{
    address_text, hex_numeral, ipv4_text, ipv6_text, is_mapped, joined, numeral, octets, unpack, widest_gap,
    zero_run,
};
use crate::text::{
    all_digits, all_hex_digits, decimal, fields, hexadecimal, is_digit, is_hex_digit,
    lemma_split_nonempty, lemma_split_single, split,
};
use vstd::prelude::*;

verus! {

/// The decimal numeral of a number is made of digits, starts with no zero
/// unless the number is zero, and denotes the number.
pub proof fn lemma_numeral(n: nat)
    ensures
        numeral(n).len() >= 1,
        all_digits(numeral(n)),
        decimal(numeral(n)) == n,
        n >= 1 ==> numeral(n)[0] != '0',
        n < 10 ==> numeral(n).len() == 1,
        n < 100 ==> numeral(n).len() <= 2,
        n < 1000 ==> numeral(n).len() <= 3,
    decreases n,
{
    let text = numeral(n);
    if n < 10 {
        assert(text.drop_last() =~= Seq::<char>::empty());
        assert(decimal(text.drop_last()) == 0);
    } else {
        lemma_numeral(n / 10);
        assert(text.drop_last() =~= numeral(n / 10));
        assert(text[0] == numeral(n / 10)[0]);
        assert forall|i: int| 0 <= i < text.len() implies is_digit(#[trigger] text[i]) by {
            if i < text.len() - 1 {
                assert(text[i] == numeral(n / 10)[i]);
            }
        }
    }
}

/// The hexadecimal numeral of a number is made of hexadecimal digits and
/// denotes the number; that of a number below 65536 has four digits at most.
pub proof fn lemma_hex_numeral(n: nat)
    ensures
        hex_numeral(n).len() >= 1,
        all_hex_digits(hex_numeral(n)),
        hexadecimal(hex_numeral(n)) == n,
        n < 0x10 ==> hex_numeral(n).len() == 1,
        n < 0x100 ==> hex_numeral(n).len() <= 2,
        n < 0x1000 ==> hex_numeral(n).len() <= 3,
        n < 0x1_0000 ==> hex_numeral(n).len() <= 4,
    decreases n,
{
    let text = hex_numeral(n);
    if n < 16 {
        assert(text.drop_last() =~= Seq::<char>::empty());
        assert(hexadecimal(text.drop_last()) == 0);
    } else {
        lemma_hex_numeral(n / 16);
        assert(text.drop_last() =~= hex_numeral(n / 16));
        assert forall|i: int| 0 <= i < text.len() implies is_hex_digit(#[trigger] text[i]) by {
            if i < text.len() - 1 {
                assert(text[i] == hex_numeral(n / 16)[i]);
            }
        }
    }
}

/// The fields of two texts with a separator between them are the fields of
/// the first followed by those of the second.
pub proof fn lemma_split_concat(a: Seq<char>, b: Seq<char>, sep: char)
    ensures
        split(a + seq![sep] + b, sep) == split(a, sep) + split(b, sep),
    decreases b.len(),
{
    let whole = a + seq![sep] + b;
    lemma_split_nonempty(a, sep);
    if b.len() == 0 {
        assert(whole.drop_last() =~= a);
        assert(split(a, sep).push(Seq::<char>::empty()) =~= split(a, sep) + split(b, sep));
    } else {
        let front = b.drop_last();
        lemma_split_concat(a, front, sep);
        lemma_split_nonempty(front, sep);
        assert(whole.drop_last() =~= a + seq![sep] + front);
        assert(whole.last() == b.last());
        let before = split(a, sep) + split(front, sep);
        if b.last() == sep {
            assert(before.push(Seq::<char>::empty()) =~= split(a, sep) + split(front, sep).push(
                Seq::<char>::empty(),
            ));
        } else {
            assert(before.last() == split(front, sep).last());
            assert(before.drop_last() =~= split(a, sep) + split(front, sep).drop_last());
            assert(before.drop_last().push(before.last().push(b.last())) =~= split(a, sep) + split(
                front,
                sep,
            ).drop_last().push(split(front, sep).last().push(b.last())));
        }
    }
}

/// The decimal numeral of an octet is read back as that octet.
pub proof fn lemma_octet_roundtrip(value: u8)
    ensures
        octet(numeral(value as nat)) == Some(value),
        split(numeral(value as nat), '.') == seq![numeral(value as nat)],
{
    let text = numeral(value as nat);
    lemma_numeral(value as nat);
    lemma_split_single(text, '.');
    assert(split(text, '.') =~= seq![text]);
}

/// The dotted quad that an IPv4 address is shown as is a literal of that
/// address.
pub proof fn lemma_ipv4_roundtrip(bits: u32)
    ensures
        ipv4_literal(ipv4_text(bits)) == Some(bits),
{
    let o = octets(bits);
    let n0 = numeral(o[0] as nat);
    let n1 = numeral(o[1] as nat);
    let n2 = numeral(o[2] as nat);
    let n3 = numeral(o[3] as nat);
    lemma_octet_roundtrip(o[0]);
    lemma_octet_roundtrip(o[1]);
    lemma_octet_roundtrip(o[2]);
    lemma_octet_roundtrip(o[3]);
    let a1 = n0 + seq!['.'] + n1;
    let a2 = a1 + seq!['.'] + n2;
    let a3 = a2 + seq!['.'] + n3;
    assert(a3 == ipv4_text(bits));
    lemma_split_concat(n0, n1, '.');
    lemma_split_concat(a1, n2, '.');
    lemma_split_concat(a2, n3, '.');
    let parts = split(a3, '.');
    assert(parts =~= seq![n0, n1, n2, n3]);
    assert(quad(o[0], o[1], o[2], o[3]) == bits);
}

/// The decimal numeral of a port is a literal of that port.
pub proof fn lemma_port_roundtrip(port: u16)
    ensures
        port_literal(numeral(port as nat)) == Some(port),
{
    lemma_numeral(port as nat);
}

/// The hexadecimal numerals of groups, one field each.
pub open spec fn group_texts(groups: Seq<u16>) -> Seq<Seq<char>> {
    Seq::new(groups.len(), |k: int| hex_numeral(groups[k] as nat))
}

/// The hexadecimal numeral of a group is read back as that group, and holds
/// no colon.
pub proof fn lemma_group_roundtrip(value: u16)
    ensures
        hex_group(hex_numeral(value as nat)) == Some(value),
        hex_numeral(value as nat).len() >= 1,
        forall|i: int|
            0 <= i < hex_numeral(value as nat).len() ==> hex_numeral(value as nat)[i] != ':',
        split(hex_numeral(value as nat), ':') == seq![hex_numeral(value as nat)],
{
    let text = hex_numeral(value as nat);
    lemma_hex_numeral(value as nat);
    assert forall|i: int| 0 <= i < text.len() implies text[i] != ':' by {
        assert(is_hex_digit(text[i]));
    }
    lemma_split_single(text, ':');
    assert(split(text, ':') =~= seq![text]);
}

/// Groups written with colons between them have the numerals of the groups
/// as their fields.
pub proof fn lemma_joined_fields(groups: Seq<u16>)
    ensures
        fields(joined(groups), ':') == group_texts(groups),
        groups.len() > 0 ==> joined(groups).len() > 0,
    decreases groups.len(),
{
    if groups.len() == 0 {
        assert(fields(joined(groups), ':') =~= group_texts(groups));
    } else if groups.len() == 1 {
        lemma_group_roundtrip(groups[0]);
        assert(fields(joined(groups), ':') =~= group_texts(groups));
    } else {
        let front = groups.drop_last();
        lemma_joined_fields(front);
        lemma_group_roundtrip(groups.last());
        lemma_split_concat(joined(front), hex_numeral(groups.last() as nat), ':');
        assert(group_texts(front) + seq![hex_numeral(groups.last() as nat)] =~= group_texts(
            groups,
        ));
    }
}

/// Groups written with colons between them hold no double colon, and a colon
/// neither at the start nor at the end.
pub proof fn lemma_joined_colons(groups: Seq<u16>)
    ensures
        forall|i: int| !gap_at(joined(groups), i),
        joined(groups).len() > 0 ==> joined(groups)[0] != ':' && joined(groups).last() != ':',
    decreases groups.len(),
{
    let text = joined(groups);
    if groups.len() == 0 {
    } else if groups.len() == 1 {
        lemma_group_roundtrip(groups[0]);
    } else {
        let front = joined(groups.drop_last());
        let last = hex_numeral(groups.last() as nat);
        lemma_joined_colons(groups.drop_last());
        lemma_joined_fields(groups.drop_last());
        lemma_group_roundtrip(groups.last());
        assert(text == front + seq![':'] + last);
        assert(text[0] == front[0]);
        assert(text.last() == last.last());
        assert forall|i: int| !gap_at(text, i) by {
            if gap_at(text, i) {
                if i + 1 < front.len() {
                    assert(text[i] == front[i] && text[i + 1] == front[i + 1]);
                    assert(gap_at(front, i));
                } else if i + 1 == front.len() {
                    assert(text[i] == front.last());
                } else if i == front.len() {
                    assert(text[i + 1] == last[0]);
                } else {
                    assert(text[i] == last[i - front.len() - 1]);
                }
            }
        }
    }
}

/// The numerals of groups are read back as those groups.
pub proof fn lemma_groups_of_texts(groups: Seq<u16>, quad_allowed: bool)
    ensures
        groups_of(group_texts(groups), quad_allowed) == Some(groups),
{
    let parts = group_texts(groups);
    if groups.len() == 0 {
        assert(groups =~= Seq::<u16>::empty());
    } else {
        let front = parts.drop_last();
        assert forall|k: int| 0 <= k < parts.len() implies hex_group(parts[k]) == Some(
            groups[k],
        ) by {
            lemma_group_roundtrip(groups[k]);
        }
        assert forall|k: int| 0 <= k < front.len() implies hex_group(#[trigger] front[k])
            is Some by {
            assert(front[k] == parts[k]);
        }
        assert(all_groups(front).unwrap() =~= groups.drop_last()) by {
            assert forall|k: int| 0 <= k < front.len() implies hex_group(front[k]).unwrap()
                == groups.drop_last()[k] by {
                assert(front[k] == parts[k]);
            }
        }
        assert(hex_group(parts.last()) == Some(groups.last()));
        assert(groups.drop_last().push(groups.last()) =~= groups);
    }
}

/// Taking an address apart into groups and putting them together again gives
/// the address.
pub proof fn lemma_pack_unpack(bits: u128)
    ensures
        pack(unpack(bits)) == bits,
{
    let g = unpack(bits);
    assert(g.take(0) =~= Seq::<u16>::empty());
    assert(pack(g.take(0)) == 0);
    assert(g.take(1).drop_last() =~= g.take(0));
    assert(pack(g.take(1)) == bits / 0x1_0000_0000_0000_0000_0000_0000_0000);
    assert(g.take(2).drop_last() =~= g.take(1));
    assert(pack(g.take(2)) == bits / 0x1_0000_0000_0000_0000_0000_0000);
    assert(g.take(3).drop_last() =~= g.take(2));
    assert(pack(g.take(3)) == bits / 0x1_0000_0000_0000_0000_0000);
    assert(g.take(4).drop_last() =~= g.take(3));
    assert(pack(g.take(4)) == bits / 0x1_0000_0000_0000_0000);
    assert(g.take(5).drop_last() =~= g.take(4));
    assert(pack(g.take(5)) == bits / 0x1_0000_0000_0000);
    assert(g.take(6).drop_last() =~= g.take(5));
    assert(pack(g.take(6)) == bits / 0x1_0000_0000);
    assert(g.take(7).drop_last() =~= g.take(6));
    assert(pack(g.take(7)) == bits / 0x1_0000);
    assert(g.take(8).drop_last() =~= g.take(7));
    assert(g.take(8) =~= g);
}

/// The groups of a run of zero groups are zero, and the run ends within the
/// groups.
pub proof fn lemma_zero_run(groups: Seq<u16>, start: int)
    requires
        0 <= start <= groups.len(),
    ensures
        start + zero_run(groups, start) <= groups.len(),
        forall|k: int| start <= k < start + zero_run(groups, start) ==> groups[k] == 0,
    decreases groups.len() - start,
{
    if start < groups.len() && groups[start] == 0 {
        lemma_zero_run(groups, start + 1);
    }
}

/// Where a text has a double colon with none before it, that is its first.
proof fn lemma_first_gap(s: Seq<char>, i: int)
    requires
        first_gap_at(s, i),
    ensures
        first_gap(s) == Some(i),
{
    let chosen = choose|j: int| first_gap_at(s, j);
    if chosen < i {
        assert(!gap_at(s, chosen));
    } else if i < chosen {
        assert(!gap_at(s, i));
    }
}

/// The numeral of the group of all ones.
proof fn lemma_ones_text()
    ensures
        hex_numeral(0xffff) == seq!['f', 'f', 'f', 'f'],
{
    assert(hex_numeral(0xf) =~= seq!['f']);
    assert(hex_numeral(0xff) =~= seq!['f', 'f']);
    assert(hex_numeral(0xfff) =~= seq!['f', 'f', 'f']);
    assert(hex_numeral(0xffff) =~= seq!['f', 'f', 'f', 'f']);
}

/// The group of all ones and a dotted quad after it are read back as three
/// groups.
proof fn lemma_quad_tail(low: u32)
    ensures
        groups_of(fields(hex_numeral(0xffff) + seq![':'] + ipv4_text(low), ':'), true) == Some(
            seq![0xffffu16, upper_group(low), lower_group(low)],
        ),
{
    let ones = hex_numeral(0xffff);
    let quad_text = ipv4_text(low);
    let tail = ones + seq![':'] + quad_text;
    lemma_ipv4_roundtrip(low);
    lemma_ipv4_characters(quad_text);
    lemma_group_roundtrip(0xffff);
    lemma_split_concat(ones, quad_text, ':');
    assert forall|i: int| 0 <= i < quad_text.len() implies quad_text[i] != ':' by {
        assert(quad_text[i] == '.' || is_digit(quad_text[i]));
    }
    lemma_split_single(quad_text, ':');
    let parts = fields(tail, ':');
    assert(parts =~= seq![ones, quad_text]);
    let front = parts.drop_last();
    assert(front =~= seq![ones]);
    assert forall|k: int| 0 <= k < front.len() implies hex_group(#[trigger] front[k]) is Some by {
        assert(front[k] == ones);
    }
    assert(all_groups(front).unwrap() =~= seq![0xffffu16]);
    assert(hex_group(quad_text) is None) by {
        let i = choose|i: int| 0 <= i < quad_text.len() && quad_text[i] == '.';
        assert(!is_hex_digit(quad_text[i]));
    }
    assert(parts.last() == quad_text);
    assert(seq![0xffffu16].push(upper_group(low)).push(lower_group(low)) =~= seq![
        0xffffu16,
        upper_group(low),
        lower_group(low),
    ]);
}

/// The groups of a mapped address are five zero groups, the group of all
/// ones, and the two groups of the IPv4 address.
proof fn lemma_mapped_groups(bits: u128)
    requires
        is_mapped(unpack(bits)),
    ensures
        Seq::<u16>::empty() + zero_groups(5) + seq![
            0xffffu16,
            upper_group((bits % 0x1_0000_0000) as u32),
            lower_group((bits % 0x1_0000_0000) as u32),
        ] == unpack(bits),
{
    let low = (bits % 0x1_0000_0000) as u32;
    let g = unpack(bits);
    assert(upper_group(low) == g[6]);
    assert(lower_group(low) == g[7]);
    assert(Seq::<u16>::empty() + zero_groups(5) + seq![
        0xffffu16,
        upper_group(low),
        lower_group(low),
    ] =~= g);
}

/// A mapped address, shown with a dotted quad at the end, is read back.
proof fn lemma_mapped_roundtrip(bits: u128)
    requires
        is_mapped(unpack(bits)),
    ensures
        ipv6_groups(ipv6_text(bits)) == Some(unpack(bits)),
{
    let low = (bits % 0x1_0000_0000) as u32;
    let text = "::ffff:"@ + ipv4_text(low);
    reveal_strlit("::ffff:");
    lemma_ones_text();
    lemma_quad_tail(low);
    lemma_mapped_groups(bits);
    assert(text == ipv6_text(bits));
    assert(gap_at(text, 0));
    lemma_first_gap(text, 0);
    assert(text.take(0) =~= Seq::<char>::empty());
    assert(text.skip(2) =~= hex_numeral(0xffff) + seq![':'] + ipv4_text(low));
    assert(groups_of(fields(text.take(0), ':'), false) == Some(Seq::<u16>::empty()));
}

/// An address shown with a double colon for its longest run of zero groups is
/// read back.
proof fn lemma_gap_roundtrip(groups: Seq<u16>, start: int)
    requires
        groups.len() == 8,
        zero_run(groups, start) >= 2,
    ensures
        ipv6_groups(
            joined(groups.take(start)) + "::"@ + joined(
                groups.skip(start + zero_run(groups, start)),
            ),
        ) == Some(groups),
{
    let n = zero_run(groups, start) as int;
    let head = groups.take(start);
    let tail = groups.skip(start + n);
    let head_text = joined(head);
    let tail_text = joined(tail);
    let text = head_text + "::"@ + tail_text;
    let at = head_text.len() as int;
    reveal_strlit("::");
    lemma_zero_run(groups, start);
    lemma_joined_colons(head);
    lemma_joined_fields(head);
    lemma_joined_fields(tail);
    lemma_groups_of_texts(head, false);
    lemma_groups_of_texts(tail, true);
    assert(text[at] == ':' && text[at + 1] == ':');
    assert forall|j: int| 0 <= j < at implies !gap_at(text, j) by {
        if gap_at(text, j) {
            if j + 1 < at {
                assert(text[j] == head_text[j] && text[j + 1] == head_text[j + 1]);
                assert(gap_at(head_text, j));
            } else {
                assert(text[j] == head_text.last());
            }
        }
    }
    lemma_first_gap(text, at);
    assert(text.take(at) =~= head_text);
    assert(text.skip(at + 2) =~= tail_text);
    assert(head + zero_groups(8 - head.len() - tail.len()) + tail =~= groups);
}

/// An address shown in full, group by group, is read back.
proof fn lemma_full_roundtrip(groups: Seq<u16>)
    requires
        groups.len() == 8,
    ensures
        ipv6_groups(joined(groups)) == Some(groups),
{
    let text = joined(groups);
    lemma_joined_colons(groups);
    lemma_joined_fields(groups);
    lemma_groups_of_texts(groups, true);
    assert forall|i: int| !first_gap_at(text, i) by {
        assert(!gap_at(text, i));
    }
}

/// The text that an address is shown as is a literal of that address in its
/// own family.
pub proof fn lemma_address_roundtrip(address: IpAddress)
    ensures
        literal(address_text(address), address.spec_family()) == Some(address),
{
    match address {
        IpAddress::V4(bits) => lemma_ipv4_roundtrip(bits),
        IpAddress::V6(bits) => lemma_ipv6_roundtrip(bits),
    }
}

/// A configuration whose host is the text that an address is shown as, and
/// whose family is that of the address, resolves to that address and the
/// port of the configuration.
pub proof fn lemma_shown_address_resolves(cli: Cli, address: IpAddress)
    requires
        cli.host@ == address_text(address),
        cli.spec_family() == address.spec_family(),
    ensures
        resolve(cli) == Ok::<Target, ConfigError>(Target { address, port: cli.port }),
{
    lemma_address_roundtrip(address);
}

/// The text that an IPv6 address is shown as is a literal of that address.
pub proof fn lemma_ipv6_roundtrip(bits: u128)
    ensures
        ipv6_literal(ipv6_text(bits)) == Some(bits),
{
    let groups = unpack(bits);
    lemma_pack_unpack(bits);
    if is_mapped(groups) {
        lemma_mapped_roundtrip(bits);
    } else {
        let start = widest_gap(groups);
        if zero_run(groups, start) >= 2 {
            lemma_gap_roundtrip(groups, start);
        } else {
            lemma_full_roundtrip(groups);
        }
    }
}

} // verus!
