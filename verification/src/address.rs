//! Textual IP addresses: reading and writing the dotted form of IPv4 and the
//! colon form of IPv6.
//!
//! An address is modelled by its numeric value, the big-endian reading of
//! its bytes: addresses are ordered as their values are.

use vstd::prelude::*;
use crate::decimal::{
    all_digits,
    decimal_text,
    decimal_value,
    is_digit,
    lemma_decimal_text_denotes,
    push_decimal,
};
use crate::text::{
    chars_of,
    lemma_split_nonempty,
    lemma_split_of_appended_piece,
    lemma_split_of_one_piece,
    split,
    split_bounds,
};

verus! {

/// An IPv4 address, by value: `a.b.c.d` has the value
/// `((a * 256 + b) * 256 + c) * 256 + d`.
#[derive(Clone, Copy, Debug, PartialEq, Eq, Structural)]
pub struct Ipv4Address {
    pub bits: u32,
}

/// An IPv6 address, by its eight 16-bit groups in the order they are
/// written. Its value is the groups read as one 128-bit number, first group
/// most significant.
#[derive(Clone, Copy, Debug)]
pub struct Ipv6Address {
    pub groups: [u16; 8],
}

/// Reads one part of a dotted IPv4 address: one to three digits, at most
/// 255, with no leading zero unless the part is `0` itself.
pub open spec fn parse_octet(part: Seq<char>) -> Option<nat> {
    if 1 <= part.len() <= 3 && all_digits(part) && (part.len() == 1 || part[0] != '0')
        && decimal_value(part) <= 255 {
        Some(decimal_value(part))
    } else {
        None
    }
}

/// The value of the address with the octets `a.b.c.d`.
pub open spec fn ipv4_value(a: nat, b: nat, c: nat, d: nat) -> nat {
    ((a * 256 + b) * 256 + c) * 256 + d
}

/// Reads a dotted IPv4 address: exactly four octets separated by `.`.
pub open spec fn parse_ipv4(text: Seq<char>) -> Option<nat> {
    let parts = split(text, '.');
    if parts.len() == 4 && parse_octet(parts[0]) is Some && parse_octet(parts[1]) is Some
        && parse_octet(parts[2]) is Some && parse_octet(parts[3]) is Some {
        Some(
            ipv4_value(
                parse_octet(parts[0])->0,
                parse_octet(parts[1])->0,
                parse_octet(parts[2])->0,
                parse_octet(parts[3])->0,
            ),
        )
    } else {
        None
    }
}

/// The dotted text of the IPv4 address with value `bits`.
pub open spec fn ipv4_text(bits: nat) -> Seq<char> {
    decimal_text(bits / 0x100_0000) + seq!['.'] + decimal_text(bits / 0x1_0000 % 256) + seq!['.']
        + decimal_text(bits / 0x100 % 256) + seq!['.'] + decimal_text(bits % 256)
}

/// The numeral of a number up to 255 is read as that number: it is an octet.
pub proof fn lemma_octet_text_is_read(n: nat)
    requires
        n <= 255,
    ensures
        parse_octet(decimal_text(n)) == Some(n),
        forall|i: int| 0 <= i < decimal_text(n).len() ==> decimal_text(n)[i] != '.',
{
    lemma_decimal_text_denotes(n);
    let text = decimal_text(n);
    if n >= 10 {
        lemma_decimal_text_denotes(n / 10);
        let front = decimal_text(n / 10);
        assert(text[0] == front[0]);
        if n >= 100 {
            let first = decimal_text(n / 100);
            assert(front[0] == first[0]);
            assert(first[0] != '0');
            assert(text.len() == 3);
        } else {
            assert(front[0] != '0');
            assert(text.len() == 2);
        }
    }
    assert forall|i: int| 0 <= i < text.len() implies text[i] != '.' by {
        assert(is_digit(text[i]));
    }
}

/// Writing an IPv4 address and reading it again gives the address back.
pub proof fn lemma_ipv4_text_is_read(bits: u32)
    ensures
        parse_ipv4(ipv4_text(bits as nat)) == Some(bits as nat),
{
    let v = bits as nat;
    let a = v / 0x100_0000;
    let b = v / 0x1_0000 % 256;
    let c = v / 0x100 % 256;
    let d = v % 256;
    lemma_octet_text_is_read(a);
    lemma_octet_text_is_read(b);
    lemma_octet_text_is_read(c);
    lemma_octet_text_is_read(d);
    let ta = decimal_text(a);
    let tb = decimal_text(b);
    let tc = decimal_text(c);
    let td = decimal_text(d);
    let one = ta;
    let two = one.push('.') + tb;
    let three = two.push('.') + tc;
    let four = three.push('.') + td;
    assert(four =~= ipv4_text(v));
    lemma_split_of_one_piece(one, '.');
    lemma_split_of_appended_piece(one, tb, '.');
    lemma_split_of_appended_piece(two, tc, '.');
    lemma_split_of_appended_piece(three, td, '.');
    let parts = split(four, '.');
    assert(parts =~= seq![ta, tb, tc, td]);
    assert(ipv4_value(a, b, c, d) == v);
}

/// Reads the octet written in `chars[from..to]`.
fn read_octet(chars: &Vec<char>, from: usize, to: usize) -> (octet: Option<u8>)
    requires
        from <= to <= chars.len(),
    ensures
        octet is Some <==> parse_octet(chars@.subrange(from as int, to as int)) is Some,
        octet matches Some(v) ==> parse_octet(chars@.subrange(from as int, to as int)) == Some(
            v as nat,
        ),
{
    let ghost part = chars@.subrange(from as int, to as int);
    let len: usize = to - from;
    if len < 1 || len > 3 {
        return None;
    }
    if len > 1 && chars[from] == '0' {
        assert(part[0] == '0');
        return None;
    }
    let mut value: u32 = 0;
    let mut i: usize = from;
    while i < to
        invariant
            from <= i <= to <= chars.len(),
            to - from <= 3,
            part == chars@.subrange(from as int, to as int),
            all_digits(part.take(i - from)),
            value == decimal_value(part.take(i - from)),
            i - from == 0 ==> value == 0,
            i - from == 1 ==> value <= 9,
            i - from == 2 ==> value <= 99,
        decreases to - i,
    {
        let code: u32 = chars[i] as u32;
        if code < 48 || code > 57 {
            assert(!is_digit(part[i - from]));
            return None;
        }
        proof {
            let longer = part.take(i - from + 1);
            assert(longer.drop_last() =~= part.take(i - from));
            assert(longer.last() == chars@[i as int]);
            assert forall|j: int| 0 <= j < longer.len() implies is_digit(#[trigger] longer[j]) by {
                if j < i - from {
                    assert(longer[j] == part.take(i - from)[j]);
                }
            }
        }
        value = value * 10 + (code - 48);
        i = i + 1;
    }
    assert(part.take(i - from) =~= part);
    if value > 255 {
        None
    } else {
        Some(value as u8)
    }
}

/// Reads the dotted IPv4 address written in `chars[from..to]`.
pub(crate) fn read_ipv4(chars: &Vec<char>, from: usize, to: usize) -> (bits: Option<u32>)
    requires
        from <= to <= chars.len(),
    ensures
        bits is Some <==> parse_ipv4(chars@.subrange(from as int, to as int)) is Some,
        bits matches Some(v) ==> parse_ipv4(chars@.subrange(from as int, to as int)) == Some(
            v as nat,
        ),
{
    let bounds = split_bounds(chars, from, to, '.');
    if bounds.len() != 4 {
        return None;
    }
    let a = read_octet(chars, bounds[0].0, bounds[0].1);
    let b = read_octet(chars, bounds[1].0, bounds[1].1);
    let c = read_octet(chars, bounds[2].0, bounds[2].1);
    let d = read_octet(chars, bounds[3].0, bounds[3].1);
    match (a, b, c, d) {
        (Some(a), Some(b), Some(c), Some(d)) => {
            let bits: u32 = ((a as u32 * 256 + b as u32) * 256 + c as u32) * 256 + d as u32;
            Some(bits)
        },
        _ => None,
    }
}

impl Ipv4Address {
    /// Reads a dotted IPv4 address.
    pub fn parse(text: &str) -> (address: Option<Ipv4Address>)
        ensures
            address is Some <==> parse_ipv4(text@) is Some,
            address matches Some(a) ==> parse_ipv4(text@) == Some(a.bits as nat),
    {
        let chars = chars_of(text);
        assert(chars@.subrange(0, chars.len() as int) =~= text@);
        match read_ipv4(&chars, 0, chars.len()) {
            Some(bits) => Some(Ipv4Address { bits }),
            None => None,
        }
    }

    /// The address whose four bytes, in the order they are sent, are
    /// `a`, `b`, `c` and `d`.
    pub fn from_octets(a: u8, b: u8, c: u8, d: u8) -> (address: Ipv4Address)
        ensures
            address.bits == ipv4_value(a as nat, b as nat, c as nat, d as nat),
    {
        Ipv4Address { bits: ((a as u32 * 256 + b as u32) * 256 + c as u32) * 256 + d as u32 }
    }

    /// The dotted text of the address.
    pub fn to_text(&self) -> (text: String)
        ensures
            text@ == ipv4_text(self.bits as nat),
    {
        let mut text = String::new();
        push_ipv4(&mut text, self.bits);
        text
    }
}

/// Appends the dotted text of the IPv4 address with value `bits` to `out`.
fn push_ipv4(out: &mut String, bits: u32)
    ensures
        final(out)@ == old(out)@ + ipv4_text(bits as nat),
{
    push_decimal(out, (bits / 0x100_0000) as u64);
    out.push('.');
    push_decimal(out, (bits / 0x1_0000 % 256) as u64);
    out.push('.');
    push_decimal(out, (bits / 0x100 % 256) as u64);
    out.push('.');
    push_decimal(out, (bits % 256) as u64);
    assert(out@ =~= old(out)@ + ipv4_text(bits as nat));
}

/// Whether `c` is a hexadecimal digit, in either case.
pub open spec fn is_hex_digit(c: char) -> bool {
    is_digit(c) || 97 <= c as u32 <= 102 || 65 <= c as u32 <= 70
}

/// The value of a hexadecimal digit.
pub open spec fn hex_digit_value(c: char) -> nat {
    if is_digit(c) {
        (c as u32 - 48) as nat
    } else if 97 <= c as u32 <= 102 {
        (c as u32 - 87) as nat
    } else {
        (c as u32 - 55) as nat
    }
}

/// Whether every character of `text` is a hexadecimal digit.
pub open spec fn all_hex_digits(text: Seq<char>) -> bool {
    forall|i: int| 0 <= i < text.len() ==> is_hex_digit(#[trigger] text[i])
}

/// The number that a run of hexadecimal digits denotes.
pub open spec fn hex_value(digits: Seq<char>) -> nat
    decreases digits.len(),
{
    if digits.len() == 0 {
        0
    } else {
        hex_value(digits.drop_last()) * 16 + hex_digit_value(digits.last())
    }
}

/// Reads one group of an IPv6 address: one to four hexadecimal digits.
pub open spec fn parse_group(part: Seq<char>) -> Option<u16> {
    if 1 <= part.len() <= 4 && all_hex_digits(part) {
        Some(hex_value(part) as u16)
    } else {
        None
    }
}

/// Whether each of `parts` is a group.
pub open spec fn all_groups(parts: Seq<Seq<char>>) -> bool {
    forall|i: int| 0 <= i < parts.len() ==> parse_group(#[trigger] parts[i]) is Some
}

/// The groups that `parts` denote, one for each.
pub open spec fn group_values(parts: Seq<Seq<char>>) -> Seq<u16> {
    Seq::new(parts.len(), |i: int| parse_group(parts[i])->0)
}

/// Reads a run of groups separated by `:`. The empty text is the empty run.
/// With `dotted_tail`, the last part may be a dotted IPv4 address, which
/// stands for two groups.
pub open spec fn parse_groups(text: Seq<char>, dotted_tail: bool) -> Option<Seq<u16>> {
    if text.len() == 0 {
        Some(Seq::empty())
    } else {
        let parts = split(text, ':');
        let front = parts.drop_last();
        let last = parts.last();
        if !all_groups(front) {
            None
        } else if parse_group(last) is Some {
            Some(group_values(front).push(parse_group(last)->0))
        } else if dotted_tail && parse_ipv4(last) is Some {
            let v = parse_ipv4(last)->0;
            Some(group_values(front).push((v / 0x1_0000) as u16).push((v % 0x1_0000) as u16))
        } else {
            None
        }
    }
}

/// Whether `text` has `::` at `at`.
pub open spec fn has_gap_at(text: Seq<char>, at: int) -> bool {
    0 <= at && at + 1 < text.len() && text[at] == ':' && text[at + 1] == ':'
}

/// The position of the first `::` of `text` at or after `from`.
pub open spec fn gap_from(text: Seq<char>, from: int) -> Option<int>
    decreases text.len() - from,
{
    if from < 0 || from + 1 >= text.len() {
        None
    } else if text[from] == ':' && text[from + 1] == ':' {
        Some(from)
    } else {
        gap_from(text, from + 1)
    }
}

/// A run of `n` zero groups.
pub open spec fn zero_groups(n: int) -> Seq<u16> {
    Seq::new(n as nat, |i: int| 0u16)
}

/// Reads the groups of an IPv6 address. Without `::` the text must hold all
/// eight groups. With `::`, which may occur once, the groups before and after
/// it are at most seven, and zero groups fill the rest. A dotted IPv4 address
/// may stand for the last two groups, but not before `::`.
pub open spec fn parse_ipv6(text: Seq<char>) -> Option<Seq<u16>> {
    match gap_from(text, 0) {
        None => match parse_groups(text, true) {
            Some(groups) => if groups.len() == 8 {
                Some(groups)
            } else {
                None
            },
            None => None,
        },
        Some(gap) => match (
            parse_groups(text.take(gap), false),
            parse_groups(text.skip(gap + 2), true),
        ) {
            (Some(head), Some(tail)) => if head.len() + tail.len() <= 7 {
                Some(head + zero_groups(8 - head.len() - tail.len()) + tail)
            } else {
                None
            },
            _ => None,
        },
    }
}

/// The value of an address with the eight groups `groups`.
pub open spec fn ipv6_value(groups: Seq<u16>) -> nat {
    (((((((groups[0] as nat * 0x1_0000 + groups[1] as nat) * 0x1_0000 + groups[2] as nat)
        * 0x1_0000 + groups[3] as nat) * 0x1_0000 + groups[4] as nat) * 0x1_0000
        + groups[5] as nat) * 0x1_0000 + groups[6] as nat) * 0x1_0000 + groups[7] as nat)
}

/// The hexadecimal digit, in lower case, that stands for `d`, for `d` below
/// sixteen.
pub open spec fn hex_digit_char(d: nat) -> char {
    if d < 10 {
        ((48 + d) as u8) as char
    } else {
        ((87 + d) as u8) as char
    }
}

/// The shortest hexadecimal numeral of `n`, in lower case.
pub open spec fn hex_text(n: nat) -> Seq<char>
    decreases n,
{
    if n < 16 {
        seq![hex_digit_char(n)]
    } else {
        hex_text(n / 16).push(hex_digit_char(n % 16))
    }
}

/// The numerals of `groups`, separated by `:`.
pub open spec fn join_groups(groups: Seq<u16>) -> Seq<char>
    decreases groups.len(),
{
    if groups.len() == 0 {
        Seq::empty()
    } else if groups.len() == 1 {
        hex_text(groups[0] as nat)
    } else {
        join_groups(groups.drop_last()) + seq![':'] + hex_text(groups.last() as nat)
    }
}

/// The number of zero groups in a row that start at `at`.
pub open spec fn zero_run(groups: Seq<u16>, at: int) -> nat
    decreases groups.len() - at,
{
    if 0 <= at < groups.len() && groups[at] == 0 {
        1 + zero_run(groups, at + 1)
    } else {
        0
    }
}

/// The length of the longest run of zero groups that starts at or after
/// `from`.
pub open spec fn longest_zero_run(groups: Seq<u16>, from: int) -> nat
    decreases groups.len() - from,
{
    if 0 <= from < groups.len() {
        let here = zero_run(groups, from);
        let later = longest_zero_run(groups, from + 1);
        if here >= later {
            here
        } else {
            later
        }
    } else {
        0
    }
}

/// The first position at or after `from` where a run of exactly `len` zero
/// groups starts; the number of groups if there is none.
pub open spec fn first_run_of(groups: Seq<u16>, len: nat, from: int) -> int
    decreases groups.len() - from,
{
    if 0 <= from < groups.len() {
        if zero_run(groups, from) == len {
            from
        } else {
            first_run_of(groups, len, from + 1)
        }
    } else {
        groups.len() as int
    }
}

/// The longest run of zero groups starts somewhere.
pub proof fn lemma_longest_run_occurs(groups: Seq<u16>, from: int)
    requires
        0 <= from < groups.len(),
    ensures
        from <= first_run_of(groups, longest_zero_run(groups, from), from) < groups.len(),
    decreases groups.len() - from,
{
    let here = zero_run(groups, from);
    let later = longest_zero_run(groups, from + 1);
    if here < later {
        lemma_longest_run_occurs(groups, from + 1);
    }
}

/// Whether the address embeds an IPv4 address behind the prefix
/// `0:0:0:0:0:ffff`.
pub open spec fn is_mapped(groups: Seq<u16>) -> bool {
    groups[0] == 0 && groups[1] == 0 && groups[2] == 0 && groups[3] == 0 && groups[4] == 0
        && groups[5] == 0xffff
}

/// The text of the IPv6 address with the eight groups `groups`: groups in
/// lower-case hexadecimal without leading zeros; the first of the longest
/// runs of two or more zero groups written as `::`; an address that embeds an
/// IPv4 address written as `::ffff:` and the dotted form.
pub open spec fn ipv6_text(groups: Seq<u16>) -> Seq<char> {
    if is_mapped(groups) {
        seq![':', ':', 'f', 'f', 'f', 'f', ':'] + ipv4_text(
            groups[6] as nat * 0x1_0000 + groups[7] as nat,
        )
    } else {
        let len = longest_zero_run(groups, 0);
        let start = first_run_of(groups, len, 0);
        if len > 1 {
            join_groups(groups.take(start)) + seq![':', ':'] + join_groups(
                groups.skip(start + len),
            )
        } else {
            join_groups(groups)
        }
    }
}

/// The hexadecimal numeral of a number is made of hexadecimal digits and
/// denotes that number.
pub proof fn lemma_hex_text_denotes(n: nat)
    ensures
        hex_text(n).len() > 0,
        all_hex_digits(hex_text(n)),
        hex_value(hex_text(n)) == n,
        n < 0x10 ==> hex_text(n).len() == 1,
        0x10 <= n < 0x100 ==> hex_text(n).len() == 2,
        0x100 <= n < 0x1000 ==> hex_text(n).len() == 3,
        0x1000 <= n < 0x1_0000 ==> hex_text(n).len() == 4,
    decreases n,
{
    let text = hex_text(n);
    if n < 16 {
        assert(text.drop_last() =~= Seq::<char>::empty());
        assert(hex_value(text.drop_last()) == 0);
        assert(is_hex_digit(text[0]));
    } else {
        lemma_hex_text_denotes(n / 16);
        let front = hex_text(n / 16);
        assert(text.drop_last() =~= front);
        assert(is_hex_digit(text.last()));
        assert forall|i: int| 0 <= i < text.len() implies is_hex_digit(#[trigger] text[i]) by {
            if i < front.len() {
                assert(text[i] == front[i]);
            }
        }
    }
}

/// The numeral of a group is read as that group, and holds neither `:` nor
/// `.`.
pub proof fn lemma_group_text_is_read(group: u16)
    ensures
        parse_group(hex_text(group as nat)) == Some(group),
        hex_text(group as nat).len() > 0,
        forall|i: int|
            0 <= i < hex_text(group as nat).len() ==> hex_text(group as nat)[i] != ':'
                && hex_text(group as nat)[i] != '.',
{
    lemma_hex_text_denotes(group as nat);
    let text = hex_text(group as nat);
    assert forall|i: int| 0 <= i < text.len() implies text[i] != ':' && text[i] != '.' by {
        assert(is_hex_digit(text[i]));
    }
}

/// The numerals of groups as texts.
pub open spec fn group_texts(groups: Seq<u16>) -> Seq<Seq<char>> {
    groups.map_values(|g: u16| hex_text(g as nat))
}

/// The joined numerals of groups, split at `:`, are the numerals; they hold
/// no `::` and neither start nor end with `:`.
pub proof fn lemma_joined_groups(groups: Seq<u16>)
    requires
        groups.len() > 0,
    ensures
        split(join_groups(groups), ':') == group_texts(groups),
        join_groups(groups).len() > 0,
        join_groups(groups)[0] != ':',
        join_groups(groups).last() != ':',
        forall|i: int| !#[trigger] has_gap_at(join_groups(groups), i),
        forall|i: int| 0 <= i < join_groups(groups).len() ==> join_groups(groups)[i] != '.',
    decreases groups.len(),
{
    let text = join_groups(groups);
    let last = hex_text(groups.last() as nat);
    lemma_group_text_is_read(groups.last());
    if groups.len() == 1 {
        lemma_split_of_one_piece(text, ':');
        assert(group_texts(groups) =~= seq![text]);
    } else {
        let front = groups.drop_last();
        let before = join_groups(front);
        lemma_joined_groups(front);
        lemma_split_of_appended_piece(before, last, ':');
        assert(text =~= before.push(':') + last);
        assert(group_texts(groups) =~= group_texts(front).push(last));
        assert forall|i: int| !#[trigger] has_gap_at(text, i) by {
            if 0 <= i && i + 1 < text.len() {
                if i + 1 < before.len() {
                    assert(!has_gap_at(before, i));
                    assert(text[i] == before[i] && text[i + 1] == before[i + 1]);
                } else if i + 1 == before.len() {
                    assert(text[i] == before.last());
                } else if i == before.len() {
                    assert(text[i + 1] == last[0]);
                } else {
                    assert(text[i] == last[i - before.len() - 1]);
                }
            }
        }
        assert forall|i: int| 0 <= i < text.len() implies text[i] != '.' by {
            if i < before.len() {
                assert(text[i] == before[i]);
            } else if i > before.len() {
                assert(text[i] == last[i - before.len() - 1]);
            }
        }
        assert(text[0] == before[0]);
        assert(text.last() == last.last());
    }
}

/// The joined numerals of groups are read as those groups.
pub proof fn lemma_joined_groups_are_read(groups: Seq<u16>, dotted_tail: bool)
    ensures
        parse_groups(join_groups(groups), dotted_tail) == Some(groups),
{
    if groups.len() == 0 {
        assert(groups =~= Seq::<u16>::empty());
    } else {
        lemma_joined_groups(groups);
        let parts = split(join_groups(groups), ':');
        let front = parts.drop_last();
        assert forall|i: int| 0 <= i < parts.len() implies parse_group(#[trigger] parts[i])
            == Some(groups[i]) by {
            lemma_group_text_is_read(groups[i]);
        }
        assert forall|i: int| 0 <= i < front.len() implies parse_group(#[trigger] front[i])
            is Some by {
            assert(front[i] == parts[i]);
        }
        assert(parse_group(parts.last()) == Some(groups.last()));
        assert(group_values(front).push(groups.last()) =~= groups) by {
            assert forall|i: int| 0 <= i < front.len() implies group_values(front)[i]
                == groups[i] by {
                assert(front[i] == parts[i]);
            }
        }
    }
}

/// Where a text has `::` at `gap` and none before it, the first `::` is at
/// `gap`.
pub proof fn lemma_gap_is_found(text: Seq<char>, gap: int, from: int)
    requires
        0 <= from <= gap,
        has_gap_at(text, gap),
        forall|i: int| from <= i < gap ==> !#[trigger] has_gap_at(text, i),
    ensures
        gap_from(text, from) == Some(gap),
    decreases gap - from,
{
    if from < gap {
        assert(!has_gap_at(text, from));
        lemma_gap_is_found(text, gap, from + 1);
    }
}

/// A text without `::` has no first `::`.
pub proof fn lemma_no_gap_is_found(text: Seq<char>, from: int)
    requires
        0 <= from,
        forall|i: int| from <= i ==> !#[trigger] has_gap_at(text, i),
    ensures
        gap_from(text, from) is None,
    decreases text.len() - from,
{
    if from + 1 < text.len() {
        assert(!has_gap_at(text, from));
        lemma_no_gap_is_found(text, from + 1);
    }
}

/// The groups of a run of zero groups are zero, and the run ends within the
/// groups.
pub proof fn lemma_zero_run_is_zero(groups: Seq<u16>, at: int)
    requires
        0 <= at <= groups.len(),
    ensures
        at + zero_run(groups, at) <= groups.len(),
        forall|j: int| at <= j < at + zero_run(groups, at) ==> groups[j] == 0,
    decreases groups.len() - at,
{
    if at < groups.len() && groups[at] == 0 {
        lemma_zero_run_is_zero(groups, at + 1);
    }
}

/// Where a run of a given length is found, it has that length.
pub proof fn lemma_first_run_has_length(groups: Seq<u16>, len: nat, from: int)
    requires
        0 <= from,
        first_run_of(groups, len, from) < groups.len(),
    ensures
        from <= first_run_of(groups, len, from),
        zero_run(groups, first_run_of(groups, len, from)) == len,
    decreases groups.len() - from,
{
    if from < groups.len() && zero_run(groups, from) != len {
        lemma_first_run_has_length(groups, len, from + 1);
    }
}

/// An address that embeds an IPv4 address is read back from its text.
proof fn lemma_mapped_text_is_read(groups: Seq<u16>)
    requires
        groups.len() == 8,
        is_mapped(groups),
    ensures
        parse_ipv6(ipv6_text(groups)) == Some(groups),
{
    let text = ipv6_text(groups);
    let low = groups[6] as nat * 0x1_0000 + groups[7] as nat;
    let dotted = ipv4_text(low);
    let word = seq!['f', 'f', 'f', 'f'];
    lemma_ipv4_text_is_read(low as u32);
    lemma_dotted_text(low as u32);
    assert(text =~= seq![':', ':'] + (word.push(':') + dotted));
    assert(has_gap_at(text, 0));
    lemma_gap_is_found(text, 0, 0);
    let head = text.take(0);
    assert(head =~= Seq::<char>::empty());
    assert(parse_groups(head, false) == Some(Seq::<u16>::empty()));
    let tail = text.skip(2);
    assert(tail =~= word.push(':') + dotted);
    lemma_split_of_one_piece(word, ':');
    lemma_split_of_appended_piece(word, dotted, ':');
    let parts = split(tail, ':');
    assert(parts =~= seq![word, dotted]);
    assert(parts.drop_last() =~= seq![word]);
    assert(parts.last() == dotted);
    lemma_ffff_is_read();
    assert(parse_group(dotted) is None) by {
        let dot = choose|i: int| 0 <= i < dotted.len() && dotted[i] == '.';
        assert(!is_hex_digit(dotted[dot]));
    }
    assert(all_groups(seq![word]));
    let read = group_values(seq![word]).push((low / 0x1_0000) as u16).push(
        (low % 0x1_0000) as u16,
    );
    assert(parse_groups(tail, true) == Some(read));
    assert(read =~= seq![0xffffu16, groups[6], groups[7]]);
    assert(Seq::<u16>::empty() + zero_groups(8 - 0 - 3) + read =~= groups);
}

/// The group `ffff` is read as itself.
proof fn lemma_ffff_is_read()
    ensures
        parse_group(seq!['f', 'f', 'f', 'f']) == Some(0xffffu16),
{
    let word = seq!['f', 'f', 'f', 'f'];
    reveal_with_fuel(hex_value, 5);
    assert(word.drop_last() =~= seq!['f', 'f', 'f']);
    assert(word.drop_last().drop_last() =~= seq!['f', 'f']);
    assert(word.drop_last().drop_last().drop_last() =~= seq!['f']);
    assert(word.drop_last().drop_last().drop_last().drop_last() =~= Seq::<char>::empty());
    assert(hex_value(seq!['f']) == 15);
    assert(hex_value(seq!['f', 'f']) == 255);
    assert(hex_value(seq!['f', 'f', 'f']) == 4095);
    assert(hex_value(word) == 65535);
    assert forall|i: int| 0 <= i < word.len() implies is_hex_digit(#[trigger] word[i]) by {
        assert(word[i] == 'f');
    }
}

/// An address whose text holds `::` is read back from its text.
proof fn lemma_shortened_text_is_read(groups: Seq<u16>)
    requires
        groups.len() == 8,
        !is_mapped(groups),
        longest_zero_run(groups, 0) > 1,
    ensures
        parse_ipv6(ipv6_text(groups)) == Some(groups),
{
    let text = ipv6_text(groups);
    let len = longest_zero_run(groups, 0);
    let start = first_run_of(groups, len, 0);
    lemma_longest_run_occurs(groups, 0);
    lemma_first_run_has_length(groups, len, 0);
    lemma_zero_run_is_zero(groups, start);
    let head = groups.take(start);
    let tail = groups.skip(start + len);
    let before = join_groups(head);
    let after = join_groups(tail);
    assert(text =~= before + seq![':', ':'] + after);
    if head.len() > 0 {
        lemma_joined_groups(head);
    }
    let gap = before.len() as int;
    assert forall|i: int| 0 <= i < gap implies !#[trigger] has_gap_at(text, i) by {
        if i + 1 < gap {
            assert(!has_gap_at(before, i));
            assert(text[i] == before[i] && text[i + 1] == before[i + 1]);
        } else {
            assert(text[i] == before.last());
        }
    }
    assert(text[gap] == ':' && text[gap + 1] == ':');
    assert(has_gap_at(text, gap));
    lemma_gap_is_found(text, gap, 0);
    assert(text.take(gap) =~= before);
    assert(text.skip(gap + 2) =~= after);
    lemma_joined_groups_are_read(head, false);
    lemma_joined_groups_are_read(tail, true);
    assert(head.len() + tail.len() == 8 - len);
    assert(head + zero_groups(8 - head.len() - tail.len()) + tail =~= groups);
}

/// An address whose text holds all eight groups is read back from its text.
proof fn lemma_full_text_is_read(groups: Seq<u16>)
    requires
        groups.len() == 8,
        !is_mapped(groups),
        longest_zero_run(groups, 0) <= 1,
    ensures
        parse_ipv6(ipv6_text(groups)) == Some(groups),
{
    let text = ipv6_text(groups);
    assert(text == join_groups(groups));
    lemma_joined_groups(groups);
    lemma_no_gap_is_found(text, 0);
    lemma_joined_groups_are_read(groups, true);
}

/// Writing an IPv6 address and reading it again gives the address back.
pub proof fn lemma_ipv6_text_is_read(groups: Seq<u16>)
    requires
        groups.len() == 8,
    ensures
        parse_ipv6(ipv6_text(groups)) == Some(groups),
{
    if is_mapped(groups) {
        lemma_mapped_text_is_read(groups);
    } else if longest_zero_run(groups, 0) > 1 {
        lemma_shortened_text_is_read(groups);
    } else {
        lemma_full_text_is_read(groups);
    }
}

/// The dotted text of an IPv4 address holds a `.` and no `:`.
pub proof fn lemma_dotted_text(bits: u32)
    ensures
        exists|i: int| 0 <= i < ipv4_text(bits as nat).len() && ipv4_text(bits as nat)[i] == '.',
        forall|i: int|
            0 <= i < ipv4_text(bits as nat).len() ==> ipv4_text(bits as nat)[i] != ':',
{
    let v = bits as nat;
    let a = decimal_text(v / 0x100_0000);
    let b = decimal_text(v / 0x1_0000 % 256);
    let c = decimal_text(v / 0x100 % 256);
    let d = decimal_text(v % 256);
    lemma_decimal_text_denotes(v / 0x100_0000);
    lemma_decimal_text_denotes(v / 0x1_0000 % 256);
    lemma_decimal_text_denotes(v / 0x100 % 256);
    lemma_decimal_text_denotes(v % 256);
    let text = ipv4_text(v);
    assert(text =~= a + seq!['.'] + b + seq!['.'] + c + seq!['.'] + d);
    assert(text[a.len() as int] == '.');
    assert forall|i: int| 0 <= i < text.len() implies text[i] != ':' by {
        if i < a.len() {
            assert(is_digit(a[i]));
        } else if i == a.len() {
        } else if i < a.len() + 1 + b.len() {
            assert(is_digit(b[i - a.len() - 1]));
        } else if i == a.len() + 1 + b.len() {
        } else if i < a.len() + 1 + b.len() + 1 + c.len() {
            assert(is_digit(c[i - a.len() - 1 - b.len() - 1]));
        } else if i == a.len() + 1 + b.len() + 1 + c.len() {
        } else {
            assert(is_digit(d[i - a.len() - 1 - b.len() - 1 - c.len() - 1]));
        }
    }
}

/// Appends the shortest lower-case hexadecimal numeral of `n` to `out`.
fn push_hex(out: &mut String, n: u16)
    ensures
        final(out)@ == old(out)@ + hex_text(n as nat),
    decreases n,
{
    if n >= 16 {
        push_hex(out, n / 16);
    }
    let digit: u8 = (n % 16) as u8;
    if digit < 10 {
        out.push((48 + digit) as char);
    } else {
        out.push((87 + digit) as char);
    }
    assert(old(out)@ + hex_text(n as nat) =~= if n >= 16 {
        (old(out)@ + hex_text((n / 16) as nat)).push(hex_digit_char((n % 16) as nat))
    } else {
        old(out)@.push(hex_digit_char(n as nat))
    });
}

/// Appends the numerals of `groups[from..to]`, separated by `:`, to `out`.
fn push_groups(out: &mut String, groups: &[u16; 8], from: usize, to: usize)
    requires
        from <= to <= 8,
    ensures
        final(out)@ == old(out)@ + join_groups(groups@.subrange(from as int, to as int)),
{
    let mut k: usize = from;
    assert(groups@.subrange(from as int, from as int) =~= Seq::<u16>::empty());
    while k < to
        invariant
            from <= k <= to <= 8,
            out@ == old(out)@ + join_groups(groups@.subrange(from as int, k as int)),
        decreases to - k,
    {
        let ghost before = out@;
        let ghost longer = groups@.subrange(from as int, k + 1);
        assert(longer.drop_last() =~= groups@.subrange(from as int, k as int));
        if k > from {
            out.push(':');
        }
        push_hex(out, groups[k]);
        assert(out@ =~= old(out)@ + join_groups(longer));
        k = k + 1;
    }
}

/// Reads the group written in `chars[from..to]`.
fn read_group(chars: &Vec<char>, from: usize, to: usize) -> (group: Option<u16>)
    requires
        from <= to <= chars.len(),
    ensures
        group == parse_group(chars@.subrange(from as int, to as int)),
{
    let ghost part = chars@.subrange(from as int, to as int);
    let len: usize = to - from;
    if len < 1 || len > 4 {
        return None;
    }
    let mut value: u32 = 0;
    let mut i: usize = from;
    while i < to
        invariant
            from <= i <= to <= chars.len(),
            to - from <= 4,
            part == chars@.subrange(from as int, to as int),
            all_hex_digits(part.take(i - from)),
            value == hex_value(part.take(i - from)),
            i - from == 0 ==> value == 0,
            i - from == 1 ==> value < 0x10,
            i - from == 2 ==> value < 0x100,
            i - from == 3 ==> value < 0x1000,
            i - from == 4 ==> value < 0x1_0000,
        decreases to - i,
    {
        let code: u32 = chars[i] as u32;
        let digit: u32 = if 48 <= code && code <= 57 {
            code - 48
        } else if 97 <= code && code <= 102 {
            code - 87
        } else if 65 <= code && code <= 70 {
            code - 55
        } else {
            assert(!is_hex_digit(part[i - from]));
            return None;
        };
        proof {
            let longer = part.take(i - from + 1);
            assert(longer.drop_last() =~= part.take(i - from));
            assert(longer.last() == chars@[i as int]);
            assert forall|j: int| 0 <= j < longer.len() implies is_hex_digit(
                #[trigger] longer[j],
            ) by {
                if j < i - from {
                    assert(longer[j] == part.take(i - from)[j]);
                }
            }
        }
        value = value * 16 + digit;
        i = i + 1;
    }
    assert(part.take(i - from) =~= part);
    Some(value as u16)
}

/// Reads the run of groups written in `chars[from..to]`.
fn read_groups(chars: &Vec<char>, from: usize, to: usize, dotted_tail: bool) -> (groups: Option<
    Vec<u16>,
>)
    requires
        from <= to <= chars.len(),
    ensures
        groups is Some <==> parse_groups(chars@.subrange(from as int, to as int), dotted_tail)
            is Some,
        groups matches Some(v) ==> parse_groups(
            chars@.subrange(from as int, to as int),
            dotted_tail,
        ) == Some(v@),
{
    let ghost text = chars@.subrange(from as int, to as int);
    let mut groups: Vec<u16> = Vec::new();
    if from == to {
        return Some(groups);
    }
    let bounds = split_bounds(chars, from, to, ':');
    let ghost parts = split(text, ':');
    let ghost front = parts.drop_last();
    proof {
        lemma_split_nonempty(text, ':');
    }
    let last: usize = bounds.len() - 1;
    let mut k: usize = 0;
    while k < last
        invariant
            k <= last,
            from < to <= chars.len(),
            text == chars@.subrange(from as int, to as int),
            parts == split(text, ':'),
            last + 1 == bounds.len(),
            bounds.len() == parts.len(),
            front == parts.drop_last(),
            forall|j: int|
                0 <= j < bounds.len() ==> {
                    &&& (#[trigger] bounds[j]).0 <= bounds[j].1 <= chars.len()
                    &&& chars@.subrange(bounds[j].0 as int, bounds[j].1 as int) == parts[j]
                },
            groups@.len() == k,
            forall|j: int| 0 <= j < k ==> parse_group(#[trigger] front[j]) == Some(groups@[j]),
        decreases last - k,
    {
        match read_group(chars, bounds[k].0, bounds[k].1) {
            Some(group) => {
                groups.push(group);
            },
            None => {
                assert(parse_group(front[k as int]) is None);
                return None;
            },
        }
        k = k + 1;
    }
    assert(all_groups(front));
    assert(groups@ =~= group_values(front));
    match read_group(chars, bounds[last].0, bounds[last].1) {
        Some(group) => {
            groups.push(group);
            Some(groups)
        },
        None => {
            if !dotted_tail {
                return None;
            }
            match read_ipv4(chars, bounds[last].0, bounds[last].1) {
                Some(bits) => {
                    groups.push((bits / 0x1_0000) as u16);
                    groups.push((bits % 0x1_0000) as u16);
                    Some(groups)
                },
                None => None,
            }
        },
    }
}

/// Finds the first `::` of `chars`.
fn find_gap(chars: &Vec<char>) -> (gap: Option<usize>)
    ensures
        gap is Some <==> gap_from(chars@, 0) is Some,
        gap matches Some(p) ==> gap_from(chars@, 0) == Some(p as int) && p + 2 <= chars.len(),
{
    if chars.len() < 2 {
        return None;
    }
    let mut i: usize = 0;
    while i < chars.len() - 1
        invariant
            chars.len() >= 2,
            gap_from(chars@, 0) == gap_from(chars@, i as int),
        decreases chars.len() - i,
    {
        if chars[i] == ':' && chars[i + 1] == ':' {
            return Some(i);
        }
        i = i + 1;
    }
    None
}

impl Ipv6Address {
    /// The value of the address.
    pub open spec fn value(self) -> nat {
        ipv6_value(self.groups@)
    }

    /// Reads an IPv6 address.
    pub fn parse(text: &str) -> (address: Option<Ipv6Address>)
        ensures
            address is Some <==> parse_ipv6(text@) is Some,
            address matches Some(a) ==> parse_ipv6(text@) == Some(a.groups@),
    {
        let chars = chars_of(text);
        let n: usize = chars.len();
        match find_gap(&chars) {
            None => {
                assert(chars@.subrange(0, n as int) =~= text@);
                match read_groups(&chars, 0, n, true) {
                    Some(groups) => {
                        if groups.len() == 8 {
                            let address = Ipv6Address {
                                groups: [
                                    groups[0],
                                    groups[1],
                                    groups[2],
                                    groups[3],
                                    groups[4],
                                    groups[5],
                                    groups[6],
                                    groups[7],
                                ],
                            };
                            assert(address.groups@ =~= groups@);
                            Some(address)
                        } else {
                            None
                        }
                    },
                    None => None,
                }
            },
            Some(gap) => {
                assert(chars@.subrange(0, gap as int) =~= text@.take(gap as int));
                assert(chars@.subrange(gap + 2, n as int) =~= text@.skip(gap + 2));
                let head = read_groups(&chars, 0, gap, false);
                let tail = read_groups(&chars, gap + 2, n, true);
                match (head, tail) {
                    (Some(head), Some(tail)) => {
                        if head.len() > 7 || tail.len() > 7 - head.len() {
                            return None;
                        }
                        let mut groups: [u16; 8] = [0, 0, 0, 0, 0, 0, 0, 0];
                        let mut i: usize = 0;
                        while i < head.len()
                            invariant
                                i <= head.len() <= 7,
                                forall|j: int| 0 <= j < i ==> groups@[j] == head@[j],
                                forall|j: int| i <= j < 8 ==> groups@[j] == 0,
                            decreases head.len() - i,
                        {
                            groups[i] = head[i];
                            i = i + 1;
                        }
                        let shift: usize = 8 - tail.len();
                        let mut i: usize = 0;
                        while i < tail.len()
                            invariant
                                i <= tail.len(),
                                shift == 8 - tail.len(),
                                head.len() + tail.len() <= 7,
                                forall|j: int| 0 <= j < head.len() ==> groups@[j] == head@[j],
                                forall|j: int| head.len() <= j < shift ==> groups@[j] == 0,
                                forall|j: int| 0 <= j < i ==> groups@[shift + j] == tail@[j],
                            decreases tail.len() - i,
                        {
                            groups[shift + i] = tail[i];
                            i = i + 1;
                        }
                        assert(groups@ =~= head@ + zero_groups(8 - head.len() - tail.len())
                            + tail@);
                        Some(Ipv6Address { groups })
                    },
                    _ => None,
                }
            },
        }
    }

    /// The address whose sixteen bytes, in the order they are sent, are
    /// `bytes[at..at + 16]`.
    pub fn from_bytes(bytes: &[u8], at: usize) -> (address: Ipv6Address)
        requires
            at + 16 <= bytes.len(),
        ensures
            forall|i: int|
                0 <= i < 8 ==> #[trigger] address.groups@[i] == bytes@[at + 2 * i] * 256
                    + bytes@[at + 2 * i + 1],
    {
        let mut groups: [u16; 8] = [0, 0, 0, 0, 0, 0, 0, 0];
        let mut i: usize = 0;
        while i < 8
            invariant
                i <= 8,
                at + 16 <= bytes.len(),
                forall|j: int|
                    0 <= j < i ==> #[trigger] groups@[j] == bytes@[at + 2 * j] * 256 + bytes@[at
                        + 2 * j + 1],
            decreases 8 - i,
        {
            groups[i] = bytes[at + 2 * i] as u16 * 256 + bytes[at + 2 * i + 1] as u16;
            i = i + 1;
        }
        Ipv6Address { groups }
    }

    /// The text of the address.
    pub fn to_text(&self) -> (text: String)
        ensures
            text@ == ipv6_text(self.groups@),
    {
        let g = &self.groups;
        let mut text = String::new();
        if g[0] == 0 && g[1] == 0 && g[2] == 0 && g[3] == 0 && g[4] == 0 && g[5] == 0xffff {
            text.push(':');
            text.push(':');
            text.push('f');
            text.push('f');
            text.push('f');
            text.push('f');
            text.push(':');
            push_ipv4(&mut text, g[6] as u32 * 0x1_0000 + g[7] as u32);
            assert(text@ =~= ipv6_text(g@));
            return text;
        }
        let mut runs: [usize; 8] = [0, 0, 0, 0, 0, 0, 0, 0];
        let mut longest: usize = 0;
        let mut i: usize = 8;
        while i > 0
            invariant
                i <= 8,
                longest == longest_zero_run(g@, i as int),
                longest <= 8 - i,
                forall|j: int| i <= j < 8 ==> #[trigger] runs@[j] == zero_run(g@, j),
                forall|j: int| i <= j < 8 ==> #[trigger] runs@[j] <= 8 - j,
            decreases i,
        {
            i = i - 1;
            assert(g@.len() == 8);
            assert(zero_run(g@, i + 1) == if i == 7 {
                0
            } else {
                runs@[i + 1] as nat
            });
            let here: usize = if g[i] != 0 {
                0
            } else if i == 7 {
                1
            } else {
                runs[i + 1] + 1
            };
            runs[i] = here;
            if here >= longest {
                longest = here;
            }
        }
        if longest <= 1 {
            push_groups(&mut text, g, 0, 8);
            assert(g@.subrange(0, 8) =~= g@);
            return text;
        }
        proof {
            lemma_longest_run_occurs(g@, 0);
        }
        let mut start: usize = 0;
        while start < 8 && runs[start] != longest
            invariant
                start <= 8,
                g@.len() == 8,
                forall|j: int| 0 <= j < 8 ==> #[trigger] runs@[j] == zero_run(g@, j),
                forall|j: int| 0 <= j < 8 ==> #[trigger] runs@[j] <= 8 - j,
                first_run_of(g@, longest as nat, 0) == first_run_of(
                    g@,
                    longest as nat,
                    start as int,
                ),
            decreases 8 - start,
        {
            start = start + 1;
        }
        assert(start == first_run_of(g@, longest as nat, 0));
        push_groups(&mut text, g, 0, start);
        text.push(':');
        text.push(':');
        push_groups(&mut text, g, start + longest, 8);
        assert(g@.subrange(0, start as int) =~= g@.take(start as int));
        assert(g@.subrange(start + longest, 8) =~= g@.skip(start + longest));
        assert(text@ =~= ipv6_text(g@));
        text
    }

    /// The value of the address as one number.
    pub fn to_bits(&self) -> (bits: u128)
        ensures
            bits == self.value(),
    {
        let g = &self.groups;
        (((((((g[0] as u128 * 0x1_0000 + g[1] as u128) * 0x1_0000 + g[2] as u128) * 0x1_0000
            + g[3] as u128) * 0x1_0000 + g[4] as u128) * 0x1_0000 + g[5] as u128) * 0x1_0000
            + g[6] as u128) * 0x1_0000 + g[7] as u128)
    }
}

/// Whether `address` is the text of an address of the IP version in use:
/// IPv4 where no version is chosen or version 4 is, IPv6 for version 6,
/// and nothing for any other version.
pub open spec fn is_valid_address(address: Seq<char>, version: Option<u8>) -> bool {
    match version {
        Some(v) => if v == 4 {
            parse_ipv4(address) is Some
        } else if v == 6 {
            parse_ipv6(address) is Some
        } else {
            false
        },
        None => parse_ipv4(address) is Some,
    }
}

/// Checks that `address` is the text of an address of the IP version in use.
pub fn validate_address(address: &String, version: &Option<u8>) -> (valid: bool)
    ensures
        valid == is_valid_address(address@, *version),
{
    match version {
        Some(v) => {
            if *v == 4 {
                Ipv4Address::parse(address.as_str()).is_some()
            } else if *v == 6 {
                Ipv6Address::parse(address.as_str()).is_some()
            } else {
                false
            }
        },
        None => Ipv4Address::parse(address.as_str()).is_some(),
    }
}

} // verus!
