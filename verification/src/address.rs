//! IPv4 addresses and the names under which DNS files them for reverse lookup.

use crate::split;
use vstd::prelude::*;
use vstd::utf8;

verus! {

/// An IPv4 address, as its four octets in the order in which they are written.
#[derive(Clone, Copy, Debug, PartialEq, Eq)]
pub struct Ipv4Addr {
    octets: [u8; 4],
}

impl View for Ipv4Addr {
    type V = Seq<u8>;

    closed spec fn view(&self) -> Seq<u8> {
        self.octets@
    }
}

impl Ipv4Addr {
    /// The address `a.b.c.d`.
    pub fn new(a: u8, b: u8, c: u8, d: u8) -> (ip: Ipv4Addr)
        ensures
            ip@ == seq![a, b, c, d],
    {
        let ip = Ipv4Addr { octets: [a, b, c, d] };
        assert(ip@ =~= seq![a, b, c, d]);
        ip
    }

    /// The four octets.
    pub fn octets(&self) -> (octets: [u8; 4])
        ensures
            octets@ == self@,
    {
        self.octets
    }
}

/// The digit for a number below ten.
pub open spec fn digit(number: nat) -> char {
    (48 + number) as char
}

/// A number in decimal, without leading zeros.
pub open spec fn decimal(number: nat) -> Seq<char>
    decreases number,
{
    if number < 10 {
        seq![digit(number)]
    } else {
        decimal(number / 10).push(digit(number % 10))
    }
}

/// The labels of the name for reverse lookup: the octets in reverse order, then the zone that
/// such names stand in.
pub open spec fn reverse_labels(octets: Seq<u8>) -> Seq<Seq<char>> {
    seq![
        decimal(octets[3] as nat),
        decimal(octets[2] as nat),
        decimal(octets[1] as nat),
        decimal(octets[0] as nat),
        "in-addr"@,
        "arpa"@,
    ]
}

/// The name under which an address is looked up in reverse: its labels with dots between them.
pub open spec fn reverse_name(octets: Seq<u8>) -> Seq<char> {
    split::join(reverse_labels(octets), '.')
}

fn push_digit(out: &mut String, number: u8)
    requires
        number < 10,
    ensures
        final(out)@ == old(out)@.push(digit(number as nat)),
{
    let text: &str = match number {
        0 => "0",
        1 => "1",
        2 => "2",
        3 => "3",
        4 => "4",
        5 => "5",
        6 => "6",
        7 => "7",
        8 => "8",
        _ => "9",
    };
    proof {
        reveal_strlit("0");
        reveal_strlit("1");
        reveal_strlit("2");
        reveal_strlit("3");
        reveal_strlit("4");
        reveal_strlit("5");
        reveal_strlit("6");
        reveal_strlit("7");
        reveal_strlit("8");
        reveal_strlit("9");
        assert(text@ =~= seq![digit(number as nat)]);
    }
    out.append(text);
    assert(out@ =~= old(out)@.push(digit(number as nat)));
}

fn push_decimal(out: &mut String, number: u8)
    ensures
        final(out)@ == old(out)@ + decimal(number as nat),
{
    proof {
        reveal_with_fuel(decimal, 3);
    }
    if number >= 100 {
        push_digit(out, number / 100);
    }
    if number >= 10 {
        push_digit(out, number / 10 % 10);
    }
    push_digit(out, number % 10);
    assert(out@ =~= old(out)@ + decimal(number as nat));
}

fn push_dot(out: &mut String)
    ensures
        final(out)@ == old(out)@.push('.'),
{
    proof {
        reveal_strlit(".");
    }
    out.append(".");
    assert(out@ =~= old(out)@.push('.'));
}

/// Builds the name under which DNS files an address for reverse lookup: `4.3.2.1.in-addr.arpa`
/// for `1.2.3.4`.
pub fn reverse_ptr_qname(ip: Ipv4Addr) -> (name: String)
    ensures
        name@ == reverse_name(ip@),
{
    let octets: [u8; 4] = ip.octets();
    let mut name: String = String::new();
    push_decimal(&mut name, octets[3]);
    push_dot(&mut name);
    push_decimal(&mut name, octets[2]);
    push_dot(&mut name);
    push_decimal(&mut name, octets[1]);
    push_dot(&mut name);
    push_decimal(&mut name, octets[0]);
    name.append(".in-addr.arpa");
    proof {
        reveal_strlit(".in-addr.arpa");
        reveal_strlit("in-addr");
        reveal_strlit("arpa");
        let all = reverse_labels(ip@);
        assert(".in-addr.arpa"@ =~= seq!['.'] + "in-addr"@ + seq!['.'] + "arpa"@);
        reveal_with_fuel(split::join, 6);
        assert(name@ =~= reverse_name(ip@));
    }
    name
}

/// The decimal form of an octet: one to three characters, none of them a dot, all of them ASCII.
proof fn lemma_decimal(octet: u8)
    ensures
        1 <= decimal(octet as nat).len() <= 3,
        split::lacks(decimal(octet as nat), '.'),
        utf8::is_ascii_chars(decimal(octet as nat)),
{
    reveal_with_fuel(decimal, 3);
}

/// A label of the name for reverse lookup: one to seven characters, none of them a dot, all of
/// them ASCII.
pub proof fn lemma_reverse_label(octets: Seq<u8>, i: int)
    requires
        0 <= i < 6,
    ensures
        1 <= reverse_labels(octets)[i].len() <= 7,
        split::lacks(reverse_labels(octets)[i], '.'),
        utf8::is_ascii_chars(reverse_labels(octets)[i]),
{
    lemma_decimal(octets[3]);
    lemma_decimal(octets[2]);
    lemma_decimal(octets[1]);
    lemma_decimal(octets[0]);
    reveal_strlit("in-addr");
    reveal_strlit("arpa");
}

/// Numbers with the same decimal form are the same.
proof fn lemma_decimal_injective(a: nat, b: nat)
    requires
        decimal(a) == decimal(b),
    ensures
        a == b,
    decreases a,
{
    assert(decimal(a).last() == digit(a % 10)) by {
        reveal_with_fuel(decimal, 1);
    }
    assert(decimal(b).last() == digit(b % 10)) by {
        reveal_with_fuel(decimal, 1);
    }
    assert(a % 10 == b % 10);
    lemma_decimal_nonempty(a / 10);
    lemma_decimal_nonempty(b / 10);
    if a >= 10 && b >= 10 {
        assert(decimal(a).drop_last() =~= decimal(a / 10));
        assert(decimal(b).drop_last() =~= decimal(b / 10));
        lemma_decimal_injective(a / 10, b / 10);
    }
}

proof fn lemma_decimal_nonempty(number: nat)
    ensures
        decimal(number).len() >= 1,
{
}

/// The name for reverse lookup falls into the labels that it was put together from.
pub proof fn reverse_name_has_reverse_labels(octets: Seq<u8>)
    ensures
        split::split(reverse_name(octets), '.') == reverse_labels(octets),
{
    let all = reverse_labels(octets);
    assert forall|i: int| 0 <= i < all.len() implies split::lacks(#[trigger] all[i], '.') by {
        lemma_reverse_label(octets, i);
    }
    split::split_undoes_join(all, '.');
}

/// Two addresses have the same name for reverse lookup only if they are the same address.
pub proof fn reverse_name_is_injective(a: Seq<u8>, b: Seq<u8>)
    requires
        a.len() == 4,
        b.len() == 4,
        reverse_name(a) == reverse_name(b),
    ensures
        a == b,
{
    reverse_name_has_reverse_labels(a);
    reverse_name_has_reverse_labels(b);
    assert forall|i: int| 0 <= i < 4 implies a[i] == b[i] by {
        assert(reverse_labels(a)[3 - i] == decimal(a[i] as nat));
        assert(reverse_labels(b)[3 - i] == decimal(b[i] as nat));
        lemma_decimal_injective(a[i] as nat, b[i] as nat);
    }
    assert(a =~= b);
}

} // verus!
