//! IPv4 addresses and their dotted-decimal text.

use crate::decimal::{
    is_digit, lemma_field_is_numeral, lemma_field_of_numeral, lemma_numeral_value,
    lemma_value_numeral, numeral, parse_field, parse_numeral, read_field, read_numeral,
    write_numeral,
};
use crate::text::{chars_of, string_of};
use vstd::prelude::*;

verus! {

/// An IPv4 address, as its four octets in network order.
#[derive(Clone, Copy, Debug, PartialEq, Eq, Structural)]
pub struct Ipv4Address(pub u8, pub u8, pub u8, pub u8);

/// One character holding a dot.
pub open spec fn dot() -> Seq<char> {
    seq!['.']
}

/// The dotted-decimal text of `a`: four canonical numerals joined by
/// dots.
pub open spec fn address_text(a: Ipv4Address) -> Seq<char> {
    numeral(a.0 as nat) + dot() + numeral(a.1 as nat) + dot() + numeral(a.2 as nat) + dot()
        + numeral(a.3 as nat)
}

/// The address that `s` is the text of, if there is one.
pub open spec fn parse_address(s: Seq<char>) -> Option<Ipv4Address> {
    if exists|a: Ipv4Address| address_text(a) == s {
        Some(choose|a: Ipv4Address| address_text(a) == s)
    } else {
        None
    }
}

/// What comes of reading three numerals up to 255, each ended by a dot,
/// and a fourth that takes up the rest of `s`.
pub open spec fn read_fields(s: Seq<char>) -> Option<Ipv4Address> {
    match parse_field(s, '.', 255) {
        Some((a, s1)) => match parse_field(s1, '.', 255) {
            Some((b, s2)) => match parse_field(s2, '.', 255) {
                Some((c, s3)) => match parse_numeral(s3, 255) {
                    Some(d) => Some(Ipv4Address(a as u8, b as u8, c as u8, d as u8)),
                    None => None,
                },
                None => None,
            },
            None => None,
        },
        None => None,
    }
}

/// Reading the text of an address gives the address back.
pub proof fn lemma_read_text(a: Ipv4Address)
    ensures
        read_fields(address_text(a)) == Some(a),
{
    let n1 = numeral(a.1 as nat);
    let n2 = numeral(a.2 as nat);
    let n3 = numeral(a.3 as nat);
    let s = address_text(a);
    let s1 = n1 + dot() + n2 + dot() + n3;
    let s2 = n2 + dot() + n3;
    assert(s =~= numeral(a.0 as nat) + dot() + s1);
    assert(s1 =~= n1 + dot() + s2);
    lemma_field_of_numeral(a.0 as nat, '.', s1, 255);
    lemma_field_of_numeral(a.1 as nat, '.', s2, 255);
    lemma_field_of_numeral(a.2 as nat, '.', n3, 255);
    lemma_numeral_value(a.3 as nat);
}

/// Joining pieces with dots does not depend on how the joins are
/// grouped.
proof fn lemma_join(n0: Seq<char>, n1: Seq<char>, n2: Seq<char>, n3: Seq<char>)
    ensures
        n0 + dot() + (n1 + dot() + (n2 + dot() + n3)) == n0 + dot() + n1 + dot() + n2 + dot()
            + n3,
{
    assert(n0 + dot() + (n1 + dot() + (n2 + dot() + n3)) =~= n0 + dot() + n1 + dot() + n2 + dot()
        + n3);
}

/// Whatever text reads as an address is the text of that address.
pub proof fn lemma_read_sound(s: Seq<char>)
    ensures
        read_fields(s) matches Some(a) ==> address_text(a) == s,
{
    if let Some(address) = read_fields(s) {
        let (a, s1) = parse_field(s, '.', 255)->Some_0;
        let (b, s2) = parse_field(s1, '.', 255)->Some_0;
        let (c, s3) = parse_field(s2, '.', 255)->Some_0;
        let d = parse_numeral(s3, 255)->Some_0;
        assert(s == numeral(a) + dot() + s1 && a <= 255) by {
            lemma_field_is_numeral(s, '.', 255);
        }
        assert(s1 == numeral(b) + dot() + s2 && b <= 255) by {
            lemma_field_is_numeral(s1, '.', 255);
        }
        assert(s2 == numeral(c) + dot() + s3 && c <= 255) by {
            lemma_field_is_numeral(s2, '.', 255);
        }
        assert(s3 == numeral(d) && d <= 255) by {
            lemma_value_numeral(s3);
        }
        lemma_join(numeral(a), numeral(b), numeral(c), numeral(d));
        assert(address == Ipv4Address(a as u8, b as u8, c as u8, d as u8));
    }
}

/// Different addresses have different texts.
pub proof fn lemma_text_injective(a: Ipv4Address, b: Ipv4Address)
    requires
        address_text(a) == address_text(b),
    ensures
        a == b,
{
    lemma_read_text(a);
    lemma_read_text(b);
}

/// Parsing is reading field by field: a text denotes an address exactly
/// when it is made of four numerals up to 255 with single dots between
/// them.
pub proof fn lemma_parse_is_read(s: Seq<char>)
    ensures
        parse_address(s) == read_fields(s),
{
    if exists|a: Ipv4Address| address_text(a) == s {
        let a = choose|a: Ipv4Address| address_text(a) == s;
        lemma_read_text(a);
    } else {
        lemma_read_sound(s);
    }
}

/// Writing and parsing are inverse to each other.
pub proof fn lemma_parse_text(a: Ipv4Address, s: Seq<char>)
    ensures
        parse_address(address_text(a)) == Some(a),
        parse_address(s) == Some(a) <==> s == address_text(a),
{
    lemma_parse_is_read(address_text(a));
    lemma_read_text(a);
    lemma_parse_is_read(s);
    lemma_read_sound(s);
}

/// The text of an address holds digits and dots only.
pub proof fn lemma_text_alphabet(a: Ipv4Address)
    ensures
        forall|i: int|
            0 <= i < address_text(a).len() ==> {
                let c = #[trigger] address_text(a)[i];
                is_digit(c) || c == '.'
            },
{
    lemma_numeral_value(a.0 as nat);
    lemma_numeral_value(a.1 as nat);
    lemma_numeral_value(a.2 as nat);
    lemma_numeral_value(a.3 as nat);
    let n0 = numeral(a.0 as nat);
    let n1 = numeral(a.1 as nat);
    let n2 = numeral(a.2 as nat);
    let n3 = numeral(a.3 as nat);
    let s = address_text(a);
    assert forall|i: int| 0 <= i < s.len() implies {
        let c = #[trigger] s[i];
        is_digit(c) || c == '.'
    } by {
        if i < n0.len() {
            assert(s[i] == n0[i]);
        } else if i == n0.len() {
        } else if i < n0.len() + 1 + n1.len() {
            assert(s[i] == n1[i - n0.len() - 1]);
        } else if i == n0.len() + 1 + n1.len() {
        } else if i < n0.len() + 1 + n1.len() + 1 + n2.len() {
            assert(s[i] == n2[i - n0.len() - 1 - n1.len() - 1]);
        } else if i == n0.len() + 1 + n1.len() + 1 + n2.len() {
        } else {
            assert(s[i] == n3[i - n0.len() - 1 - n1.len() - 1 - n2.len() - 1]);
        }
    }
}

impl Ipv4Address {
    /// Parses `chars[start..end]` as dotted-decimal text: four numerals
    /// from 0 to 255 without leading zeros, joined by single dots, and
    /// nothing else.
    pub fn parse(chars: &Vec<char>, start: usize, end: usize) -> (parsed: Option<Ipv4Address>)
        requires
            start <= end <= chars.len(),
        ensures
            parsed == parse_address(chars@.subrange(start as int, end as int)),
    {
        proof {
            lemma_parse_is_read(chars@.subrange(start as int, end as int));
        }
        let (a, after_a) = match read_field(chars, start, end, '.', 255) {
            Some(field) => field,
            None => { return None; },
        };
        let (b, after_b) = match read_field(chars, after_a, end, '.', 255) {
            Some(field) => field,
            None => { return None; },
        };
        let (c, after_c) = match read_field(chars, after_b, end, '.', 255) {
            Some(field) => field,
            None => { return None; },
        };
        match read_numeral(chars, after_c, end, 255) {
            Some(d) => Some(Ipv4Address(a as u8, b as u8, c as u8, d as u8)),
            None => None,
        }
    }

    /// Parses dotted-decimal text.
    pub fn from_text(text: &str) -> (parsed: Option<Ipv4Address>)
        ensures
            parsed == parse_address(text@),
    {
        let chars = chars_of(text);
        assert(chars@.subrange(0, chars.len() as int) =~= chars@);
        Ipv4Address::parse(&chars, 0, chars.len())
    }

    /// Whether this is `0.0.0.0`, the address that names no host.
    pub open spec fn is_unspecified(self) -> bool {
        self.0 == 0 && self.1 == 0 && self.2 == 0 && self.3 == 0
    }

    /// Whether this lies in `127.0.0.0/8`, the block that names the local
    /// host.
    pub open spec fn is_loopback(self) -> bool {
        self.0 == 127
    }

    /// Whether a device on the network can be reached at this address:
    /// it is neither unspecified nor loopback.
    pub open spec fn is_usable(self) -> bool {
        !self.is_unspecified() && !self.is_loopback()
    }

    /// Executable form of [`Ipv4Address::is_usable`].
    pub fn usable(&self) -> (usable: bool)
        ensures
            usable == self.is_usable(),
    {
        !(self.0 == 0 && self.1 == 0 && self.2 == 0 && self.3 == 0) && self.0 != 127
    }

    /// The four octets in network order.
    pub fn octets(&self) -> (octets: [u8; 4])
        ensures
            octets@ == seq![self.0, self.1, self.2, self.3],
    {
        [self.0, self.1, self.2, self.3]
    }

    /// The address with the given octets, in network order.
    pub fn from_octets(octets: [u8; 4]) -> (address: Ipv4Address)
        ensures
            address == Ipv4Address(octets@[0], octets@[1], octets@[2], octets@[3]),
    {
        Ipv4Address(octets[0], octets[1], octets[2], octets[3])
    }

    /// Appends the dotted-decimal text of this address to `out`.
    pub fn write(&self, out: &mut Vec<char>)
        ensures
            final(out)@ == old(out)@ + address_text(*self),
    {
        write_numeral(self.0 as u64, out);
        out.push('.');
        write_numeral(self.1 as u64, out);
        out.push('.');
        write_numeral(self.2 as u64, out);
        out.push('.');
        write_numeral(self.3 as u64, out);
        assert(out@ =~= old(out)@ + address_text(*self));
    }

    /// The dotted-decimal text of this address.
    pub fn to_text(&self) -> (text: String)
        ensures
            text@ == address_text(*self),
    {
        let mut out: Vec<char> = Vec::new();
        self.write(&mut out);
        let text = string_of(&out, 0, out.len());
        assert(out@.subrange(0, out.len() as int) =~= out@);
        assert(Seq::<char>::empty() + address_text(*self) =~= address_text(*self));
        text
    }
}

} // verus!
