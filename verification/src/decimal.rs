//! Canonical decimal numerals: the shortest run of ASCII digits that
//! writes a natural number, with no sign and no leading zero.

use crate::text::{find, find_char, lemma_find, lemma_find_at};
use vstd::prelude::*;

verus! {

/// Whether `c` is one of the ASCII digits `0` to `9`.
pub open spec fn is_digit(c: char) -> bool {
    0x30 <= c as u32 <= 0x39
}

/// The number that the digit `c` stands for.
pub open spec fn digit_value(c: char) -> nat {
    (c as u32 - 0x30) as nat
}

/// The digit that stands for `d`, for `d` below ten.
pub open spec fn digit_char(d: nat) -> char {
    (d + 0x30) as char
}

/// Whether every character of `s` is a digit.
pub open spec fn all_digits(s: Seq<char>) -> bool {
    forall|i: int| 0 <= i < s.len() ==> is_digit(#[trigger] s[i])
}

/// Whether `s` is a canonical numeral: at least one digit, only digits,
/// and no leading zero unless it is the single digit `0`.
pub open spec fn is_numeral(s: Seq<char>) -> bool {
    &&& s.len() > 0
    &&& all_digits(s)
    &&& s.len() > 1 ==> s[0] != '0'
}

/// The number written by the digits `s`, read in base ten.
pub open spec fn numeral_value(s: Seq<char>) -> nat
    decreases s.len(),
{
    if s.len() == 0 {
        0
    } else {
        numeral_value(s.drop_last()) * 10 + digit_value(s.last())
    }
}

/// The canonical numeral of `n`.
pub open spec fn numeral(n: nat) -> Seq<char>
    decreases n,
{
    if n < 10 {
        seq![digit_char(n)]
    } else {
        numeral(n / 10).push(digit_char(n % 10))
    }
}

/// Digits and the numbers below ten stand for each other.
pub proof fn lemma_digit_round_trip(c: char, d: nat)
    ensures
        is_digit(c) ==> digit_value(c) < 10 && digit_char(digit_value(c)) == c,
        d < 10 ==> is_digit(digit_char(d)) && digit_value(digit_char(d)) == d,
{
    if is_digit(c) {
        vstd::utf8::char_u32_cast(c, c as u32);
    }
}

/// Reading the numeral of `n` gives `n` back, and the numeral is canonical.
pub proof fn lemma_numeral_value(n: nat)
    ensures
        is_numeral(numeral(n)),
        numeral_value(numeral(n)) == n,
        n > 0 ==> numeral(n)[0] != '0',
    decreases n,
{
    if n < 10 {
        let s = numeral(n);
        assert(s.drop_last() =~= Seq::<char>::empty());
        assert(numeral_value(s.drop_last()) == 0);
    } else {
        lemma_numeral_value(n / 10);
        let head = numeral(n / 10);
        let s = numeral(n);
        assert(s.drop_last() =~= head);
        assert(s[0] == head[0]);
    }
}

/// Writing the value of a canonical numeral gives the numeral back.
pub proof fn lemma_value_numeral(s: Seq<char>)
    requires
        is_numeral(s),
    ensures
        numeral(numeral_value(s)) == s,
        s.len() > 1 ==> numeral_value(s) >= 10,
        s[0] != '0' ==> numeral_value(s) > 0,
    decreases s.len(),
{
    if s.len() == 1 {
        assert(s.drop_last() =~= Seq::<char>::empty());
        assert(numeral_value(s.drop_last()) == 0);
        assert(numeral_value(s) == digit_value(s[0]));
        lemma_digit_round_trip(s[0], 0);
        assert(numeral(numeral_value(s)) =~= s);
    } else {
        let head = s.drop_last();
        assert(is_numeral(head));
        lemma_value_numeral(head);
        let v = numeral_value(head);
        let d = digit_value(s.last());
        assert(v > 0);
        assert(numeral_value(s) == v * 10 + d);
        assert((v * 10 + d) / 10 == v);
        assert((v * 10 + d) % 10 == d);
        lemma_digit_round_trip(s.last(), 0);
        assert(numeral(numeral_value(s)) =~= head.push(s.last()));
        assert(head.push(s.last()) =~= s);
    }
}

/// Two numbers with the same numeral are the same number.
pub proof fn lemma_numeral_injective(a: nat, b: nat)
    requires
        numeral(a) == numeral(b),
    ensures
        a == b,
{
    lemma_numeral_value(a);
    lemma_numeral_value(b);
}

/// The value of a run of digits does not shrink when more digits follow.
pub proof fn lemma_value_prefix(s: Seq<char>, k: int)
    requires
        0 <= k <= s.len(),
    ensures
        numeral_value(s.take(k)) <= numeral_value(s),
    decreases s.len() - k,
{
    if k < s.len() {
        lemma_value_prefix(s, k + 1);
        assert(s.take(k + 1).drop_last() =~= s.take(k));
    } else {
        assert(s.take(k) =~= s);
    }
}

/// What reading `s` as a numeral no greater than `limit` yields.
pub open spec fn parse_numeral(s: Seq<char>, limit: nat) -> Option<nat> {
    if is_numeral(s) && numeral_value(s) <= limit {
        Some(numeral_value(s))
    } else {
        None
    }
}

/// What reading the start of `s` as a numeral no greater than `limit`
/// that ends at the first `sep` yields: the number and the text behind
/// that `sep`.
pub open spec fn parse_field(s: Seq<char>, sep: char, limit: nat) -> Option<(nat, Seq<char>)> {
    let p = find(s, sep) as int;
    if p < s.len() {
        match parse_numeral(s.take(p), limit) {
            Some(value) => Some((value, s.skip(p + 1))),
            None => None,
        }
    } else {
        None
    }
}

/// A numeral followed by a separator that is no digit reads back as its
/// number, with the text behind the separator left over.
pub proof fn lemma_field_of_numeral(n: nat, sep: char, rest: Seq<char>, limit: nat)
    requires
        !is_digit(sep),
        n <= limit,
    ensures
        parse_field(numeral(n) + seq![sep] + rest, sep, limit) == Some((n, rest)),
{
    let head = numeral(n);
    let whole = head + seq![sep] + rest;
    lemma_numeral_value(n);
    assert forall|i: int| 0 <= i < head.len() implies whole[i] != sep by {
        assert(whole[i] == head[i]);
        assert(is_digit(head[i]));
    }
    assert(whole[head.len() as int] == sep);
    lemma_find_at(whole, sep, head.len() as int);
    assert(whole.take(head.len() as int) =~= head);
    assert(whole.skip(head.len() as int + 1) =~= rest);
}

/// A text from which a field can be read starts with the numeral of the
/// number read, followed by the separator and the text left over.
pub proof fn lemma_field_is_numeral(s: Seq<char>, sep: char, limit: nat)
    ensures
        parse_field(s, sep, limit) matches Some((value, rest)) ==> {
            &&& s == numeral(value) + seq![sep] + rest
            &&& value <= limit
            &&& rest.len() < s.len()
        },
{
    if let Some((value, rest)) = parse_field(s, sep, limit) {
        let p = find(s, sep) as int;
        lemma_find(s, sep);
        lemma_value_numeral(s.take(p));
        assert(s =~= s.take(p) + seq![sep] + s.skip(p + 1));
    }
}

/// Reads `chars[start..end]` as a canonical numeral no greater than
/// `limit`.
pub fn read_numeral(chars: &Vec<char>, start: usize, end: usize, limit: u64) -> (value: Option<
    u64,
>)
    requires
        start <= end <= chars.len(),
    ensures
        match value {
            Some(v) => parse_numeral(chars@.subrange(start as int, end as int), limit as nat)
                == Some(v as nat),
            None => parse_numeral(chars@.subrange(start as int, end as int), limit as nat)
                is None,
        },
{
    let ghost s = chars@.subrange(start as int, end as int);
    if start == end {
        return None;
    }
    if end - start > 1 && chars[start] == '0' {
        assert(s[0] == '0');
        return None;
    }
    let mut total: u128 = 0;
    let mut i: usize = start;
    while i < end
        invariant
            start <= i <= end <= chars.len(),
            s == chars@.subrange(start as int, end as int),
            all_digits(s.take(i - start)),
            total == numeral_value(s.take(i - start)),
            total <= limit,
        decreases end - i,
    {
        let c = chars[i];
        let p: u32 = c as u32;
        if p < 0x30 || p > 0x39 {
            assert(!is_digit(s[i - start]));
            return None;
        }
        let ghost before = s.take(i - start);
        let ghost after = s.take(i - start + 1);
        assert(after.drop_last() =~= before);
        assert(after.last() == c);
        total = total * 10 + (p - 0x30) as u128;
        i += 1;
        if total > limit as u128 {
            proof {
                lemma_value_prefix(s, i - start);
            }
            return None;
        }
        assert forall|k: int| 0 <= k < after.len() implies is_digit(#[trigger] after[k]) by {
            if k < before.len() {
                assert(after[k] == before[k]);
            }
        }
    }
    assert(s.take(end - start) =~= s);
    Some(total as u64)
}

/// Reads the numeral no greater than `limit` that stands in
/// `chars[start..end]` before the first `sep`, and reports where the text
/// behind that `sep` starts.
pub fn read_field(chars: &Vec<char>, start: usize, end: usize, sep: char, limit: u64) -> (field:
    Option<(u64, usize)>)
    requires
        start <= end <= chars.len(),
    ensures
        match field {
            Some((value, next)) => {
                &&& start < next <= end
                &&& parse_field(chars@.subrange(start as int, end as int), sep, limit as nat)
                    == Some((value as nat, chars@.subrange(next as int, end as int)))
            },
            None => parse_field(chars@.subrange(start as int, end as int), sep, limit as nat)
                is None,
        },
{
    let ghost s = chars@.subrange(start as int, end as int);
    let at = find_char(chars, start, end, sep);
    if at == end {
        return None;
    }
    assert(s.take(at - start) =~= chars@.subrange(start as int, at as int));
    assert(s.skip(at - start + 1) =~= chars@.subrange(at + 1, end as int));
    match read_numeral(chars, start, at, limit) {
        Some(value) => Some((value, at + 1)),
        None => None,
    }
}

/// Appends the canonical numeral of `n` to `out`.
pub fn write_numeral(n: u64, out: &mut Vec<char>)
    ensures
        final(out)@ == old(out)@ + numeral(n as nat),
    decreases n,
{
    if n >= 10 {
        write_numeral(n / 10, out);
    }
    let d: u8 = (n % 10) as u8;
    out.push((d + 0x30) as char);
    proof {
        if n >= 10 {
            assert(old(out)@ + numeral((n / 10) as nat).push(digit_char((n % 10) as nat))
                =~= (old(out)@ + numeral((n / 10) as nat)).push(digit_char((n % 10) as nat)));
        } else {
            assert(old(out)@ + seq![digit_char(n as nat)] =~= old(out)@.push(
                digit_char(n as nat),
            ));
        }
    }
}

} // verus!
