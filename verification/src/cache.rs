//! The text in which a list of targets is kept between runs.
//!
//! Each target takes one record: its address, its port, the number of
//! characters in its name, and the name, separated by single spaces and
//! closed by a line feed. The name is stored by length, so it may hold
//! any character, spaces and line feeds included.

use crate::address::{
    address_text, lemma_parse_text, lemma_text_alphabet, parse_address, Ipv4Address,
};
use crate::decimal::{
    lemma_field_is_numeral, lemma_field_of_numeral, numeral, parse_field, read_field,
    write_numeral,
};
use crate::target::{all_well_formed, lemma_views_push, views, Target, TargetView};
use crate::text::{chars_of, find, find_char, lemma_find, lemma_find_at, string_of};
use vstd::prelude::*;

verus! {

/// The record that stores `target`.
pub open spec fn entry_text(target: TargetView) -> Seq<char> {
    address_text(target.address) + seq![' '] + (numeral(target.port as nat) + seq![' '] + (numeral(
        target.name.len(),
    ) + seq![' '] + (target.name + seq!['\n'])))
}

/// The text that stores `targets`: their records one after the other.
pub open spec fn cache_text(targets: Seq<TargetView>) -> Seq<char>
    decreases targets.len(),
{
    if targets.len() == 0 {
        Seq::empty()
    } else {
        entry_text(targets.first()) + cache_text(targets.drop_first())
    }
}

/// What reading an address that ends at the first space of `s` yields:
/// the address and the text behind that space.
pub open spec fn read_address(s: Seq<char>) -> Option<(Ipv4Address, Seq<char>)> {
    let p = find(s, ' ') as int;
    if p < s.len() {
        match parse_address(s.take(p)) {
            Some(address) => Some((address, s.skip(p + 1))),
            None => None,
        }
    } else {
        None
    }
}

/// What reading a name of `len` characters that is closed by a line feed
/// yields: the name and the text behind that line feed.
pub open spec fn read_name(s: Seq<char>, len: nat) -> Option<(Seq<char>, Seq<char>)> {
    if len < s.len() && s[len as int] == '\n' {
        Some((s.take(len as int), s.skip(len as int + 1)))
    } else {
        None
    }
}

/// What reading one record from the start of `s` yields: the target and
/// the text behind its record.
#[verifier::opaque]
pub open spec fn read_entry(s: Seq<char>) -> Option<(TargetView, Seq<char>)> {
    match read_address(s) {
        None => None,
        Some((address, s1)) => match parse_field(s1, ' ', 0xffff) {
            None => None,
            Some((port, s2)) => match parse_field(s2, ' ', 0xffff_ffff_ffff_ffff) {
                None => None,
                Some((len, s3)) => match read_name(s3, len) {
                    None => None,
                    Some((name, rest)) => if port != 0 {
                        Some((TargetView { name, address, port: port as u16 }, rest))
                    } else {
                        None
                    },
                },
            },
        }
    }
}

/// What reading records until `s` is used up yields.
pub open spec fn read_entries(s: Seq<char>) -> Option<Seq<TargetView>>
    decreases s.len(),
{
    if s.len() == 0 {
        Some(Seq::empty())
    } else {
        match read_entry(s) {
            None => None,
            Some((target, rest)) => if rest.len() < s.len() {
                match read_entries(rest) {
                    None => None,
                    Some(targets) => Some(seq![target] + targets),
                }
            } else {
                None
            },
        }
    }
}

/// What reading the whole of `s` yields, where a text without any
/// record counts as unreadable.
pub open spec fn read_cache(s: Seq<char>) -> Option<Seq<TargetView>> {
    match read_entries(s) {
        Some(targets) => if targets.len() > 0 {
            Some(targets)
        } else {
            None
        },
        None => None,
    }
}

/// Whether a target can be stored: it is valid and the length of its
/// name fits in 64 bits.
pub open spec fn storable(target: TargetView) -> bool {
    target.well_formed() && target.name.len() <= 0xffff_ffff_ffff_ffff
}

/// Whether every target of the list can be stored.
pub open spec fn all_storable(targets: Seq<TargetView>) -> bool {
    forall|i: int| 0 <= i < targets.len() ==> storable(#[trigger] targets[i])
}

/// Whether `s` is the text that stores `targets`, a list of at least one
/// target, each of which can be stored.
pub open spec fn stores(s: Seq<char>, targets: Seq<TargetView>) -> bool {
    targets.len() > 0 && all_storable(targets) && cache_text(targets) == s
}

/// The targets that the text `s` stores. A text that is damaged in any
/// way, or that stores no target at all, holds nothing.
pub open spec fn decode_cache(s: Seq<char>) -> Option<Seq<TargetView>> {
    if exists|targets: Seq<TargetView>| stores(s, targets) {
        Some(choose|targets: Seq<TargetView>| stores(s, targets))
    } else {
        None
    }
}

/// The text of a list that grew by one target is the old text followed
/// by the record of that target.
pub proof fn lemma_cache_text_push(targets: Seq<TargetView>, target: TargetView)
    ensures
        cache_text(targets.push(target)) == cache_text(targets) + entry_text(target),
    decreases targets.len(),
{
    let grown = targets.push(target);
    reveal_with_fuel(cache_text, 2);
    if targets.len() == 0 {
        assert(grown.drop_first() =~= Seq::<TargetView>::empty());
        assert(cache_text(grown) =~= cache_text(targets) + entry_text(target));
    } else {
        lemma_cache_text_push(targets.drop_first(), target);
        assert(grown.drop_first() =~= targets.drop_first().push(target));
        assert(cache_text(grown) =~= cache_text(targets) + entry_text(target));
    }
}

/// The text of an address followed by a space reads back as the
/// address, with the text behind the space left over.
pub proof fn lemma_read_address_text(address: Ipv4Address, rest: Seq<char>)
    ensures
        read_address(address_text(address) + seq![' '] + rest) == Some((address, rest)),
{
    let text = address_text(address);
    let s = text + seq![' '] + rest;
    lemma_text_alphabet(address);
    assert forall|i: int| 0 <= i < text.len() implies s[i] != ' ' by {
        assert(s[i] == text[i]);
    }
    assert(s[text.len() as int] == ' ');
    lemma_find_at(s, ' ', text.len() as int);
    assert(s.take(text.len() as int) =~= text);
    assert(s.skip(text.len() as int + 1) =~= rest);
    lemma_parse_text(address, text);
}

/// A text from which an address can be read starts with the text of that
/// address, followed by a space and the text left over.
pub proof fn lemma_read_address_sound(s: Seq<char>)
    ensures
        read_address(s) matches Some((address, rest)) ==> s == address_text(address) + seq![' ']
            + rest,
{
    if let Some((address, rest)) = read_address(s) {
        let p = find(s, ' ') as int;
        lemma_find(s, ' ');
        lemma_parse_text(address, s.take(p));
        assert(s =~= s.take(p) + seq![' '] + rest);
    }
}

/// A name followed by a line feed reads back as the name, and a text
/// from which a name can be read starts with that name and a line feed.
pub proof fn lemma_read_name(s: Seq<char>, name: Seq<char>, rest: Seq<char>)
    ensures
        read_name(name + seq!['\n'] + rest, name.len()) == Some((name, rest)),
        read_name(s, name.len()) == Some((name, rest)) ==> s == name + seq!['\n'] + rest,
{
    let whole = name + seq!['\n'] + rest;
    assert(whole[name.len() as int] == '\n');
    assert(whole.take(name.len() as int) =~= name);
    assert(whole.skip(name.len() as int + 1) =~= rest);
    if read_name(s, name.len()) == Some((name, rest)) {
        assert(s =~= name + seq!['\n'] + rest);
    }
}

/// A record reads back as the target it stores, whatever text follows it.
pub proof fn lemma_read_entry_text(target: TargetView, rest: Seq<char>)
    requires
        storable(target),
    ensures
        read_entry(entry_text(target) + rest) == Some((target, rest)),
        (entry_text(target) + rest).len() > rest.len(),
{
    reveal(read_entry);
    let s3 = target.name + seq!['\n'] + rest;
    let s2 = numeral(target.name.len()) + seq![' '] + s3;
    let s1 = numeral(target.port as nat) + seq![' '] + s2;
    let s = entry_text(target) + rest;
    assert(s =~= address_text(target.address) + seq![' '] + s1);
    lemma_read_address_text(target.address, s1);
    lemma_field_of_numeral(target.port as nat, ' ', s2, 0xffff);
    lemma_field_of_numeral(target.name.len(), ' ', s3, 0xffff_ffff_ffff_ffff);
    lemma_read_name(s3, target.name, rest);
}

/// A text from which a record can be read starts with the record of the
/// target read, and that target can be stored.
pub proof fn lemma_read_entry_sound(s: Seq<char>)
    ensures
        read_entry(s) matches Some((target, rest)) ==> {
            &&& s == entry_text(target) + rest
            &&& storable(target)
            &&& rest.len() < s.len()
        },
{
    reveal(read_entry);
    if let Some((target, rest)) = read_entry(s) {
        let (address, s1) = read_address(s)->Some_0;
        let (port, s2) = parse_field(s1, ' ', 0xffff)->Some_0;
        let (len, s3) = parse_field(s2, ' ', 0xffff_ffff_ffff_ffff)->Some_0;
        assert(s == address_text(address) + seq![' '] + s1) by {
            lemma_read_address_sound(s);
        }
        assert(s1 == numeral(port) + seq![' '] + s2 && port <= 0xffff) by {
            lemma_field_is_numeral(s1, ' ', 0xffff);
        }
        assert(s2 == numeral(len) + seq![' '] + s3 && len <= 0xffff_ffff_ffff_ffff) by {
            lemma_field_is_numeral(s2, ' ', 0xffff_ffff_ffff_ffff);
        }
        assert(s3 == target.name + seq!['\n'] + rest && len == target.name.len()) by {
            lemma_read_name(s3, target.name, rest);
        }
        lemma_entry_join(
            address_text(address),
            numeral(port),
            numeral(len),
            target.name,
            rest,
        );
    }
}

/// Joining the pieces of a record and the text behind it does not depend
/// on how the joins are grouped.
proof fn lemma_entry_join(
    address: Seq<char>,
    port: Seq<char>,
    len: Seq<char>,
    name: Seq<char>,
    rest: Seq<char>,
)
    ensures
        address + seq![' '] + (port + seq![' '] + (len + seq![' '] + (name + seq!['\n'] + rest)))
            == address + seq![' '] + (port + seq![' '] + (len + seq![' '] + (name
            + seq!['\n']))) + rest,
        (address + seq![' '] + (port + seq![' '] + (len + seq![' '] + (name + seq!['\n'])))
            + rest).len() > rest.len(),
{
    assert(address + seq![' '] + (port + seq![' '] + (len + seq![' '] + (name + seq!['\n']
        + rest))) =~= address + seq![' '] + (port + seq![' '] + (len + seq![' '] + (name
        + seq!['\n']))) + rest);
}

/// The records of a list of targets read back as that list.
pub proof fn lemma_read_text(targets: Seq<TargetView>)
    requires
        all_storable(targets),
    ensures
        read_entries(cache_text(targets)) == Some(targets),
    decreases targets.len(),
{
    if targets.len() > 0 {
        let rest = targets.drop_first();
        assert forall|i: int| 0 <= i < rest.len() implies storable(#[trigger] rest[i]) by {
            assert(rest[i] == targets[i + 1]);
        }
        lemma_read_text(rest);
        lemma_read_entry_text(targets.first(), cache_text(rest));
        assert(seq![targets.first()] + rest =~= targets);
    }
}

/// A text that reads as a list of targets is the text that stores that
/// list, and each of the targets can be stored.
pub proof fn lemma_read_sound(s: Seq<char>)
    ensures
        read_entries(s) matches Some(targets) ==> cache_text(targets) == s && all_storable(
            targets,
        ),
    decreases s.len(),
{
    if s.len() > 0 {
        if let Some(targets) = read_entries(s) {
            let (target, rest) = read_entry(s)->Some_0;
            lemma_read_entry_sound(s);
            lemma_read_sound(rest);
            let tail = read_entries(rest)->Some_0;
            assert(targets.drop_first() =~= tail);
            assert forall|i: int| 0 <= i < targets.len() implies storable(
                #[trigger] targets[i],
            ) by {
                if i > 0 {
                    assert(targets[i] == tail[i - 1]);
                }
            }
        }
    } else {
        assert(cache_text(Seq::<TargetView>::empty()) =~= s);
    }
}

/// Two lists of storable targets with the same text are the same list.
pub proof fn lemma_cache_text_injective(a: Seq<TargetView>, b: Seq<TargetView>)
    requires
        all_storable(a),
        all_storable(b),
        cache_text(a) == cache_text(b),
    ensures
        a == b,
{
    lemma_read_text(a);
    lemma_read_text(b);
}

/// Decoding is reading record by record: a text stores a list of
/// targets exactly when it is made of their records and of nothing else.
pub proof fn lemma_decode_is_read(s: Seq<char>)
    ensures
        decode_cache(s) == read_cache(s),
{
    if exists|targets: Seq<TargetView>| stores(s, targets) {
        let targets = choose|targets: Seq<TargetView>| stores(s, targets);
        lemma_read_text(targets);
    } else {
        lemma_read_sound(s);
        if let Some(targets) = read_cache(s) {
            assert(stores(s, targets));
        }
    }
}

/// Storing a list of targets and loading the text back gives the same
/// targets in the same order: same names, same addresses, same ports.
/// The list must hold at least one target, since a cache without targets
/// counts as no cache.
pub proof fn lemma_round_trip(targets: Seq<TargetView>)
    requires
        targets.len() > 0,
        all_storable(targets),
    ensures
        decode_cache(cache_text(targets)) == Some(targets),
{
    lemma_decode_is_read(cache_text(targets));
    lemma_read_text(targets);
}

/// Loading yields a list only from the text that stores exactly that
/// list, and the targets it yields are valid.
pub proof fn lemma_decode_sound(s: Seq<char>)
    ensures
        decode_cache(s) matches Some(targets) ==> stores(s, targets) && all_well_formed(targets),
        decode_cache(Seq::empty()) is None,
{
    lemma_decode_is_read(s);
    lemma_read_sound(s);
    lemma_decode_is_read(Seq::empty());
}

/// Writes the text that stores `targets`. Where the list holds at least
/// one target and all of them are valid, the text loads back as the same
/// list.
pub fn encode(targets: &Vec<Target>) -> (text: String)
    ensures
        text@ == cache_text(views(targets@)),
        targets.len() > 0 && all_well_formed(views(targets@)) ==> decode_cache(text@) == Some(
            views(targets@),
        ),
{
    let mut out: Vec<char> = Vec::new();
    let mut i: usize = 0;
    proof {
        assert(views(targets@).take(0) =~= Seq::<TargetView>::empty());
    }
    while i < targets.len()
        invariant
            i <= targets.len(),
            out@ == cache_text(views(targets@).take(i as int)),
            forall|k: int|
                0 <= k < i ==> (#[trigger] views(targets@)[k]).name.len() <= 0xffff_ffff_ffff_ffff,
        decreases targets.len() - i,
    {
        let ghost before = out@;
        let ghost target = targets@[i as int]@;
        let mut name = chars_of(targets[i].name.as_str());
        targets[i].address.write(&mut out);
        out.push(' ');
        write_numeral(targets[i].port as u64, &mut out);
        out.push(' ');
        write_numeral(name.len() as u64, &mut out);
        out.push(' ');
        out.append(&mut name);
        out.push('\n');
        proof {
            assert(out@ =~= before + entry_text(target));
            lemma_cache_text_push(views(targets@).take(i as int), target);
            assert(views(targets@).take(i as int).push(target) =~= views(targets@).take(i + 1));
        }
        i += 1;
    }
    assert(views(targets@).take(targets.len() as int) =~= views(targets@));
    let text = string_of(&out, 0, out.len());
    proof {
        assert(out@.subrange(0, out.len() as int) =~= out@);
        if targets.len() > 0 && all_well_formed(views(targets@)) {
            lemma_round_trip(views(targets@));
        }
    }
    text
}

/// Reads one record from the start of `chars[start..end]` and reports
/// where the text behind it starts.
fn decode_entry(chars: &Vec<char>, start: usize, end: usize) -> (entry: Option<(Target, usize)>)
    requires
        start <= end <= chars.len(),
    ensures
        match entry {
            Some((target, next)) => {
                &&& start < next <= end
                &&& read_entry(chars@.subrange(start as int, end as int)) == Some(
                    (target@, chars@.subrange(next as int, end as int)),
                )
            },
            None => read_entry(chars@.subrange(start as int, end as int)) is None,
        },
{
    let ghost s = chars@.subrange(start as int, end as int);
    proof {
        reveal(read_entry);
    }
    let space = find_char(chars, start, end, ' ');
    if space == end {
        return None;
    }
    assert(s.take(space - start) =~= chars@.subrange(start as int, space as int));
    assert(s.skip(space - start + 1) =~= chars@.subrange(space + 1, end as int));
    let address = match Ipv4Address::parse(chars, start, space) {
        Some(address) => address,
        None => { return None; },
    };
    let (port, after_port) = match read_field(chars, space + 1, end, ' ', 0xffff) {
        Some(field) => field,
        None => { return None; },
    };
    let (len, after_len) = match read_field(chars, after_port, end, ' ', 0xffff_ffff_ffff_ffff) {
        Some(field) => field,
        None => { return None; },
    };
    let ghost s3 = chars@.subrange(after_len as int, end as int);
    if len >= (end - after_len) as u64 {
        return None;
    }
    let name_end: usize = after_len + len as usize;
    if chars[name_end] != '\n' {
        assert(s3[len as int] == chars@[name_end as int]);
        return None;
    }
    assert(s3[len as int] == chars@[name_end as int]);
    assert(s3.take(len as int) =~= chars@.subrange(after_len as int, name_end as int));
    assert(s3.skip(len as int + 1) =~= chars@.subrange(name_end + 1, end as int));
    if port == 0 {
        return None;
    }
    let name = string_of(chars, after_len, name_end);
    Some((Target { name, address, port: port as u16 }, name_end + 1))
}

/// The targets read so far followed by those that the rest of the text
/// holds, if the rest can be read.
pub open spec fn continued(done: Seq<TargetView>, rest: Option<Seq<TargetView>>) -> Option<
    Seq<TargetView>,
> {
    match rest {
        Some(targets) => Some(done + targets),
        None => None,
    }
}

/// Reads the targets that `text` stores. A text that is damaged in any
/// way, or that stores no target at all, yields nothing.
pub fn decode(text: &str) -> (targets: Option<Vec<Target>>)
    ensures
        match targets {
            Some(found) => decode_cache(text@) == Some(views(found@)),
            None => decode_cache(text@) is None,
        },
        targets matches Some(found) ==> all_well_formed(views(found@)),
{
    proof {
        lemma_decode_is_read(text@);
        lemma_read_sound(text@);
    }
    let chars = chars_of(text);
    let end = chars.len();
    let mut found: Vec<Target> = Vec::new();
    let mut at: usize = 0;
    proof {
        assert(chars@.subrange(0, end as int) =~= chars@);
        assert(views(found@) =~= Seq::<TargetView>::empty());
        let all = read_entries(chars@);
        if all is Some {
            assert(Seq::<TargetView>::empty() + all->Some_0 =~= all->Some_0);
        }
    }
    while at < end
        invariant
            at <= end == chars.len(),
            chars@ == text@,
            decode_cache(text@) == read_cache(text@),
            read_entries(chars@) == continued(
                views(found@),
                read_entries(chars@.subrange(at as int, end as int)),
            ),
        decreases end - at,
    {
        let ghost done = views(found@);
        let ghost rest = chars@.subrange(at as int, end as int);
        match decode_entry(&chars, at, end) {
            None => { return None; },
            Some((target, next)) => {
                let ghost before = found@;
                found.push(target);
                proof {
                    lemma_views_push(before, found@.last());
                    let tail = read_entries(chars@.subrange(next as int, end as int));
                    if tail is Some {
                        assert(done + (seq![found@.last()@] + tail->Some_0) =~= done.push(
                            found@.last()@,
                        ) + tail->Some_0);
                    }
                }
                at = next;
            },
        }
    }
    proof {
        assert(chars@.subrange(at as int, end as int) =~= Seq::<char>::empty());
        assert(views(found@) + Seq::<TargetView>::empty() =~= views(found@));
    }
    if found.len() == 0 {
        None
    } else {
        Some(found)
    }
}

} // verus!
