//! Targets named directly by a comma-separated list of IPv4 addresses.

use crate::address::{lemma_parse_text, parse_address, Ipv4Address};
use crate::error::{ResolveError, ResolveErrorView};
use crate::target::{
    all_well_formed, explicit_target, lemma_views_push, views, Target, TargetView, DEFAULT_PORT,
};
use crate::text::{chars_of, find, find_char, string_of, trim, trim_range};
use vstd::prelude::*;

verus! {

/// The pieces of `s` between occurrences of `sep`. There is always at
/// least one piece, and pieces may be empty.
pub open spec fn split(s: Seq<char>, sep: char) -> Seq<Seq<char>>
    decreases s.len(),
{
    let p = find(s, sep) as int;
    if p >= s.len() {
        seq![s]
    } else {
        seq![s.take(p)] + split(s.skip(p + 1), sep)
    }
}

/// The address that a token of the list denotes once the white space
/// around it is removed.
pub open spec fn token_address(token: Seq<char>) -> Option<Ipv4Address> {
    parse_address(trim(token))
}

/// The outcome of resolving the tokens one by one, left to right: the
/// explicit target of each, or the first token that is no address.
pub open spec fn explicit_targets(tokens: Seq<Seq<char>>) -> Result<
    Seq<TargetView>,
    ResolveErrorView,
>
    decreases tokens.len(),
{
    if tokens.len() == 0 {
        Ok(Seq::empty())
    } else {
        match explicit_targets(tokens.drop_last()) {
            Err(e) => Err(e),
            Ok(targets) => match token_address(tokens.last()) {
                None => Err(ResolveErrorView::InvalidAddress(trim(tokens.last()))),
                Some(address) => Ok(targets.push(explicit_target(address))),
            },
        }
    }
}

/// The outcome of resolving a comma-separated address list.
pub open spec fn explicit_resolution(list: Seq<char>) -> Result<Seq<TargetView>, ResolveErrorView> {
    explicit_targets(split(list, ','))
}

/// Splitting always yields at least one piece.
pub proof fn lemma_split_not_empty(s: Seq<char>, sep: char)
    ensures
        split(s, sep).len() > 0,
{
}

/// A resolution that succeeds yields one target per token.
pub proof fn lemma_explicit_len(tokens: Seq<Seq<char>>)
    ensures
        explicit_targets(tokens) matches Ok(targets) ==> targets.len() == tokens.len(),
    decreases tokens.len(),
{
    if tokens.len() > 0 {
        lemma_explicit_len(tokens.drop_last());
    }
}

/// The targets of a resolution that succeeds are valid.
pub proof fn lemma_explicit_valid(tokens: Seq<Seq<char>>)
    ensures
        explicit_targets(tokens) matches Ok(targets) ==> all_well_formed(targets),
    decreases tokens.len(),
{
    if tokens.len() > 0 {
        lemma_explicit_valid(tokens.drop_last());
        if let Ok(targets) = explicit_targets(tokens) {
            let head = explicit_targets(tokens.drop_last())->Ok_0;
            assert forall|i: int| 0 <= i < targets.len() implies (
            #[trigger] targets[i]).well_formed() by {
                if i < head.len() {
                    assert(targets[i] == head[i]);
                }
            }
        }
    }
}

/// When every token is an address, resolution succeeds with one target
/// per token, in the order of the tokens; each target sits at the default
/// port and carries the text of its own address, which is the trimmed
/// token, as its name.
pub proof fn lemma_explicit_all_valid(tokens: Seq<Seq<char>>)
    requires
        forall|i: int| 0 <= i < tokens.len() ==> token_address(#[trigger] tokens[i]) is Some,
    ensures
        explicit_targets(tokens) is Ok,
        explicit_targets(tokens)->Ok_0.len() == tokens.len(),
        forall|i: int|
            0 <= i < tokens.len() ==> {
                let target = #[trigger] explicit_targets(tokens)->Ok_0[i];
                &&& token_address(tokens[i]) == Some(target.address)
                &&& target.name == trim(tokens[i])
                &&& target.port == DEFAULT_PORT
                &&& target.well_formed()
            },
    decreases tokens.len(),
{
    if tokens.len() > 0 {
        let head = tokens.drop_last();
        assert forall|i: int| 0 <= i < head.len() implies token_address(#[trigger] head[i])
            is Some by {
            assert(head[i] == tokens[i]);
        }
        lemma_explicit_all_valid(head);
        let address = token_address(tokens.last())->Some_0;
        lemma_parse_text(address, trim(tokens.last()));
        assert forall|i: int| 0 <= i < tokens.len() implies {
            let target = #[trigger] explicit_targets(tokens)->Ok_0[i];
            &&& token_address(tokens[i]) == Some(target.address)
            &&& target.name == trim(tokens[i])
            &&& target.port == DEFAULT_PORT
            &&& target.well_formed()
        } by {
            if i < head.len() {
                assert(head[i] == tokens[i]);
                assert(explicit_targets(tokens)->Ok_0[i] == explicit_targets(head)->Ok_0[i]);
            }
        }
    }
}

/// When some token is no address, resolution fails as a whole and names
/// the first such token, trimmed.
pub proof fn lemma_explicit_first_invalid(tokens: Seq<Seq<char>>, k: int)
    requires
        0 <= k < tokens.len(),
        token_address(tokens[k]) is None,
        forall|i: int| 0 <= i < k ==> token_address(#[trigger] tokens[i]) is Some,
    ensures
        explicit_targets(tokens) == Err::<Seq<TargetView>, ResolveErrorView>(
            ResolveErrorView::InvalidAddress(trim(tokens[k])),
        ),
    decreases tokens.len(),
{
    let head = tokens.drop_last();
    if k == tokens.len() - 1 {
        assert forall|i: int| 0 <= i < head.len() implies token_address(#[trigger] head[i])
            is Some by {
            assert(head[i] == tokens[i]);
        }
        lemma_explicit_all_valid(head);
    } else {
        assert(head[k] == tokens[k]);
        assert forall|i: int| 0 <= i < k implies token_address(#[trigger] head[i]) is Some by {
            assert(head[i] == tokens[i]);
        }
        lemma_explicit_first_invalid(head, k);
    }
}

/// Once a run of tokens has failed, tokens that follow do not change the
/// outcome.
proof fn lemma_explicit_error_stays(tokens: Seq<Seq<char>>, more: Seq<Seq<char>>)
    requires
        explicit_targets(tokens) is Err,
    ensures
        explicit_targets(tokens + more) == explicit_targets(tokens),
    decreases more.len(),
{
    if more.len() == 0 {
        assert(tokens + more =~= tokens);
    } else {
        lemma_explicit_error_stays(tokens, more.drop_last());
        assert((tokens + more).drop_last() =~= tokens + more.drop_last());
    }
}

/// Resolves a comma-separated list of IPv4 addresses. White space around
/// a token is ignored. One token that is no address fails the whole list.
pub fn resolve_explicit(list: &str) -> (resolved: Result<Vec<Target>, ResolveError>)
    ensures
        match resolved {
            Ok(targets) => explicit_resolution(list@) == Ok::<Seq<TargetView>, ResolveErrorView>(
                views(targets@),
            ),
            Err(e) => explicit_resolution(list@) == Err::<Seq<TargetView>, ResolveErrorView>(e@),
        },
        resolved matches Ok(targets) ==> all_well_formed(views(targets@)),
{
    let chars = chars_of(list);
    let end = chars.len();
    let mut targets: Vec<Target> = Vec::new();
    let mut start: usize = 0;
    let ghost mut seen: Seq<Seq<char>> = Seq::empty();
    proof {
        assert(chars@.subrange(0, end as int) =~= chars@);
        assert(seen + split(chars@, ',') =~= split(chars@, ','));
        assert(views(targets@) =~= Seq::<TargetView>::empty());
    }
    loop
        invariant
            start <= end == chars.len(),
            chars@ == list@,
            split(chars@, ',') == seen + split(chars@.subrange(start as int, end as int), ','),
            explicit_targets(seen) == Ok::<Seq<TargetView>, ResolveErrorView>(views(targets@)),
        decreases end - start,
    {
        let ghost rest = chars@.subrange(start as int, end as int);
        let stop = find_char(&chars, start, end, ',');
        let ghost token = chars@.subrange(start as int, stop as int);
        assert(token =~= rest.take(stop - start));
        let (low, high) = trim_range(&chars, start, stop);
        let ghost grown = seen.push(token);
        assert(grown.drop_last() =~= seen);
        match Ipv4Address::parse(&chars, low, high) {
            None => {
                let token_text = string_of(&chars, low, high);
                proof {
                    if stop < end {
                        assert(seen + (seq![token] + split(rest.skip(stop - start + 1), ','))
                            =~= grown + split(rest.skip(stop - start + 1), ','));
                        lemma_explicit_error_stays(
                            grown,
                            split(rest.skip(stop - start + 1), ','),
                        );
                    } else {
                        assert(seen + seq![token] =~= grown);
                    }
                }
                return Err(ResolveError::InvalidAddress(token_text));
            },
            Some(address) => {
                let ghost before = targets@;
                targets.push(Target::explicit(address));
                proof {
                    lemma_views_push(before, targets@.last());
                }
            },
        }
        if stop == end {
            proof {
                assert(seen + seq![token] =~= grown);
                lemma_explicit_valid(grown);
            }
            return Ok(targets);
        }
        proof {
            assert(rest.skip(stop - start + 1) =~= chars@.subrange(stop + 1, end as int));
            assert(seen + (seq![token] + split(rest.skip(stop - start + 1), ',')) =~= grown
                + split(rest.skip(stop - start + 1), ','));
            seen = grown;
        }
        start = stop + 1;
    }
}

} // verus!
