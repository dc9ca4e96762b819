//! Selecting targets by a case-insensitive fragment of their name.

use crate::error::{ResolveError, ResolveErrorView};
use crate::order::{ordered_by_name, precedes};
use crate::target::{clone_targets, lemma_views_push, views, Target, TargetView};
use crate::text::chars_of;
use vstd::prelude::*;

verus! {

/// The lower-case form of an ASCII capital letter; any other character
/// is left as it is.
pub open spec fn fold_case(c: char) -> char {
    if 0x41 <= c as u32 <= 0x5a {
        (c as u32 + 0x20) as char
    } else {
        c
    }
}

/// `s` with every character folded by [`fold_case`].
pub open spec fn folded(s: Seq<char>) -> Seq<char> {
    s.map_values(|c: char| fold_case(c))
}

/// Whether `needle` stands in `hay` starting at position `at`.
pub open spec fn occurs_at(hay: Seq<char>, needle: Seq<char>, at: int) -> bool {
    &&& 0 <= at
    &&& at + needle.len() <= hay.len()
    &&& hay.subrange(at, at + needle.len()) == needle
}

/// Whether `needle` stands somewhere in `hay` as a contiguous run.
pub open spec fn occurs_in(hay: Seq<char>, needle: Seq<char>) -> bool {
    exists|at: int| occurs_at(hay, needle, at)
}

/// Whether `filter` selects a light called `name`: the filter, with case
/// ignored, is a contiguous part of the name.
pub open spec fn name_matches(name: Seq<char>, filter: Seq<char>) -> bool {
    occurs_in(folded(name), folded(filter))
}

/// The candidates that `filter` selects, in the order in which they stand
/// among the candidates.
pub open spec fn selected(candidates: Seq<TargetView>, filter: Seq<char>) -> Seq<TargetView> {
    candidates.filter(|t: TargetView| name_matches(t.name, filter))
}

/// What applying an optional name filter to a list of candidates yields:
/// without a filter the candidates themselves; with one the selected
/// candidates, or `NoMatch` when it selects none.
pub open spec fn selection(candidates: Seq<TargetView>, filter: Option<Seq<char>>) -> Result<
    Seq<TargetView>,
    ResolveErrorView,
> {
    match filter {
        None => Ok(candidates),
        Some(f) => if selected(candidates, f).len() == 0 {
            Err(ResolveErrorView::NoMatch(f))
        } else {
            Ok(selected(candidates, f))
        },
    }
}

/// A filter that matches no candidate's name fails with `NoMatch`,
/// however many candidates there are; one that matches some candidate
/// succeeds with a list that is not empty.
pub proof fn lemma_selection_no_match(candidates: Seq<TargetView>, filter: Seq<char>)
    ensures
        (forall|i: int|
            0 <= i < candidates.len() ==> !name_matches((#[trigger] candidates[i]).name, filter))
            <==> selection(candidates, Some(filter)) == Err::<Seq<TargetView>, ResolveErrorView>(
            ResolveErrorView::NoMatch(filter),
        ),
        selection(candidates, Some(filter)) matches Ok(chosen) ==> chosen.len() > 0,
{
    let pred = |t: TargetView| name_matches(t.name, filter);
    let chosen = candidates.filter(pred);
    if forall|i: int|
        0 <= i < candidates.len() ==> !name_matches((#[trigger] candidates[i]).name, filter) {
        if chosen.len() > 0 {
            candidates.lemma_filter_pred(pred, 0);
            assert(chosen.contains(chosen[0]));
            candidates.lemma_filter_contains_rev(pred, chosen[0]);
        }
    } else {
        let i = choose|i: int|
            0 <= i < candidates.len() && name_matches((#[trigger] candidates[i]).name, filter);
        assert(pred(candidates[i]));
        candidates.lemma_filter_contains(pred, i);
    }
}

/// Every selected target is one of the candidates and matches the
/// filter, and the selected targets keep the candidates' order.
pub proof fn lemma_selected_subsequence(candidates: Seq<TargetView>, filter: Seq<char>)
    ensures
        forall|i: int|
            0 <= i < selected(candidates, filter).len() ==> {
                &&& name_matches((#[trigger] selected(candidates, filter)[i]).name, filter)
                &&& candidates.contains(selected(candidates, filter)[i])
            },
        forall|i: int|
            0 <= i < candidates.len() && name_matches((#[trigger] candidates[i]).name, filter)
                ==> selected(candidates, filter).contains(candidates[i]),
{
    let pred = |t: TargetView| name_matches(t.name, filter);
    let chosen = selected(candidates, filter);
    assert forall|i: int| 0 <= i < chosen.len() implies {
        &&& name_matches((#[trigger] chosen[i]).name, filter)
        &&& candidates.contains(chosen[i])
    } by {
        candidates.lemma_filter_pred(pred, i);
        assert(chosen.contains(chosen[i]));
        candidates.lemma_filter_contains_rev(pred, chosen[i]);
    }
    assert forall|i: int|
        0 <= i < candidates.len() && name_matches(
            (#[trigger] candidates[i]).name,
            filter,
        ) implies chosen.contains(candidates[i]) by {
        assert(pred(candidates[i]));
        candidates.lemma_filter_contains(pred, i);
    }
}

/// Selecting from a list that is ordered by name yields a list that is
/// ordered by name.
pub proof fn lemma_selected_ordered(candidates: Seq<TargetView>, filter: Seq<char>)
    requires
        ordered_by_name(candidates),
    ensures
        ordered_by_name(selected(candidates, filter)),
    decreases candidates.len(),
{
    let pred = |t: TargetView| name_matches(t.name, filter);
    if candidates.len() == 0 {
        reveal(Seq::filter);
    } else {
        let head = candidates.drop_last();
        let last = candidates.last();
        assert(candidates =~= head.push(last));
        assert(ordered_by_name(head)) by {
            assert forall|i: int, j: int| 0 <= i < j < head.len() implies !precedes(
                (#[trigger] head[j]).name,
                (#[trigger] head[i]).name,
            ) by {
                assert(head[i] == candidates[i] && head[j] == candidates[j]);
            }
        }
        lemma_selected_ordered(head, filter);
        head.lemma_filter_push(last, pred);
        let chosen = head.filter(pred);
        if pred(last) {
            let whole = chosen.push(last);
            assert forall|i: int, j: int| 0 <= i < j < whole.len() implies !precedes(
                (#[trigger] whole[j]).name,
                (#[trigger] whole[i]).name,
            ) by {
                if j == chosen.len() {
                    assert(chosen.contains(chosen[i]));
                    head.lemma_filter_contains_rev(pred, chosen[i]);
                    let k = choose|k: int| 0 <= k < head.len() && head[k] == chosen[i];
                    assert(candidates[k] == head[k]);
                    assert(!precedes(
                        candidates[candidates.len() - 1].name,
                        candidates[k].name,
                    ));
                } else {
                    assert(whole[i] == chosen[i] && whole[j] == chosen[j]);
                }
            }
        }
    }
}

/// The empty filter selects every name.
pub proof fn lemma_empty_filter_matches(name: Seq<char>)
    ensures
        name_matches(name, Seq::empty()),
{
    assert(folded(Seq::<char>::empty()) =~= Seq::<char>::empty());
    assert(folded(name).subrange(0, 0) =~= Seq::<char>::empty());
    assert(occurs_at(folded(name), folded(Seq::empty()), 0));
}

/// A name is selected by any contiguous part of itself, whatever the
/// case of the letters in either.
pub proof fn lemma_fragment_matches(name: Seq<char>, from: int, to: int, filter: Seq<char>)
    requires
        0 <= from <= to <= name.len(),
        folded(filter) == folded(name.subrange(from, to)),
    ensures
        name_matches(name, filter),
{
    assert(folded(name).subrange(from, to) =~= folded(name.subrange(from, to)));
    assert(folded(filter).len() == to - from);
    assert(occurs_at(folded(name), folded(filter), from));
}

/// Folds one character.
pub fn fold_char(c: char) -> (low: char)
    ensures
        low == fold_case(c),
{
    let p: u32 = c as u32;
    if 0x41 <= p && p <= 0x5a {
        (p as u8 + 0x20) as char
    } else {
        c
    }
}

/// Folds every character of `chars`.
pub fn fold_chars(chars: &Vec<char>) -> (low: Vec<char>)
    ensures
        low@ == folded(chars@),
{
    let mut low: Vec<char> = Vec::new();
    let mut i: usize = 0;
    while i < chars.len()
        invariant
            i <= chars.len(),
            low@ == folded(chars@.take(i as int)),
        decreases chars.len() - i,
    {
        low.push(fold_char(chars[i]));
        i += 1;
        assert(low@ =~= folded(chars@.take(i as int)));
    }
    assert(chars@.take(chars.len() as int) =~= chars@);
    low
}

/// Whether `needle` stands in `hay` at position `at`.
fn occurs_here(hay: &Vec<char>, needle: &Vec<char>, at: usize) -> (here: bool)
    requires
        at + needle.len() <= hay.len(),
    ensures
        here == occurs_at(hay@, needle@, at as int),
{
    let mut j: usize = 0;
    while j < needle.len()
        invariant
            j <= needle.len(),
            at + needle.len() <= hay.len(),
            forall|k: int| 0 <= k < j ==> hay@[at + k] == needle@[k],
        decreases needle.len() - j,
    {
        if hay[at + j] != needle[j] {
            assert(hay@.subrange(at as int, at + needle.len())[j as int] != needle@[j as int]);
            return false;
        }
        j += 1;
    }
    assert(hay@.subrange(at as int, at + needle.len()) =~= needle@);
    true
}

/// Whether `needle` stands somewhere in `hay` as a contiguous run.
pub fn contains_run(hay: &Vec<char>, needle: &Vec<char>) -> (found: bool)
    ensures
        found == occurs_in(hay@, needle@),
{
    if needle.len() > hay.len() {
        return false;
    }
    let last: usize = hay.len() - needle.len();
    let mut at: usize = 0;
    loop
        invariant
            at <= last == hay.len() - needle.len(),
            forall|k: int| 0 <= k < at ==> !occurs_at(hay@, needle@, k),
        decreases last - at,
    {
        if occurs_here(hay, needle, at) {
            return true;
        }
        if at == last {
            return false;
        }
        at += 1;
    }
}

/// Whether the filter selects a light of the given name.
pub fn matches_name(name: &str, filter: &str) -> (selects: bool)
    ensures
        selects == name_matches(name@, filter@),
{
    let hay = fold_chars(&chars_of(name));
    let needle = fold_chars(&chars_of(filter));
    contains_run(&hay, &needle)
}

/// Applies an optional name filter to a list of candidates.
pub fn select(candidates: &Vec<Target>, filter: Option<&str>) -> (chosen: Result<
    Vec<Target>,
    ResolveError,
>)
    ensures
        match chosen {
            Ok(targets) => selection(
                views(candidates@),
                match filter {
                    Some(f) => Some(f@),
                    None => None,
                },
            ) == Ok::<Seq<TargetView>, ResolveErrorView>(views(targets@)),
            Err(e) => selection(
                views(candidates@),
                match filter {
                    Some(f) => Some(f@),
                    None => None,
                },
            ) == Err::<Seq<TargetView>, ResolveErrorView>(e@),
        },
{
    let f = match filter {
        None => { return Ok(clone_targets(candidates)); },
        Some(f) => f,
    };
    let needle = fold_chars(&chars_of(f));
    let ghost pred = |t: TargetView| name_matches(t.name, f@);
    let mut chosen: Vec<Target> = Vec::new();
    let mut i: usize = 0;
    proof {
        assert(views(candidates@).take(0) =~= Seq::<TargetView>::empty());
        assert(views(chosen@) =~= Seq::<TargetView>::empty());
        reveal(Seq::filter);
    }
    while i < candidates.len()
        invariant
            i <= candidates.len(),
            needle@ == folded(f@),
            pred == |t: TargetView| name_matches(t.name, f@),
            views(chosen@) == views(candidates@).take(i as int).filter(pred),
        decreases candidates.len() - i,
    {
        let hay = fold_chars(&chars_of(candidates[i].name.as_str()));
        let ghost head = views(candidates@).take(i as int);
        proof {
            head.lemma_filter_push(candidates@[i as int]@, pred);
            assert(head.push(candidates@[i as int]@) =~= views(candidates@).take(i + 1));
        }
        if contains_run(&hay, &needle) {
            let ghost before = chosen@;
            chosen.push(candidates[i].clone());
            proof {
                lemma_views_push(before, chosen@.last());
            }
        }
        i += 1;
    }
    assert(views(candidates@).take(candidates.len() as int) =~= views(candidates@));
    if chosen.len() == 0 {
        Err(ResolveError::NoMatch(f.to_owned()))
    } else {
        Ok(chosen)
    }
}

} // verus!
