//! Deciding which lights a request acts on.
//!
//! Resolution may need the stored cache and a search of the network,
//! which are the caller's to perform. It therefore proceeds in steps:
//! each step says what the caller has to do next, and the caller reports
//! back what came of it.

use crate::address::{address_text, lemma_parse_text};
use crate::discovery::Capability;
use crate::error::{DiscoveryError, ResolveError, ResolveErrorView};
use crate::explicit::{
    explicit_resolution, explicit_targets, lemma_explicit_all_valid, lemma_explicit_len,
    lemma_explicit_valid, lemma_split_not_empty, resolve_explicit, split, token_address,
};
use crate::filter::{
    lemma_selected_ordered, lemma_selected_subsequence, lemma_selection_no_match, name_matches,
    select, selection,
};
use crate::order::{
    lemma_sorted_by_name, lemma_sorted_is_fixed, lemma_sorted_same_targets, ordered_by_name,
    sort_by_name, sorted_by_name,
};
use crate::target::{all_well_formed, views, Target, TargetView, DEFAULT_PORT};
use crate::text::trim;
use vstd::prelude::*;

verus! {

/// What the user asked to act on.
#[derive(Debug)]
pub struct Request {
    /// A comma-separated list of IPv4 addresses, if given.
    pub addresses: Option<String>,
    /// A fragment that the names of the wanted lights contain, if given.
    pub name_filter: Option<String>,
    /// How many seconds a search of the network may take.
    pub timeout_secs: u64,
}

/// The mathematical content of a [`Request`].
pub ghost struct RequestView {
    pub addresses: Option<Seq<char>>,
    pub name_filter: Option<Seq<char>>,
    pub timeout_secs: u64,
}

impl View for Request {
    type V = RequestView;

    open spec fn view(&self) -> RequestView {
        RequestView {
            addresses: match self.addresses {
                Some(list) => Some(list@),
                None => None,
            },
            name_filter: match self.name_filter {
                Some(filter) => Some(filter@),
                None => None,
            },
            timeout_secs: self.timeout_secs,
        }
    }
}

/// The outcome of a resolution, as mathematical content.
pub type Resolved = Result<Seq<TargetView>, ResolveErrorView>;

/// The content of an executable outcome.
pub open spec fn outcome_view(outcome: Result<Vec<Target>, ResolveError>) -> Resolved {
    match outcome {
        Ok(targets) => Ok(views(targets@)),
        Err(e) => Err(e@),
    }
}

/// What the caller has to do next.
#[derive(Debug)]
pub enum Step {
    /// Nothing: resolution has ended with this outcome.
    Done(Result<Vec<Target>, ResolveError>),
    /// Load the stored cache and report it with [`Request::after_cache`].
    LoadCache,
    /// Search the network for this many seconds and report the outcome
    /// with [`Request::after_discovery`].
    Discover { timeout_secs: u64 },
    /// Store `targets` in the cache; resolution then ends with `outcome`.
    Persist { targets: Vec<Target>, outcome: Result<Vec<Target>, ResolveError> },
}

/// The mathematical content of a [`Step`].
pub ghost enum StepView {
    Done(Resolved),
    LoadCache,
    Discover { timeout_secs: u64 },
    Persist { targets: Seq<TargetView>, outcome: Resolved },
}

impl View for Step {
    type V = StepView;

    open spec fn view(&self) -> StepView {
        match self {
            Step::Done(outcome) => StepView::Done(outcome_view(*outcome)),
            Step::LoadCache => StepView::LoadCache,
            Step::Discover { timeout_secs } => StepView::Discover { timeout_secs: *timeout_secs },
            Step::Persist { targets, outcome } => StepView::Persist {
                targets: views(targets@),
                outcome: outcome_view(*outcome),
            },
        }
    }
}

/// The outcome that the request alone decides, if it does: a conflict
/// when both selectors are given, else the explicit addresses when they
/// are given. Otherwise candidates are needed.
pub open spec fn direct_outcome(request: RequestView) -> Option<Resolved> {
    match request.addresses {
        Some(list) => if request.name_filter is Some {
            Some(Err(ResolveErrorView::SelectorConflict))
        } else {
            Some(explicit_resolution(list))
        },
        None => None,
    }
}

/// The outcome for a request that needs candidates, given those
/// candidates: they are put in order by name and the name filter, if any,
/// is applied.
pub open spec fn candidate_outcome(request: RequestView, found: Seq<TargetView>) -> Resolved {
    selection(sorted_by_name(found), request.name_filter)
}

/// The first step of a resolution.
pub open spec fn first_step(request: RequestView) -> StepView {
    match direct_outcome(request) {
        Some(outcome) => StepView::Done(outcome),
        None => StepView::LoadCache,
    }
}

/// The step that follows loading the cache. A cache that holds targets
/// is trusted as it is. Without one the network is searched, where the
/// platform can do so.
pub open spec fn step_after_cache(
    request: RequestView,
    capability: Capability,
    cached: Option<Seq<TargetView>>,
) -> StepView {
    match direct_outcome(request) {
        Some(outcome) => StepView::Done(outcome),
        None => match cached {
            Some(targets) if targets.len() > 0 => StepView::Done(
                candidate_outcome(request, targets),
            ),
            _ => match capability {
                Capability::Available => StepView::Discover { timeout_secs: request.timeout_secs },
                Capability::Unsupported => StepView::Done(
                    Err(ResolveErrorView::Discovery(DiscoveryError::Unsupported)),
                ),
            },
        },
    }
}

/// The step that follows a search of the network. What was found is
/// stored before the outcome is used; a failed search is passed on as it
/// is, and a search that claims success without a target counts as one
/// that found none.
pub open spec fn step_after_discovery(
    request: RequestView,
    searched: Result<Seq<TargetView>, DiscoveryError>,
) -> StepView {
    match direct_outcome(request) {
        Some(outcome) => StepView::Done(outcome),
        None => match searched {
            Err(e) => StepView::Done(Err(ResolveErrorView::Discovery(e))),
            Ok(found) => if found.len() == 0 {
                StepView::Done(
                    Err(
                        ResolveErrorView::Discovery(
                            DiscoveryError::NoneFound { timeout_secs: request.timeout_secs },
                        ),
                    ),
                )
            } else {
                StepView::Persist {
                    targets: sorted_by_name(found),
                    outcome: candidate_outcome(request, found),
                }
            },
        },
    }
}

/// The outcome of a whole resolution, given what the cache holds and
/// what a search of the network would yield. The cache is used only when
/// the request does not decide the outcome alone, and the network only
/// when the cache holds nothing and the platform can search.
pub open spec fn resolution(
    request: RequestView,
    capability: Capability,
    cached: Option<Seq<TargetView>>,
    searched: Result<Seq<TargetView>, DiscoveryError>,
) -> Resolved {
    match direct_outcome(request) {
        Some(outcome) => outcome,
        None => match cached {
            Some(targets) if targets.len() > 0 => candidate_outcome(request, targets),
            _ => match capability {
                Capability::Unsupported => Err(
                    ResolveErrorView::Discovery(DiscoveryError::Unsupported),
                ),
                Capability::Available => match searched {
                    Err(e) => Err(ResolveErrorView::Discovery(e)),
                    Ok(found) => if found.len() == 0 {
                        Err(
                            ResolveErrorView::Discovery(
                                DiscoveryError::NoneFound { timeout_secs: request.timeout_secs },
                            ),
                        )
                    } else {
                        candidate_outcome(request, found)
                    },
                },
            },
        },
    }
}

/// Taking the steps one after the other arrives at the outcome of the
/// whole resolution. The first step ends the resolution or asks for the
/// cache; the step after the cache ends it or asks for a search with the
/// timeout of the request; the step after the search ends it, and where
/// the search found targets it has them stored, ordered by name, first.
pub proof fn lemma_steps_resolve(
    request: RequestView,
    capability: Capability,
    cached: Option<Seq<TargetView>>,
    searched: Result<Seq<TargetView>, DiscoveryError>,
)
    ensures
        match first_step(request) {
            StepView::Done(outcome) => outcome == resolution(
                request,
                capability,
                cached,
                searched,
            ),
            StepView::LoadCache => match step_after_cache(request, capability, cached) {
                StepView::Done(outcome) => outcome == resolution(
                    request,
                    capability,
                    cached,
                    searched,
                ),
                StepView::Discover { timeout_secs } => {
                    &&& timeout_secs == request.timeout_secs
                    &&& match step_after_discovery(request, searched) {
                        StepView::Done(outcome) => outcome == resolution(
                            request,
                            capability,
                            cached,
                            searched,
                        ),
                        StepView::Persist { targets, outcome } => {
                            &&& outcome == resolution(request, capability, cached, searched)
                            &&& searched matches Ok(found) && targets == sorted_by_name(found)
                        },
                        _ => false,
                    }
                },
                _ => false,
            },
            _ => false,
        },
{
}

/// A cache that was stored after a search leads, when it is loaded in a
/// later run, to the outcome that the search led to, without another
/// search.
pub proof fn lemma_stored_search_is_reused(
    request: RequestView,
    capability: Capability,
    found: Seq<TargetView>,
)
    requires
        step_after_discovery(request, Ok(found)) is Persist,
    ensures
        step_after_cache(
            request,
            capability,
            Some(step_after_discovery(request, Ok(found))->Persist_targets),
        ) == StepView::Done(step_after_discovery(request, Ok(found))->Persist_outcome),
{
    lemma_sorted_by_name(found);
    lemma_sorted_is_fixed(sorted_by_name(found));
}

/// A request that gives both explicit addresses and a name filter fails
/// with `SelectorConflict` at every step and as a whole, whatever the
/// addresses, the filter, the cache and the network hold.
pub proof fn lemma_selector_conflict(
    request: RequestView,
    capability: Capability,
    cached: Option<Seq<TargetView>>,
    searched: Result<Seq<TargetView>, DiscoveryError>,
)
    requires
        request.addresses is Some,
        request.name_filter is Some,
    ensures
        first_step(request) == StepView::Done(Err(ResolveErrorView::SelectorConflict)),
        step_after_cache(request, capability, cached) == StepView::Done(
            Err(ResolveErrorView::SelectorConflict),
        ),
        step_after_discovery(request, searched) == StepView::Done(
            Err(ResolveErrorView::SelectorConflict),
        ),
        resolution(request, capability, cached, searched) == Err::<
            Seq<TargetView>,
            ResolveErrorView,
        >(ResolveErrorView::SelectorConflict),
{
}

/// A request that gives explicit addresses, all of them valid, and no
/// name filter resolves at once, without the cache or the network: to
/// one target per token, in the order of the tokens, each at the default
/// port and named by the text of its own address.
pub proof fn lemma_explicit_request(
    request: RequestView,
    capability: Capability,
    cached: Option<Seq<TargetView>>,
    searched: Result<Seq<TargetView>, DiscoveryError>,
)
    requires
        request.addresses is Some,
        request.name_filter is None,
        forall|i: int|
            0 <= i < split(request.addresses->Some_0, ',').len() ==> token_address(
                #[trigger] split(request.addresses->Some_0, ',')[i],
            ) is Some,
    ensures
        first_step(request) == StepView::Done(resolution(request, capability, cached, searched)),
        resolution(request, capability, cached, searched) matches Ok(targets) && {
            let tokens = split(request.addresses->Some_0, ',');
            &&& targets.len() == tokens.len()
            &&& forall|i: int|
                0 <= i < tokens.len() ==> {
                    let address = token_address(tokens[i])->Some_0;
                    &&& (#[trigger] targets[i]).address == address
                    &&& targets[i].name == address_text(address)
                    &&& targets[i].name == trim(tokens[i])
                    &&& targets[i].port == DEFAULT_PORT
                }
        },
{
    let tokens = split(request.addresses->Some_0, ',');
    lemma_explicit_all_valid(tokens);
    let targets = explicit_targets(tokens)->Ok_0;
    assert forall|i: int| 0 <= i < tokens.len() implies {
        let address = token_address(tokens[i])->Some_0;
        &&& (#[trigger] targets[i]).address == address
        &&& targets[i].name == address_text(address)
        &&& targets[i].name == trim(tokens[i])
        &&& targets[i].port == DEFAULT_PORT
    } by {
        lemma_parse_text(token_address(tokens[i])->Some_0, trim(tokens[i]));
    }
}

/// A name filter that matches none of the candidates fails with
/// `NoMatch`, however many candidates the cache or the network gave.
pub proof fn lemma_filter_without_match(request: RequestView, found: Seq<TargetView>)
    requires
        request.name_filter is Some,
        forall|i: int|
            0 <= i < found.len() ==> !name_matches(
                (#[trigger] found[i]).name,
                request.name_filter->Some_0,
            ),
    ensures
        candidate_outcome(request, found) == Err::<Seq<TargetView>, ResolveErrorView>(
            ResolveErrorView::NoMatch(request.name_filter->Some_0),
        ),
{
    let filter = request.name_filter->Some_0;
    let sorted = sorted_by_name(found);
    lemma_sorted_same_targets(found);
    assert forall|i: int| 0 <= i < sorted.len() implies !name_matches(
        (#[trigger] sorted[i]).name,
        filter,
    ) by {
        let k = choose|k: int| 0 <= k < found.len() && found[k] == sorted[i];
        assert(!name_matches(found[k].name, filter));
    }
    lemma_selection_no_match(sorted, filter);
}

/// A name filter that matches none of the cached names fails the whole
/// resolution with `NoMatch`, although the cache holds targets, and no
/// search is made.
pub proof fn lemma_no_match_on_cache(
    request: RequestView,
    capability: Capability,
    cached: Seq<TargetView>,
    searched: Result<Seq<TargetView>, DiscoveryError>,
)
    requires
        request.addresses is None,
        request.name_filter is Some,
        cached.len() > 0,
        forall|i: int|
            0 <= i < cached.len() ==> !name_matches(
                (#[trigger] cached[i]).name,
                request.name_filter->Some_0,
            ),
    ensures
        step_after_cache(request, capability, Some(cached)) == StepView::Done(
            Err(ResolveErrorView::NoMatch(request.name_filter->Some_0)),
        ),
        resolution(request, capability, Some(cached), searched) == Err::<
            Seq<TargetView>,
            ResolveErrorView,
        >(ResolveErrorView::NoMatch(request.name_filter->Some_0)),
{
    lemma_filter_without_match(request, cached);
}

/// A resolution that takes its candidates from the cache or the network
/// and succeeds yields at least one target; the targets are ordered by
/// name, each of them is one of the candidates, and each matches the name
/// filter if there is one.
pub proof fn lemma_candidate_outcome(request: RequestView, found: Seq<TargetView>)
    requires
        found.len() > 0,
    ensures
        candidate_outcome(request, found) matches Ok(targets) ==> {
            &&& targets.len() > 0
            &&& ordered_by_name(targets)
            &&& forall|i: int| 0 <= i < targets.len() ==> found.contains(#[trigger] targets[i])
            &&& request.name_filter matches Some(filter) ==> forall|i: int|
                0 <= i < targets.len() ==> name_matches((#[trigger] targets[i]).name, filter)
        },
        request.name_filter is None ==> candidate_outcome(request, found) == Ok::<
            Seq<TargetView>,
            ResolveErrorView,
        >(sorted_by_name(found)),
{
    let sorted = sorted_by_name(found);
    lemma_sorted_by_name(found);
    lemma_sorted_same_targets(found);
    if let Some(filter) = request.name_filter {
        lemma_selection_no_match(sorted, filter);
        lemma_selected_ordered(sorted, filter);
        lemma_selected_subsequence(sorted, filter);
        if let Ok(targets) = candidate_outcome(request, found) {
            assert forall|i: int| 0 <= i < targets.len() implies found.contains(
                #[trigger] targets[i],
            ) by {
                let k = choose|k: int| 0 <= k < sorted.len() && sorted[k] == targets[i];
                assert(found.contains(sorted[k]));
            }
        }
    }
}

/// A resolution that takes its candidates from valid targets yields
/// valid targets.
pub proof fn lemma_candidate_outcome_valid(request: RequestView, found: Seq<TargetView>)
    requires
        found.len() > 0,
        all_well_formed(found),
    ensures
        candidate_outcome(request, found) matches Ok(targets) ==> all_well_formed(targets),
{
    lemma_candidate_outcome(request, found);
    if let Ok(targets) = candidate_outcome(request, found) {
        assert forall|i: int| 0 <= i < targets.len() implies (
            #[trigger] targets[i]).well_formed() by {
            let k = choose|k: int| 0 <= k < found.len() && found[k] == targets[i];
            assert(found[k].well_formed());
        }
    }
}

/// Every successful resolution yields valid targets, provided that what
/// the cache and the network gave was valid. Without explicit addresses
/// the targets are also ordered by name.
pub proof fn lemma_resolution_valid(
    request: RequestView,
    capability: Capability,
    cached: Option<Seq<TargetView>>,
    searched: Result<Seq<TargetView>, DiscoveryError>,
)
    requires
        cached matches Some(targets) ==> all_well_formed(targets),
        searched matches Ok(targets) ==> all_well_formed(targets),
    ensures
        resolution(request, capability, cached, searched) matches Ok(targets) ==> {
            &&& all_well_formed(targets)
            &&& request.addresses is None ==> ordered_by_name(targets)
        },
{
    match request.addresses {
        Some(list) => {
            if request.name_filter is None {
                lemma_explicit_valid(split(list, ','));
            }
        },
        None => {
            match cached {
                Some(targets) if targets.len() > 0 => {
                    lemma_candidate_outcome(request, targets);
                    lemma_candidate_outcome_valid(request, targets);
                },
                _ => {
                    if let Ok(found) = searched {
                        if found.len() > 0 {
                            lemma_candidate_outcome(request, found);
                            lemma_candidate_outcome_valid(request, found);
                        }
                    }
                },
            }
        },
    }
}

/// Every successful resolution yields at least one target.
pub proof fn lemma_resolution_not_empty(
    request: RequestView,
    capability: Capability,
    cached: Option<Seq<TargetView>>,
    searched: Result<Seq<TargetView>, DiscoveryError>,
)
    ensures
        resolution(request, capability, cached, searched) matches Ok(targets) ==> targets.len()
            > 0,
{
    match request.addresses {
        Some(list) => {
            if request.name_filter is None {
                lemma_split_not_empty(list, ',');
                lemma_explicit_len(split(list, ','));
            }
        },
        None => {
            match cached {
                Some(targets) if targets.len() > 0 => {
                    lemma_candidate_outcome(request, targets);
                },
                _ => {
                    if let Ok(found) = searched {
                        if found.len() > 0 {
                            lemma_candidate_outcome(request, found);
                        }
                    }
                },
            }
        },
    }
}

impl Request {
    /// The first step of resolving this request.
    pub fn start(&self) -> (step: Step)
        ensures
            step@ == first_step(self@),
    {
        match self.direct() {
            Some(outcome) => Step::Done(outcome),
            None => Step::LoadCache,
        }
    }

    /// The step that follows loading the cache, where `cached` is what
    /// the cache held, if anything, and `capability` says whether this
    /// platform can search the network.
    pub fn after_cache(&self, capability: Capability, cached: Option<Vec<Target>>) -> (step: Step)
        ensures
            step@ == step_after_cache(
                self@,
                capability,
                match cached {
                    Some(targets) => Some(views(targets@)),
                    None => None,
                },
            ),
    {
        if let Some(outcome) = self.direct() {
            return Step::Done(outcome);
        }
        match cached {
            Some(targets) if targets.len() > 0 => Step::Done(self.choose_from(&targets)),
            _ => match capability {
                Capability::Available => Step::Discover { timeout_secs: self.timeout_secs },
                Capability::Unsupported => Step::Done(
                    Err(ResolveError::Discovery(DiscoveryError::Unsupported)),
                ),
            },
        }
    }

    /// The step that follows a search of the network, where `searched`
    /// is the outcome of that search.
    pub fn after_discovery(&self, searched: Result<Vec<Target>, DiscoveryError>) -> (step: Step)
        ensures
            step@ == step_after_discovery(
                self@,
                match searched {
                    Ok(targets) => Ok(views(targets@)),
                    Err(e) => Err(e),
                },
            ),
    {
        if let Some(outcome) = self.direct() {
            return Step::Done(outcome);
        }
        match searched {
            Err(e) => Step::Done(Err(ResolveError::Discovery(e))),
            Ok(found) => {
                if found.len() == 0 {
                    Step::Done(
                        Err(
                            ResolveError::Discovery(
                                DiscoveryError::NoneFound { timeout_secs: self.timeout_secs },
                            ),
                        ),
                    )
                } else {
                    let outcome = self.choose_from(&found);
                    Step::Persist { targets: sort_by_name(&found), outcome }
                }
            },
        }
    }

    /// The outcome that this request alone decides, if it does.
    fn direct(&self) -> (outcome: Option<Result<Vec<Target>, ResolveError>>)
        ensures
            match outcome {
                Some(decided) => direct_outcome(self@) == Some(outcome_view(decided)),
                None => direct_outcome(self@) is None,
            },
    {
        match &self.addresses {
            Some(list) => {
                if self.name_filter.is_some() {
                    Some(Err(ResolveError::SelectorConflict))
                } else {
                    Some(resolve_explicit(list.as_str()))
                }
            },
            None => None,
        }
    }

    /// Orders the candidates by name and applies the name filter.
    fn choose_from(&self, found: &Vec<Target>) -> (outcome: Result<Vec<Target>, ResolveError>)
        ensures
            outcome_view(outcome) == candidate_outcome(self@, views(found@)),
    {
        let ordered = sort_by_name(found);
        match &self.name_filter {
            Some(filter) => select(&ordered, Some(filter.as_str())),
            None => select(&ordered, None),
        }
    }
}

} // verus!
