//! Turning service advertisements seen on the network into targets.
//!
//! Browsing the network is the caller's business. What was seen within
//! the time window is handed over as a list of advertisements; this
//! module decides which of them are lights that can be reached, what
//! they are called, and what the outcome of the whole search is.

use crate::address::Ipv4Address;
use crate::error::DiscoveryError;
use crate::order::{
    lemma_sorted_by_name, lemma_sorted_same_targets, ordered_by_name, sort_by_name,
    sorted_by_name,
};
use crate::target::{all_well_formed, lemma_views_push, views, Target, TargetView};
use crate::text::{chars_of, string_of};
use vstd::prelude::*;

verus! {

/// The service type under which lights advertise themselves, as it ends
/// the full name of each advertised instance.
pub open spec fn service_suffix() -> Seq<char> {
    "._elg._tcp.local."@
}

/// Whether `s` ends with `suffix`.
pub open spec fn ends_with(s: Seq<char>, suffix: Seq<char>) -> bool {
    s.len() >= suffix.len() && s.skip(s.len() - suffix.len()) == suffix
}

/// The name of a light as its owner chose it: the full instance name
/// without the service type at its end.
pub open spec fn instance_name(full: Seq<char>) -> Seq<char> {
    if ends_with(full, service_suffix()) {
        full.take(full.len() - service_suffix().len())
    } else {
        full
    }
}

/// The first address of the list at which a light can be reached.
pub open spec fn first_usable(addresses: Seq<Ipv4Address>) -> Option<Ipv4Address>
    decreases addresses.len(),
{
    if addresses.len() == 0 {
        None
    } else if addresses.first().is_usable() {
        Some(addresses.first())
    } else {
        first_usable(addresses.drop_first())
    }
}

/// Whether this platform can search the network for lights.
#[derive(Clone, Copy, Debug, PartialEq, Eq, Structural)]
pub enum Capability {
    /// A local responder for service discovery is at hand.
    Available,
    /// There is none; lights have to be addressed directly.
    Unsupported,
}

/// One resolved service advertisement: the full instance name, the IPv4
/// addresses it carries, and the port.
#[derive(Debug)]
pub struct Advertisement {
    pub name: String,
    pub addresses: Vec<Ipv4Address>,
    pub port: u16,
}

/// The mathematical content of an [`Advertisement`].
pub ghost struct AdvertisementView {
    pub name: Seq<char>,
    pub addresses: Seq<Ipv4Address>,
    pub port: u16,
}

impl View for Advertisement {
    type V = AdvertisementView;

    open spec fn view(&self) -> AdvertisementView {
        AdvertisementView { name: self.name@, addresses: self.addresses@, port: self.port }
    }
}

/// The contents of a list of advertisements, in order.
pub open spec fn advertisement_views(list: Seq<Advertisement>) -> Seq<AdvertisementView> {
    list.map_values(|a: Advertisement| a@)
}

/// The target that an advertisement stands for, if it is accepted: it
/// must carry a port other than zero and at least one usable address.
pub open spec fn accepted(advertisement: AdvertisementView) -> Option<TargetView> {
    match first_usable(advertisement.addresses) {
        Some(address) => if advertisement.port != 0 {
            Some(
                TargetView {
                    name: instance_name(advertisement.name),
                    address,
                    port: advertisement.port,
                },
            )
        } else {
            None
        },
        None => None,
    }
}

/// The targets of the accepted advertisements, in the order in which the
/// advertisements were seen.
pub open spec fn candidates(advertisements: Seq<AdvertisementView>) -> Seq<TargetView>
    decreases advertisements.len(),
{
    if advertisements.len() == 0 {
        Seq::empty()
    } else {
        let head = candidates(advertisements.drop_last());
        match accepted(advertisements.last()) {
            Some(target) => head.push(target),
            None => head,
        }
    }
}

/// The outcome of a search that saw `advertisements` within
/// `timeout_secs` seconds: the accepted targets ordered by name, or
/// `NoneFound` with the time waited when there is none.
pub open spec fn discovery_outcome(advertisements: Seq<AdvertisementView>, timeout_secs: u64)
    -> Result<Seq<TargetView>, DiscoveryError> {
    if candidates(advertisements).len() == 0 {
        Err(DiscoveryError::NoneFound { timeout_secs })
    } else {
        Ok(sorted_by_name(candidates(advertisements)))
    }
}

/// The first usable address is usable and stands in the list, and there
/// is none exactly when no address of the list is usable.
pub proof fn lemma_first_usable(addresses: Seq<Ipv4Address>)
    ensures
        first_usable(addresses) matches Some(a) ==> a.is_usable() && addresses.contains(a),
        first_usable(addresses) is None <==> forall|i: int|
            0 <= i < addresses.len() ==> !(#[trigger] addresses[i]).is_usable(),
    decreases addresses.len(),
{
    if addresses.len() > 0 {
        let rest = addresses.drop_first();
        lemma_first_usable(rest);
        if addresses.first().is_usable() {
            assert(addresses[0] == addresses.first());
        } else {
            if let Some(a) = first_usable(rest) {
                let i = choose|i: int| 0 <= i < rest.len() && rest[i] == a;
                assert(addresses[i + 1] == a);
            }
            if first_usable(rest) is None {
                assert forall|i: int| 0 <= i < addresses.len() implies !(
                #[trigger] addresses[i]).is_usable() by {
                    if i > 0 {
                        assert(addresses[i] == rest[i - 1]);
                    }
                }
            } else {
                let i = choose|i: int| 0 <= i < rest.len() && (#[trigger] rest[i]).is_usable();
                assert(addresses[i + 1] == rest[i]);
            }
        }
    }
}

/// There are no more candidates than advertisements, every candidate is
/// a valid target, and there is no candidate at all exactly when no
/// advertisement is accepted.
pub proof fn lemma_candidates(advertisements: Seq<AdvertisementView>)
    ensures
        candidates(advertisements).len() <= advertisements.len(),
        forall|i: int|
            0 <= i < candidates(advertisements).len() ==> (#[trigger] candidates(
                advertisements,
            )[i]).well_formed(),
        candidates(advertisements).len() == 0 <==> forall|i: int|
            0 <= i < advertisements.len() ==> accepted(#[trigger] advertisements[i]) is None,
    decreases advertisements.len(),
{
    if advertisements.len() > 0 {
        let head = advertisements.drop_last();
        lemma_candidates(head);
        if candidates(advertisements).len() == 0 {
            assert forall|i: int| 0 <= i < advertisements.len() implies accepted(
                #[trigger] advertisements[i],
            ) is None by {
                if i < head.len() {
                    assert(advertisements[i] == head[i]);
                }
            }
        } else if accepted(advertisements.last()) is None {
            let i = choose|i: int| 0 <= i < head.len() && accepted(#[trigger] head[i]) is Some;
            assert(advertisements[i] == head[i]);
        }
    }
}

/// A search in which no advertisement is accepted, and so one in which
/// none was seen at all, fails with `NoneFound` and the time waited; a
/// search that succeeds yields at least one target, all of them valid,
/// ordered by name.
pub proof fn lemma_discovery_outcome(advertisements: Seq<AdvertisementView>, timeout_secs: u64)
    ensures
        (forall|i: int|
            0 <= i < advertisements.len() ==> accepted(#[trigger] advertisements[i]) is None)
            <==> discovery_outcome(advertisements, timeout_secs) == Err::<
            Seq<TargetView>,
            DiscoveryError,
        >(DiscoveryError::NoneFound { timeout_secs }),
        advertisements.len() == 0 ==> discovery_outcome(advertisements, timeout_secs) is Err,
        discovery_outcome(advertisements, timeout_secs) matches Ok(targets) ==> {
            &&& targets.len() > 0
            &&& all_well_formed(targets)
            &&& ordered_by_name(targets)
            &&& targets.to_multiset() == candidates(advertisements).to_multiset()
        },
{
    let found = candidates(advertisements);
    lemma_candidates(advertisements);
    lemma_sorted_by_name(found);
    lemma_sorted_same_targets(found);
    if let Ok(targets) = discovery_outcome(advertisements, timeout_secs) {
        assert forall|i: int| 0 <= i < targets.len() implies (
            #[trigger] targets[i]).well_formed() by {
            let k = choose|k: int| 0 <= k < found.len() && found[k] == targets[i];
            assert(found[k].well_formed());
        }
    }
}

/// The name of a light without the service type that ends the full name
/// of its advertisement. A name that does not end so is kept whole.
pub fn strip_service_suffix(full: &str) -> (name: String)
    ensures
        name@ == instance_name(full@),
{
    let chars = chars_of(full);
    let suffix = chars_of("._elg._tcp.local.");
    if chars.len() < suffix.len() {
        return full.to_owned();
    }
    let cut: usize = chars.len() - suffix.len();
    let mut i: usize = 0;
    while i < suffix.len()
        invariant
            i <= suffix.len(),
            cut + suffix.len() == chars.len(),
            chars@ == full@,
            suffix@ == service_suffix(),
            forall|k: int| 0 <= k < i ==> chars@[cut + k] == suffix@[k],
        decreases suffix.len() - i,
    {
        if chars[cut + i] != suffix[i] {
            proof {
                let tail = full@.skip(full@.len() - service_suffix().len());
                assert(tail[i as int] == chars@[cut + i]);
                assert(service_suffix()[i as int] == suffix@[i as int]);
            }
            return full.to_owned();
        }
        i += 1;
    }
    assert(chars@.skip(cut as int) =~= suffix@);
    let name = string_of(&chars, 0, cut);
    assert(chars@.subrange(0, cut as int) =~= chars@.take(cut as int));
    name
}

/// The first address of the list at which a light can be reached.
pub fn pick_usable(addresses: &Vec<Ipv4Address>) -> (picked: Option<Ipv4Address>)
    ensures
        picked == first_usable(addresses@),
{
    let mut i: usize = 0;
    proof {
        assert(addresses@.skip(0) =~= addresses@);
    }
    while i < addresses.len()
        invariant
            i <= addresses.len(),
            first_usable(addresses@) == first_usable(addresses@.skip(i as int)),
        decreases addresses.len() - i,
    {
        proof {
            assert(addresses@.skip(i as int).first() == addresses@[i as int]);
            assert(addresses@.skip(i as int).drop_first() =~= addresses@.skip(i + 1));
        }
        if addresses[i].usable() {
            return Some(addresses[i]);
        }
        i += 1;
    }
    None
}

impl Advertisement {
    /// The target that this advertisement stands for, if it is accepted.
    pub fn accept(&self) -> (target: Option<Target>)
        ensures
            match target {
                Some(t) => accepted(self@) == Some(t@) && t.well_formed(),
                None => accepted(self@) is None,
            },
    {
        match pick_usable(&self.addresses) {
            Some(address) => {
                if self.port != 0 {
                    Some(
                        Target {
                            name: strip_service_suffix(self.name.as_str()),
                            address,
                            port: self.port,
                        },
                    )
                } else {
                    None
                }
            },
            None => None,
        }
    }
}

/// Decides the outcome of a search that saw `advertisements` within
/// `timeout_secs` seconds.
pub fn collect(advertisements: &Vec<Advertisement>, timeout_secs: u64) -> (outcome: Result<
    Vec<Target>,
    DiscoveryError,
>)
    ensures
        match outcome {
            Ok(targets) => discovery_outcome(
                advertisement_views(advertisements@),
                timeout_secs,
            ) == Ok::<Seq<TargetView>, DiscoveryError>(views(targets@)),
            Err(e) => discovery_outcome(advertisement_views(advertisements@), timeout_secs)
                == Err::<Seq<TargetView>, DiscoveryError>(e),
        },
        outcome matches Ok(targets) ==> all_well_formed(views(targets@)),
{
    let ghost seen = advertisement_views(advertisements@);
    proof {
        lemma_discovery_outcome(seen, timeout_secs);
    }
    let mut found: Vec<Target> = Vec::new();
    let mut i: usize = 0;
    proof {
        assert(seen.take(0) =~= Seq::<AdvertisementView>::empty());
        assert(views(found@) =~= Seq::<TargetView>::empty());
    }
    while i < advertisements.len()
        invariant
            i <= advertisements.len(),
            seen == advertisement_views(advertisements@),
            views(found@) == candidates(seen.take(i as int)),
        decreases advertisements.len() - i,
    {
        proof {
            assert(seen.take(i + 1).drop_last() =~= seen.take(i as int));
            assert(seen.take(i + 1).last() == advertisements@[i as int]@);
        }
        match advertisements[i].accept() {
            Some(target) => {
                let ghost before = found@;
                found.push(target);
                proof {
                    lemma_views_push(before, found@.last());
                }
            },
            None => {},
        }
        i += 1;
    }
    assert(seen.take(advertisements.len() as int) =~= seen);
    if found.len() == 0 {
        Err(DiscoveryError::NoneFound { timeout_secs })
    } else {
        Ok(sort_by_name(&found))
    }
}

} // verus!
