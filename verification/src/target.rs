//! The identity of one controllable light.

use crate::address::{address_text, Ipv4Address};
use vstd::prelude::*;

verus! {

/// The port on which a light listens unless its advertisement says
/// otherwise.
pub const DEFAULT_PORT: u16 = 9123;

/// One addressable light: a human-readable name and where to reach it.
#[derive(Debug)]
pub struct Target {
    pub name: String,
    pub address: Ipv4Address,
    pub port: u16,
}

/// The mathematical content of a [`Target`].
pub ghost struct TargetView {
    pub name: Seq<char>,
    pub address: Ipv4Address,
    pub port: u16,
}

impl View for Target {
    type V = TargetView;

    open spec fn view(&self) -> TargetView {
        TargetView { name: self.name@, address: self.address, port: self.port }
    }
}

/// The contents of a list of targets, in order.
pub open spec fn views(targets: Seq<Target>) -> Seq<TargetView> {
    targets.map_values(|t: Target| t@)
}

impl TargetView {
    /// A target is valid when its port is not zero.
    pub open spec fn well_formed(self) -> bool {
        self.port != 0
    }
}

/// Whether every target of `targets` is valid.
pub open spec fn all_well_formed(targets: Seq<TargetView>) -> bool {
    forall|i: int| 0 <= i < targets.len() ==> (#[trigger] targets[i]).well_formed()
}

/// The target that stands for a light addressed directly: named by the
/// text of its address, at the default port.
pub open spec fn explicit_target(address: Ipv4Address) -> TargetView {
    TargetView { name: address_text(address), address, port: DEFAULT_PORT }
}

impl PartialEq for Target {
    fn eq(&self, other: &Self) -> (equal: bool) {
        self.name == other.name && self.address == other.address && self.port == other.port
    }
}

impl vstd::std_specs::cmp::PartialEqSpecImpl for Target {
    open spec fn obeys_eq_spec() -> bool {
        true
    }

    open spec fn eq_spec(&self, other: &Self) -> bool {
        self@ == other@
    }
}

impl Clone for Target {
    fn clone(&self) -> (copy: Self)
        ensures
            copy@ == self@,
    {
        Target { name: self.name.clone(), address: self.address, port: self.port }
    }
}

impl Target {
    /// Whether the port is not zero.
    pub open spec fn well_formed(&self) -> bool {
        self@.well_formed()
    }

    /// A target with the given parts, unless the port is zero.
    pub fn new(name: String, address: Ipv4Address, port: u16) -> (target: Option<Target>)
        ensures
            port == 0 <==> target is None,
            target matches Some(t) ==> t@ == (TargetView { name: name@, address, port }),
    {
        if port == 0 {
            None
        } else {
            Some(Target { name, address, port })
        }
    }

    /// The target for a light addressed directly by `address`.
    pub fn explicit(address: Ipv4Address) -> (target: Target)
        ensures
            target@ == explicit_target(address),
            target.well_formed(),
    {
        Target { name: address.to_text(), address, port: DEFAULT_PORT }
    }
}

/// The contents of a list that grew by one target are the old contents
/// followed by what that target holds.
pub proof fn lemma_views_push(targets: Seq<Target>, target: Target)
    ensures
        views(targets.push(target)) == views(targets).push(target@),
{
    assert(views(targets.push(target)) =~= views(targets).push(target@));
}

/// Copies a list of targets.
pub fn clone_targets(targets: &Vec<Target>) -> (copy: Vec<Target>)
    ensures
        views(copy@) == views(targets@),
{
    let mut copy: Vec<Target> = Vec::new();
    let mut i: usize = 0;
    while i < targets.len()
        invariant
            i <= targets.len(),
            views(copy@) == views(targets@).take(i as int),
        decreases targets.len() - i,
    {
        let ghost before = copy@;
        copy.push(targets[i].clone());
        proof {
            lemma_views_push(before, copy@.last());
        }
        i += 1;
        assert(views(copy@) =~= views(targets@).take(i as int));
    }
    assert(views(targets@).take(targets.len() as int) =~= views(targets@));
    copy
}

} // verus!
