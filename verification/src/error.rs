//! What can go wrong while resolving targets or talking to a light.

use vstd::prelude::*;

verus! {

/// Why discovery produced no targets.
#[derive(Clone, Copy, Debug, PartialEq, Eq, Structural)]
pub enum DiscoveryError {
    /// This platform has no usable service-discovery mechanism.
    Unsupported,
    /// No light answered within the given number of seconds.
    NoneFound { timeout_secs: u64 },
}

/// Why a resolution request produced no targets.
#[derive(Debug)]
pub enum ResolveError {
    /// Explicit addresses and a name filter were both supplied.
    SelectorConflict,
    /// The given token of the address list is not an IPv4 address.
    InvalidAddress(String),
    /// Discovery was needed and failed.
    Discovery(DiscoveryError),
    /// The given name filter matched none of the known lights.
    NoMatch(String),
}

/// The mathematical content of a [`ResolveError`].
pub ghost enum ResolveErrorView {
    SelectorConflict,
    InvalidAddress(Seq<char>),
    Discovery(DiscoveryError),
    NoMatch(Seq<char>),
}

impl View for ResolveError {
    type V = ResolveErrorView;

    open spec fn view(&self) -> ResolveErrorView {
        match self {
            ResolveError::SelectorConflict => ResolveErrorView::SelectorConflict,
            ResolveError::InvalidAddress(token) => ResolveErrorView::InvalidAddress(token@),
            ResolveError::Discovery(e) => ResolveErrorView::Discovery(*e),
            ResolveError::NoMatch(filter) => ResolveErrorView::NoMatch(filter@),
        }
    }
}

/// Why a call to one light failed.
#[derive(Clone, Copy, Debug, PartialEq, Eq, Structural)]
pub enum DeviceError {
    /// The light could not be reached.
    Unreachable,
    /// The light answered, but not with a status document.
    MalformedResponse,
    /// The light answered with a status document that lists no lights.
    EmptyResponse,
}

} // verus!
