//! What the user is told when something goes wrong: each message says
//! what failed and what to do about it.

use crate::decimal::{numeral, write_numeral};
use crate::error::{DeviceError, DiscoveryError, ResolveError, ResolveErrorView};
use crate::text::string_of;
use vstd::prelude::*;

verus! {

/// The message for a failed search of the network.
pub open spec fn discovery_error_text(error: DiscoveryError) -> Seq<char> {
    match error {
        DiscoveryError::Unsupported =>
            "discovery is not supported on this platform; use explicit addressing instead"@,
        DiscoveryError::NoneFound { timeout_secs } => "no lights found within "@ + numeral(
            timeout_secs as nat,
        ) + " seconds; use explicit addressing instead"@,
    }
}

/// The message for a failed resolution.
pub open spec fn resolve_error_text(error: ResolveErrorView) -> Seq<char> {
    match error {
        ResolveErrorView::SelectorConflict =>
            "explicit addresses and a name filter cannot be combined; give one or the other"@,
        ResolveErrorView::InvalidAddress(token) => "'"@ + token
            + "' is not an IPv4 address; write four numbers from 0 to 255 joined by dots"@,
        ResolveErrorView::Discovery(e) => discovery_error_text(e),
        ResolveErrorView::NoMatch(filter) => "no light has a name that contains '"@ + filter
            + "'; leave the name filter out to reach every known light"@,
    }
}

/// The message for a failed call to a light.
pub open spec fn device_error_text(error: DeviceError) -> Seq<char> {
    match error {
        DeviceError::Unreachable =>
            "the light could not be reached; check that it is powered and on this network"@,
        DeviceError::MalformedResponse =>
            "the light sent a reply that could not be read; try again"@,
        DeviceError::EmptyResponse => "the light reported no lights; try again"@,
    }
}

impl DiscoveryError {
    /// What to tell the user.
    pub fn message(&self) -> (text: String)
        ensures
            text@ == discovery_error_text(*self),
    {
        match self {
            DiscoveryError::Unsupported => {
                let text =
                    "discovery is not supported on this platform; use explicit addressing instead";
                text.to_owned()
            },
            DiscoveryError::NoneFound { timeout_secs } => {
                let mut digits: Vec<char> = Vec::new();
                write_numeral(*timeout_secs, &mut digits);
                let number = string_of(&digits, 0, digits.len());
                assert(digits@.subrange(0, digits.len() as int) =~= numeral(*timeout_secs as nat));
                let mut text = "no lights found within ".to_owned();
                text.append(number.as_str());
                text.append(" seconds; use explicit addressing instead");
                text
            },
        }
    }
}

impl ResolveError {
    /// What to tell the user.
    pub fn message(&self) -> (text: String)
        ensures
            text@ == resolve_error_text(self@),
    {
        match self {
            ResolveError::SelectorConflict => {
                let text =
                    "explicit addresses and a name filter cannot be combined; give one or the other";
                text.to_owned()
            },
            ResolveError::InvalidAddress(token) => {
                let mut text = "'".to_owned();
                text.append(token.as_str());
                text.append(
                    "' is not an IPv4 address; write four numbers from 0 to 255 joined by dots",
                );
                text
            },
            ResolveError::Discovery(e) => e.message(),
            ResolveError::NoMatch(filter) => {
                let mut text = "no light has a name that contains '".to_owned();
                text.append(filter.as_str());
                text.append("'; leave the name filter out to reach every known light");
                text
            },
        }
    }
}

impl DeviceError {
    /// What to tell the user.
    pub fn message(&self) -> (text: String)
        ensures
            text@ == device_error_text(*self),
    {
        match self {
            DeviceError::Unreachable => {
                let text =
                    "the light could not be reached; check that it is powered and on this network";
                text.to_owned()
            },
            DeviceError::MalformedResponse => {
                "the light sent a reply that could not be read; try again".to_owned()
            },
            DeviceError::EmptyResponse => "the light reported no lights; try again".to_owned(),
        }
    }
}

} // verus!
