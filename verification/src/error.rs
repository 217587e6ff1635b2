//! Error types of the parsers. Each carries the reason as text; none carries
//! a copy of the offending input beyond what its message names.

use vstd::prelude::*;
use vstd::std_specs::convert::FromSpecImpl;

use crate::text::{owned, push_str};

verus! {

broadcast use vstd::string::group_string_axioms;

/// Error returned when parsing a SIP or SIPS URI fails.
#[derive(Debug, Clone, PartialEq, Eq)]
pub struct ParseSipUriError(pub String);

/// Error returned when parsing a tel: URI fails.
#[derive(Debug, Clone, PartialEq, Eq)]
pub struct ParseTelUriError(pub String);

/// Error returned when parsing a URI of any supported scheme fails.
#[derive(Debug, Clone, PartialEq, Eq)]
pub struct ParseUriError(pub String);

/// Error returned when parsing a URN fails.
#[derive(Debug, Clone, PartialEq, Eq)]
pub struct ParseUrnError(pub String);

/// Error returned when parsing a name-addr fails.
#[derive(Debug, Clone, PartialEq, Eq)]
pub struct ParseNameAddrError(pub String);

/// Error returned when parsing a standalone host fails.
#[derive(Debug, Clone, PartialEq, Eq)]
pub struct ParseHostError(pub String);

/// `prefix` followed by `msg`.
fn prefixed(prefix: &str, msg: &String) -> (s: String)
    ensures
        s@ == prefix@ + msg@,
{
    let mut s = owned(prefix);
    push_str(&mut s, msg.as_str());
    s
}

impl ParseSipUriError {
    /// The message as displayed: `invalid SIP URI: <reason>`.
    pub fn to_string(&self) -> (s: String)
        ensures
            s@ == "invalid SIP URI: "@ + self.0@,
    {
        prefixed("invalid SIP URI: ", &self.0)
    }
}

impl ParseTelUriError {
    /// The message as displayed: `invalid tel URI: <reason>`.
    pub fn to_string(&self) -> (s: String)
        ensures
            s@ == "invalid tel URI: "@ + self.0@,
    {
        prefixed("invalid tel URI: ", &self.0)
    }
}

impl ParseUriError {
    /// The message as displayed: `invalid URI: <reason>`.
    pub fn to_string(&self) -> (s: String)
        ensures
            s@ == "invalid URI: "@ + self.0@,
    {
        prefixed("invalid URI: ", &self.0)
    }
}

impl ParseUrnError {
    /// The message as displayed: `invalid URN: <reason>`.
    pub fn to_string(&self) -> (s: String)
        ensures
            s@ == "invalid URN: "@ + self.0@,
    {
        prefixed("invalid URN: ", &self.0)
    }
}

impl ParseNameAddrError {
    /// The message as displayed: `invalid name-addr: <reason>`.
    pub fn to_string(&self) -> (s: String)
        ensures
            s@ == "invalid name-addr: "@ + self.0@,
    {
        prefixed("invalid name-addr: ", &self.0)
    }
}

impl ParseHostError {
    /// The message as displayed: `invalid host: <reason>`.
    pub fn to_string(&self) -> (s: String)
        ensures
            s@ == "invalid host: "@ + self.0@,
    {
        prefixed("invalid host: ", &self.0)
    }
}

impl From<ParseSipUriError> for ParseUriError {
    fn from(e: ParseSipUriError) -> (r: Self) {
        ParseUriError(e.0)
    }
}

impl FromSpecImpl<ParseSipUriError> for ParseUriError {
    open spec fn obeys_from_spec() -> bool {
        true
    }

    open spec fn from_spec(e: ParseSipUriError) -> Self {
        ParseUriError(e.0)
    }
}

impl From<ParseTelUriError> for ParseUriError {
    fn from(e: ParseTelUriError) -> (r: Self) {
        ParseUriError(e.0)
    }
}

impl FromSpecImpl<ParseTelUriError> for ParseUriError {
    open spec fn obeys_from_spec() -> bool {
        true
    }

    open spec fn from_spec(e: ParseTelUriError) -> Self {
        ParseUriError(e.0)
    }
}

impl From<ParseUrnError> for ParseUriError {
    fn from(e: ParseUrnError) -> (r: Self) {
        ParseUriError(e.0)
    }
}

impl FromSpecImpl<ParseUrnError> for ParseUriError {
    open spec fn obeys_from_spec() -> bool {
        true
    }

    open spec fn from_spec(e: ParseUrnError) -> Self {
        ParseUriError(e.0)
    }
}

impl From<ParseUriError> for ParseNameAddrError {
    fn from(e: ParseUriError) -> (r: Self) {
        ParseNameAddrError(e.0)
    }
}

impl FromSpecImpl<ParseUriError> for ParseNameAddrError {
    open spec fn obeys_from_spec() -> bool {
        true
    }

    open spec fn from_spec(e: ParseUriError) -> Self {
        ParseNameAddrError(e.0)
    }
}

} // verus!
