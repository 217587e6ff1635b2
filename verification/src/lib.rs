//! SIP/SIPS, tel: and URN URI parsing with per-component percent-encoding.
//!
//! Implements RFC 3261 §19/§25 (SIP-URI, SIPS-URI), RFC 3966 (tel-URI) and
//! RFC 8141 (URN) with hand-written parsers whose results are stated over
//! character sequences and proved.

pub mod text;
pub mod parse;
pub mod canon;
pub mod reparse;
pub mod params;
pub mod error;
pub mod warning;
pub mod ip;
pub mod ip_text;
pub mod host;
pub mod tel_uri;
pub mod urn_uri;
pub mod sip_uri;
pub mod sip_reparse;
pub mod uri;
pub mod name_addr;
pub mod order;

pub use error::{
    ParseHostError, ParseNameAddrError, ParseSipUriError, ParseTelUriError, ParseUriError,
    ParseUrnError,
};
pub use host::{Bare, Host};
pub use ip::{AddrParseError, Ipv4Addr, Ipv6Addr};
pub use name_addr::NameAddr;
pub use sip_uri::{Scheme, SipUri};
pub use tel_uri::TelUri;
pub use uri::Uri;
pub use parse::{decode_user, encode_uri_header};
pub use urn_uri::UrnUri;
pub use warning::{Component, ParseWarning, Parsed, WarningCode, WarningKind};
