//! SIP and SIPS URIs (RFC 3261 §19): userinfo with user-params and
//! password, host, port, parameters, headers and a tolerated fragment.

use vstd::prelude::*;

use crate::error::ParseSipUriError;
use crate::host::{Host, HostView, host_at, host_text};
use crate::ip::{dec_digit, digits_value};
use crate::params::{
    HeaderV, ParamKind, ParamV, collect_headers, collect_params, find_header, find_param,
    format_headers, format_params, header_index_from, header_section, headers_text,
    lenient_params, param_index, params_text, scan_char,
};
use crate::parse::{
    CharSet, decode_chars, is_char, pct_decode, userinfo_at, userinfo_at_in,
};
use crate::text::{
    byte_len, byte_len_fits, chars_of, decimal, eq_ignore_case, eq_ignore_case_at, lemma_scan,
    owned, push_decimal, push_str, scan, string_of,
};
use crate::warning::{
    Component, ParseWarning, Parsed, WarningCode, Warnings, charset_warnings, insert_in_order,
    warning_at,
};

verus! {

broadcast use vstd::string::group_string_axioms;

/// SIP URI scheme.
#[derive(Debug, Clone, Copy, PartialEq, Eq, Hash)]
#[non_exhaustive]
pub enum Scheme {
    /// `sip:` (default port 5060)
    Sip,
    /// `sips:` (default port 5061)
    Sips,
}

/// The scheme name, lowercase.
pub open spec fn scheme_name(s: Scheme) -> Seq<char> {
    match s {
        Scheme::Sip => "sip"@,
        Scheme::Sips => "sips"@,
    }
}

impl Scheme {
    /// The scheme name as it appears before `:`, lowercase.
    pub fn as_str(self) -> (r: &'static str)
        ensures
            r@ == scheme_name(self),
    {
        match self {
            Scheme::Sip => "sip",
            Scheme::Sips => "sips",
        }
    }
}

/// A SIP or SIPS URI.
#[derive(Debug, Clone, PartialEq, Eq)]
#[non_exhaustive]
pub struct SipUri {
    scheme: Scheme,
    user: Option<String>,
    user_params: Vec<(String, Option<String>)>,
    password: Option<String>,
    host: Host,
    port: Option<u16>,
    params: Vec<(String, Option<String>)>,
    headers: Vec<(String, String)>,
    fragment: Option<String>,
}

/// A SIP URI as values.
pub struct SipView {
    /// `sip` or `sips`.
    pub scheme: Scheme,
    /// The user part, canonized.
    pub user: Option<Seq<char>>,
    /// Parameters inside the userinfo.
    pub user_params: Seq<ParamV>,
    /// The password, canonized.
    pub password: Option<Seq<char>>,
    /// The host.
    pub host: HostView,
    /// The explicit port.
    pub port: Option<u16>,
    /// URI parameters.
    pub params: Seq<ParamV>,
    /// URI headers, canonically escaped.
    pub headers: Seq<HeaderV>,
    /// The fragment.
    pub fragment: Option<Seq<char>>,
}

impl View for SipUri {
    type V = SipView;

    closed spec fn view(&self) -> SipView {
        SipView {
            scheme: self.scheme,
            user: self.user.deep_view(),
            user_params: self.user_params.deep_view(),
            password: self.password.deep_view(),
            host: self.host@,
            port: self.port,
            params: self.params.deep_view(),
            headers: self.headers.deep_view(),
            fragment: self.fragment.deep_view(),
        }
    }
}

/// The userinfo `s[a..b]`: user, user-params and password, with warnings
/// appended to `w` in input order (the user part's before the password's). `:` starts the password; `;` ends the user. An empty user
/// with parameters is an error; an empty user without them is a password
/// without user.
#[verifier::opaque]
pub open spec fn userinfo_parts(s: Seq<char>, a: int, b: int, w: Seq<ParseWarning>) -> Result<
    (Option<Seq<char>>, Seq<ParamV>, Option<Seq<char>>, Seq<ParseWarning>),
    Seq<char>,
> {
    let c = scan(s, is_char(':'), a, b);
    let up_end = c;
    let password = if c < b {
        Some(pct_decode(s.subrange(c + 1, b), CharSet::Password))
    } else {
        None
    };
    let pw_w = if c < b {
        charset_warnings(s, Component::Password, CharSet::Password, c + 1, b)
    } else {
        Seq::empty()
    };
    let semi = scan(s, is_char(';'), a, up_end);
    if semi <= a {
        if semi < up_end {
            Err("empty user before ';'"@)
        } else {
            Ok(
                (
                    None,
                    Seq::empty(),
                    password,
                    w.push(warning_at(s, Component::User, WarningCode::PasswordWithoutUser, a))
                        + pw_w,
                ),
            )
        }
    } else {
        let w2 = charset_warnings(s, Component::User, CharSet::User, a, semi);
        let (ups, w3) = if semi < up_end {
            lenient_params(s, semi + 1, up_end, ParamKind::User, Seq::empty(), w2)
        } else {
            (Seq::empty(), w2)
        };
        let q = scan(s, is_char('?'), a, up_end);
        let w4 = if q < up_end {
            insert_in_order(w3, warning_at(s, Component::User, WarningCode::HeaderShapedUser, q))
        } else {
            w3
        };
        Ok((Some(pct_decode(s.subrange(a, semi), CharSet::User)), ups, password, w + w4 + pw_w))
    }
}

/// Characters that end a port: `; ? # >`.
pub open spec fn port_stops() -> spec_fn(char) -> bool {
    |c: char| c == ';' || c == '?' || c == '#' || c == '>'
}

/// A port `s[a..b]` (not empty) as `u16` text reads it: an optional `+`,
/// then decimal digits worth at most 65535.
pub open spec fn port_value(s: Seq<char>, a: int, b: int) -> Option<u16> {
    let start = if s[a] == '+' && b - a > 1 {
        a + 1
    } else {
        a
    };
    if (forall|j: int| start <= j < b ==> dec_digit(#[trigger] s[j])) && digits_value(s, start, b)
        <= 65535 {
        Some(digits_value(s, start, b) as u16)
    } else {
        None
    }
}

/// The port after the host, which ends at `c`: the port (if any), the
/// index after it, and warnings appended to `w`.
pub open spec fn port_section(s: Seq<char>, c: int, hi: int, w: Seq<ParseWarning>) -> Result<
    (Option<u16>, int, Seq<ParseWarning>),
    Seq<char>,
> {
    if c < hi && s[c] == ':' {
        let pe = scan(s, port_stops(), c + 1, hi);
        if pe <= c + 1 {
            Ok((None, pe, w.push(warning_at(s, Component::Port, WarningCode::EmptyPort, c))))
        } else {
            let w1 = if s[c + 1] == '+' {
                w.push(warning_at(s, Component::Port, WarningCode::SignedPort, c + 1))
            } else {
                w
            };
            match port_value(s, c + 1, pe) {
                None => Err("port is not a number in 0-65535"@),
                Some(p) => Ok((Some(p), pe, w1)),
            }
        }
    } else {
        Ok((None, c, w))
    }
}

/// The fragment in `s[a..hi]`: where the rest ends, the fragment, and
/// warnings appended to `w`; an empty fragment is dropped.
pub open spec fn fragment_section(s: Seq<char>, a: int, hi: int, w: Seq<ParseWarning>) -> (
    int,
    Option<Seq<char>>,
    Seq<ParseWarning>,
) {
    let h = scan(s, is_char('#'), a, hi);
    if h < hi {
        if h + 1 >= hi {
            (h, None, w.push(warning_at(s, Component::Fragment, WarningCode::EmptyFragment, h)))
        } else {
            (
                h,
                Some(s.subrange(h + 1, hi)),
                w.push(warning_at(s, Component::Fragment, WarningCode::UnexpectedFragment, h)),
            )
        }
    } else {
        (hi, None, w)
    }
}

/// Parameters and headers in `s[a..e]`: `;params[?headers]`, `?headers` or
/// nothing.
pub open spec fn tail_section(s: Seq<char>, a: int, e: int, w: Seq<ParseWarning>) -> Result<
    (Seq<ParamV>, Seq<HeaderV>, Seq<ParseWarning>),
    Seq<char>,
> {
    if a >= e {
        Ok((Seq::empty(), Seq::empty(), w))
    } else if s[a] == ';' {
        let q = scan(s, is_char('?'), a + 1, e);
        let (ps, w1) = lenient_params(s, a + 1, q, ParamKind::Uri, Seq::empty(), w);
        if q < e {
            match header_section(s, q + 1, e, w1) {
                Err(m) => Err("header: "@ + m),
                Ok((hs, w2)) => Ok((ps, hs, w2)),
            }
        } else {
            Ok((ps, Seq::empty(), w1))
        }
    } else if s[a] == '?' {
        match header_section(s, a + 1, e, w) {
            Err(m) => Err("header: "@ + m),
            Ok((hs, w2)) => Ok((Seq::empty(), hs, w2)),
        }
    } else {
        Err("unexpected character after host/port"@)
    }
}

/// Host, port, parameters, headers and fragment from `s[lo..hi]`, with
/// warnings appended to `w` in input order (the fragment's last).
#[verifier::opaque]
pub open spec fn hostport_parts(s: Seq<char>, lo: int, hi: int, w: Seq<ParseWarning>) -> Result<
    (HostView, Option<u16>, Seq<ParamV>, Seq<HeaderV>, Option<Seq<char>>, Seq<ParseWarning>),
    Seq<char>,
> {
    match host_at(s, lo, hi) {
        Err(m) => Err(m),
        Ok((h, c, hw)) => match port_section(s, c, hi, w + hw) {
            Err(m) => Err(m),
            Ok((port, a, w1)) => {
                let (e, frag, fw) = fragment_section(s, a, hi, Seq::empty());
                match tail_section(s, a, e, w1) {
                    Err(m) => Err(m),
                    Ok((ps, hs, w3)) => Ok((h, port, ps, hs, frag, w3 + fw)),
                }
            },
        },
    }
}

/// The scheme that `s[..colon]` names, if it is `sip` or `sips` in any case.
pub open spec fn scheme_of(s: Seq<char>, colon: int) -> Option<Scheme> {
    if eq_ignore_case(s.take(colon), "sip"@) {
        Some(Scheme::Sip)
    } else if eq_ignore_case(s.take(colon), "sips"@) {
        Some(Scheme::Sips)
    } else {
        None
    }
}

/// The SIP URI that `s` denotes with the warnings its parse raises, or the
/// reason it denotes none. The userinfo ends at the `@` that `userinfo_at`
/// finds.
pub open spec fn parse_sip(s: Seq<char>) -> Result<(SipView, Seq<ParseWarning>), Seq<char>> {
    let n = s.len() as int;
    let colon = scan(s, is_char(':'), 0, n);
    if colon >= n {
        Err("missing scheme"@)
    } else {
        match scheme_of(s, colon) {
            None => Err("scheme is not sip or sips"@),
            Some(sc) => sip_rest(s, sc, colon + 1),
        }
    }
}

/// The SIP URI with the given scheme and userinfo whose host starts at `lo`,
/// with warnings appended to `w`.
pub open spec fn with_hostport(
    s: Seq<char>,
    lo: int,
    sc: Scheme,
    user: Option<Seq<char>>,
    ups: Seq<ParamV>,
    pw: Option<Seq<char>>,
    w: Seq<ParseWarning>,
) -> Result<(SipView, Seq<ParseWarning>), Seq<char>> {
    match hostport_parts(s, lo, s.len() as int, w) {
        Err(m) => Err(m),
        Ok((h, port, ps, hs, f, w2)) => Ok(
            (
                SipView {
                    scheme: sc,
                    user,
                    user_params: ups,
                    password: pw,
                    host: h,
                    port,
                    params: ps,
                    headers: hs,
                    fragment: f,
                },
                w2,
            ),
        ),
    }
}

/// The rest of a SIP URI after `scheme:`, from `r` to the end of `s`.
pub open spec fn sip_rest(s: Seq<char>, sc: Scheme, r: int) -> Result<
    (SipView, Seq<ParseWarning>),
    Seq<char>,
> {
    let n = s.len() as int;
    match userinfo_at(s, r, n) {
        Some(at) => if at <= r {
            Err("empty userinfo before @"@)
        } else if at + 1 >= n {
            Err("missing host after @"@)
        } else {
            match userinfo_parts(s, r, at, Seq::empty()) {
                Err(m) => Err(m),
                Ok((u, ups, pw, w1)) => with_hostport(s, at + 1, sc, u, ups, pw, w1),
            }
        },
        None => with_hostport(s, r, sc, None, Seq::empty(), None, Seq::empty()),
    }
}

/// `:port`, or nothing.
pub open spec fn port_text(p: Option<u16>) -> Seq<char> {
    match p {
        Some(p) => ":"@ + decimal(p as nat),
        None => Seq::empty(),
    }
}

/// `prefix` followed by the text, or nothing.
pub open spec fn tagged(prefix: Seq<char>, t: Option<Seq<char>>) -> Seq<char> {
    match t {
        Some(t) => prefix + t,
        None => Seq::empty(),
    }
}

/// The userinfo written out, with its `@`, or nothing.
pub open spec fn userinfo_text(u: SipView) -> Seq<char> {
    match u.user {
        Some(user) => user + params_text(u.user_params) + tagged(":"@, u.password) + "@"@,
        None => match u.password {
            Some(p) => ":"@ + p + "@"@,
            None => Seq::empty(),
        },
    }
}

/// A SIP URI written out.
pub open spec fn sip_text(u: SipView) -> Seq<char> {
    scheme_name(u.scheme) + ":"@ + userinfo_text(u) + host_text(u.host) + port_text(u.port)
        + params_text(u.params) + headers_text(u.headers) + tagged("#"@, u.fragment)
}

/// `user@host:port`, or without the parts absent.
pub open spec fn user_host_text(u: SipView) -> Seq<char> {
    tagged(Seq::empty(), u.user) + (if u.user is Some { "@"@ } else { Seq::empty() })
        + host_text(u.host) + port_text(u.port)
}

/// `digits_value` never decreases as digits are added.
pub proof fn lemma_digits_mono(s: Seq<char>, i: int, e1: int, e2: int)
    requires
        i <= e1 <= e2,
        forall|j: int| i <= j < e2 ==> dec_digit(#[trigger] s[j]),
    ensures
        digits_value(s, i, e1) <= digits_value(s, i, e2),
    decreases e2 - e1,
{
    if e1 < e2 {
        lemma_digits_mono(s, i, e1, e2 - 1);
        assert(dec_digit(s[e2 - 1]));
    }
}

fn parse_port(v: &Vec<char>, a: usize, b: usize) -> (r: Option<u16>)
    requires
        a < b <= v@.len(),
    ensures
        r == port_value(v@, a as int, b as int),
{
    let start = if v[a] == '+' && b - a > 1 {
        a + 1
    } else {
        a
    };
    let mut i = start;
    let mut value: u32 = 0;
    while i < b
        invariant
            a <= start <= i <= b <= v@.len(),
            start == (if v@[a as int] == '+' && b - a > 1 {
                a + 1
            } else {
                a as int
            }),
            forall|j: int| start <= j < i ==> dec_digit(#[trigger] v@[j]),
            value == digits_value(v@, start as int, i as int),
            value <= 65535,
        decreases b - i,
    {
        let c = v[i];
        if !('0' <= c && c <= '9') {
            assert(!dec_digit(v@[i as int]));
            return None;
        }
        let d: u32 = (c as u32) - ('0' as u32);
        value = value * 10 + d;
        i = i + 1;
        if value > 65535 {
            proof {
                if forall|j: int| start <= j < b ==> dec_digit(#[trigger] v@[j]) {
                    lemma_digits_mono(v@, start as int, i as int, b as int);
                }
            }
            return None;
        }
    }
    Some(value as u16)
}

/// Parse the userinfo `v[a..b]` (see `userinfo_parts`).
fn parse_userinfo(v: &Vec<char>, a: usize, b: usize, warnings: &mut Warnings) -> (r: Result<
    (Option<String>, Vec<(String, Option<String>)>, Option<String>),
    String,
>)
    requires
        a <= b <= v@.len(),
        byte_len(v@) <= usize::MAX,
    ensures
        match userinfo_parts(v@, a as int, b as int, old(warnings)@) {
            Ok((u, ups, pw, w)) => r matches Ok((u2, ups2, pw2)) && u2.deep_view() == u
                && ups2.deep_view() == ups && pw2.deep_view() == pw && final(warnings)@ == w,
            Err(m) => r matches Err(e) && e@ == m,
        },
{
    reveal(userinfo_parts);
    let c = scan_char(v, a, b, ':');
    let password = if c < b {
        Some(decode_chars(v, c + 1, b, CharSet::Password))
    } else {
        None
    };
    let up_end = c;
    let semi = scan_char(v, a, up_end, ';');
    if semi <= a {
        if semi < up_end {
            return Err(owned("empty user before ';'"));
        }
        warnings.push(Component::User, WarningCode::PasswordWithoutUser, v, a);
        if c < b {
            warnings.charset(Component::Password, v, c + 1, b, CharSet::Password);
        } else {
            assert(warnings@ =~= warnings@ + Seq::<ParseWarning>::empty());
        }
        let ups: Vec<(String, Option<String>)> = Vec::new();
        assert(ups.deep_view() =~= Seq::<ParamV>::empty());
        return Ok((None, ups, password));
    }
    let mut uw = Warnings::new();
    uw.charset(Component::User, v, a, semi, CharSet::User);
    assert(uw@ =~= charset_warnings(v@, Component::User, CharSet::User, a as int, semi as int));
    let ups = if semi < up_end {
        collect_params(v, semi + 1, up_end, ParamKind::User, &mut uw)
    } else {
        let e: Vec<(String, Option<String>)> = Vec::new();
        assert(e.deep_view() =~= Seq::<ParamV>::empty());
        e
    };
    let q = scan_char(v, a, up_end, '?');
    if q < up_end {
        uw.insert(Component::User, WarningCode::HeaderShapedUser, v, q);
    }
    warnings.extend(uw);
    if c < b {
        warnings.charset(Component::Password, v, c + 1, b, CharSet::Password);
    } else {
        assert(warnings@ =~= warnings@ + Seq::<ParseWarning>::empty());
    }
    let user = decode_chars(v, a, semi, CharSet::User);
    Ok((Some(user), ups, password))
}

/// Parse `v[lo..hi]` from the host on (see `hostport_parts`).
fn parse_hostport(v: &Vec<char>, lo: usize, hi: usize, warnings: &mut Warnings) -> (r: Result<
    (
        Host,
        Option<u16>,
        Vec<(String, Option<String>)>,
        Vec<(String, String)>,
        Option<String>,
    ),
    String,
>)
    requires
        lo <= hi <= v@.len(),
        byte_len(v@) <= usize::MAX,
    ensures
        match hostport_parts(v@, lo as int, hi as int, old(warnings)@) {
            Ok((h, port, ps, hs, f, w)) => r matches Ok((h2, port2, ps2, hs2, f2)) && h2@ == h
                && port2 == port && ps2.deep_view() == ps && hs2.deep_view() == hs
                && f2.deep_view() == f && final(warnings)@ == w,
            Err(m) => r matches Err(e) && e@ == m,
        },
{
    reveal(hostport_parts);
    let (host, c) = match Host::parse_from_uri(v, lo, hi, warnings) {
        Ok(x) => x,
        Err(e) => {
            return Err(e);
        },
    };
    let (port, a) = if c < hi && v[c] == ':' {
        let pe = scan_port_end(v, c + 1, hi);
        if pe <= c + 1 {
            warnings.push(Component::Port, WarningCode::EmptyPort, v, c);
            (None, pe)
        } else {
            if v[c + 1] == '+' {
                warnings.push(Component::Port, WarningCode::SignedPort, v, c + 1);
            }
            match parse_port(v, c + 1, pe) {
                None => {
                    return Err(owned("port is not a number in 0-65535"));
                },
                Some(p) => (Some(p), pe),
            }
        }
    } else {
        (None, c)
    };
    let h = scan_char(v, a, hi, '#');
    let mut fw = Warnings::new();
    let (e, fragment) = if h < hi {
        if h + 1 >= hi {
            fw.push(Component::Fragment, WarningCode::EmptyFragment, v, h);
            (h, None)
        } else {
            fw.push(Component::Fragment, WarningCode::UnexpectedFragment, v, h);
            (h, Some(string_of(v, h + 1, hi)))
        }
    } else {
        (hi, None)
    };
    assert(fw@ =~= fragment_section(v@, a as int, hi as int, Seq::empty()).2);
    let (params, headers) = if a >= e {
        let hs: Vec<(String, String)> = Vec::new();
        assert(hs.deep_view() =~= Seq::<HeaderV>::empty());
        (no_params(), hs)
    } else if v[a] == ';' {
        let q = scan_char(v, a + 1, e, '?');
        let ps = collect_params(v, a + 1, q, ParamKind::Uri, warnings);
        if q < e {
            match collect_headers(v, q + 1, e, warnings) {
                Err(m) => {
                    let mut msg = owned("header: ");
                    push_str(&mut msg, m.as_str());
                    return Err(msg);
                },
                Ok(hs) => (ps, hs),
            }
        } else {
            let hs: Vec<(String, String)> = Vec::new();
            assert(hs.deep_view() =~= Seq::<HeaderV>::empty());
            (ps, hs)
        }
    } else if v[a] == '?' {
        match collect_headers(v, a + 1, e, warnings) {
            Err(m) => {
                let mut msg = owned("header: ");
                push_str(&mut msg, m.as_str());
                return Err(msg);
            },
            Ok(hs) => (no_params(), hs),
        }
    } else {
        return Err(owned("unexpected character after host/port"));
    };
    warnings.extend(fw);
    Ok((host, port, params, headers, fragment))
}

fn no_params() -> (p: Vec<(String, Option<String>)>)
    ensures
        p.deep_view() == Seq::<ParamV>::empty(),
{
    let p: Vec<(String, Option<String>)> = Vec::new();
    assert(p.deep_view() =~= Seq::<ParamV>::empty());
    p
}

/// First index of `; ? # >` in `v[lo..hi]`, or `hi`.
fn scan_port_end(v: &Vec<char>, lo: usize, hi: usize) -> (r: usize)
    requires
        lo <= hi <= v@.len(),
    ensures
        r == scan(v@, port_stops(), lo as int, hi as int),
        lo <= r <= hi,
{
    proof {
        lemma_scan(v@, port_stops(), lo as int, hi as int);
    }
    let mut i = lo;
    while i < hi
        invariant
            lo <= i <= hi <= v@.len(),
            scan(v@, port_stops(), lo as int, hi as int) == scan(v@, port_stops(), i as int, hi as int),
        decreases hi - i,
    {
        let c = v[i];
        if c == ';' || c == '?' || c == '#' || c == '>' {
            assert(port_stops()(v@[i as int]));
            return i;
        }
        assert(!port_stops()(v@[i as int]));
        i = i + 1;
    }
    i
}

impl SipUri {
    /// A `sip:` URI with the given host and nothing else.
    pub fn new(host: Host) -> (u: SipUri)
        ensures
            u@.scheme == Scheme::Sip,
            u@.user is None,
            u@.user_params == Seq::<ParamV>::empty(),
            u@.password is None,
            u@.host == host@,
            u@.port is None,
            u@.params == Seq::<ParamV>::empty(),
            u@.headers == Seq::<HeaderV>::empty(),
            u@.fragment is None,
    {
        let u = SipUri {
            scheme: Scheme::Sip,
            user: None,
            user_params: Vec::new(),
            password: None,
            host,
            port: None,
            params: Vec::new(),
            headers: Vec::new(),
            fragment: None,
        };
        assert(u@.user_params =~= Seq::<ParamV>::empty());
        assert(u@.params =~= Seq::<ParamV>::empty());
        assert(u@.headers =~= Seq::<HeaderV>::empty());
        u
    }

    /// Set the scheme.
    pub fn with_scheme(self, scheme: Scheme) -> (u: SipUri)
        ensures
            u@ == (SipView { scheme, ..self@ }),
    {
        let mut u = self;
        u.scheme = scheme;
        u
    }

    /// Set the user part.
    pub fn with_user(self, user: &str) -> (u: SipUri)
        ensures
            u@ == (SipView { user: Some(user@), ..self@ }),
    {
        let mut u = self;
        u.user = Some(owned(user));
        u
    }

    /// Replace all user-params.
    pub fn with_user_params(self, params: Vec<(String, Option<String>)>) -> (u: SipUri)
        ensures
            u@ == (SipView { user_params: params.deep_view(), ..self@ }),
    {
        let mut u = self;
        u.user_params = params;
        u
    }

    /// Add one user-param at the end.
    pub fn with_user_param(self, name: &str, value: Option<String>) -> (u: SipUri)
        ensures
            u@ == (SipView {
                user_params: self@.user_params.push((name@, value.deep_view())),
                ..self@
            }),
    {
        let mut u = self;
        let ghost before = u.user_params.deep_view();
        u.user_params.push((owned(name), value));
        assert(u.user_params.deep_view() =~= before.push((name@, value.deep_view())));
        u
    }

    /// Set the password.
    pub fn with_password(self, password: &str) -> (u: SipUri)
        ensures
            u@ == (SipView { password: Some(password@), ..self@ }),
    {
        let mut u = self;
        u.password = Some(owned(password));
        u
    }

    /// Set the port.
    pub fn with_port(self, port: u16) -> (u: SipUri)
        ensures
            u@ == (SipView { port: Some(port), ..self@ }),
    {
        let mut u = self;
        u.port = Some(port);
        u
    }

    /// Add a URI parameter at the end.
    pub fn with_param(self, name: &str, value: Option<String>) -> (u: SipUri)
        ensures
            u@ == (SipView { params: self@.params.push((name@, value.deep_view())), ..self@ }),
    {
        let mut u = self;
        let ghost before = u.params.deep_view();
        u.params.push((owned(name), value));
        assert(u.params.deep_view() =~= before.push((name@, value.deep_view())));
        u
    }

    /// Add a header at the end.
    pub fn with_header(self, name: &str, value: &str) -> (u: SipUri)
        ensures
            u@ == (SipView { headers: self@.headers.push((name@, value@)), ..self@ }),
    {
        let mut u = self;
        let ghost before = u.headers.deep_view();
        u.headers.push((owned(name), owned(value)));
        assert(u.headers.deep_view() =~= before.push((name@, value@)));
        u
    }

    /// Set the fragment.
    pub fn with_fragment(self, fragment: &str) -> (u: SipUri)
        ensures
            u@ == (SipView { fragment: Some(fragment@), ..self@ }),
    {
        let mut u = self;
        u.fragment = Some(owned(fragment));
        u
    }

    /// The scheme.
    pub fn scheme(&self) -> (r: Scheme)
        ensures
            r == self@.scheme,
    {
        self.scheme
    }

    /// The user part, without user-params or password.
    pub fn user(&self) -> (r: Option<&str>)
        ensures
            r.deep_view() == self@.user,
    {
        match &self.user {
            Some(u) => Some(u.as_str()),
            None => None,
        }
    }

    /// The parameters inside the userinfo.
    pub fn user_params(&self) -> (r: &[(String, Option<String>)])
        ensures
            r.deep_view() == self@.user_params,
    {
        self.user_params.as_slice()
    }

    /// The password.
    pub fn password(&self) -> (r: Option<&str>)
        ensures
            r.deep_view() == self@.password,
    {
        match &self.password {
            Some(p) => Some(p.as_str()),
            None => None,
        }
    }

    /// The host.
    pub fn host(&self) -> (r: &Host)
        ensures
            r@ == self@.host,
    {
        &self.host
    }

    /// The explicit port.
    pub fn port(&self) -> (r: Option<u16>)
        ensures
            r == self@.port,
    {
        self.port
    }

    /// The URI parameters.
    pub fn params(&self) -> (r: &[(String, Option<String>)])
        ensures
            r.deep_view() == self@.params,
    {
        self.params.as_slice()
    }

    /// Look up a URI parameter by name, ignoring ASCII case; the first
    /// match wins.
    pub fn param(&self, name: &str) -> (r: Option<&Option<String>>)
        ensures
            match param_index(self@.params, name@) {
                Some(i) => r matches Some(x) && x.deep_view() == self@.params[i].1,
                None => r is None,
            },
    {
        let ps = self.params.as_slice();
        assert(ps.deep_view() =~= self.params.deep_view());
        let r = find_param(ps, name);
        proof {
            crate::params::lemma_param_index(self@.params, name@, 0);
            if let Some(i) = param_index(self@.params, name@) {
                assert(ps.deep_view()[i] == ps@[i].deep_view());
            }
        }
        r
    }

    /// The URI headers.
    pub fn headers(&self) -> (r: &[(String, String)])
        ensures
            r.deep_view() == self@.headers,
    {
        self.headers.as_slice()
    }

    /// Look up a header value by name, ignoring ASCII case; the first match
    /// wins.
    pub fn header(&self, name: &str) -> (r: Option<&str>)
        ensures
            match header_index_from(self@.headers, name@, 0) {
                Some(i) => r matches Some(x) && x@ == self@.headers[i].1,
                None => r is None,
            },
    {
        let hs = self.headers.as_slice();
        assert(hs.deep_view() =~= self.headers.deep_view());
        find_header(hs, name)
    }

    /// The fragment.
    pub fn fragment(&self) -> (r: Option<&str>)
        ensures
            r.deep_view() == self@.fragment,
    {
        match &self.fragment {
            Some(f) => Some(f.as_str()),
            None => None,
        }
    }

    /// `user@host:port`, leaving out what is absent.
    pub fn user_host(&self) -> (s: String)
        ensures
            s@ == user_host_text(self@),
    {
        let mut s = String::new();
        match &self.user {
            Some(u) => {
                push_str(&mut s, u.as_str());
                push_str(&mut s, "@");
            },
            None => {},
        }
        let h = self.host.to_string();
        push_str(&mut s, h.as_str());
        match self.port {
            Some(p) => {
                push_str(&mut s, ":");
                push_decimal(&mut s, p as usize);
            },
            None => {},
        }
        assert(s@ =~= user_host_text(self@));
        s
    }

    /// The URI written out (see `sip_text`).
    pub fn to_string(&self) -> (s: String)
        ensures
            s@ == sip_text(self@),
    {
        let mut s = owned(self.scheme.as_str());
        push_str(&mut s, ":");
        let ghost head = s@;
        match &self.user {
            Some(user) => {
                push_str(&mut s, user.as_str());
                format_params(self.user_params.as_slice(), &mut s);
                match &self.password {
                    Some(p) => {
                        push_str(&mut s, ":");
                        push_str(&mut s, p.as_str());
                    },
                    None => {},
                }
                push_str(&mut s, "@");
            },
            None => {
                match &self.password {
                    Some(p) => {
                        push_str(&mut s, ":");
                        push_str(&mut s, p.as_str());
                        push_str(&mut s, "@");
                    },
                    None => {},
                }
            },
        }
        assert(s@ =~= head + userinfo_text(self@));
        let ghost mid = s@;
        let h = self.host.to_string();
        push_str(&mut s, h.as_str());
        match self.port {
            Some(p) => {
                push_str(&mut s, ":");
                push_decimal(&mut s, p as usize);
            },
            None => {},
        }
        format_params(self.params.as_slice(), &mut s);
        format_headers(self.headers.as_slice(), &mut s);
        match &self.fragment {
            Some(f) => {
                push_str(&mut s, "#");
                push_str(&mut s, f.as_str());
            },
            None => {},
        }
        assert(s@ =~= sip_text(self@));
        s
    }

    /// Parse, reporting the grammar breaches accepted beside the value.
    pub fn parse_with_warnings(input: &str) -> (r: Result<Parsed<SipUri>, ParseSipUriError>)
        ensures
            match parse_sip(input@) {
                Ok((u, w)) => r matches Ok(p) && p.value@ == u && p.warnings@ == w,
                Err(m) => r matches Err(e) && e.0@ == m,
            },
            r matches Ok(p) ==> crate::warning::in_input_order(p.warnings@),
    {
        byte_len_fits(input);
        proof {
            if parse_sip(input@) is Ok {
                crate::order::law_sip_warnings_in_order(input@);
            }
        }
        let v = chars_of(input);
        let mut warnings = Warnings::new();
        match SipUri::parse_chars(&v, &mut warnings) {
            Ok(u) => Ok(warnings.finish(u)),
            Err(m) => Err(ParseSipUriError(m)),
        }
    }

    /// Parse, dropping the warnings; accepts exactly what
    /// `parse_with_warnings` accepts.
    pub fn parse(input: &str) -> (r: Result<SipUri, ParseSipUriError>)
        ensures
            match parse_sip(input@) {
                Ok((u, w)) => r matches Ok(x) && x@ == u,
                Err(m) => r matches Err(e) && e.0@ == m,
            },
    {
        match SipUri::parse_with_warnings(input) {
            Ok(p) => Ok(p.value),
            Err(e) => Err(e),
        }
    }

    fn parse_chars(v: &Vec<char>, warnings: &mut Warnings) -> (r: Result<SipUri, String>)
        requires
            byte_len(v@) <= usize::MAX,
            old(warnings)@ == Seq::<ParseWarning>::empty(),
        ensures
            match parse_sip(v@) {
                Ok((u, w)) => r matches Ok(x) && x@ == u && final(warnings)@ == w,
                Err(m) => r matches Err(e) && e@ == m,
            },
    {
        let n = v.len();
        let colon = scan_char(v, 0, n, ':');
        if colon >= n {
            return Err(owned("missing scheme"));
        }
        let sip_lit: Vec<char> = vec!['s', 'i', 'p'];
        let sips_lit: Vec<char> = vec!['s', 'i', 'p', 's'];
        proof {
            reveal_strlit("sip");
            reveal_strlit("sips");
            assert(sip_lit@ =~= "sip"@);
            assert(sips_lit@ =~= "sips"@);
            assert(v@.subrange(0, colon as int) =~= v@.take(colon as int));
        }
        let scheme = if eq_ignore_case_at(v, 0, colon, &sip_lit) {
            Scheme::Sip
        } else if eq_ignore_case_at(v, 0, colon, &sips_lit) {
            Scheme::Sips
        } else {
            return Err(owned("scheme is not sip or sips"));
        };
        SipUri::parse_rest(v, scheme, colon + 1, warnings)
    }

    fn parse_rest(v: &Vec<char>, scheme: Scheme, r: usize, warnings: &mut Warnings) -> (res: Result<
        SipUri,
        String,
    >)
        requires
            0 < r <= v@.len(),
            byte_len(v@) <= usize::MAX,
            old(warnings)@ == Seq::<ParseWarning>::empty(),
        ensures
            match sip_rest(v@, scheme, r as int) {
                Ok((u, w)) => res matches Ok(x) && x@ == u && final(warnings)@ == w,
                Err(m) => res matches Err(e) && e@ == m,
            },
    {
        let n = v.len();
        proof {
            crate::parse::lemma_userinfo_at_bounds(v@, r as int, n as int);
        }
        match userinfo_at_in(v, r, n) {
            Some(at) => {
                if at <= r {
                    return Err(owned("empty userinfo before @"));
                }
                if at + 1 >= n {
                    return Err(owned("missing host after @"));
                }
                match parse_userinfo(v, r, at, warnings) {
                    Ok((user, user_params, password)) => SipUri::finish(
                        v,
                        at + 1,
                        scheme,
                        user,
                        user_params,
                        password,
                        warnings,
                    ),
                    Err(m) => Err(m),
                }
            },
            None => SipUri::finish(v, r, scheme, None, no_params(), None, warnings),
        }
    }

    fn finish(
        v: &Vec<char>,
        lo: usize,
        scheme: Scheme,
        user: Option<String>,
        user_params: Vec<(String, Option<String>)>,
        password: Option<String>,
        warnings: &mut Warnings,
    ) -> (res: Result<SipUri, String>)
        requires
            lo <= v@.len(),
            byte_len(v@) <= usize::MAX,
        ensures
            match with_hostport(
                v@,
                lo as int,
                scheme,
                user.deep_view(),
                user_params.deep_view(),
                password.deep_view(),
                old(warnings)@,
            ) {
                Ok((u, w)) => res matches Ok(x) && x@ == u && final(warnings)@ == w,
                Err(m) => res matches Err(e) && e@ == m,
            },
    {
        match parse_hostport(v, lo, v.len(), warnings) {
            Ok((host, port, params, headers, fragment)) => Ok(
                SipUri {
                    scheme,
                    user,
                    user_params,
                    password,
                    host,
                    port,
                    params,
                    headers,
                    fragment,
                },
            ),
            Err(m) => Err(m),
        }
    }
}

impl std::str::FromStr for SipUri {
    type Err = ParseSipUriError;

    fn from_str(input: &str) -> (r: Result<SipUri, ParseSipUriError>)
        ensures
            match parse_sip(input@) {
                Ok((u, w)) => r matches Ok(x) && x@ == u,
                Err(m) => r matches Err(e) && e.0@ == m,
            },
    {
        SipUri::parse(input)
    }
}

} // verus!
