//! A URI of any scheme: SIP/SIPS, tel and URN are parsed by their own
//! grammars, any other scheme is kept as the raw text.

use vstd::prelude::*;
use vstd::std_specs::convert::FromSpecImpl;

use crate::error::ParseUriError;
use crate::params::scan_char;
use crate::parse::is_char;
use crate::sip_uri::{SipUri, SipView, parse_sip, sip_text};
use crate::tel_uri::{TelUri, TelView, parse_tel, tel_text, tel_warnings};
use crate::warning::{Component, ParseWarning, Parsed, WarningCode, Warnings, warning_at};
use crate::text::{byte_len_fits, chars_of, eq_ignore_case, eq_ignore_case_at, owned, scan};
use crate::urn_uri::{UrnUri, UrnView, parse_urn, urn_text, urn_warnings};

verus! {

broadcast use vstd::string::group_string_axioms;

/// A parsed URI: SIP/SIPS, tel, URN, or any other scheme as raw text.
#[derive(Debug, Clone, PartialEq, Eq)]
#[non_exhaustive]
pub enum Uri {
    /// SIP or SIPS URI.
    Sip(SipUri),
    /// tel: URI.
    Tel(TelUri),
    /// URN (Uniform Resource Name).
    Urn(UrnUri),
    /// A URI of any other scheme, kept as the text it was parsed from.
    Other(String),
}

/// A URI as values.
pub enum UriView {
    /// A SIP or SIPS URI.
    Sip(SipView),
    /// A tel: URI.
    Tel(TelView),
    /// A URN.
    Urn(UrnView),
    /// Any other scheme, as text.
    Other(Seq<char>),
}

impl View for Uri {
    type V = UriView;

    closed spec fn view(&self) -> UriView {
        match self {
            Uri::Sip(u) => UriView::Sip(u@),
            Uri::Tel(u) => UriView::Tel(u@),
            Uri::Urn(u) => UriView::Urn(u@),
            Uri::Other(x) => UriView::Other(x@),
        }
    }
}

/// ASCII letter.
pub open spec fn letter(c: char) -> bool {
    ('a' <= c && c <= 'z') || ('A' <= c && c <= 'Z')
}

/// RFC 3986 `scheme = ALPHA *( ALPHA / DIGIT / "+" / "-" / "." )`.
pub open spec fn valid_scheme(x: Seq<char>) -> bool {
    &&& x.len() > 0
    &&& letter(x[0])
    &&& forall|j: int|
        1 <= j < x.len() ==> letter(#[trigger] x[j]) || ('0' <= x[j] && x[j] <= '9') || x[j] == '+'
            || x[j] == '-' || x[j] == '.'
}

/// The URI that `s` denotes, or the reason it denotes none. The scheme
/// before the first `:` picks the grammar, in any case; a scheme other than
/// `sip`, `sips`, `tel` and `urn` keeps the whole text; without a `:`, or
/// with nothing before it, there is no scheme.
pub open spec fn parse_uri(s: Seq<char>) -> Result<UriView, Seq<char>> {
    let colon = scan(s, is_char(':'), 0, s.len() as int);
    let scheme = s.take(colon);
    if colon >= s.len() || colon == 0 {
        Err("missing scheme"@)
    } else if eq_ignore_case(scheme, "tel"@) {
        match parse_tel(s) {
            Ok(t) => Ok(UriView::Tel(t)),
            Err(m) => Err(m),
        }
    } else if eq_ignore_case(scheme, "sip"@) || eq_ignore_case(scheme, "sips"@) {
        match parse_sip(s) {
            Ok((u, _w)) => Ok(UriView::Sip(u)),
            Err(m) => Err(m),
        }
    } else if eq_ignore_case(scheme, "urn"@) {
        match parse_urn(s) {
            Ok(u) => Ok(UriView::Urn(u)),
            Err(m) => Err(m),
        }
    } else {
        Ok(UriView::Other(s))
    }
}

/// The warnings a URI `s` raises: those of its scheme's grammar, and for
/// another scheme a scheme outside the RFC 3986 grammar, at its start.
pub open spec fn uri_warnings(s: Seq<char>) -> Seq<ParseWarning> {
    let colon = scan(s, is_char(':'), 0, s.len() as int);
    let scheme = s.take(colon);
    if colon >= s.len() || colon == 0 {
        Seq::empty()
    } else if eq_ignore_case(scheme, "tel"@) {
        tel_warnings(s)
    } else if eq_ignore_case(scheme, "sip"@) || eq_ignore_case(scheme, "sips"@) {
        match parse_sip(s) {
            Ok((_u, w)) => w,
            Err(_m) => Seq::empty(),
        }
    } else if eq_ignore_case(scheme, "urn"@) {
        urn_warnings(s)
    } else if valid_scheme(scheme) {
        Seq::empty()
    } else {
        seq![warning_at(s, Component::Scheme, WarningCode::InvalidScheme, 0)]
    }
}

/// A URI written out.
pub open spec fn uri_text(u: UriView) -> Seq<char> {
    match u {
        UriView::Sip(v) => sip_text(v),
        UriView::Tel(v) => tel_text(v),
        UriView::Urn(v) => urn_text(v),
        UriView::Other(x) => x,
    }
}

fn check_scheme(v: &Vec<char>, colon: usize) -> (r: bool)
    requires
        colon <= v@.len(),
    ensures
        r == valid_scheme(v@.take(colon as int)),
{
    let ghost x = v@.take(colon as int);
    if colon == 0 {
        return false;
    }
    let c0 = v[0];
    if !(('a' <= c0 && c0 <= 'z') || ('A' <= c0 && c0 <= 'Z')) {
        assert(!letter(x[0]));
        return false;
    }
    let mut i: usize = 1;
    while i < colon
        invariant
            1 <= i <= colon <= v@.len(),
            x == v@.take(colon as int),
            forall|j: int|
                1 <= j < i ==> letter(#[trigger] x[j]) || ('0' <= x[j] && x[j] <= '9') || x[j]
                    == '+' || x[j] == '-' || x[j] == '.',
        decreases colon - i,
    {
        let c = v[i];
        assert(x[i as int] == c);
        if !(('a' <= c && c <= 'z') || ('A' <= c && c <= 'Z') || ('0' <= c && c <= '9') || c == '+'
            || c == '-' || c == '.') {
            return false;
        }
        i = i + 1;
    }
    true
}

fn lit(s: &str) -> (v: Vec<char>)
    ensures
        v@ == s@,
{
    chars_of(s)
}

impl Uri {
    /// The SIP/SIPS URI, if this is one.
    pub fn as_sip(&self) -> (r: Option<&SipUri>)
        ensures
            match self@ {
                UriView::Sip(v) => r matches Some(x) && x@ == v,
                _ => r is None,
            },
    {
        match self {
            Uri::Sip(u) => Some(u),
            _ => None,
        }
    }

    /// The tel: URI, if this is one.
    pub fn as_tel(&self) -> (r: Option<&TelUri>)
        ensures
            match self@ {
                UriView::Tel(v) => r matches Some(x) && x@ == v,
                _ => r is None,
            },
    {
        match self {
            Uri::Tel(u) => Some(u),
            _ => None,
        }
    }

    /// The URN, if this is one.
    pub fn as_urn(&self) -> (r: Option<&UrnUri>)
        ensures
            match self@ {
                UriView::Urn(v) => r matches Some(x) && x@ == v,
                _ => r is None,
            },
    {
        match self {
            Uri::Urn(u) => Some(u),
            _ => None,
        }
    }

    /// The raw text of a URI of another scheme, if this is one.
    pub fn as_other(&self) -> (r: Option<&str>)
        ensures
            match self@ {
                UriView::Other(x) => r matches Some(y) && y@ == x,
                _ => r is None,
            },
    {
        match self {
            Uri::Other(x) => Some(x.as_str()),
            _ => None,
        }
    }

    /// The URI written out, as its own scheme writes it.
    pub fn to_string(&self) -> (s: String)
        ensures
            s@ == uri_text(self@),
    {
        match self {
            Uri::Sip(u) => u.to_string(),
            Uri::Tel(u) => u.to_string(),
            Uri::Urn(u) => u.to_string(),
            Uri::Other(x) => x.clone(),
        }
    }

    /// Parse a URI, choosing the grammar by the scheme (see `parse_uri`).
    pub fn parse(input: &str) -> (r: Result<Uri, ParseUriError>)
        ensures
            match parse_uri(input@) {
                Ok(u) => r matches Ok(x) && x@ == u,
                Err(m) => r matches Err(e) && e.0@ == m,
            },
    {
        match Uri::parse_with_warnings(input) {
            Ok(p) => Ok(p.value),
            Err(e) => Err(e),
        }
    }

    /// Parse a URI as `parse` does, with the warnings of `uri_warnings`: it
    /// accepts exactly what `parse` accepts.
    pub fn parse_with_warnings(input: &str) -> (r: Result<Parsed<Uri>, ParseUriError>)
        ensures
            match parse_uri(input@) {
                Ok(u) => r matches Ok(p) && p.value@ == u && p.warnings@ == uri_warnings(input@),
                Err(m) => r matches Err(e) && e.0@ == m,
            },
            r matches Ok(p) ==> crate::warning::in_input_order(p.warnings@),
    {
        byte_len_fits(input);
        proof {
            if parse_uri(input@) is Ok {
                crate::order::law_uri_warnings_in_order(input@);
            }
        }
        let v = chars_of(input);
        let n = v.len();
        let colon = scan_char(&v, 0, n, ':');
        if colon >= n || colon == 0 {
            return Err(ParseUriError(owned("missing scheme")));
        }
        proof {
            assert(v@.subrange(0, colon as int) =~= v@.take(colon as int));
        }
        if eq_ignore_case_at(&v, 0, colon, &lit("tel")) {
            match TelUri::parse_with_warnings(input) {
                Ok(p) => Ok(Parsed { value: Uri::Tel(p.value), warnings: p.warnings }),
                Err(e) => Err(ParseUriError::from(e)),
            }
        } else if eq_ignore_case_at(&v, 0, colon, &lit("sip")) || eq_ignore_case_at(
            &v,
            0,
            colon,
            &lit("sips"),
        ) {
            match SipUri::parse_with_warnings(input) {
                Ok(p) => Ok(Parsed { value: Uri::Sip(p.value), warnings: p.warnings }),
                Err(e) => Err(ParseUriError::from(e)),
            }
        } else if eq_ignore_case_at(&v, 0, colon, &lit("urn")) {
            match UrnUri::parse_with_warnings(input) {
                Ok(p) => Ok(Parsed { value: Uri::Urn(p.value), warnings: p.warnings }),
                Err(e) => Err(ParseUriError::from(e)),
            }
        } else {
            let mut w = Warnings::new();
            if !check_scheme(&v, colon) {
                w.push(Component::Scheme, WarningCode::InvalidScheme, &v, 0);
                assert(w@ =~= uri_warnings(input@));
            } else {
                assert(w@ =~= uri_warnings(input@));
            }
            Ok(w.finish(Uri::Other(owned(input))))
        }
    }
}

impl From<SipUri> for Uri {
    fn from(u: SipUri) -> (r: Uri) {
        Uri::Sip(u)
    }
}

impl FromSpecImpl<SipUri> for Uri {
    open spec fn obeys_from_spec() -> bool {
        true
    }

    open spec fn from_spec(u: SipUri) -> Uri {
        Uri::Sip(u)
    }
}

impl From<TelUri> for Uri {
    fn from(u: TelUri) -> (r: Uri) {
        Uri::Tel(u)
    }
}

impl FromSpecImpl<TelUri> for Uri {
    open spec fn obeys_from_spec() -> bool {
        true
    }

    open spec fn from_spec(u: TelUri) -> Uri {
        Uri::Tel(u)
    }
}

impl From<UrnUri> for Uri {
    fn from(u: UrnUri) -> (r: Uri) {
        Uri::Urn(u)
    }
}

impl FromSpecImpl<UrnUri> for Uri {
    open spec fn obeys_from_spec() -> bool {
        true
    }

    open spec fn from_spec(u: UrnUri) -> Uri {
        Uri::Urn(u)
    }
}

impl std::str::FromStr for Uri {
    type Err = ParseUriError;

    fn from_str(input: &str) -> (r: Result<Uri, ParseUriError>)
        ensures
            match parse_uri(input@) {
                Ok(u) => r matches Ok(x) && x@ == u,
                Err(m) => r matches Err(e) && e.0@ == m,
            },
    {
        Uri::parse(input)
    }
}

/// Written-out text starts with `scheme:`, the scheme in lowercase.
pub proof fn lemma_scheme_prefix(t: Seq<char>, scheme: Seq<char>)
    requires
        t.len() > scheme.len(),
        t.subrange(0, scheme.len() as int) == scheme,
        t[scheme.len() as int] == ':',
        forall|k: int| 0 <= k < scheme.len() ==> scheme[k] != ':',
    ensures
        scan(t, is_char(':'), 0, t.len() as int) == scheme.len(),
        t.take(scheme.len() as int) == scheme,
{
    assert forall|k: int| 0 <= k < scheme.len() implies !is_char(':')(#[trigger] t[k]) by {
        assert(t[k] == t.subrange(0, scheme.len() as int)[k]);
    }
    crate::canon::lemma_scan_is(t, is_char(':'), 0, scheme.len() as int, t.len() as int);
    assert(t.take(scheme.len() as int) =~= scheme);
}

/// The tel: case of `law_uri_round_trip`.
pub proof fn lemma_uri_tel(s: Seq<char>)
    requires
        parse_uri(s) matches Ok(UriView::Tel(v)) && uri_stable(UriView::Tel(v)),
    ensures
        parse_uri(uri_text(parse_uri(s)->Ok_0)) == parse_uri(s),
{
    reveal_strlit("tel");
    reveal_strlit("tel:");
    let u = parse_uri(s)->Ok_0;
    let v = u->Tel_0;
    let colon = scan(s, is_char(':'), 0, s.len() as int);
    assert(eq_ignore_case(s.take(colon), "tel"@));
    assert(parse_tel(s) == Ok::<TelView, Seq<char>>(v));
    crate::tel_uri::law_tel_round_trip(s);
    let t = uri_text(u);
    assert(t == "tel:"@ + v.number + crate::params::params_text(v.params)
        + crate::tel_uri::fragment_text(v));
    assert(t.subrange(0, 3) =~= "tel"@);
    lemma_scheme_prefix(t, "tel"@);
}

/// The URN case of `law_uri_round_trip`.
pub proof fn lemma_uri_urn(s: Seq<char>)
    requires
        parse_uri(s) matches Ok(UriView::Urn(v)),
    ensures
        parse_uri(uri_text(parse_uri(s)->Ok_0)) == parse_uri(s),
{
    reveal_strlit("tel");
    reveal_strlit("sip");
    reveal_strlit("sips");
    reveal_strlit("urn");
    reveal_strlit("urn:");
    reveal_strlit(":");
    let u = parse_uri(s)->Ok_0;
    let v = u->Urn_0;
    assert(parse_urn(s) == Ok::<UrnView, Seq<char>>(v));
    crate::urn_uri::law_urn_round_trip(s);
    let t = uri_text(u);
    assert(t == "urn:"@ + v.nid + ":"@ + v.nss + crate::urn_uri::opt_text("?+"@, v.r)
        + crate::urn_uri::opt_text("?="@, v.q) + crate::urn_uri::opt_text("#"@, v.f));
    assert(t.subrange(0, 3) =~= "urn"@);
    lemma_scheme_prefix(t, "urn"@);
    assert(!eq_ignore_case("urn"@, "tel"@));
    assert(!eq_ignore_case("urn"@, "sip"@));
    assert(!eq_ignore_case("urn"@, "sips"@));
}

/// The SIP case of `law_uri_round_trip`.
#[verifier::rlimit(60)]
#[verifier::spinoff_prover]
pub proof fn lemma_uri_sip(s: Seq<char>)
    requires
        parse_uri(s) matches Ok(UriView::Sip(v)) && crate::sip_reparse::sip_stable(v),
    ensures
        parse_uri(uri_text(parse_uri(s)->Ok_0)) == parse_uri(s),
{
    reveal_strlit("tel");
    reveal_strlit("sip");
    reveal_strlit("sips");
    reveal_strlit(":");
    reveal_strlit("#");
    let u = parse_uri(s)->Ok_0;
    let v = u->Sip_0;
    assert(parse_sip(s) is Ok && parse_sip(s)->Ok_0.0 == v);
    crate::sip_reparse::law_sip_round_trip(s);
    let t = uri_text(u);
    let sn = crate::sip_uri::scheme_name(v.scheme);
    assert(t == sip_text(v));
    crate::sip_reparse::lemma_sip_text_prefix(v);
    lemma_scheme_prefix(t, sn);
    assert(crate::text::lower("sip"@[0]) != crate::text::lower("tel"@[0]));
    assert(!eq_ignore_case("sip"@, "tel"@));
    assert(!eq_ignore_case("sips"@, "tel"@));
    assert(eq_ignore_case("sip"@, "sip"@));
    assert(eq_ignore_case("sips"@, "sips"@));
}

/// A parsed URI that reads back as itself: a SIP URI that is stable (see
/// `sip_stable`), a tel: URI whose parameters decoding leaves as they are;
/// URNs and other schemes always do.
pub open spec fn uri_stable(u: UriView) -> bool {
    match u {
        UriView::Sip(v) => crate::sip_reparse::sip_stable(v),
        UriView::Tel(v) => crate::sip_reparse::params_decoded(v.params, crate::parse::CharSet::Param),
        _ => true,
    }
}

/// Writing out a parsed URI and parsing the text again gives the same URI,
/// `parse(display(parse(x))) == parse(x)`: for every accepted URN and URI of
/// another scheme, and for a SIP or tel: URI whenever it is stable (see
/// `uri_stable`).
pub proof fn law_uri_round_trip(s: Seq<char>)
    requires
        parse_uri(s) is Ok,
        uri_stable(parse_uri(s)->Ok_0),
    ensures
        parse_uri(uri_text(parse_uri(s)->Ok_0)) == parse_uri(s),
{
    match parse_uri(s)->Ok_0 {
        UriView::Tel(v) => lemma_uri_tel(s),
        UriView::Urn(v) => lemma_uri_urn(s),
        UriView::Sip(v) => lemma_uri_sip(s),
        UriView::Other(x) => {},
    }
}

/// A scheme spelled in `s` letter by letter as `name`, each letter as in
/// `name` or lowering to it, followed by `:`, is `name` ignoring ASCII case.
proof fn lemma_scheme_any_case(s: Seq<char>, name: Seq<char>)
    requires
        s.len() > name.len(),
        s[name.len() as int] == ':',
        forall|k: int| 0 <= k < name.len() ==> #[trigger] name[k] != ':' && crate::text::lower(name[k]) == name[k],
        forall|k: int|
            0 <= k < name.len() ==> #[trigger] s[k] != ':' && crate::text::lower(s[k]) == name[k],
    ensures
        scan(s, is_char(':'), 0, s.len() as int) == name.len(),
        eq_ignore_case(s.take(name.len() as int), name),
{
    let m = name.len() as int;
    assert forall|k: int| 0 <= k < m implies !is_char(':')(#[trigger] s[k]) by {}
    crate::canon::lemma_scan_is(s, is_char(':'), 0, m, s.len() as int);
    assert forall|k: int| 0 <= k < m implies crate::text::lower(#[trigger] s.take(m)[k])
        == crate::text::lower(name[k]) by {
        assert(s.take(m)[k] == s[k]);
    }
}

/// One of `sip`, `sips`, `tel` and `urn`, none equal to another ignoring
/// case.
proof fn lemma_known_schemes_differ()
    ensures
        !eq_ignore_case("sip"@, "tel"@),
        !eq_ignore_case("sips"@, "tel"@),
        !eq_ignore_case("urn"@, "tel"@),
        !eq_ignore_case("urn"@, "sip"@),
        !eq_ignore_case("urn"@, "sips"@),
{
    reveal_strlit("tel");
    reveal_strlit("sip");
    reveal_strlit("sips");
    reveal_strlit("urn");
    assert(crate::text::lower("sip"@[0]) != crate::text::lower("tel"@[0]));
    assert(crate::text::lower("urn"@[0]) != crate::text::lower("tel"@[0]));
    assert(crate::text::lower("urn"@[0]) != crate::text::lower("sip"@[0]));
}

/// A URI whose scheme is `sip` or `sips` in any mix of case is a SIP URI:
/// `Uri` parsing gives exactly what SIP parsing gives, its error included,
/// and the same warnings.
pub proof fn law_uri_sip_any_case(s: Seq<char>)
    requires
        s.len() > 4,
        s[0] == 's' || s[0] == 'S',
        s[1] == 'i' || s[1] == 'I',
        s[2] == 'p' || s[2] == 'P',
        s[3] == ':' || ((s[3] == 's' || s[3] == 'S') && s[4] == ':'),
    ensures
        parse_uri(s) == match parse_sip(s) {
            Ok((u, _w)) => Ok::<UriView, Seq<char>>(UriView::Sip(u)),
            Err(m) => Err(m),
        },
        uri_warnings(s) == match parse_sip(s) {
            Ok((_u, w)) => w,
            Err(_m) => Seq::<ParseWarning>::empty(),
        },
{
    reveal_strlit("sip");
    reveal_strlit("sips");
    reveal_strlit("tel");
    lemma_known_schemes_differ();
    let name = if s[3] == ':' {
        "sip"@
    } else {
        "sips"@
    };
    lemma_scheme_any_case(s, name);
    let colon = name.len() as int;
    let scheme = s.take(colon);
    assert(!eq_ignore_case(scheme, "tel"@)) by {
        assert(crate::text::lower(scheme[0]) == 's');
        assert(crate::text::lower("tel"@[0]) == 't');
    }
    assert(eq_ignore_case(scheme, "sip"@) || eq_ignore_case(scheme, "sips"@));
}

/// A URI whose scheme is `tel` in any mix of case is a tel: URI: `Uri`
/// parsing gives exactly what tel: parsing gives, its error included, and
/// the same warnings.
pub proof fn law_uri_tel_any_case(s: Seq<char>)
    requires
        s.len() > 3,
        s[0] == 't' || s[0] == 'T',
        s[1] == 'e' || s[1] == 'E',
        s[2] == 'l' || s[2] == 'L',
        s[3] == ':',
    ensures
        parse_uri(s) == match parse_tel(s) {
            Ok(u) => Ok::<UriView, Seq<char>>(UriView::Tel(u)),
            Err(m) => Err(m),
        },
        uri_warnings(s) == tel_warnings(s),
{
    reveal_strlit("tel");
    lemma_scheme_any_case(s, "tel"@);
}

/// A URI whose scheme is `urn` in any mix of case is a URN: `Uri` parsing
/// gives exactly what URN parsing gives, its error included, and the same
/// warnings.
pub proof fn law_uri_urn_any_case(s: Seq<char>)
    requires
        s.len() > 3,
        s[0] == 'u' || s[0] == 'U',
        s[1] == 'r' || s[1] == 'R',
        s[2] == 'n' || s[2] == 'N',
        s[3] == ':',
    ensures
        parse_uri(s) == match parse_urn(s) {
            Ok(u) => Ok::<UriView, Seq<char>>(UriView::Urn(u)),
            Err(m) => Err(m),
        },
        uri_warnings(s) == urn_warnings(s),
{
    reveal_strlit("urn");
    reveal_strlit("tel");
    reveal_strlit("sip");
    reveal_strlit("sips");
    lemma_scheme_any_case(s, "urn"@);
    let scheme = s.take(3);
    assert(crate::text::lower(scheme[0]) == 'u');
    assert(!eq_ignore_case(scheme, "tel"@)) by {
        assert(crate::text::lower("tel"@[0]) == 't');
    }
    assert(!eq_ignore_case(scheme, "sip"@)) by {
        assert(crate::text::lower("sip"@[0]) == 's');
    }
    assert(!eq_ignore_case(scheme, "sips"@));
}

/// The scheme of a SIP URI is read without regard to case: `sip:` or
/// `sips:` in any mix of case parses the rest as the URI of that scheme.
pub proof fn law_sip_scheme_any_case(s: Seq<char>)
    requires
        s.len() > 4,
        s[0] == 's' || s[0] == 'S',
        s[1] == 'i' || s[1] == 'I',
        s[2] == 'p' || s[2] == 'P',
        s[3] == ':' || ((s[3] == 's' || s[3] == 'S') && s[4] == ':'),
    ensures
        s[3] == ':' ==> parse_sip(s) == crate::sip_uri::sip_rest(s, crate::sip_uri::Scheme::Sip, 4),
        s[3] != ':' ==> parse_sip(s) == crate::sip_uri::sip_rest(s, crate::sip_uri::Scheme::Sips, 5),
{
    reveal_strlit("sip");
    reveal_strlit("sips");
    let name = if s[3] == ':' {
        "sip"@
    } else {
        "sips"@
    };
    lemma_scheme_any_case(s, name);
    if s[3] != ':' {
        assert(!eq_ignore_case(s.take(4), "sip"@));
    }
}

} // verus!
