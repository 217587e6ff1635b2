//! A display name with a URI, as in `"Alice" <sip:alice@example.com>`.
//!
//! Deprecated since 0.2.0: `name-addr` is header-level grammar, and this type
//! rejects the header parameters that follow it in real SIP headers. Parse
//! the URI alone with `Uri`.

use vstd::prelude::*;

use crate::error::ParseNameAddrError;
use crate::params::scan_char;
use crate::parse::is_char;
use crate::sip_uri::SipUri;
use crate::tel_uri::TelUri;
use crate::text::{byte_len_fits, chars_of, lemma_scan, owned, push_char, push_str, scan, string_of};
use crate::uri::{Uri, UriView, parse_uri, uri_text};
use crate::urn_uri::UrnUri;

verus! {

broadcast use vstd::string::group_string_axioms;

/// A SIP name-addr: an optional display name with a URI.
///
/// Parses `"Display Name" <URI>`, `Display Name <URI>`, `<URI>` and a bare
/// URI.
#[derive(Debug, Clone, PartialEq, Eq)]
#[non_exhaustive]
pub struct NameAddr {
    display_name: Option<String>,
    uri: Uri,
}

/// A name-addr as values.
pub struct NameAddrView {
    /// The display name, unquoted and unescaped.
    pub display_name: Option<Seq<char>>,
    /// The URI.
    pub uri: UriView,
}

impl View for NameAddr {
    type V = NameAddrView;

    closed spec fn view(&self) -> NameAddrView {
        NameAddrView { display_name: self.display_name.deep_view(), uri: self.uri@ }
    }
}

/// White space as `char::is_whitespace` has it (the Unicode `White_Space`
/// property).
pub open spec fn is_ws(c: char) -> bool {
    ||| '\t' <= c && c <= '\r'
    ||| c == ' '
    ||| c == '\u{85}'
    ||| c == '\u{a0}'
    ||| c == '\u{1680}'
    ||| '\u{2000}' <= c && c <= '\u{200a}'
    ||| c == '\u{2028}'
    ||| c == '\u{2029}'
    ||| c == '\u{202f}'
    ||| c == '\u{205f}'
    ||| c == '\u{3000}'
}

/// Not white space.
pub open spec fn not_ws() -> spec_fn(char) -> bool {
    |c: char| !is_ws(c)
}

/// The end of `s[lo..hi]` with trailing white space cut off.
pub open spec fn trim_end(s: Seq<char>, lo: int, hi: int) -> int
    decreases hi - lo,
{
    if lo < hi && is_ws(s[hi - 1]) {
        trim_end(s, lo, hi - 1)
    } else {
        hi
    }
}

/// The bounds of `s[lo..hi]` with white space cut off at both ends.
pub open spec fn trimmed(s: Seq<char>, lo: int, hi: int) -> (int, int) {
    let a = scan(s, not_ws(), lo, hi);
    (a, trim_end(s, a, hi))
}

/// The content of the quoted string whose body starts at `i`, with
/// backslash escapes undone onto `acc`, and the index after its closing
/// quote.
pub open spec fn quoted(s: Seq<char>, i: int, hi: int, acc: Seq<char>) -> Result<
    (Seq<char>, int),
    Seq<char>,
>
    decreases hi - i,
{
    if i >= hi {
        Err("unterminated quoted string"@)
    } else if s[i] == '"' {
        Ok((acc, i + 1))
    } else if s[i] == '\\' {
        if i + 1 >= hi {
            Err("unterminated escape in quoted string"@)
        } else {
            quoted(s, i + 2, hi, acc.push(s[i + 1]))
        }
    } else {
        quoted(s, i + 1, hi, acc.push(s[i]))
    }
}

/// The bounds of the URI in `<URI>` at `s[a..hi]`, if `s[a]` is `<` and a `>`
/// follows.
pub open spec fn angle_uri(s: Seq<char>, a: int, hi: int) -> Option<(int, int)> {
    if a < hi && s[a] == '<' {
        let e = scan(s, is_char('>'), a + 1, hi);
        if e < hi {
            Some((a + 1, e))
        } else {
            None
        }
    } else {
        None
    }
}

/// The complaint about what follows `>` in `s[a..hi]`, if anything but
/// white space does; like every error message, it quotes none of the input.
pub open spec fn trailing_problem(s: Seq<char>, a: int, hi: int) -> Option<Seq<char>> {
    let (x, y) = trimmed(s, a, hi);
    if x < y {
        Some(
            "trailing content after '>' (header-level parameters belong in SIP header parsing, not name-addr)"@,
        )
    } else {
        None
    }
}

/// The name-addr whose `<URI>` starts at `a`, with display name `dn`; `missing`
/// is the complaint when there is no `<URI>`.
pub open spec fn angle_tail(
    s: Seq<char>,
    a: int,
    hi: int,
    dn: Option<Seq<char>>,
    missing: Seq<char>,
) -> Result<NameAddrView, Seq<char>> {
    match angle_uri(s, a, hi) {
        None => Err(missing),
        Some((us, ue)) => match trailing_problem(s, ue + 1, hi) {
            Some(m) => Err(m),
            None => match parse_uri(s.subrange(us, ue)) {
                Err(m) => Err(m),
                Ok(u) => Ok(NameAddrView { display_name: dn, uri: u }),
            },
        },
    }
}

/// Nothing for an empty name.
pub open spec fn nonempty(t: Seq<char>) -> Option<Seq<char>> {
    if t.len() == 0 {
        None
    } else {
        Some(t)
    }
}

/// The name-addr that `s` denotes, or the reason it denotes none. White
/// space around the whole is ignored.
pub open spec fn parse_name_addr(s: Seq<char>) -> Result<NameAddrView, Seq<char>> {
    let (lo, hi) = trimmed(s, 0, s.len() as int);
    if lo >= hi {
        Err("empty input"@)
    } else if s[lo] == '"' {
        match quoted(s, lo + 1, hi, Seq::empty()) {
            Err(m) => Err(m),
            Ok((dn, after)) => angle_tail(
                s,
                scan(s, not_ws(), after, hi),
                hi,
                nonempty(dn),
                "expected '<URI>' after quoted display name"@,
            ),
        }
    } else if s[lo] == '<' {
        angle_tail(s, lo, hi, None, "unclosed '<'"@)
    } else {
        let lt = scan(s, is_char('<'), lo, hi);
        if lt < hi {
            let (x, y) = trimmed(s, lo, lt);
            angle_tail(s, lt, hi, nonempty(s.subrange(x, y)), "unclosed '<'"@)
        } else {
            match parse_uri(s.subrange(lo, hi)) {
                Err(m) => Err(m),
                Ok(u) => Ok(NameAddrView { display_name: None, uri: u }),
            }
        }
    }
}

/// A character that forces a display name into quotes.
pub open spec fn quote_special(c: char) -> bool {
    c == '"' || c == '\\' || c == '<' || c == '>' || c == ',' || c == ';' || c == ':' || c == '@'
        || c == ' ' || c == '\t'
}

/// Whether a display name must be quoted.
pub open spec fn needs_quotes(name: Seq<char>) -> bool {
    exists|i: int| 0 <= i < name.len() && quote_special(#[trigger] name[i])
}

/// `name` with `\` before each `"` and `\`.
pub open spec fn escaped(name: Seq<char>) -> Seq<char>
    decreases name.len(),
{
    if name.len() == 0 {
        Seq::empty()
    } else {
        let c = name.last();
        escaped(name.drop_last()) + if c == '"' || c == '\\' {
            seq!['\\', c]
        } else {
            seq![c]
        }
    }
}

/// The display name as written before `<`, with its space.
pub open spec fn display_text(name: Seq<char>) -> Seq<char> {
    if needs_quotes(name) {
        "\""@ + escaped(name) + "\" "@
    } else {
        name + " "@
    }
}

/// A name-addr written out.
pub open spec fn name_addr_text(n: NameAddrView) -> Seq<char> {
    let shown = match n.display_name {
        Some(name) => if name.len() > 0 {
            display_text(name)
        } else {
            Seq::empty()
        },
        None => Seq::empty(),
    };
    shown + "<"@ + uri_text(n.uri) + ">"@
}

fn is_ws_char(c: char) -> (r: bool)
    ensures
        r == is_ws(c),
{
    ('\t' <= c && c <= '\r') || c == ' ' || c == '\u{85}' || c == '\u{a0}' || c == '\u{1680}' || (
    '\u{2000}' <= c && c <= '\u{200a}') || c == '\u{2028}' || c == '\u{2029}' || c == '\u{202f}'
        || c == '\u{205f}' || c == '\u{3000}'
}

/// First index in `v[lo..hi]` that is not white space, or `hi`.
fn skip_ws(v: &Vec<char>, lo: usize, hi: usize) -> (r: usize)
    requires
        lo <= hi <= v@.len(),
    ensures
        r == scan(v@, not_ws(), lo as int, hi as int),
        lo <= r <= hi,
{
    proof {
        lemma_scan(v@, not_ws(), lo as int, hi as int);
    }
    let mut i = lo;
    while i < hi
        invariant
            lo <= i <= hi <= v@.len(),
            scan(v@, not_ws(), lo as int, hi as int) == scan(v@, not_ws(), i as int, hi as int),
        decreases hi - i,
    {
        if !is_ws_char(v[i]) {
            assert(not_ws()(v@[i as int]));
            return i;
        }
        assert(!not_ws()(v@[i as int]));
        i = i + 1;
    }
    i
}

/// The end of `v[lo..hi]` without its trailing white space.
fn cut_ws(v: &Vec<char>, lo: usize, hi: usize) -> (r: usize)
    requires
        lo <= hi <= v@.len(),
    ensures
        r == trim_end(v@, lo as int, hi as int),
        lo <= r <= hi,
{
    let mut j = hi;
    while j > lo && is_ws_char(v[j - 1])
        invariant
            lo <= j <= hi <= v@.len(),
            trim_end(v@, lo as int, hi as int) == trim_end(v@, lo as int, j as int),
        decreases j - lo,
    {
        j = j - 1;
    }
    j
}

/// The bounds of `v[lo..hi]` without white space at either end.
fn trim_bounds(v: &Vec<char>, lo: usize, hi: usize) -> (r: (usize, usize))
    requires
        lo <= hi <= v@.len(),
    ensures
        r.0 == trimmed(v@, lo as int, hi as int).0,
        r.1 == trimmed(v@, lo as int, hi as int).1,
        lo <= r.0 <= r.1 <= hi,
{
    let a = skip_ws(v, lo, hi);
    let b = cut_ws(v, a, hi);
    (a, b)
}

/// Read the quoted string whose body starts at `i0` (see `quoted`).
fn read_quoted(v: &Vec<char>, i0: usize, hi: usize) -> (r: Result<(String, usize), String>)
    requires
        i0 <= hi <= v@.len(),
    ensures
        match quoted(v@, i0 as int, hi as int, Seq::empty()) {
            Ok((t, e)) => r matches Ok((x, k)) && x@ == t && k == e,
            Err(m) => r matches Err(x) && x@ == m,
        },
        r matches Ok((_, k)) ==> k <= hi,
{
    let mut acc = String::new();
    let mut i = i0;
    while i < hi
        invariant
            i0 <= i <= hi <= v@.len(),
            quoted(v@, i0 as int, hi as int, Seq::empty()) == quoted(
                v@,
                i as int,
                hi as int,
                acc@,
            ),
        decreases hi - i,
    {
        let c = v[i];
        if c == '"' {
            return Ok((acc, i + 1));
        } else if c == '\\' {
            if i + 1 >= hi {
                return Err(owned("unterminated escape in quoted string"));
            }
            push_char(&mut acc, v[i + 1]);
            i = i + 2;
        } else {
            push_char(&mut acc, c);
            i = i + 1;
        }
    }
    Err(owned("unterminated quoted string"))
}

/// The complaint about what follows `>` in `v[a..hi]`, if any.
fn check_trailing(v: &Vec<char>, a: usize, hi: usize) -> (r: Option<String>)
    requires
        a <= hi <= v@.len(),
    ensures
        match trailing_problem(v@, a as int, hi as int) {
            Some(m) => r matches Some(x) && x@ == m,
            None => r is None,
        },
{
    let (x, y) = trim_bounds(v, a, hi);
    if x < y {
        Some(
            owned(
                "trailing content after '>' (header-level parameters belong in SIP header parsing, not name-addr)",
            ),
        )
    } else {
        None
    }
}

/// Finish a name-addr at its `<URI>` (see `angle_tail`).
fn parse_angle(
    v: &Vec<char>,
    a: usize,
    hi: usize,
    display_name: Option<String>,
    missing: &str,
) -> (r: Result<NameAddr, ParseNameAddrError>)
    requires
        a <= hi <= v@.len(),
    ensures
        match angle_tail(v@, a as int, hi as int, display_name.deep_view(), missing@) {
            Ok(n) => r matches Ok(x) && x@ == n,
            Err(m) => r matches Err(e) && e.0@ == m,
        },
{
    if !(a < hi && v[a] == '<') {
        return Err(ParseNameAddrError(owned(missing)));
    }
    let e = scan_char(v, a + 1, hi, '>');
    if e >= hi {
        return Err(ParseNameAddrError(owned(missing)));
    }
    match check_trailing(v, e + 1, hi) {
        Some(m) => {
            return Err(ParseNameAddrError(m));
        },
        None => {},
    }
    let text = string_of(v, a + 1, e);
    match Uri::parse(text.as_str()) {
        Ok(uri) => Ok(NameAddr { display_name, uri }),
        Err(err) => Err(ParseNameAddrError::from(err)),
    }
}

fn nonempty_string(t: String) -> (r: Option<String>)
    ensures
        r.deep_view() == nonempty(t@),
{
    if t.as_str().unicode_len() == 0 {
        None
    } else {
        Some(t)
    }
}

/// Whether a display name must be quoted.
fn needs_quoting(name: &str) -> (r: bool)
    ensures
        r == needs_quotes(name@),
{
    let v = chars_of(name);
    let mut i: usize = 0;
    while i < v.len()
        invariant
            i <= v@.len(),
            v@ == name@,
            forall|j: int| 0 <= j < i ==> !quote_special(#[trigger] v@[j]),
        decreases v.len() - i,
    {
        let c = v[i];
        if c == '"' || c == '\\' || c == '<' || c == '>' || c == ',' || c == ';' || c == ':' || c
            == '@' || c == ' ' || c == '\t' {
            assert(quote_special(v@[i as int]));
            return true;
        }
        i = i + 1;
    }
    false
}

/// `name` with `\` before each `"` and `\`.
fn escape_display_name(name: &str) -> (r: String)
    ensures
        r@ == escaped(name@),
{
    let v = chars_of(name);
    let mut out = String::new();
    let mut i: usize = 0;
    while i < v.len()
        invariant
            i <= v@.len(),
            v@ == name@,
            out@ == escaped(v@.take(i as int)),
        decreases v.len() - i,
    {
        let c = v[i];
        proof {
            assert(v@.take(i + 1).drop_last() =~= v@.take(i as int));
        }
        if c == '"' || c == '\\' {
            push_char(&mut out, '\\');
        }
        push_char(&mut out, c);
        proof {
            if c == '"' || c == '\\' {
                assert(out@ =~= escaped(v@.take(i as int)) + seq!['\\', c]);
            } else {
                assert(out@ =~= escaped(v@.take(i as int)) + seq![c]);
            }
        }
        i = i + 1;
    }
    assert(v@.take(v@.len() as int) =~= v@);
    out
}

impl NameAddr {
    /// A name-addr with the given URI and no display name.
    pub fn new(uri: Uri) -> (n: NameAddr)
        ensures
            n@ == (NameAddrView { display_name: None, uri: uri@ }),
    {
        NameAddr { display_name: None, uri }
    }

    /// Set the display name.
    pub fn with_display_name(self, name: &str) -> (n: NameAddr)
        ensures
            n@ == (NameAddrView { display_name: Some(name@), ..self@ }),
    {
        let mut n = self;
        n.display_name = Some(owned(name));
        n
    }

    /// The display name, if present.
    pub fn display_name(&self) -> (r: Option<&str>)
        ensures
            r.deep_view() == self@.display_name,
    {
        match &self.display_name {
            Some(d) => Some(d.as_str()),
            None => None,
        }
    }

    /// The URI.
    pub fn uri(&self) -> (r: &Uri)
        ensures
            r@ == self@.uri,
    {
        &self.uri
    }

    /// The SIP/SIPS URI, if the URI is one.
    pub fn sip_uri(&self) -> (r: Option<&SipUri>)
        ensures
            match self@.uri {
                UriView::Sip(v) => r matches Some(x) && x@ == v,
                _ => r is None,
            },
    {
        self.uri.as_sip()
    }

    /// The tel: URI, if the URI is one.
    pub fn tel_uri(&self) -> (r: Option<&TelUri>)
        ensures
            match self@.uri {
                UriView::Tel(v) => r matches Some(x) && x@ == v,
                _ => r is None,
            },
    {
        self.uri.as_tel()
    }

    /// The URN, if the URI is one.
    pub fn urn_uri(&self) -> (r: Option<&UrnUri>)
        ensures
            match self@.uri {
                UriView::Urn(v) => r matches Some(x) && x@ == v,
                _ => r is None,
            },
    {
        self.uri.as_urn()
    }

    /// The name-addr written out (see `name_addr_text`).
    pub fn to_string(&self) -> (s: String)
        ensures
            s@ == name_addr_text(self@),
    {
        let mut s = String::new();
        match &self.display_name {
            Some(name) => {
                if name.as_str().unicode_len() > 0 {
                    if needs_quoting(name.as_str()) {
                        push_str(&mut s, "\"");
                        let e = escape_display_name(name.as_str());
                        push_str(&mut s, e.as_str());
                        push_str(&mut s, "\" ");
                    } else {
                        push_str(&mut s, name.as_str());
                        push_str(&mut s, " ");
                    }
                }
            },
            None => {},
        }
        push_str(&mut s, "<");
        let u = self.uri.to_string();
        push_str(&mut s, u.as_str());
        push_str(&mut s, ">");
        s
    }

    /// Parse a name-addr (see `parse_name_addr`).
    pub fn parse(input: &str) -> (r: Result<NameAddr, ParseNameAddrError>)
        ensures
            match parse_name_addr(input@) {
                Ok(n) => r matches Ok(x) && x@ == n,
                Err(m) => r matches Err(e) && e.0@ == m,
            },
    {
        byte_len_fits(input);
        let v = chars_of(input);
        let (lo, hi) = trim_bounds(&v, 0, v.len());
        if lo >= hi {
            return Err(ParseNameAddrError(owned("empty input")));
        }
        if v[lo] == '"' {
            match read_quoted(&v, lo + 1, hi) {
                Err(m) => Err(ParseNameAddrError(m)),
                Ok((dn, after)) => {
                    let r = skip_ws(&v, after, hi);
                    parse_angle(
                        &v,
                        r,
                        hi,
                        nonempty_string(dn),
                        "expected '<URI>' after quoted display name",
                    )
                },
            }
        } else if v[lo] == '<' {
            parse_angle(&v, lo, hi, None, "unclosed '<'")
        } else {
            let lt = scan_char(&v, lo, hi, '<');
            if lt < hi {
                let (x, y) = trim_bounds(&v, lo, lt);
                let dn = string_of(&v, x, y);
                parse_angle(&v, lt, hi, nonempty_string(dn), "unclosed '<'")
            } else {
                let text = string_of(&v, lo, hi);
                match Uri::parse(text.as_str()) {
                    Ok(uri) => Ok(NameAddr { display_name: None, uri }),
                    Err(err) => Err(ParseNameAddrError::from(err)),
                }
            }
        }
    }
}

impl std::str::FromStr for NameAddr {
    type Err = ParseNameAddrError;

    fn from_str(input: &str) -> (r: Result<NameAddr, ParseNameAddrError>)
        ensures
            match parse_name_addr(input@) {
                Ok(n) => r matches Ok(x) && x@ == n,
                Err(m) => r matches Err(e) && e.0@ == m,
            },
    {
        NameAddr::parse(input)
    }
}

/// One character as written inside quotes.
pub open spec fn escaped_char(c: char) -> Seq<char> {
    if c == '"' || c == '\\' {
        seq!['\\', c]
    } else {
        seq![c]
    }
}

/// Escaping is escaping the first character, then the rest.
pub proof fn lemma_escaped_cons(c: char, rest: Seq<char>)
    ensures
        escaped(seq![c] + rest) == escaped_char(c) + escaped(rest),
    decreases rest.len(),
{
    let x = seq![c] + rest;
    if rest.len() == 0 {
        assert(x.drop_last() =~= Seq::<char>::empty());
        assert(escaped(Seq::<char>::empty()) =~= Seq::<char>::empty());
        assert(escaped(x) =~= escaped_char(c) + escaped(rest));
    } else {
        lemma_escaped_cons(c, rest.drop_last());
        assert(x.drop_last() =~= seq![c] + rest.drop_last());
        assert(x.last() == rest.last());
        assert(escaped(x) =~= escaped_char(c) + escaped(rest));
    }
}

/// Reading a quoted string back: escaped text and a closing quote give the
/// text, and the index after the quote.
pub proof fn lemma_quoted_reparse(t: Seq<char>, i: int, hi: int, name: Seq<char>, acc: Seq<char>)
    requires
        0 <= i,
        i + escaped(name).len() + 1 <= hi <= t.len(),
        t.subrange(i, i + escaped(name).len() + 1) == escaped(name) + seq!['"'],
    ensures
        quoted(t, i, hi, acc) == Ok::<(Seq<char>, int), Seq<char>>(
            (acc + name, i + escaped(name).len() + 1),
        ),
    decreases name.len(),
{
    let w = escaped(name) + seq!['"'];
    assert forall|k: int| 0 <= k < w.len() implies t[i + k] == w[k] by {
        assert(t[i + k] == t.subrange(i, i + w.len())[k]);
    }
    if name.len() == 0 {
        assert(escaped(name) =~= Seq::<char>::empty());
        assert(t[i] == w[0]);
        assert(t[i] == '"');
        assert(acc + name =~= acc);
    } else {
        let c = name[0];
        let rest = name.skip(1);
        assert(name =~= seq![c] + rest);
        lemma_escaped_cons(c, rest);
        let e = escaped_char(c);
        assert(w =~= e + (escaped(rest) + seq!['"']));
        let j = i + e.len();
        assert(t.subrange(j, j + escaped(rest).len() + 1) =~= escaped(rest) + seq!['"']) by {
            assert forall|k: int| 0 <= k < escaped(rest).len() + 1 implies t.subrange(
                j,
                j + escaped(rest).len() + 1,
            )[k] == (escaped(rest) + seq!['"'])[k] by {
                assert(t[j + k] == w[e.len() + k]);
            }
        }
        lemma_quoted_reparse(t, j, hi, rest, acc.push(c));
        assert(acc.push(c) + rest =~= acc + name);
        assert(t[i] == w[0]);
        assert(w[0] == e[0]);
        if c == '"' || c == '\\' {
            assert(t[i + 1] == w[1]);
            assert(w[1] == e[1]);
            assert(t[i] == '\\' && t[i + 1] == c);
        } else {
            assert(t[i] == c);
        }
    }
}

/// `trim_end` keeps a range that ends in something other than white space.
pub proof fn lemma_trim_end_keeps(s: Seq<char>, lo: int, hi: int)
    requires
        lo < hi,
        !is_ws(s[hi - 1]),
    ensures
        trim_end(s, lo, hi) == hi,
{
}

/// `trim_end` cuts trailing white space down to a character that is not.
pub proof fn lemma_trim_end_cuts(s: Seq<char>, lo: int, e: int, hi: int)
    requires
        lo < e <= hi,
        !is_ws(s[e - 1]),
        forall|k: int| e <= k < hi ==> is_ws(#[trigger] s[k]),
    ensures
        trim_end(s, lo, hi) == e,
    decreases hi - e,
{
    if hi > e {
        lemma_trim_end_cuts(s, lo, e, hi - 1);
    }
}

/// A name-addr that writing out and reading back keeps: its URI is stable
/// (see `uri_stable`), its URI text holds no `>`, and a display name written
/// without quotes has no white space at either end.
pub open spec fn name_addr_stable(n: NameAddrView) -> bool {
    &&& crate::uri::uri_stable(n.uri)
    &&& forall|k: int| 0 <= k < uri_text(n.uri).len() ==> #[trigger] uri_text(n.uri)[k] != '>'
    &&& (n.display_name matches Some(name) ==> needs_quotes(name) || (name.len() > 0 && !is_ws(
        name[0],
    ) && !is_ws(name.last())))
}

/// What the parser gives: a URI that reads back from its text, and a
/// nonempty display name if any.
pub proof fn lemma_parse_name_addr_parts(s: Seq<char>)
    requires
        parse_name_addr(s) is Ok,
        crate::uri::uri_stable(parse_name_addr(s)->Ok_0.uri),
    ensures
        parse_uri(uri_text(parse_name_addr(s)->Ok_0.uri)) == Ok::<UriView, Seq<char>>(
            parse_name_addr(s)->Ok_0.uri,
        ),
        parse_name_addr(s)->Ok_0.display_name matches Some(name) ==> name.len() > 0,
{
    let (lo, hi) = trimmed(s, 0, s.len() as int);
    let v = parse_name_addr(s)->Ok_0;
    if s[lo] == '"' {
        let (dn, after) = quoted(s, lo + 1, hi, Seq::empty())->Ok_0;
        let a = scan(s, not_ws(), after, hi);
        let (us, ue) = angle_uri(s, a, hi)->Some_0;
        crate::uri::law_uri_round_trip(s.subrange(us, ue));
    } else if s[lo] == '<' {
        let (us, ue) = angle_uri(s, lo, hi)->Some_0;
        crate::uri::law_uri_round_trip(s.subrange(us, ue));
    } else {
        let lt = scan(s, is_char('<'), lo, hi);
        if lt < hi {
            let (us, ue) = angle_uri(s, lt, hi)->Some_0;
            crate::uri::law_uri_round_trip(s.subrange(us, ue));
        } else {
            crate::uri::law_uri_round_trip(s.subrange(lo, hi));
        }
    }
}

/// The `<URI>` written at `t[a..]`, to the end, reads back.
#[verifier::rlimit(40)]
pub proof fn lemma_angle_reparse(t: Seq<char>, a: int, dn: Option<Seq<char>>, missing: Seq<char>, u: UriView)
    requires
        0 <= a <= t.len(),
        t.subrange(a, t.len() as int) == "<"@ + uri_text(u) + ">"@,
        forall|k: int| 0 <= k < uri_text(u).len() ==> #[trigger] uri_text(u)[k] != '>',
        parse_uri(uri_text(u)) == Ok::<UriView, Seq<char>>(u),
    ensures
        angle_tail(t, a, t.len() as int, dn, missing) == Ok::<NameAddrView, Seq<char>>(
            NameAddrView { display_name: dn, uri: u },
        ),
{
    reveal_strlit("<");
    reveal_strlit(">");
    let n = t.len() as int;
    let ut = uri_text(u);
    let w = "<"@ + ut + ">"@;
    assert forall|k: int| a <= k < n implies t[k] == w[k - a] by {
        assert(t[k] == t.subrange(a, n)[k - a]);
    }
    let e = n - 1;
    assert(w.len() == n - a);
    assert(t[a] == w[0]);
    assert(t[e] == w[w.len() - 1]);
    assert(t[a] == '<');
    assert(t[e] == '>');
    assert forall|k: int| a + 1 <= k < e implies !is_char('>')(#[trigger] t[k]) by {
        assert(t[k] == ut[k - a - 1]);
    }
    crate::canon::lemma_scan_is(t, is_char('>'), a + 1, e, n);
    assert(t.subrange(a + 1, e) =~= ut);
    crate::text::lemma_scan(t, not_ws(), n, n);
    assert(trim_end(t, n, n) == n);
}

/// A name-addr of the parsed kind that is stable reads back from its text.
pub proof fn lemma_name_addr_reparse(v: NameAddrView)
    requires
        name_addr_stable(v),
        parse_uri(uri_text(v.uri)) == Ok::<UriView, Seq<char>>(v.uri),
        v.display_name matches Some(name) ==> name.len() > 0,
    ensures
        parse_name_addr(name_addr_text(v)) == Ok::<NameAddrView, Seq<char>>(v),
{
    match v.display_name {
        Some(name) => {
            if needs_quotes(name) {
                lemma_quoted_name_reparse(v);
            } else {
                lemma_plain_name_reparse(v);
            }
        },
        None => lemma_no_name_reparse(v),
    }
}

/// A name-addr with a quoted display name reads back.
#[verifier::rlimit(60)]
pub proof fn lemma_quoted_name_reparse(v: NameAddrView)
    requires
        name_addr_stable(v),
        parse_uri(uri_text(v.uri)) == Ok::<UriView, Seq<char>>(v.uri),
        v.display_name matches Some(name) && name.len() > 0 && needs_quotes(name),
    ensures
        parse_name_addr(name_addr_text(v)) == Ok::<NameAddrView, Seq<char>>(v),
{
    reveal_strlit("<");
    reveal_strlit(">");
    reveal_strlit("\"");
    reveal_strlit("\" ");
    let name = v.display_name->Some_0;
    let t = name_addr_text(v);
    let n = t.len() as int;
    let ut = uri_text(v.uri);
    let tail = "<"@ + ut + ">"@;
    let esc = escaped(name);
    let el = esc.len() as int;
    assert(t =~= "\""@ + esc + "\" "@ + tail);
    assert(t[n - 1] == '>');
    lemma_trim_end_keeps(t, 0, n);
    assert(!is_ws(t[0]));
    crate::canon::lemma_scan_is(t, not_ws(), 0, 0, n);
    assert(t.subrange(1, 1 + el + 1) =~= esc + seq!['"']);
    lemma_quoted_reparse(t, 1, n, name, Seq::empty());
    assert(Seq::<char>::empty() + name =~= name);
    let after: int = 1 + el + 1;
    assert(t[after] == ' ');
    assert(!is_ws(t[after + 1]));
    crate::canon::lemma_scan_is(t, not_ws(), after, after + 1, n);
    assert(t.subrange(after + 1, n) =~= tail);
    lemma_angle_reparse(
        t,
        after + 1,
        nonempty(name),
        "expected '<URI>' after quoted display name"@,
        v.uri,
    );
}

/// A name-addr with a display name written without quotes reads back.
#[verifier::rlimit(60)]
pub proof fn lemma_plain_name_reparse(v: NameAddrView)
    requires
        name_addr_stable(v),
        parse_uri(uri_text(v.uri)) == Ok::<UriView, Seq<char>>(v.uri),
        v.display_name matches Some(name) && name.len() > 0 && !needs_quotes(name),
    ensures
        parse_name_addr(name_addr_text(v)) == Ok::<NameAddrView, Seq<char>>(v),
{
    reveal_strlit("<");
    reveal_strlit(">");
    reveal_strlit(" ");
    let name = v.display_name->Some_0;
    let t = name_addr_text(v);
    let n = t.len() as int;
    let ut = uri_text(v.uri);
    let tail = "<"@ + ut + ">"@;
    let nl = name.len() as int;
    assert(t =~= name + " "@ + tail);
    assert(t[n - 1] == '>');
    lemma_trim_end_keeps(t, 0, n);
    assert(t[0] == name[0]);
    crate::canon::lemma_scan_is(t, not_ws(), 0, 0, n);
    assert(t[0] != '"' && t[0] != '<') by {
        if t[0] == '"' || t[0] == '<' {
            assert(quote_special(name[0]));
        }
    }
    assert forall|k: int| 0 <= k < nl implies !is_char('<')(#[trigger] t[k]) by {
        assert(t[k] == name[k]);
        if t[k] == '<' {
            assert(quote_special(name[k]));
        }
    }
    assert(t[nl] == ' ');
    assert(t[nl + 1] == '<');
    crate::canon::lemma_scan_is(t, is_char('<'), 0, nl + 1, n);
    let lt = nl + 1;
    assert(t[nl - 1] == name.last());
    lemma_trim_end_cuts(t, 0, nl, lt);
    assert(t.subrange(0, nl) =~= name);
    assert(t.subrange(lt, n) =~= tail);
    lemma_angle_reparse(t, lt, nonempty(name), "unclosed '<'"@, v.uri);
}

/// A name-addr without a display name reads back.
pub proof fn lemma_no_name_reparse(v: NameAddrView)
    requires
        name_addr_stable(v),
        parse_uri(uri_text(v.uri)) == Ok::<UriView, Seq<char>>(v.uri),
        v.display_name is None,
    ensures
        parse_name_addr(name_addr_text(v)) == Ok::<NameAddrView, Seq<char>>(v),
{
    reveal_strlit("<");
    reveal_strlit(">");
    let t = name_addr_text(v);
    let n = t.len() as int;
    let ut = uri_text(v.uri);
    let tail = "<"@ + ut + ">"@;
    assert(t =~= tail);
    assert(t[n - 1] == '>');
    lemma_trim_end_keeps(t, 0, n);
    assert(t[0] == '<');
    crate::canon::lemma_scan_is(t, not_ws(), 0, 0, n);
    assert(t.subrange(0, n) =~= tail);
    lemma_angle_reparse(t, 0, None, "unclosed '<'"@, v.uri);
}

/// Writing out a parsed name-addr and parsing the text again gives the same
/// name-addr, `parse(display(parse(x))) == parse(x)`, whenever it is stable:
/// its URI reads back (see `law_uri_round_trip`), its URI text holds no `>`,
/// and a display name written without quotes has no white space at either
/// end.
pub proof fn law_name_addr_round_trip(s: Seq<char>)
    requires
        parse_name_addr(s) is Ok,
        name_addr_stable(parse_name_addr(s)->Ok_0),
    ensures
        parse_name_addr(name_addr_text(parse_name_addr(s)->Ok_0)) == parse_name_addr(s),
{
    lemma_parse_name_addr_parts(s);
    lemma_name_addr_reparse(parse_name_addr(s)->Ok_0);
}

/// An unquoted display name: in `name <URI>` the display name is all of
/// `name`, white space inside it included, and the URI is what the URI
/// parser makes of the text between the angle brackets.
pub proof fn law_unquoted_display_name(name: Seq<char>, uri: Seq<char>)
    requires
        name.len() > 0,
        !is_ws(name[0]),
        !is_ws(name.last()),
        name[0] != '"',
        forall|k: int| 0 <= k < name.len() ==> #[trigger] name[k] != '<',
        forall|k: int| 0 <= k < uri.len() ==> #[trigger] uri[k] != '>',
        parse_uri(uri) is Ok,
    ensures
        parse_name_addr(name + " <"@ + uri + ">"@) == Ok::<NameAddrView, Seq<char>>(
            NameAddrView { display_name: Some(name), uri: parse_uri(uri)->Ok_0 },
        ),
{
    reveal_strlit(" <");
    reveal_strlit(">");
    let s = name + " <"@ + uri + ">"@;
    let n = s.len() as int;
    let nl = name.len() as int;
    assert forall|k: int| 0 <= k < nl implies s[k] == name[k] by {}
    assert forall|k: int| 0 <= k < uri.len() implies s[nl + 2 + k] == uri[k] by {}
    assert(s[nl] == ' ' && s[nl + 1] == '<' && s[n - 1] == '>');
    crate::canon::lemma_scan_is(s, not_ws(), 0, 0, n);
    assert(!is_ws(s[n - 1]));
    assert(trim_end(s, 0, n) == n);
    assert forall|k: int| 0 <= k < nl + 1 implies !is_char('<')(#[trigger] s[k]) by {
        if k < nl {
            assert(s[k] == name[k]);
        }
    }
    crate::canon::lemma_scan_is(s, is_char('<'), 0, nl + 1, n);
    crate::canon::lemma_scan_is(s, not_ws(), 0, 0, nl + 1);
    assert(s[nl - 1] == name.last());
    assert(trim_end(s, 0, nl) == nl);
    assert(is_ws(s[nl]));
    assert(trim_end(s, 0, nl + 1) == nl);
    assert(s.subrange(0, nl) =~= name);
    assert forall|k: int| nl + 2 <= k < n - 1 implies !is_char('>')(#[trigger] s[k]) by {
        assert(s[k] == uri[k - nl - 2]);
    }
    crate::canon::lemma_scan_is(s, is_char('>'), nl + 2, n - 1, n);
    assert(angle_uri(s, nl + 1, n) == Some((nl + 2, n - 1)));
    assert(trimmed(s, n, n) == (n, n));
    assert(trailing_problem(s, n, n) is None);
    assert(s.subrange(nl + 2, n - 1) =~= uri);
}

/// A quoted string body without `"` or `\` up to the closing quote at `j`
/// reads as itself.
proof fn lemma_quoted_plain(s: Seq<char>, i: int, j: int, hi: int, acc: Seq<char>)
    requires
        0 <= i <= j < hi <= s.len(),
        s[j] == '"',
        forall|k: int| i <= k < j ==> #[trigger] s[k] != '"' && s[k] != '\\',
    ensures
        quoted(s, i, hi, acc) == Ok::<(Seq<char>, int), Seq<char>>((acc + s.subrange(i, j), j + 1)),
    decreases j - i,
{
    if i == j {
        assert(acc + s.subrange(i, j) =~= acc);
    } else {
        lemma_quoted_plain(s, i + 1, j, hi, acc.push(s[i]));
        assert(acc.push(s[i]) + s.subrange(i + 1, j) =~= acc + s.subrange(i, j));
    }
}

/// A quoted display name: in `"name" <URI>`, with no `"` or `\` in `name`,
/// the display name is `name` exactly (none when it is empty), and the URI
/// is what the URI parser makes of the text between the angle brackets.
pub proof fn law_quoted_display_name(name: Seq<char>, uri: Seq<char>)
    requires
        forall|k: int| 0 <= k < name.len() ==> #[trigger] name[k] != '"' && name[k] != '\\',
        forall|k: int| 0 <= k < uri.len() ==> #[trigger] uri[k] != '>',
        parse_uri(uri) is Ok,
    ensures
        parse_name_addr("\""@ + name + "\" <"@ + uri + ">"@) == Ok::<NameAddrView, Seq<char>>(
            NameAddrView {
                display_name: if name.len() > 0 {
                    Some(name)
                } else {
                    None
                },
                uri: parse_uri(uri)->Ok_0,
            },
        ),
{
    reveal_strlit("\"");
    reveal_strlit("\" <");
    reveal_strlit(">");
    let s = "\""@ + name + "\" <"@ + uri + ">"@;
    let n = s.len() as int;
    let nl = name.len() as int;
    assert forall|k: int| 0 <= k < nl implies s[1 + k] == name[k] by {}
    assert forall|k: int| 0 <= k < uri.len() implies s[nl + 4 + k] == uri[k] by {}
    assert(s[0] == '"' && s[nl + 1] == '"' && s[nl + 2] == ' ' && s[nl + 3] == '<' && s[n - 1] == '>');
    crate::canon::lemma_scan_is(s, not_ws(), 0, 0, n);
    assert(!is_ws(s[n - 1]));
    assert(trim_end(s, 0, n) == n);
    assert forall|k: int| 1 <= k < nl + 1 implies #[trigger] s[k] != '"' && s[k] != '\\' by {
        assert(s[k] == name[k - 1]);
    }
    lemma_quoted_plain(s, 1, nl + 1, n, Seq::empty());
    assert(Seq::<char>::empty() + s.subrange(1, nl + 1) =~= name);
    assert(is_ws(s[nl + 2]));
    crate::canon::lemma_scan_is(s, not_ws(), nl + 2, nl + 3, n);
    assert forall|k: int| nl + 4 <= k < n - 1 implies !is_char('>')(#[trigger] s[k]) by {
        assert(s[k] == uri[k - nl - 4]);
    }
    crate::canon::lemma_scan_is(s, is_char('>'), nl + 4, n - 1, n);
    assert(angle_uri(s, nl + 3, n) == Some((nl + 4, n - 1)));
    assert(trimmed(s, n, n) == (n, n));
    assert(trailing_problem(s, n, n) is None);
    assert(s.subrange(nl + 4, n - 1) =~= uri);
}

} // verus!
