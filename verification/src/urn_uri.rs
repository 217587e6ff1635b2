//! URNs (RFC 8141): `urn:NID:NSS` with optional r-, q- and f-components.

use vstd::prelude::*;
use vstd::utf8::encode_scalar;

use crate::error::ParseUrnError;
use crate::warning::{
    Component, ParseWarning, Parsed, WarningCode, Warnings, charset_warnings, warning_at,
};
use crate::params::scan_char;
use crate::parse::{
    CharSet, alnum, first_invalid, first_invalid_at, hex_char, is_char, lemma_first_invalid_bounds,
};
use crate::text::{
    byte_len, byte_len_between, byte_len_fits, chars_of, eq_ignore_case, eq_ignore_case_at,
    is_ascii, lemma_byte_len_subrange, lemma_scan, lower_seq, lowercase_of, owned, push_char,
    push_decimal, push_str, push_utf8, scan, string_of, to_upper, upper, decimal,
};

verus! {

broadcast use vstd::string::group_string_axioms;

/// A URN.
#[derive(Debug, Clone, PartialEq, Eq)]
pub struct UrnUri {
    nid: String,
    nss: String,
    r_component: Option<String>,
    q_component: Option<String>,
    f_component: Option<String>,
}

/// A URN as values.
pub struct UrnView {
    /// Namespace identifier, lowercase when parsed.
    pub nid: Seq<char>,
    /// Namespace-specific string, escapes' hex uppercased when parsed.
    pub nss: Seq<char>,
    /// Resolution component (`?+`).
    pub r: Option<Seq<char>>,
    /// Query component (`?=`).
    pub q: Option<Seq<char>>,
    /// Fragment (`#`).
    pub f: Option<Seq<char>>,
}

impl View for UrnUri {
    type V = UrnView;

    closed spec fn view(&self) -> UrnView {
        UrnView {
            nid: self.nid@,
            nss: self.nss@,
            r: self.r_component.deep_view(),
            q: self.q_component.deep_view(),
            f: self.f_component.deep_view(),
        }
    }
}

/// ASCII letter or digit, as a character.
pub open spec fn alnum_char(c: char) -> bool {
    is_ascii(c) && alnum(c as u8)
}

/// Neither a letter, a digit nor `-`.
pub open spec fn not_ldh(c: char) -> bool {
    !(alnum_char(c) || c == '-')
}

/// `not_ldh` as a predicate value.
pub open spec fn not_ldhs() -> spec_fn(char) -> bool {
    |c: char| not_ldh(c)
}

/// Why `s[a..b]` is not an RFC 8141 NID (2 to 32 bytes, alphanumeric at
/// both ends, letters, digits and `-` between), if it is not.
pub open spec fn nid_problem(s: Seq<char>, a: int, b: int) -> Option<Seq<char>> {
    let len = byte_len(s.subrange(a, b));
    if len < 2 {
        Some("NID must be at least 2 characters"@)
    } else if len > 32 {
        Some("NID must be at most 32 characters"@)
    } else if !alnum_char(s[a]) {
        Some("NID must start with alphanumeric character"@)
    } else if !alnum_char(s[b - 1]) {
        Some("NID must end with alphanumeric character"@)
    } else {
        let k = scan(s, not_ldhs(), a + 1, b - 1);
        if k < b - 1 {
            Some("NID contains invalid character"@)
        } else {
            None
        }
    }
}

/// Why `s[a..b]` is not an NSS (`pchar *(pchar / "/")` with escapes), if it
/// is not; positions are byte offsets into the NSS.
pub open spec fn nss_problem(s: Seq<char>, a: int, b: int) -> Option<Seq<char>> {
    if a >= b {
        Some("NSS must not be empty"@)
    } else if s[a] == '/' {
        Some("NSS must not start with '/'"@)
    } else {
        let k = first_invalid(s, CharSet::Nss, a, b);
        if k < b {
            if s[k] == '%' {
                Some("invalid percent-encoding at position "@ + decimal(byte_len(s.subrange(a, k))))
            } else {
                Some("invalid character in NSS at position "@ + decimal(byte_len(s.subrange(a, k))))
            }
        } else {
            None
        }
    }
}

/// Hex digits of escapes uppercased: every `%` with two characters after it
/// has those two uppercased.
pub open spec fn upper_escapes(s: Seq<char>) -> Seq<char>
    decreases s.len(),
{
    if s.len() == 0 {
        Seq::empty()
    } else if s.len() >= 3 && s[0] == '%' {
        seq!['%', upper(s[1]), upper(s[2])] + upper_escapes(s.skip(3))
    } else {
        seq![s[0]] + upper_escapes(s.skip(1))
    }
}

/// Index of the first `?=` in `s[i..hi]`, or `hi`.
pub open spec fn find_query(s: Seq<char>, i: int, hi: int) -> int
    decreases hi - i,
{
    if i + 1 < hi {
        if s[i] == '?' && s[i + 1] == '=' {
            i
        } else {
            find_query(s, i + 1, hi)
        }
    } else {
        hi
    }
}

/// The r- and q-components of `s[a..b]`, which starts with `?`: `?+r`,
/// `?+r?=q` or `?=q`.
pub open spec fn rq_components(s: Seq<char>, a: int, b: int) -> Result<
    (Option<Seq<char>>, Option<Seq<char>>),
    Seq<char>,
> {
    if b - a < 2 {
        Err("unexpected '?' without '+' or '=' in URN"@)
    } else if s[a + 1] == '+' {
        let qe = find_query(s, a + 2, b);
        if qe < b {
            Ok((Some(s.subrange(a + 2, qe)), Some(s.subrange(qe + 2, b))))
        } else {
            Ok((Some(s.subrange(a + 2, b)), None))
        }
    } else if s[a + 1] == '=' {
        Ok((None, Some(s.subrange(a + 2, b))))
    } else {
        Err("unexpected character after '?' in URN (expected '?+' or '?=')"@)
    }
}

/// The URN that `s` denotes, or the reason it denotes none.
pub open spec fn parse_urn(s: Seq<char>) -> Result<UrnView, Seq<char>> {
    let n = s.len() as int;
    let colon = scan(s, is_char(':'), 0, n);
    if colon >= n {
        Err("missing scheme"@)
    } else if !eq_ignore_case(s.take(colon), "urn"@) {
        Err("scheme must be 'urn'"@)
    } else {
        let nid_end = scan(s, is_char(':'), colon + 1, n);
        if nid_end >= n {
            Err("missing ':' after NID"@)
        } else {
            match nid_problem(s, colon + 1, nid_end) {
                Some(m) => Err(m),
                None => {
                    let before = scan(s, is_char('#'), nid_end + 1, n);
                    let f = if before < n {
                        Some(s.subrange(before + 1, n))
                    } else {
                        None
                    };
                    let qm = scan(s, is_char('?'), nid_end + 1, before);
                    match nss_problem(s, nid_end + 1, qm) {
                        Some(m) => Err(m),
                        None => {
                            let rq = if qm < before {
                                rq_components(s, qm, before)
                            } else {
                                Ok((None, None))
                            };
                            match rq {
                                Err(m) => Err(m),
                                Ok((r, q)) => Ok(
                                    UrnView {
                                        nid: lower_seq(s.subrange(colon + 1, nid_end)),
                                        nss: upper_escapes(s.subrange(nid_end + 1, qm)),
                                        r,
                                        q,
                                        f,
                                    },
                                ),
                            }
                        },
                    }
                },
            }
        }
    }
}

/// The assigned name `urn:NID:NSS`.
pub open spec fn assigned_text(u: UrnView) -> Seq<char> {
    "urn:"@ + u.nid + ":"@ + u.nss
}

/// An optional component with its marker, or nothing.
pub open spec fn opt_text(marker: Seq<char>, c: Option<Seq<char>>) -> Seq<char> {
    match c {
        Some(x) => marker + x,
        None => Seq::empty(),
    }
}

/// A URN written out.
pub open spec fn urn_text(u: UrnView) -> Seq<char> {
    assigned_text(u) + opt_text("?+"@, u.r) + opt_text("?="@, u.q) + opt_text("#"@, u.f)
}

fn is_alnum_char(c: char) -> (r: bool)
    ensures
        r == alnum_char(c),
{
    let v: u32 = c as u32;
    v < 128 && crate::parse::set_allows(CharSet::Unreserved, c as u8) && c != '-' && c != '_' && c
        != '.' && c != '!' && c != '~' && c != '*' && c != '\'' && c != '(' && c != ')'
}

/// Check a NID: 2 to 32 bytes, alphanumeric first and last, letters, digits
/// and `-` in between.
pub fn validate_nid(v: &Vec<char>, a: usize, b: usize) -> (r: Result<(), String>)
    requires
        a <= b <= v@.len(),
        byte_len(v@) <= usize::MAX,
    ensures
        match r {
            Ok(()) => nid_problem(v@, a as int, b as int) is None,
            Err(m) => nid_problem(v@, a as int, b as int) == Some(m@),
        },
{
    proof {
        lemma_byte_len_subrange(v@, a as int, b as int);
    }
    let len = byte_len_between(v, a, b);
    if len < 2 {
        return Err(owned("NID must be at least 2 characters"));
    }
    if len > 32 {
        return Err(owned("NID must be at most 32 characters"));
    }
    proof {
        if a == b {
            assert(v@.subrange(a as int, b as int) =~= Seq::<char>::empty());
            assert(vstd::utf8::encode_utf8(Seq::<char>::empty()) =~= Seq::<u8>::empty());
        }
    }
    if !is_alnum_char(v[a]) {
        return Err(owned("NID must start with alphanumeric character"));
    }
    if !is_alnum_char(v[b - 1]) {
        return Err(owned("NID must end with alphanumeric character"));
    }
    proof {
        if b == a + 1 {
            assert(v@.subrange(a as int, b as int) =~= seq![v@[a as int]]);
            crate::parse::lemma_scalar_ascii_byte(v@[a as int]);
            assert(seq![v@[a as int]].drop_first() =~= Seq::<char>::empty());
            assert(vstd::utf8::encode_utf8(Seq::<char>::empty()) =~= Seq::<u8>::empty());
            assert(vstd::utf8::encode_utf8(seq![v@[a as int]]) =~= encode_scalar(v@[a as int] as u32));
        }
    }
    let mut i = a + 1;
    proof {
        lemma_scan(v@, not_ldhs(), (a + 1) as int, (b - 1) as int);
    }
    while i < b - 1
        invariant
            a + 1 <= i <= b - 1,
            b <= v@.len(),
            2 <= byte_len(v@.subrange(a as int, b as int)) <= 32,
            alnum_char(v@[a as int]),
            alnum_char(v@[b - 1]),
            scan(v@, not_ldhs(), (a + 1) as int, (b - 1) as int) == scan(
                v@,
                not_ldhs(),
                i as int,
                (b - 1) as int,
            ),
        decreases b - 1 - i,
    {
        let c = v[i];
        if !(is_alnum_char(c) || c == '-') {
            assert(not_ldhs()(v@[i as int]));
            return Err(owned("NID contains invalid character"));
        }
        assert(!not_ldhs()(v@[i as int]));
        i = i + 1;
    }
    Ok(())
}

/// Check an NSS: not empty, not starting with `/`, only `pchar`, `/` and
/// well-formed escapes.
pub fn validate_nss(v: &Vec<char>, a: usize, b: usize) -> (r: Result<(), String>)
    requires
        a <= b <= v@.len(),
        byte_len(v@) <= usize::MAX,
    ensures
        match r {
            Ok(()) => nss_problem(v@, a as int, b as int) is None,
            Err(m) => nss_problem(v@, a as int, b as int) == Some(m@),
        },
{
    if a >= b {
        return Err(owned("NSS must not be empty"));
    }
    if v[a] == '/' {
        return Err(owned("NSS must not start with '/'"));
    }
    let k = first_invalid_at(v, a, b, CharSet::Nss);
    if k < b {
        let pos = byte_len_between(v, a, k);
        if v[k] == '%' {
            let mut m = owned("invalid percent-encoding at position ");
            push_decimal(&mut m, pos);
            return Err(m);
        } else {
            let mut m = owned("invalid character in NSS at position ");
            push_decimal(&mut m, pos);
            return Err(m);
        }
    }
    Ok(())
}

/// Uppercase the hex digits of escapes in `v[lo..hi]`.
pub fn canonize_percent_encoding(v: &Vec<char>, lo: usize, hi: usize) -> (s: String)
    requires
        lo <= hi <= v@.len(),
    ensures
        s@ == upper_escapes(v@.subrange(lo as int, hi as int)),
{
    let mut s = String::new();
    let mut i = lo;
    assert(s@ + upper_escapes(v@.subrange(i as int, hi as int)) =~= upper_escapes(
        v@.subrange(lo as int, hi as int),
    ));
    while i < hi
        invariant
            lo <= i <= hi <= v@.len(),
            s@ + upper_escapes(v@.subrange(i as int, hi as int)) == upper_escapes(
                v@.subrange(lo as int, hi as int),
            ),
        decreases hi - i,
    {
        let ghost rest = v@.subrange(i as int, hi as int);
        let ghost before = s@;
        assert(rest[0] == v@[i as int]);
        if v[i] == '%' && hi - i > 2 {
            assert(rest[1] == v@[i + 1] && rest[2] == v@[i + 2]);
            assert(rest.skip(3) =~= v@.subrange(i + 3, hi as int));
            push_char(&mut s, '%');
            push_char(&mut s, to_upper(v[i + 1]));
            push_char(&mut s, to_upper(v[i + 2]));
            assert(s@ =~= before + seq!['%', upper(rest[1]), upper(rest[2])]);
            i = i + 3;
        } else {
            assert(rest.skip(1) =~= v@.subrange(i + 1, hi as int));
            push_char(&mut s, v[i]);
            assert(s@ =~= before + seq![rest[0]]);
            i = i + 1;
        }
    }
    assert(v@.subrange(hi as int, hi as int) =~= Seq::<char>::empty());
    s
}

/// Index of the first `?=` in `v[lo..hi]`, or `hi`.
fn find_query_at(v: &Vec<char>, lo: usize, hi: usize) -> (r: usize)
    requires
        lo <= hi <= v@.len(),
    ensures
        r == find_query(v@, lo as int, hi as int),
{
    let mut i = lo;
    while hi - i > 1
        invariant
            lo <= i <= hi <= v@.len(),
            find_query(v@, lo as int, hi as int) == find_query(v@, i as int, hi as int),
        decreases hi - i,
    {
        if v[i] == '?' && v[i + 1] == '=' {
            return i;
        }
        i = i + 1;
    }
    hi
}

/// Parse `?+r`, `?+r?=q` or `?=q` from `v[a..b]`, which starts with `?`.
pub fn parse_rq_components(v: &Vec<char>, a: usize, b: usize) -> (r: Result<
    (Option<String>, Option<String>),
    String,
>)
    requires
        a <= b <= v@.len(),
    ensures
        match r {
            Ok((x, y)) => rq_components(v@, a as int, b as int) == Ok::<
                (Option<Seq<char>>, Option<Seq<char>>),
                Seq<char>,
            >((x.deep_view(), y.deep_view())),
            Err(m) => rq_components(v@, a as int, b as int) == Err::<
                (Option<Seq<char>>, Option<Seq<char>>),
                Seq<char>,
            >(m@),
        },
{
    if b - a < 2 {
        return Err(owned("unexpected '?' without '+' or '=' in URN"));
    }
    if v[a + 1] == '+' {
        let qe = find_query_at(v, a + 2, b);
        proof {
            lemma_find_query(v@, (a + 2) as int, b as int);
        }
        if qe < b {
            let r = string_of(v, a + 2, qe);
            let q = string_of(v, qe + 2, b);
            Ok((Some(r), Some(q)))
        } else {
            let r = string_of(v, a + 2, b);
            Ok((Some(r), None))
        }
    } else if v[a + 1] == '=' {
        let q = string_of(v, a + 2, b);
        Ok((None, Some(q)))
    } else {
        Err(owned("unexpected character after '?' in URN (expected '?+' or '?=')"))
    }
}

/// `find_query` finds a `?=` inside the range, or returns its end.
pub proof fn lemma_find_query(s: Seq<char>, i: int, hi: int)
    requires
        i <= hi,
    ensures
        find_query(s, i, hi) == hi || (i <= find_query(s, i, hi) && find_query(s, i, hi) + 2
            <= hi && s[find_query(s, i, hi)] == '?' && s[find_query(s, i, hi) + 1] == '='),
    decreases hi - i,
{
    if i + 1 < hi && !(s[i] == '?' && s[i + 1] == '=') {
        lemma_find_query(s, i + 1, hi);
    }
}


/// The warning on one optional component `s[lo..hi]` whose marker starts
/// at `mark`: an empty component is reported at its marker, otherwise the
/// first character outside `pchar`, `/` and `?` is.
pub open spec fn component_warnings(
    s: Seq<char>,
    comp: Component,
    lo: int,
    hi: int,
    mark: int,
) -> Seq<ParseWarning> {
    if lo >= hi {
        seq![warning_at(s, comp, WarningCode::EmptyComponent, mark)]
    } else {
        charset_warnings(s, comp, CharSet::UrnComponent, lo, hi)
    }
}

/// The warnings on the r- and q-components in `s[a..b]`, which starts with
/// `?`, in input order.
pub open spec fn rq_warnings(s: Seq<char>, a: int, b: int) -> Seq<ParseWarning> {
    if b - a < 2 {
        Seq::empty()
    } else if s[a + 1] == '+' {
        let qe = find_query(s, a + 2, b);
        if qe < b {
            component_warnings(s, Component::RComponent, a + 2, qe, a) + component_warnings(
                s,
                Component::QComponent,
                qe + 2,
                b,
                qe,
            )
        } else {
            component_warnings(s, Component::RComponent, a + 2, b, a)
        }
    } else if s[a + 1] == '=' {
        component_warnings(s, Component::QComponent, a + 2, b, a)
    } else {
        Seq::empty()
    }
}

/// The warnings a URN `s` raises, in input order: an empty r- or
/// q-component, and the first character outside `pchar`, `/` and `?` in
/// each of the r-, q- and f-components. An empty fragment is no breach.
pub open spec fn urn_warnings(s: Seq<char>) -> Seq<ParseWarning> {
    let n = s.len() as int;
    let colon = scan(s, is_char(':'), 0, n);
    let nid_end = scan(s, is_char(':'), colon + 1, n);
    if colon >= n || nid_end >= n {
        Seq::empty()
    } else {
        let h = scan(s, is_char('#'), nid_end + 1, n);
        let qm = scan(s, is_char('?'), nid_end + 1, h);
        let rq = if qm < h {
            rq_warnings(s, qm, h)
        } else {
            Seq::empty()
        };
        rq + if h < n {
            charset_warnings(s, Component::FComponent, CharSet::UrnComponent, h + 1, n)
        } else {
            Seq::empty()
        }
    }
}

fn push_component(
    w: &mut Warnings,
    v: &Vec<char>,
    comp: Component,
    lo: usize,
    hi: usize,
    mark: usize,
)
    requires
        mark <= lo <= hi <= v@.len(),
        byte_len(v@) <= usize::MAX,
    ensures
        final(w)@ == old(w)@ + component_warnings(v@, comp, lo as int, hi as int, mark as int),
{
    if lo >= hi {
        w.push(comp, WarningCode::EmptyComponent, v, mark);
        assert(final(w)@ =~= old(w)@ + component_warnings(v@, comp, lo as int, hi as int, mark as int));
    } else {
        w.charset(comp, v, lo, hi, CharSet::UrnComponent);
    }
}

fn collect_urn_warnings(v: &Vec<char>, w: &mut Warnings)
    requires
        byte_len(v@) <= usize::MAX,
        old(w)@ == Seq::<ParseWarning>::empty(),
    ensures
        final(w)@ == urn_warnings(v@),
{
    let n = v.len();
    let colon = scan_char(v, 0, n, ':');
    if colon >= n {
        return;
    }
    let nid_end = scan_char(v, colon + 1, n, ':');
    if nid_end >= n {
        return;
    }
    let h = scan_char(v, nid_end + 1, n, '#');
    let qm = scan_char(v, nid_end + 1, h, '?');
    if qm < h && h - qm >= 2 {
        if v[qm + 1] == '+' {
            let qe = find_query_at(v, qm + 2, h);
            proof {
                lemma_find_query(v@, (qm + 2) as int, h as int);
            }
            if qe < h {
                push_component(w, v, Component::RComponent, qm + 2, qe, qm);
                push_component(w, v, Component::QComponent, qe + 2, h, qe);
            } else {
                push_component(w, v, Component::RComponent, qm + 2, h, qm);
            }
        } else if v[qm + 1] == '=' {
            push_component(w, v, Component::QComponent, qm + 2, h, qm);
        }
    }
    let ghost mid = w@;
    assert(mid =~= (if qm < h {
        rq_warnings(v@, qm as int, h as int)
    } else {
        Seq::empty()
    }));
    if h < n {
        w.charset(Component::FComponent, v, h + 1, n, CharSet::UrnComponent);
    } else {
        assert(w@ =~= mid + Seq::empty());
    }
}

impl UrnUri {
    /// A URN with the given NID (lowercased) and NSS, and no optional
    /// components. Nothing is checked.
    pub fn new(nid: &str, nss: &str) -> (u: UrnUri)
        ensures
            u@.nid == lower_seq(nid@),
            u@.nss == nss@,
            u@.r is None,
            u@.q is None,
            u@.f is None,
    {
        let nv = chars_of(nid);
        let lowered = lowercase_of(&nv, 0, nv.len());
        assert(nv@.subrange(0, nv@.len() as int) =~= nv@);
        UrnUri {
            nid: lowered,
            nss: owned(nss),
            r_component: None,
            q_component: None,
            f_component: None,
        }
    }

    /// Set the resolution component (`?+`).
    pub fn with_r_component(self, r: &str) -> (u: UrnUri)
        ensures
            u@ == (UrnView { r: Some(r@), ..self@ }),
    {
        let mut u = self;
        u.r_component = Some(owned(r));
        u
    }

    /// Set the query component (`?=`).
    pub fn with_q_component(self, q: &str) -> (u: UrnUri)
        ensures
            u@ == (UrnView { q: Some(q@), ..self@ }),
    {
        let mut u = self;
        u.q_component = Some(owned(q));
        u
    }

    /// Set the fragment component (`#`).
    pub fn with_f_component(self, f: &str) -> (u: UrnUri)
        ensures
            u@ == (UrnView { f: Some(f@), ..self@ }),
    {
        let mut u = self;
        u.f_component = Some(owned(f));
        u
    }

    /// The namespace identifier.
    pub fn nid(&self) -> (r: &str)
        ensures
            r@ == self@.nid,
    {
        self.nid.as_str()
    }

    /// The namespace-specific string.
    pub fn nss(&self) -> (r: &str)
        ensures
            r@ == self@.nss,
    {
        self.nss.as_str()
    }

    /// The resolution component, if present.
    pub fn r_component(&self) -> (r: Option<&str>)
        ensures
            r.deep_view() == self@.r,
    {
        match &self.r_component {
            Some(x) => Some(x.as_str()),
            None => None,
        }
    }

    /// The query component, if present.
    pub fn q_component(&self) -> (r: Option<&str>)
        ensures
            r.deep_view() == self@.q,
    {
        match &self.q_component {
            Some(x) => Some(x.as_str()),
            None => None,
        }
    }

    /// The fragment component, if present.
    pub fn f_component(&self) -> (r: Option<&str>)
        ensures
            r.deep_view() == self@.f,
    {
        match &self.f_component {
            Some(x) => Some(x.as_str()),
            None => None,
        }
    }

    /// The assigned name `urn:NID:NSS`, without the optional components.
    pub fn assigned_name(&self) -> (s: String)
        ensures
            s@ == assigned_text(self@),
    {
        let mut s = owned("urn:");
        push_str(&mut s, self.nid.as_str());
        push_str(&mut s, ":");
        push_str(&mut s, self.nss.as_str());
        s
    }

    /// The URN written out: the assigned name, then `?+r`, `?=q` and `#f`
    /// for the components present.
    pub fn to_string(&self) -> (s: String)
        ensures
            s@ == urn_text(self@),
    {
        let mut s = self.assigned_name();
        match &self.r_component {
            Some(r) => {
                push_str(&mut s, "?+");
                push_str(&mut s, r.as_str());
            },
            None => {},
        }
        match &self.q_component {
            Some(q) => {
                push_str(&mut s, "?=");
                push_str(&mut s, q.as_str());
            },
            None => {},
        }
        match &self.f_component {
            Some(f) => {
                push_str(&mut s, "#");
                push_str(&mut s, f.as_str());
            },
            None => {},
        }
        assert(s@ =~= urn_text(self@));
        s
    }

    /// Parse a URN as `parse` does, with the warnings of `urn_warnings`:
    /// it accepts exactly what `parse` accepts.
    pub fn parse_with_warnings(input: &str) -> (r: Result<Parsed<UrnUri>, ParseUrnError>)
        ensures
            match r {
                Ok(p) => parse_urn(input@) == Ok::<UrnView, Seq<char>>(p.value@) && p.warnings@
                    == urn_warnings(input@),
                Err(e) => parse_urn(input@) == Err::<UrnView, Seq<char>>(e.0@),
            },
            r matches Ok(p) ==> crate::warning::in_input_order(p.warnings@),
    {
        byte_len_fits(input);
        proof {
            crate::order::law_urn_warnings_in_order(input@);
        }
        match UrnUri::parse(input) {
            Err(e) => Err(e),
            Ok(u) => {
                byte_len_fits(input);
                let v = chars_of(input);
                let mut w = Warnings::new();
                collect_urn_warnings(&v, &mut w);
                Ok(w.finish(u))
            },
        }
    }

    /// Parse a URN: a case-insensitive `urn:` scheme, a valid NID (stored
    /// lowercase), a valid NSS (escape hex uppercased, never decoded), then
    /// `?+r`, `?=q` and, after the first `#` that follows the NID, the fragment.
    pub fn parse(input: &str) -> (r: Result<UrnUri, ParseUrnError>)
        ensures
            match r {
                Ok(u) => parse_urn(input@) == Ok::<UrnView, Seq<char>>(u@),
                Err(e) => parse_urn(input@) == Err::<UrnView, Seq<char>>(e.0@),
            },
    {
        byte_len_fits(input);
        let v = chars_of(input);
        let n = v.len();
        let colon = scan_char(&v, 0, n, ':');
        if colon >= n {
            return Err(ParseUrnError(owned("missing scheme")));
        }
        let urn: Vec<char> = vec!['u', 'r', 'n'];
        proof {
            reveal_strlit("urn");
            assert(urn@ =~= "urn"@);
            assert(v@.subrange(0, colon as int) =~= v@.take(colon as int));
        }
        if !eq_ignore_case_at(&v, 0, colon, &urn) {
            return Err(ParseUrnError(owned("scheme must be 'urn'")));
        }
        let nid_end = scan_char(&v, colon + 1, n, ':');
        if nid_end >= n {
            return Err(ParseUrnError(owned("missing ':' after NID")));
        }
        match validate_nid(&v, colon + 1, nid_end) {
            Err(m) => {
                return Err(ParseUrnError(m));
            },
            Ok(()) => {},
        }
        let before = scan_char(&v, nid_end + 1, n, '#');
        let f = if before < n {
            Some(string_of(&v, before + 1, n))
        } else {
            None
        };
        let qm = scan_char(&v, nid_end + 1, before, '?');
        match validate_nss(&v, nid_end + 1, qm) {
            Err(m) => {
                return Err(ParseUrnError(m));
            },
            Ok(()) => {},
        }
        let nss = canonize_percent_encoding(&v, nid_end + 1, qm);
        let (r, q) = if qm < before {
            match parse_rq_components(&v, qm, before) {
                Err(m) => {
                    return Err(ParseUrnError(m));
                },
                Ok(rq) => rq,
            }
        } else {
            (None, None)
        };
        let nid = lowercase_of(&v, colon + 1, nid_end);
        Ok(UrnUri { nid, nss, r_component: r, q_component: q, f_component: f })
    }
}

impl std::str::FromStr for UrnUri {
    type Err = ParseUrnError;

    fn from_str(input: &str) -> (r: Result<UrnUri, ParseUrnError>)
        ensures
            match r {
                Ok(u) => parse_urn(input@) == Ok::<UrnView, Seq<char>>(u@),
                Err(e) => parse_urn(input@) == Err::<UrnView, Seq<char>>(e.0@),
            },
    {
        UrnUri::parse(input)
    }
}


/// `upper_escapes` keeps the length and changes a character at most to its
/// uppercase.
pub proof fn lemma_upper_escapes_chars(t: Seq<char>)
    ensures
        upper_escapes(t).len() == t.len(),
        forall|j: int|
            0 <= j < t.len() ==> #[trigger] upper_escapes(t)[j] == t[j] || upper_escapes(t)[j]
                == upper(t[j]),
        t.len() > 0 ==> upper_escapes(t)[0] == t[0],
    decreases t.len(),
{
    if t.len() > 0 {
        if t.len() >= 3 && t[0] == '%' {
            lemma_upper_escapes_chars(t.skip(3));
            let x = seq!['%', upper(t[1]), upper(t[2])] + upper_escapes(t.skip(3));
            assert forall|j: int| 0 <= j < t.len() implies #[trigger] upper_escapes(t)[j] == t[j]
                || upper_escapes(t)[j] == upper(t[j]) by {
                if j >= 3 {
                    assert(upper_escapes(t)[j] == upper_escapes(t.skip(3))[j - 3]);
                    assert(t.skip(3)[j - 3] == t[j]);
                }
            }
        } else {
            lemma_upper_escapes_chars(t.skip(1));
            assert forall|j: int| 0 <= j < t.len() implies #[trigger] upper_escapes(t)[j] == t[j]
                || upper_escapes(t)[j] == upper(t[j]) by {
                if j >= 1 {
                    assert(upper_escapes(t)[j] == upper_escapes(t.skip(1))[j - 1]);
                    assert(t.skip(1)[j - 1] == t[j]);
                }
            }
        }
    }
}

/// On well-escaped text `upper_escapes` keeps it well escaped and a second
/// pass changes nothing.
pub proof fn lemma_upper_escapes_idem(t: Seq<char>)
    requires
        crate::canon::well_escaped(t, CharSet::Nss),
    ensures
        crate::canon::well_escaped(upper_escapes(t), CharSet::Nss),
        upper_escapes(upper_escapes(t)) == upper_escapes(t),
    decreases t.len(),
{
    if t.len() == 0 {
        assert(upper_escapes(t) =~= Seq::<char>::empty());
    } else if t[0] == '%' {
        lemma_upper_escapes_idem(t.skip(3));
        let x = seq!['%', upper(t[1]), upper(t[2])] + upper_escapes(t.skip(3));
        assert(upper_escapes(t) == x);
        crate::canon::lemma_upper_hex(t[1]);
        crate::canon::lemma_upper_hex(t[2]);
        assert(x.skip(3) =~= upper_escapes(t.skip(3)));
        assert(upper_escapes(x) =~= seq!['%', upper(upper(t[1])), upper(upper(t[2]))]
            + upper_escapes(x.skip(3)));
    } else {
        lemma_upper_escapes_idem(t.skip(1));
        let x = seq![t[0]] + upper_escapes(t.skip(1));
        assert(upper_escapes(t) == x);
        assert(x.skip(1) =~= upper_escapes(t.skip(1)));
        assert(upper_escapes(x) =~= seq![t[0]] + upper_escapes(x.skip(1)));
    }
}

/// Lowercasing twice is lowercasing once; a lowercased character is a
/// letter, digit or `-` exactly when the character itself is, and keeps its width.
pub proof fn lemma_lower_char(c: char)
    ensures
        crate::text::lower(crate::text::lower(c)) == crate::text::lower(c),
        alnum_char(crate::text::lower(c)) == alnum_char(c),
        not_ldh(crate::text::lower(c)) == not_ldh(c),
        crate::text::lower(c) == ':' ==> c == ':',
        crate::text::char_width(crate::text::lower(c)) == crate::text::char_width(c),
{
    let v = c as u32;
    if 'A' <= c && c <= 'Z' {
        let w = (v + 32) as u32;
        assert(crate::text::lower(c) == w as char);
        assert((w as char) as u32 == w);
        assert(v < 128 ==> (v as u8) as u32 == v) by (bit_vector);
        assert(w < 128 ==> (w as u8) as u32 == w) by (bit_vector);
        crate::parse::lemma_scalar_ascii_byte(c);
        crate::parse::lemma_scalar_ascii_byte(w as char);
    }
}

/// Lowercasing keeps the UTF-8 length.
pub proof fn lemma_byte_len_lower(x: Seq<char>)
    ensures
        byte_len(lower_seq(x)) == byte_len(x),
    decreases x.len(),
{
    if x.len() > 0 {
        let y = x.drop_last();
        lemma_byte_len_lower(y);
        assert(x =~= y + seq![x.last()]);
        assert(lower_seq(x) =~= lower_seq(y) + seq![crate::text::lower(x.last())]);
        crate::text::lemma_encode_concat(y, seq![x.last()]);
        crate::text::lemma_encode_concat(lower_seq(y), seq![crate::text::lower(x.last())]);
        lemma_lower_char(x.last());
        let a = seq![x.last()];
        let b = seq![crate::text::lower(x.last())];
        assert(a.drop_first() =~= Seq::<char>::empty());
        assert(b.drop_first() =~= Seq::<char>::empty());
        assert(vstd::utf8::encode_utf8(a.drop_first()) =~= Seq::<u8>::empty());
        assert(vstd::utf8::encode_utf8(b.drop_first()) =~= Seq::<u8>::empty());
        assert(vstd::utf8::encode_utf8(a) =~= encode_scalar(x.last() as u32));
        assert(vstd::utf8::encode_utf8(b) =~= encode_scalar(crate::text::lower(x.last()) as u32));
    }
}

/// `find_query` reads only its window.
pub proof fn lemma_find_query_window(s: Seq<char>, i: int, hi: int, t: Seq<char>, d: int)
    requires
        0 <= i <= hi <= s.len(),
        0 <= i + d,
        hi + d <= t.len(),
        forall|j: int| i <= j < hi ==> s[j] == t[j + d],
    ensures
        find_query(t, i + d, hi + d) == find_query(s, i, hi) + d,
    decreases hi - i,
{
    if i + 1 < hi {
        assert(s[i] == t[i + d] && s[i + 1] == t[i + 1 + d]);
        if !(s[i] == '?' && s[i + 1] == '=') {
            lemma_find_query_window(s, i + 1, hi, t, d);
        }
    }
}

/// `rq_components` reads only its window.
pub proof fn lemma_rq_window(s: Seq<char>, a: int, b: int, t: Seq<char>, d: int)
    requires
        0 <= a <= b <= s.len(),
        0 <= a + d,
        b + d <= t.len(),
        forall|j: int| a <= j < b ==> s[j] == t[j + d],
    ensures
        rq_components(t, a + d, b + d) == rq_components(s, a, b),
{
    if b - a >= 2 {
        assert(s[a + 1] == t[a + 1 + d]);
        if s[a + 1] == '+' {
            lemma_find_query_window(s, a + 2, b, t, d);
            lemma_find_query(s, a + 2, b);
            let qe = find_query(s, a + 2, b);
            if qe < b {
                assert(t.subrange(a + 2 + d, qe + d) =~= s.subrange(a + 2, qe));
                assert(t.subrange(qe + 2 + d, b + d) =~= s.subrange(qe + 2, b));
            } else {
                assert(t.subrange(a + 2 + d, b + d) =~= s.subrange(a + 2, b));
            }
        } else if s[a + 1] == '=' {
            assert(t.subrange(a + 2 + d, b + d) =~= s.subrange(a + 2, b));
        }
    }
}

/// The r- and q-components written out are the text they were read from.
pub proof fn lemma_rq_text(s: Seq<char>, a: int, b: int)
    requires
        0 <= a < b <= s.len(),
        s[a] == '?',
        rq_components(s, a, b) is Ok,
    ensures
        rq_components(s, a, b) matches Ok((r, q)) && opt_text("?+"@, r) + opt_text("?="@, q)
            == s.subrange(a, b),
{
    reveal_strlit("?+");
    reveal_strlit("?=");
    if s[a + 1] == '+' {
        lemma_find_query(s, a + 2, b);
        let qe = find_query(s, a + 2, b);
        if qe < b {
            assert("?+"@ + s.subrange(a + 2, qe) + ("?="@ + s.subrange(qe + 2, b)) =~= s.subrange(
                a,
                b,
            ));
        } else {
            assert("?+"@ + s.subrange(a + 2, b) + Seq::<char>::empty() =~= s.subrange(a, b));
        }
    } else {
        assert(Seq::<char>::empty() + ("?="@ + s.subrange(a + 2, b)) =~= s.subrange(a, b));
    }
}

/// The NID checks pass on the lowercased NID, which lowercases to itself.
pub proof fn lemma_nid_lowered(s: Seq<char>, a: int, b: int, t: Seq<char>, c: int)
    requires
        0 <= a <= b <= s.len(),
        0 <= c,
        c + (b - a) <= t.len(),
        nid_problem(s, a, b) is None,
        t.subrange(c, c + (b - a)) == lower_seq(s.subrange(a, b)),
    ensures
        nid_problem(t, c, c + (b - a)) is None,
        lower_seq(t.subrange(c, c + (b - a))) == t.subrange(c, c + (b - a)),
{
    let raw = s.subrange(a, b);
    let e = c + (b - a);
    lemma_byte_len_lower(raw);
    assert(b - a >= 2) by {
        if b - a < 2 {
            assert(byte_len(raw) < 2) by {
                if b - a == 1 {
                    assert(raw =~= seq![raw[0]]);
                    assert(raw.drop_first() =~= Seq::<char>::empty());
                    assert(vstd::utf8::encode_utf8(raw.drop_first()) =~= Seq::<u8>::empty());
                    crate::parse::lemma_scalar_ascii_byte(raw[0]);
                    assert(alnum_char(s[a]));
                } else {
                    assert(raw =~= Seq::<char>::empty());
                }
            }
        }
    }
    assert forall|j: int| a <= j < b implies t[j - a + c] == crate::text::lower(#[trigger] s[j]) by {
        assert(t[j - a + c] == t.subrange(c, e)[j - a]);
        assert(s[j] == raw[j - a]);
    }
    lemma_lower_char(s[a]);
    lemma_lower_char(s[b - 1]);
    assert(t[c] == crate::text::lower(s[a]));
    assert(t[e - 1] == crate::text::lower(s[b - 1]));
    lemma_scan(s, not_ldhs(), a + 1, b - 1);
    assert forall|k: int| c + 1 <= k < e - 1 implies !not_ldhs()(#[trigger] t[k]) by {
        let j = k - c + a;
        assert(!not_ldhs()(s[j]));
        lemma_lower_char(s[j]);
        assert(t[k] == crate::text::lower(s[j]));
    }
    crate::canon::lemma_scan_is(t, not_ldhs(), c + 1, e - 1, e - 1);
    assert forall|k: int| 0 <= k < b - a implies #[trigger] lower_seq(t.subrange(c, e))[k]
        == t.subrange(c, e)[k] by {
        lemma_lower_char(raw[k]);
    }
    assert(lower_seq(t.subrange(c, e)) =~= t.subrange(c, e));
}

/// Writing out a parsed URN and parsing the text again gives the same URN:
/// `parse(display(parse(x))) == parse(x)` for every accepted `x`.
#[verifier::rlimit(60)]
#[verifier::spinoff_prover]
pub proof fn law_urn_round_trip(s: Seq<char>)
    requires
        parse_urn(s) is Ok,
    ensures
        parse_urn(urn_text(parse_urn(s)->Ok_0)) == parse_urn(s),
{
    reveal_strlit("urn:");
    reveal_strlit("urn");
    reveal_strlit(":");
    reveal_strlit("#");
    let n = s.len() as int;
    let u = parse_urn(s)->Ok_0;
    let colon = scan(s, is_char(':'), 0, n);
    lemma_scan(s, is_char(':'), 0, n);
    let nid_end = scan(s, is_char(':'), colon + 1, n);
    lemma_scan(s, is_char(':'), colon + 1, n);
    let raw_nid = s.subrange(colon + 1, nid_end);
    let before = scan(s, is_char('#'), nid_end + 1, n);
    lemma_scan(s, is_char('#'), nid_end + 1, n);
    let qm = scan(s, is_char('?'), nid_end + 1, before);
    lemma_scan(s, is_char('?'), nid_end + 1, before);
    let raw_nss = s.subrange(nid_end + 1, qm);
    let nid = lower_seq(raw_nid);
    let nss = upper_escapes(raw_nss);
    assert(u.nid == nid && u.nss == nss);
    // the NSS, well escaped and free of `#`, `?` and `:`
    lemma_first_invalid_bounds(s, CharSet::Nss, nid_end + 1, qm);
    crate::canon::lemma_first_invalid_window(s, CharSet::Nss, nid_end + 1, qm);
    lemma_upper_escapes_idem(raw_nss);
    lemma_upper_escapes_chars(raw_nss);
    assert forall|c: char| #[trigger] is_char('#')(c) implies c != '%' && !hex_char(c)
        && !crate::parse::char_allowed(CharSet::Nss, c) by {}
    crate::canon::lemma_well_escaped_excludes(raw_nss, CharSet::Nss, is_char('#'));
    // the written-out optional components are the text they came from
    let tail = s.subrange(qm, n);
    if qm < before {
        lemma_rq_text(s, qm, before);
    } else {
        assert(s.subrange(qm, before) =~= Seq::<char>::empty());
    }
    assert(opt_text("?+"@, u.r) + opt_text("?="@, u.q) == s.subrange(qm, before));
    match u.f {
        Some(f) => {
            assert(opt_text("#"@, u.f) =~= s.subrange(before, n));
        },
        None => {
            assert(opt_text("#"@, u.f) =~= s.subrange(before, n));
        },
    }
    let t = urn_text(u);
    let m = t.len() as int;
    assert(s.subrange(qm, before) + s.subrange(before, n) =~= tail);
    assert(t =~= "urn:"@ + nid + ":"@ + nss + tail);
    let ne2 = 4 + nid.len() as int;
    let qm2 = ne2 + 1 + nss.len() as int;
    let d = qm2 - qm;
    assert(m == qm2 + (n - qm));
    assert forall|j: int| qm <= j < n implies s[j] == t[j + d] by {
        assert(t[j + d] == tail[j - qm]);
    }
    // scheme and NID
    assert(t[0] == 'u' && t[1] == 'r' && t[2] == 'n' && t[3] == ':');
    crate::canon::lemma_scan_is(t, is_char(':'), 0, 3, m);
    assert(t.take(3) =~= "urn"@);
    assert(t.subrange(4, ne2) =~= nid);
    assert(nid.len() == raw_nid.len());
    assert forall|k: int| 4 <= k < ne2 implies !is_char(':')(#[trigger] t[k]) by {
        assert(t[k] == nid[k - 4]);
        assert(raw_nid[k - 4] == s[colon + 1 + k - 4]);
        lemma_lower_char(raw_nid[k - 4]);
    }
    assert(t[ne2] == ':');
    crate::canon::lemma_scan_is(t, is_char(':'), 4, ne2, m);
    assert(nid_problem(s, colon + 1, nid_end) is None);
    lemma_nid_lowered(s, colon + 1, nid_end, t, 4);
    // the fragment
    assert(t.subrange(ne2 + 1, qm2) =~= nss);
    lemma_urn_fragment(s, nid_end, before, qm, t, ne2, qm2, nss);
    // the NSS and the `?`
    assert forall|k: int| ne2 + 1 <= k < qm2 implies !is_char('?')(#[trigger] t[k]) by {
        let j = k - ne2 - 1;
        assert(t[k] == nss[j]);
        assert(raw_nss[j] == s[nid_end + 1 + j]);
        assert(nss[j] == raw_nss[j] || nss[j] == upper(raw_nss[j]));
    }
    let before2 = before + d;
    if qm < before {
        assert(t[qm2] == s[qm]);
    }
    crate::canon::lemma_scan_is(t, is_char('?'), ne2 + 1, qm2, before2);
    lemma_nss_checked(s, nid_end + 1, qm, t, ne2 + 1, qm2);
    if qm < before {
        lemma_rq_window(s, qm, before, t, d);
    }
    if u.f is Some {
        assert(t.subrange(before2 + 1, m) =~= s.subrange(before + 1, n));
    }
}

/// The fragment of the written-out URN is found where it was written.
pub proof fn lemma_urn_fragment(
    s: Seq<char>,
    nid_end: int,
    before: int,
    qm: int,
    t: Seq<char>,
    ne2: int,
    qm2: int,
    nss: Seq<char>,
)
    requires
        0 <= nid_end < qm <= before <= s.len(),
        0 <= ne2,
        qm2 == ne2 + 1 + nss.len(),
        t.len() == qm2 + (s.len() - qm),
        t.subrange(ne2 + 1, qm2) == nss,
        forall|j: int| qm <= j < s.len() ==> s[j] == t[j + (qm2 - qm)],
        forall|j: int| 0 <= j < nss.len() ==> nss[j] != '#',
        before == scan(s, is_char('#'), nid_end + 1, s.len() as int),
    ensures
        scan(t, is_char('#'), ne2 + 1, t.len() as int) == before + (qm2 - qm),
{
    let d = qm2 - qm;
    let n = s.len() as int;
    let m = t.len() as int;
    lemma_scan(s, is_char('#'), nid_end + 1, n);
    assert forall|k: int| ne2 + 1 <= k < before + d implies !is_char('#')(#[trigger] t[k]) by {
        if k < qm2 {
            assert(t[k] == nss[k - ne2 - 1]);
        } else {
            assert(t[k] == s[k - d]);
        }
    }
    if before < n {
        assert(t[before + d] == s[before]);
    }
    crate::canon::lemma_scan_is(t, is_char('#'), ne2 + 1, before + d, m);
}

/// The NSS checks pass on the uppercased NSS.
pub proof fn lemma_nss_checked(s: Seq<char>, a: int, b: int, t: Seq<char>, c: int, e: int)
    requires
        0 <= a <= b <= s.len(),
        0 <= c <= e <= t.len(),
        nss_problem(s, a, b) is None,
        t.subrange(c, e) == upper_escapes(s.subrange(a, b)),
    ensures
        nss_problem(t, c, e) is None,
        upper_escapes(t.subrange(c, e)) == t.subrange(c, e),
{
    let raw = s.subrange(a, b);
    lemma_first_invalid_bounds(s, CharSet::Nss, a, b);
    crate::canon::lemma_first_invalid_window(s, CharSet::Nss, a, b);
    lemma_upper_escapes_idem(raw);
    lemma_upper_escapes_chars(raw);
    assert(e - c == b - a);
    assert(t[c] == t.subrange(c, e)[0]);
    assert(raw[0] == s[a]);
    crate::canon::lemma_first_invalid_window(t, CharSet::Nss, c, e);
}

} // verus!
