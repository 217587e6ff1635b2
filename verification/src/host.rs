//! The host of a URI: an IPv4 address, an IPv6 reference or a hostname.

use vstd::prelude::*;

use crate::error::ParseHostError;
use crate::ip::{
    Ipv4Addr, Ipv6Addr, dec_digit, parse_ipv4, parse_ipv4_at, parse_ipv6, parse_ipv6_at,
    v4_text, v6_text,
};
use crate::params::scan_char;
use crate::parse::{CharSet, alnum, decode_chars, is_char, pct_decode};
use crate::text::{
    byte_len, byte_len_fits, byte_offset, chars_of, decimal, is_ascii, lemma_byte_offset_mono,
    lemma_scan, lower_seq, lowercase_of, offset_of, owned, push_decimal, push_str, scan,
};
use crate::warning::{Component, ParseWarning, Parsed, WarningCode, Warnings, warning_at};

verus! {

broadcast use vstd::string::group_string_axioms;

/// Host component of a URI. IPv6 addresses are held without brackets.
#[derive(Debug, Clone, PartialEq, Eq, Hash)]
#[non_exhaustive]
pub enum Host {
    /// IPv4 address.
    IPv4(Ipv4Addr),
    /// IPv6 address.
    IPv6(Ipv6Addr),
    /// DNS hostname, lowercase when parsed.
    Hostname(String),
}

/// A host as values.
pub enum HostView {
    /// Four octets.
    IPv4(Seq<u8>),
    /// Eight 16-bit groups.
    IPv6(Seq<u16>),
    /// The hostname's characters.
    Hostname(Seq<char>),
}

impl View for Host {
    type V = HostView;

    open spec fn view(&self) -> HostView {
        match self {
            Host::IPv4(a) => HostView::IPv4(a@),
            Host::IPv6(a) => HostView::IPv6(a@),
            Host::Hostname(n) => HostView::Hostname(n@),
        }
    }
}

/// A host as it stands in a URI: IPv6 in brackets.
pub open spec fn host_text(h: HostView) -> Seq<char> {
    match h {
        HostView::IPv4(o) => v4_text(o),
        HostView::IPv6(g) => "["@ + v6_text(g) + "]"@,
        HostView::Hostname(n) => n,
    }
}

/// A host with no brackets around IPv6.
pub open spec fn bare_text(h: HostView) -> Seq<char> {
    match h {
        HostView::IPv4(o) => v4_text(o),
        HostView::IPv6(g) => v6_text(g),
        HostView::Hostname(n) => n,
    }
}

/// Characters that end a host: `: ; ? # >`.
pub open spec fn host_stop(c: char) -> bool {
    c == ':' || c == ';' || c == '?' || c == '#' || c == '>'
}

/// Where the host that starts at `s[i]` ends: the first `: ; ? # >`, with a
/// `%` and the two characters after it skipped as one escape.
pub open spec fn host_end(s: Seq<char>, i: int, hi: int) -> int
    decreases hi - i,
{
    if i < hi {
        if host_stop(s[i]) {
            i
        } else if s[i] == '%' && hi - i > 2 {
            host_end(s, i + 3, hi)
        } else {
            host_end(s, i + 1, hi)
        }
    } else {
        hi
    }
}

/// ASCII letter.
pub open spec fn alpha(c: char) -> bool {
    ('a' <= c && c <= 'z') || ('A' <= c && c <= 'Z')
}

/// A hostname character: letter, digit, `-` or `.`.
pub open spec fn hostname_char(c: char) -> bool {
    (is_ascii(c) && alnum(c as u8)) || c == '-' || c == '.'
}

/// Digits and dots only.
pub open spec fn all_digits_dots(s: Seq<char>) -> bool {
    forall|i: int| 0 <= i < s.len() ==> dec_digit(#[trigger] s[i]) || s[i] == '.'
}

/// Letters, digits, `-` and `.` only.
pub open spec fn all_hostname_chars(s: Seq<char>) -> bool {
    forall|i: int| 0 <= i < s.len() ==> hostname_char(#[trigger] s[i])
}

/// The first label problem in the labels `name[i..hi]` (the hostname less
/// one trailing dot): an empty label or one starting or ending with `-`,
/// else a last label not starting with a letter; with the offset of the
/// label in `name`.
pub open spec fn label_problem(name: Seq<char>, i: int, hi: int) -> Option<(WarningCode, int)>
    decreases hi - i,
{
    let end = scan(name, is_char('.'), i, hi);
    if end <= i || name[i] == '-' || name[end - 1] == '-' {
        Some((WarningCode::InvalidHostLabel, i))
    } else if end < hi && i <= hi {
        proof {
            lemma_scan(name, is_char('.'), i, hi);
        }
        label_problem(name, end + 1, hi)
    } else if !alpha(name[i]) {
        Some((WarningCode::NumericToplabel, i))
    } else {
        None
    }
}

/// The labels of a hostname: all of it, less one trailing dot.
pub open spec fn labels_end(name: Seq<char>) -> int {
    if name.len() > 0 && name[name.len() - 1] == '.' {
        name.len() - 1
    } else {
        name.len() as int
    }
}

/// The host that starts at `s[lo]` in a URI whose text is `s[..hi]`: the
/// host, the index after it, and the warnings raised on it; or the reason
/// there is none.
pub open spec fn host_at(s: Seq<char>, lo: int, hi: int) -> Result<
    (HostView, int, Seq<ParseWarning>),
    Seq<char>,
> {
    if lo >= hi {
        Err("empty host"@)
    } else if s[lo] == '[' {
        let rb = scan(s, is_char(']'), lo, hi);
        if rb >= hi {
            Err("unclosed IPv6 bracket"@)
        } else {
            match parse_ipv6(s, lo + 1, rb) {
                Some(g) => Ok((HostView::IPv6(g), rb + 1, Seq::empty())),
                None => Err("invalid IPv6 address: invalid IPv6 address syntax"@),
            }
        }
    } else {
        let end = host_end(s, lo, hi);
        if end <= lo {
            Err("empty host"@)
        } else {
            match hostname_at(s, lo, end) {
                Ok((h, w)) => Ok((h, end, w)),
                Err(m) => Err(m),
            }
        }
    }
}

/// The host written as `s[lo..end]` outside brackets: a dotted-decimal IPv4
/// address or a hostname, escapes decoded; with its warnings.
pub open spec fn hostname_at(s: Seq<char>, lo: int, end: int) -> Result<
    (HostView, Seq<ParseWarning>),
    Seq<char>,
> {
    {
        {
            let raw = s.subrange(lo, end);
            let escaped = raw.contains('%');
            let w1 = if escaped {
                seq![warning_at(s, Component::Host, WarningCode::EscapedHost, lo)]
            } else {
                Seq::empty()
            };
            let name = if escaped {
                pct_decode(raw, CharSet::Unreserved)
            } else {
                raw
            };
            if all_digits_dots(name) && parse_ipv4(name, 0, name.len() as int) is Some {
                Ok((HostView::IPv4(parse_ipv4(name, 0, name.len() as int)->0), w1))
            } else if !all_hostname_chars(name) {
                Err("invalid hostname character"@)
            } else {
                let w2 = match label_problem(name, 0, labels_end(name)) {
                    Some((code, off)) => seq![
                        warning_at(
                            s,
                            Component::Host,
                            code,
                            lo + if name.len() == raw.len() {
                                off
                            } else {
                                0
                            },
                        ),
                    ],
                    None => Seq::empty(),
                };
                Ok((HostView::Hostname(lower_seq(name)), w1 + w2))
            }
        }
    }
}

/// A whole string read as a host: a bare IPv6 address, else a host that
/// takes up all of the string.
pub open spec fn parse_host(s: Seq<char>) -> Result<(HostView, Seq<ParseWarning>), Seq<char>> {
    let n = s.len() as int;
    if !(n > 0 && s[0] == '[') && parse_ipv6(s, 0, n) is Some {
        Ok((HostView::IPv6(parse_ipv6(s, 0, n)->0), Seq::empty()))
    } else {
        match host_at(s, 0, n) {
            Err(e) => Err(e),
            Ok((h, end, w)) => if end != n {
                Err("trailing content after host at position "@ + decimal(byte_offset(s, end)))
            } else {
                Ok((h, w))
            },
        }
    }
}

fn host_end_at(v: &Vec<char>, lo: usize, hi: usize) -> (r: usize)
    requires
        lo <= hi <= v@.len(),
    ensures
        r == host_end(v@, lo as int, hi as int),
        lo <= r <= hi,
{
    proof {
        lemma_host_end(v@, lo as int, hi as int);
    }
    let mut i = lo;
    while i < hi
        invariant
            lo <= i <= hi <= v@.len(),
            host_end(v@, lo as int, hi as int) == host_end(v@, i as int, hi as int),
        decreases hi - i,
    {
        let c = v[i];
        if c == ':' || c == ';' || c == '?' || c == '#' || c == '>' {
            return i;
        }
        if c == '%' && hi - i > 2 {
            i = i + 3;
        } else {
            i = i + 1;
        }
    }
    i
}

/// `host_end` lands inside the range.
pub proof fn lemma_host_end(s: Seq<char>, i: int, hi: int)
    requires
        i <= hi,
    ensures
        i <= host_end(s, i, hi) <= hi,
    decreases hi - i,
{
    if i < hi && !host_stop(s[i]) {
        if s[i] == '%' && hi - i > 2 {
            lemma_host_end(s, i + 3, hi);
        } else {
            lemma_host_end(s, i + 1, hi);
        }
    }
}

fn is_alpha(c: char) -> (r: bool)
    ensures
        r == alpha(c),
{
    ('a' <= c && c <= 'z') || ('A' <= c && c <= 'Z')
}

fn is_hostname_char(c: char) -> (r: bool)
    ensures
        r == hostname_char(c),
{
    crate::parse::char_in_set(CharSet::Unreserved, c) && c != '_' && c != '!' && c != '~' && c
        != '*' && c != '\'' && c != '(' && c != ')' || c == '-' || c == '.'
}

/// `label_problem` points inside the labels.
pub proof fn lemma_label_problem(name: Seq<char>, i: int, hi: int)
    requires
        0 <= i <= hi <= name.len(),
    ensures
        label_problem(name, i, hi) matches Some((c, off)) ==> i <= off <= hi,
    decreases hi - i,
{
    lemma_scan(name, is_char('.'), i, hi);
    let end = scan(name, is_char('.'), i, hi);
    if !(end <= i || name[i] == '-' || name[end - 1] == '-') && end < hi {
        lemma_label_problem(name, end + 1, hi);
    }
}

fn label_problem_at(name: &Vec<char>) -> (r: Option<(WarningCode, usize)>)
    ensures
        match label_problem(name@, 0, labels_end(name@)) {
            Some((c, off)) => r == Some((c, off as usize)),
            None => r is None,
        },
        r matches Some((c, off)) ==> off <= name@.len(),
{
    let hi = if name.len() > 0 && name[name.len() - 1] == '.' {
        name.len() - 1
    } else {
        name.len()
    };
    proof {
        lemma_label_problem(name@, 0, hi as int);
    }
    let mut i: usize = 0;
    loop
        invariant
            0 <= i <= hi <= name@.len(),
            hi == labels_end(name@),
            label_problem(name@, 0, hi as int) == label_problem(name@, i as int, hi as int),
        decreases hi - i,
    {
        proof {
            lemma_label_problem(name@, i as int, hi as int);
        }
        let end = scan_char(name, i, hi, '.');
        if end <= i || name[i] == '-' || name[end - 1] == '-' {
            return Some((WarningCode::InvalidHostLabel, i));
        }
        if end < hi {
            i = end + 1;
        } else {
            if !is_alpha(name[i]) {
                return Some((WarningCode::NumericToplabel, i));
            }
            return None;
        }
    }
}

fn all_digits_dots_at(v: &Vec<char>) -> (r: bool)
    ensures
        r == all_digits_dots(v@),
{
    let mut i: usize = 0;
    while i < v.len()
        invariant
            i <= v@.len(),
            forall|j: int| 0 <= j < i ==> dec_digit(#[trigger] v@[j]) || v@[j] == '.',
        decreases v@.len() - i,
    {
        if !(('0' <= v[i] && v[i] <= '9') || v[i] == '.') {
            return false;
        }
        i = i + 1;
    }
    true
}

fn all_hostname_chars_at(v: &Vec<char>) -> (r: bool)
    ensures
        r == all_hostname_chars(v@),
{
    let mut i: usize = 0;
    while i < v.len()
        invariant
            i <= v@.len(),
            forall|j: int| 0 <= j < i ==> hostname_char(#[trigger] v@[j]),
        decreases v@.len() - i,
    {
        if !is_hostname_char(v[i]) {
            assert(!hostname_char(v@[i as int]));
            return false;
        }
        i = i + 1;
    }
    true
}

fn contains_percent(v: &Vec<char>, lo: usize, hi: usize) -> (r: bool)
    requires
        lo <= hi <= v@.len(),
    ensures
        r == v@.subrange(lo as int, hi as int).contains('%'),
{
    let mut i = lo;
    while i < hi
        invariant
            lo <= i <= hi <= v@.len(),
            forall|j: int| lo <= j < i ==> v@[j] != '%',
        decreases hi - i,
    {
        if v[i] == '%' {
            assert(v@.subrange(lo as int, hi as int)[i - lo] == '%');
            return true;
        }
        i = i + 1;
    }
    proof {
        if v@.subrange(lo as int, hi as int).contains('%') {
            let k = choose|k: int|
                0 <= k < v@.subrange(lo as int, hi as int).len() && v@.subrange(
                    lo as int,
                    hi as int,
                )[k] == '%';
            assert(v@[lo + k] == '%');
        }
    }
    false
}

/// Parse the host `v[lo..end]` written outside brackets (see `hostname_at`).
fn parse_hostname(v: &Vec<char>, lo: usize, end: usize, warnings: &mut Warnings) -> (r: Result<Host, String>)
    requires
        lo < end <= v@.len(),
        byte_len(v@) <= usize::MAX,
    ensures
        match hostname_at(v@, lo as int, end as int) {
            Ok((h, w)) => r matches Ok(host) && host@ == h && final(warnings)@ == old(warnings)@ + w,
            Err(m) => r matches Err(e) && e@ == m,
        },
{
    let ghost raw = v@.subrange(lo as int, end as int);
    let ghost w0 = warnings@;
    let escaped = contains_percent(v, lo, end);
    let name: Vec<char> = if escaped {
        warnings.push(Component::Host, WarningCode::EscapedHost, v, lo);
        let d = decode_chars(v, lo, end, CharSet::Unreserved);
        chars_of(d.as_str())
    } else {
        let mut n: Vec<char> = Vec::new();
        let mut k = lo;
        while k < end
            invariant
                lo <= k <= end <= v@.len(),
                n@ == v@.subrange(lo as int, k as int),
            decreases end - k,
        {
            n.push(v[k]);
            k = k + 1;
            assert(n@ =~= v@.subrange(lo as int, k as int));
        }
        n
    };
    let ghost w1 = warnings@;
    assert(w1 =~= w0 + if raw.contains('%') {
        seq![warning_at(v@, Component::Host, WarningCode::EscapedHost, lo as int)]
    } else {
        Seq::<ParseWarning>::empty()
    });
    if all_digits_dots_at(&name) {
        match parse_ipv4_at(&name, 0, name.len()) {
            Some(a) => {
                return Ok(Host::IPv4(a));
            },
            None => {},
        }
    }
    if !all_hostname_chars_at(&name) {
        return Err(owned("invalid hostname character"));
    }
    let raw_len = end - lo;
    let ghost wesc = if raw.contains('%') {
        seq![warning_at(v@, Component::Host, WarningCode::EscapedHost, lo as int)]
    } else {
        Seq::<ParseWarning>::empty()
    };
    let ghost w2 = match label_problem(name@, 0, labels_end(name@)) {
        Some((code, off)) => seq![
            warning_at(
                v@,
                Component::Host,
                code,
                lo + if name@.len() == raw.len() {
                    off
                } else {
                    0
                },
            ),
        ],
        None => Seq::<ParseWarning>::empty(),
    };
    proof {
        lemma_label_problem(name@, 0, labels_end(name@));
    }
    match label_problem_at(&name) {
        Some((code, off)) => {
            let at = if name.len() == raw_len {
                off
            } else {
                0
            };
            proof {
                if name@.len() == raw_len {
                    assert(lo + off <= end);
                }
            }
            warnings.push(Component::Host, code, v, lo + at);
        },
        None => {},
    }
    assert(warnings@ =~= w0 + (wesc + w2));
    let lowered = lowercase_of(&name, 0, name.len());
    assert(name@.subrange(0, name@.len() as int) =~= name@);
    Ok(Host::Hostname(lowered))
}

impl Host {
    /// Parse the host that starts at `v[lo]`, in a URI whose text is
    /// `v[..hi]`: `[IPv6]`, dotted-decimal IPv4, or a hostname (checked,
    /// escapes decoded, lowercased). Gives the host and the index after it.
    pub fn parse_from_uri(v: &Vec<char>, lo: usize, hi: usize, warnings: &mut Warnings) -> (r: Result<
        (Host, usize),
        String,
    >)
        requires
            lo <= hi <= v@.len(),
            byte_len(v@) <= usize::MAX,
        ensures
            match host_at(v@, lo as int, hi as int) {
                Ok((h, end, w)) => r matches Ok((host, e)) && host@ == h && e == end
                    && final(warnings)@ == old(warnings)@ + w,
                Err(m) => r matches Err(e) && e@ == m,
            },
            r matches Ok((host, e)) ==> lo < e <= hi,
    {
        if lo >= hi {
            return Err(owned("empty host"));
        }
        if v[lo] == '[' {
            let rb = scan_char(v, lo, hi, ']');
            if rb >= hi {
                return Err(owned("unclosed IPv6 bracket"));
            }
            match parse_ipv6_at(v, lo + 1, rb) {
                Some(a) => {
                    assert(old(warnings)@ + Seq::<ParseWarning>::empty() =~= warnings@);
                    return Ok((Host::IPv6(a), rb + 1));
                },
                None => {
                    return Err(owned("invalid IPv6 address: invalid IPv6 address syntax"));
                },
            }
        }
        let end = host_end_at(v, lo, hi);
        if end <= lo {
            return Err(owned("empty host"));
        }
        match parse_hostname(v, lo, end, warnings) {
            Ok(h) => Ok((h, end)),
            Err(m) => Err(m),
        }
    }

    /// Parse a complete host, with no URI around it: a hostname, a bare
    /// IPv4 or IPv6 address, or a bracketed IPv6 reference. Anything after
    /// the host (a port, parameters) is an error here.
    pub fn parse_with_warnings(s: &str) -> (r: Result<Parsed<Host>, ParseHostError>)
        ensures
            match parse_host(s@) {
                Ok((h, w)) => r matches Ok(p) && p.value@ == h && p.warnings@ == w,
                Err(m) => r matches Err(e) && e.0@ == m,
            },
            r matches Ok(p) ==> crate::warning::in_input_order(p.warnings@),
    {
        byte_len_fits(s);
        proof {
            if parse_host(s@) is Ok {
                crate::order::law_host_warnings_in_order(s@);
            }
        }
        let v = chars_of(s);
        let n = v.len();
        let mut warnings = Warnings::new();
        if !(n > 0 && v[0] == '[') {
            match parse_ipv6_at(&v, 0, n) {
                Some(a) => {
                    return Ok(warnings.finish(Host::IPv6(a)));
                },
                None => {},
            }
        }
        match Host::parse_from_uri(&v, 0, n, &mut warnings) {
            Err(e) => Err(ParseHostError(e)),
            Ok((host, consumed)) => {
                if consumed != n {
                    proof {
                        lemma_byte_offset_mono(v@, consumed as int);
                    }
                    let mut m = owned("trailing content after host at position ");
                    push_decimal(&mut m, offset_of(&v, consumed));
                    return Err(ParseHostError(m));
                }
                assert(warnings@ =~= Seq::<ParseWarning>::empty() + warnings@);
                Ok(warnings.finish(host))
            },
        }
    }

    /// Parse a complete host (see `parse_with_warnings`), dropping warnings.
    pub fn parse(s: &str) -> (r: Result<Host, ParseHostError>)
        ensures
            match parse_host(s@) {
                Ok((h, w)) => r matches Ok(host) && host@ == h,
                Err(m) => r matches Err(e) && e.0@ == m,
            },
    {
        match Host::parse_with_warnings(s) {
            Ok(p) => Ok(p.value),
            Err(e) => Err(e),
        }
    }

    /// The host as it stands in a URI: IPv6 in brackets.
    pub fn to_string(&self) -> (s: String)
        ensures
            s@ == host_text(self@),
    {
        match self {
            Host::IPv4(a) => a.to_string(),
            Host::IPv6(a) => {
                let mut s = owned("[");
                let t = a.to_string();
                push_str(&mut s, t.as_str());
                push_str(&mut s, "]");
                s
            },
            Host::Hostname(n) => n.clone(),
        }
    }

    /// Append the host as it stands in a URI to `out`; the same text as
    /// `to_string`.
    pub fn fmt_uri(&self, out: &mut String)
        ensures
            final(out)@ == old(out)@ + host_text(self@),
    {
        let t = self.to_string();
        push_str(out, t.as_str());
    }

    /// Render without IPv6 brackets, for contexts that supply their own or
    /// take none (SDP connection lines, URI parameter values, log text).
    pub fn bare(&self) -> (b: Bare<'_>)
        ensures
            b.0 == self,
    {
        Bare(self)
    }
}

/// A host rendered without IPv6 brackets; returned by `Host::bare`.
#[derive(Debug, Clone, Copy)]
pub struct Bare<'a>(pub &'a Host);

impl<'a> Bare<'a> {
    /// The host text without brackets.
    pub fn to_string(&self) -> (s: String)
        ensures
            s@ == bare_text(self.0@),
    {
        match self.0 {
            Host::IPv4(a) => a.to_string(),
            Host::IPv6(a) => a.to_string(),
            Host::Hostname(n) => n.clone(),
        }
    }
}

impl std::str::FromStr for Host {
    type Err = ParseHostError;

    fn from_str(s: &str) -> (r: Result<Host, ParseHostError>)
        ensures
            match parse_host(s@) {
                Ok((h, w)) => r matches Ok(host) && host@ == h,
                Err(m) => r matches Err(e) && e.0@ == m,
            },
    {
        Host::parse(s)
    }
}

/// A host as the parser leaves it: four octets, eight groups, or a
/// nonempty lowercase hostname of letters, digits, `-` and `.` that is not a
/// dotted-decimal address.
pub open spec fn host_valid(h: HostView) -> bool {
    match h {
        HostView::IPv4(o) => o.len() == 4,
        HostView::IPv6(g) => g.len() == 8,
        HostView::Hostname(n) => n.len() > 0 && all_hostname_chars(n) && lower_seq(n) == n && !(
        all_digits_dots(n) && parse_ipv4(n, 0, n.len() as int) is Some),
    }
}

/// Lowercasing keeps hostname characters and digits and dots, and changes
/// nothing that is a digit or a dot.
pub proof fn lemma_lower_host_char(c: char)
    ensures
        hostname_char(crate::text::lower(c)) == hostname_char(c),
        (dec_digit(crate::text::lower(c)) || crate::text::lower(c) == '.') ==> crate::text::lower(
            c,
        ) == c,
        crate::text::lower(crate::text::lower(c)) == crate::text::lower(c),
{
    crate::urn_uri::lemma_lower_char(c);
    let v = c as u32;
    if 'A' <= c && c <= 'Z' {
        let w = (v + 32) as u32;
        assert(crate::text::lower(c) == w as char);
        assert((w as char) as u32 == w);
        assert(v < 128 ==> (v as u8) as u32 == v) by (bit_vector);
        assert(w < 128 ==> (w as u8) as u32 == w) by (bit_vector);
    }
}

/// What `hostname_at` gives is a valid host.
pub proof fn lemma_hostname_at_valid(s: Seq<char>, lo: int, end: int)
    requires
        0 <= lo < end <= s.len(),
        hostname_at(s, lo, end) is Ok,
    ensures
        hostname_at(s, lo, end) matches Ok((h, w)) && host_valid(h),
{
    let raw = s.subrange(lo, end);
    let escaped = raw.contains('%');
    let name = if escaped {
        pct_decode(raw, CharSet::Unreserved)
    } else {
        raw
    };
    if escaped {
        crate::reparse::lemma_decode_nonempty(raw, CharSet::Unreserved);
    }
    if all_digits_dots(name) && parse_ipv4(name, 0, name.len() as int) is Some {
        crate::ip::lemma_ipv4_at_end(name, 0, name.len() as int);
    } else {
        let ln = lower_seq(name);
        assert forall|k: int| 0 <= k < ln.len() implies hostname_char(#[trigger] ln[k]) by {
            lemma_lower_host_char(name[k]);
        }
        assert(lower_seq(ln) =~= ln) by {
            assert forall|k: int| 0 <= k < ln.len() implies #[trigger] lower_seq(ln)[k] == ln[k] by {
                lemma_lower_host_char(name[k]);
            }
        }
        if all_digits_dots(ln) {
            assert(ln =~= name) by {
                assert forall|k: int| 0 <= k < ln.len() implies ln[k] == name[k] by {
                    lemma_lower_host_char(name[k]);
                    assert(dec_digit(ln[k]) || ln[k] == '.');
                }
            }
        }
    }
}

/// What `host_at` gives is a valid host, ending inside the range.
pub proof fn lemma_host_at_valid(s: Seq<char>, lo: int, hi: int)
    requires
        0 <= lo <= hi <= s.len(),
        host_at(s, lo, hi) is Ok,
    ensures
        host_at(s, lo, hi) matches Ok((h, e, w)) && host_valid(h) && lo < e <= hi,
{
    if s[lo] == '[' {
        lemma_scan(s, is_char(']'), lo, hi);
        crate::ip_text::lemma_parse_ipv6_len(s, lo + 1, scan(s, is_char(']'), lo, hi));
    } else {
        lemma_host_end(s, lo, hi);
        lemma_hostname_at_valid(s, lo, host_end(s, lo, hi));
    }
}

/// What `parse_host` gives is a valid host.
pub proof fn lemma_parse_host_valid(s: Seq<char>)
    requires
        parse_host(s) is Ok,
    ensures
        parse_host(s) matches Ok((h, w)) && host_valid(h),
{
    let n = s.len() as int;
    if !(n > 0 && s[0] == '[') && parse_ipv6(s, 0, n) is Some {
        crate::ip_text::lemma_parse_ipv6_len(s, 0, n);
    } else {
        lemma_host_at_valid(s, 0, n);
    }
}

/// `host_end` stops at `e` when nothing before it stops it or is `%`.
pub proof fn lemma_host_end_is(s: Seq<char>, i: int, e: int, hi: int)
    requires
        i <= e <= hi,
        forall|k: int| i <= k < e ==> !host_stop(#[trigger] s[k]) && s[k] != '%',
        e == hi || host_stop(s[e]),
    ensures
        host_end(s, i, hi) == e,
    decreases e - i,
{
    if i < e {
        lemma_host_end_is(s, i + 1, e, hi);
    }
}

/// A valid host written at `s[lo..]` and followed by the end or a character
/// that ends a host reads back as itself, ending where it was written.
pub proof fn lemma_host_text_at(h: HostView, s: Seq<char>, lo: int, hi: int)
    requires
        host_valid(h),
        0 <= lo,
        lo + host_text(h).len() <= hi <= s.len(),
        s.subrange(lo, lo + host_text(h).len()) == host_text(h),
        lo + host_text(h).len() == hi || host_stop(s[lo + host_text(h).len()]),
    ensures
        host_at(s, lo, hi) matches Ok((h2, e, w)) && h2 == h && e == lo + host_text(h).len(),
{
    let t = host_text(h);
    let e = lo + t.len();
    assert forall|k: int| lo <= k < e implies s[k] == t[k - lo] by {
        assert(s[k] == s.subrange(lo, e)[k - lo]);
    }
    match h {
        HostView::IPv4(o) => {
            crate::ip_text::lemma_v4_text_chars(o);
            assert(s[lo] == t[0]);
            lemma_host_end_is(s, lo, e, hi);
            let raw = s.subrange(lo, e);
            assert(raw == t);
            assert(!raw.contains('%'));
            crate::ip_text::lemma_parse_v4_text(o);
        },
        HostView::IPv6(g) => {
            reveal_strlit("[");
            reveal_strlit("]");
            let vt = v6_text(g);
            crate::ip_text::lemma_v6_text_chars(g);
            assert(t == "["@ + vt + "]"@);
            assert(s[lo] == '[');
            assert forall|k: int| lo <= k < e - 1 implies !is_char(']')(#[trigger] s[k]) by {
                if k > lo {
                    assert(s[k] == vt[k - lo - 1]);
                }
            }
            assert(s[e - 1] == ']');
            crate::canon::lemma_scan_is(s, is_char(']'), lo, e - 1, hi);
            assert(s.subrange(lo + 1, e - 1) =~= vt);
            crate::ip_text::lemma_v6_text(g, s, lo + 1, e - 1);
        },
        HostView::Hostname(n) => {
            assert(s[lo] == n[0]);
            assert(hostname_char(n[0]));
            lemma_host_end_is(s, lo, e, hi);
            let raw = s.subrange(lo, e);
            assert(raw == n);
            assert(!raw.contains('%'));
        },
    }
}

/// Writing out a parsed host and parsing the text again gives the same host,
/// with or without IPv6 brackets: `parse(display(parse(x))) == parse(x)` and
/// `parse(bare(parse(x))) == parse(x)` for every accepted `x`.
pub proof fn law_host_round_trip(s: Seq<char>)
    requires
        parse_host(s) is Ok,
    ensures
        parse_host(host_text(parse_host(s)->Ok_0.0)) matches Ok((h2, w2)) && h2 == parse_host(
            s,
        )->Ok_0.0,
        parse_host(bare_text(parse_host(s)->Ok_0.0)) matches Ok((h3, w3)) && h3 == parse_host(
            s,
        )->Ok_0.0,
{
    lemma_parse_host_valid(s);
    let h = parse_host(s)->Ok_0.0;
    let t = host_text(h);
    let n = t.len() as int;
    assert(t.subrange(0, n) =~= t);
    match h {
        HostView::IPv6(g) => {
            reveal_strlit("[");
            crate::ip_text::lemma_v6_text_chars(g);
            assert(t[0] == '[');
            lemma_host_text_at(h, t, 0, n);
            let b = bare_text(h);
            assert(b.subrange(0, b.len() as int) =~= b);
            crate::ip_text::lemma_v6_text(g, b, 0, b.len() as int);
        },
        HostView::IPv4(o) => {
            crate::ip_text::lemma_v4_text_chars(o);
            crate::ip_text::lemma_ipv6_needs_colon(t, 0, n);
            lemma_host_text_at(h, t, 0, n);
        },
        HostView::Hostname(nm) => {
            crate::ip_text::lemma_ipv6_needs_colon(t, 0, n);
            lemma_host_text_at(h, t, 0, n);
        },
    }
}

} // verus!
