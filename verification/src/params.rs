//! `;`-separated URI parameters and `&`-separated URI headers: parsing,
//! formatting and lookup.

use vstd::prelude::*;

use crate::parse::{
    CharSet, canonical_header, canonical_header_at, decode_chars, first_invalid, first_invalid_at,
    is_char, lemma_first_invalid_bounds, pct_decode,
};
use crate::warning::{Component, ParseWarning, WarningCode, Warnings, charset_warnings, warning_at};
use crate::text::{
    byte_len, byte_len_between, byte_len_fits, chars_of, decimal, eq_ignore_case,
    eq_ignore_case_str, lemma_byte_len_subrange, lemma_scan, owned, push_decimal, push_str, scan,
};

verus! {

broadcast use vstd::string::group_string_axioms;

/// A parameter as values: name and optional value.
pub type ParamV = (Seq<char>, Option<Seq<char>>);

/// A header as values: name and value.
pub type HeaderV = (Seq<char>, Seq<char>);

/// Which parameter list is parsed: URI parameters after the host,
/// user-params inside the userinfo, or tel: parameters.
#[derive(Debug, Clone, Copy, PartialEq, Eq)]
pub enum ParamKind {
    /// URI parameters (`paramchar` set).
    Uri,
    /// User-params (`user` set, which holds `?` and `/`).
    User,
    /// tel: parameters (`paramchar` values, names of letters, digits and `-`).
    Tel,
}

/// The character set a parameter list is checked and decoded against.
pub open spec fn kind_set(k: ParamKind) -> CharSet {
    match k {
        ParamKind::Uri | ParamKind::Tel => CharSet::Param,
        ParamKind::User => CharSet::User,
    }
}

/// How error messages name a parameter list.
pub open spec fn kind_context(k: ParamKind) -> Seq<char> {
    match k {
        ParamKind::Uri | ParamKind::Tel => "parameter"@,
        ParamKind::User => "user parameter"@,
    }
}

/// The message for a character outside the set: the part (`name` or
/// `value`) and the byte offset of the character within it.
pub open spec fn invalid_char_message(k: ParamKind, what: Seq<char>, pos: nat) -> Seq<char> {
    "invalid character in "@ + kind_context(k) + " "@ + what + " at position "@ + decimal(pos)
}

/// One `;`-segment `s[a..b]` of a strict parameter list: nothing when empty,
/// else `name` or `name=value`, each part checked against the set and
/// canonized.
pub open spec fn strict_segment(s: Seq<char>, a: int, b: int, k: ParamKind) -> Result<
    Option<ParamV>,
    Seq<char>,
> {
    let set = kind_set(k);
    if a >= b {
        Ok(None)
    } else {
        let eq = scan(s, is_char('='), a, b);
        let bad_name = first_invalid(s, set, a, eq);
        if bad_name < eq {
            Err(invalid_char_message(k, "name"@, byte_len(s.subrange(a, bad_name))))
        } else if eq < b {
            let bad_value = first_invalid(s, set, eq + 1, b);
            if bad_value < b {
                Err(
                    invalid_char_message(k, "value"@, byte_len(s.subrange(eq + 1, bad_value))),
                )
            } else {
                Ok(
                    Some(
                        (
                            pct_decode(s.subrange(a, eq), set),
                            Some(pct_decode(s.subrange(eq + 1, b), set)),
                        ),
                    ),
                )
            }
        } else {
            Ok(Some((pct_decode(s.subrange(a, b), set), None)))
        }
    }
}

/// The strict parameter list `s[i..hi]`, split at `;`, appended to `acc`;
/// the first bad segment makes it an error.
pub open spec fn strict_params(
    s: Seq<char>,
    i: int,
    hi: int,
    k: ParamKind,
    acc: Seq<ParamV>,
) -> Result<Seq<ParamV>, Seq<char>>
    decreases hi - i,
{
    if i > hi {
        Ok(acc)
    } else {
        let end = scan(s, is_char(';'), i, hi);
        match strict_segment(s, i, end, k) {
            Err(e) => Err(e),
            Ok(seg) => {
                let acc2 = match seg {
                    Some(p) => acc.push(p),
                    None => acc,
                };
                if end < hi {
                    proof {
                        lemma_scan(s, is_char(';'), i, hi);
                    }
                    strict_params(s, end + 1, hi, k, acc2)
                } else {
                    Ok(acc2)
                }
            }
        }
    }
}

/// A result of `String` or `Vec` items as values.
pub open spec fn params_result(r: Result<Vec<(String, Option<String>)>, String>) -> Result<
    Seq<ParamV>,
    Seq<char>,
> {
    match r {
        Ok(v) => Ok(v.deep_view()),
        Err(e) => Err(e@),
    }
}

fn invalid_message(k: ParamKind, name_part: bool, pos: usize) -> (m: String)
    ensures
        m@ == invalid_char_message(
            k,
            if name_part {
                "name"@
            } else {
                "value"@
            },
            pos as nat,
        ),
{
    let mut m = owned("invalid character in ");
    match k {
        ParamKind::Uri | ParamKind::Tel => push_str(&mut m, "parameter"),
        ParamKind::User => push_str(&mut m, "user parameter"),
    }
    push_str(&mut m, " ");
    if name_part {
        push_str(&mut m, "name");
    } else {
        push_str(&mut m, "value");
    }
    push_str(&mut m, " at position ");
    push_decimal(&mut m, pos);
    m
}

fn strict_segment_at(v: &Vec<char>, a: usize, b: usize, k: ParamKind) -> (r: Result<
    Option<(String, Option<String>)>,
    String,
>)
    requires
        a <= b <= v@.len(),
        byte_len(v@) <= usize::MAX,
    ensures
        match r {
            Ok(Some(p)) => strict_segment(v@, a as int, b as int, k) == Ok::<
                Option<ParamV>,
                Seq<char>,
            >(Some(p.deep_view())),
            Ok(None) => strict_segment(v@, a as int, b as int, k) == Ok::<
                Option<ParamV>,
                Seq<char>,
            >(None),
            Err(e) => strict_segment(v@, a as int, b as int, k) == Err::<Option<ParamV>, Seq<char>>(
                e@,
            ),
        },
{
    let set = match k {
        ParamKind::Uri | ParamKind::Tel => CharSet::Param,
        ParamKind::User => CharSet::User,
    };
    if a >= b {
        return Ok(None);
    }
    let eq = scan_char(v, a, b, '=');
    let bad_name = first_invalid_at(v, a, eq, set);
    if bad_name < eq {
        proof {
            lemma_byte_len_subrange(v@, a as int, bad_name as int);
        }
        let pos = byte_len_between(v, a, bad_name);
        return Err(invalid_message(k, true, pos));
    }
    if eq < b {
        let bad_value = first_invalid_at(v, eq + 1, b, set);
        if bad_value < b {
            let pos = byte_len_between(v, eq + 1, bad_value);
            return Err(invalid_message(k, false, pos));
        }
        let name = decode_chars(v, a, eq, set);
        let value = decode_chars(v, eq + 1, b, set);
        Ok(Some((name, Some(value))))
    } else {
        let name = decode_chars(v, a, b, set);
        Ok(Some((name, None)))
    }
}

/// First position of `c` in `v[lo..hi]`, or `hi`.
pub fn scan_char(v: &Vec<char>, lo: usize, hi: usize, c: char) -> (r: usize)
    requires
        lo <= hi <= v@.len(),
    ensures
        r == scan(v@, is_char(c), lo as int, hi as int),
        lo <= r <= hi,
        r < hi ==> v@[r as int] == c,
        forall|j: int| lo <= j < r ==> v@[j] != c,
{
    proof {
        lemma_scan(v@, is_char(c), lo as int, hi as int);
    }
    let mut i = lo;
    while i < hi
        invariant
            lo <= i <= hi <= v@.len(),
            scan(v@, is_char(c), lo as int, hi as int) == scan(v@, is_char(c), i as int, hi as int),
        decreases hi - i,
    {
        if v[i] == c {
            assert(is_char(c)(v@[i as int]));
            assert forall|j: int| lo <= j < i implies v@[j] != c by {
                lemma_scan(v@, is_char(c), lo as int, hi as int);
                assert(!is_char(c)(v@[j]));
            }
            return i;
        }
        assert(!is_char(c)(v@[i as int]));
        i = i + 1;
    }
    assert forall|j: int| lo <= j < i implies v@[j] != c by {
        assert(!is_char(c)(v@[j]));
    }
    i
}

pub fn strict_params_of(v: &Vec<char>, lo: usize, hi: usize, k: ParamKind) -> (r: Result<
    Vec<(String, Option<String>)>,
    String,
>)
    requires
        lo <= hi <= v@.len(),
        byte_len(v@) <= usize::MAX,
    ensures
        params_result(r) == strict_params(v@, lo as int, hi as int, k, Seq::empty()),
{
    let mut acc: Vec<(String, Option<String>)> = Vec::new();
    let mut i = lo;
    assert(acc.deep_view() =~= Seq::<ParamV>::empty());
    loop
        invariant
            lo <= i <= hi <= v@.len(),
            byte_len(v@) <= usize::MAX,
            strict_params(v@, lo as int, hi as int, k, Seq::empty()) == strict_params(
                v@,
                i as int,
                hi as int,
                k,
                acc.deep_view(),
            ),
        decreases hi - i,
    {
        let end = scan_char(v, i, hi, ';');
        let ghost before = acc.deep_view();
        match strict_segment_at(v, i, end, k) {
            Err(e) => {
                return Err(e);
            },
            Ok(seg) => {
                match seg {
                    Some(p) => {
                        acc.push(p);
                        assert(acc.deep_view() =~= before.push(acc@[acc@.len() - 1].deep_view()));
                    },
                    None => {},
                }
                if end < hi {
                    i = end + 1;
                } else {
                    return Ok(acc);
                }
            },
        }
    }
}

/// Parse a `;`-separated parameter string (without the leading `;`) into
/// `(name, value)` pairs. Empty segments are skipped; each name and value is
/// checked against `paramchar` and canonized.
pub fn parse_params(s: &str) -> (r: Result<Vec<(String, Option<String>)>, String>)
    ensures
        params_result(r) == strict_params(s@, 0, s@.len() as int, ParamKind::Uri, Seq::empty()),
{
    byte_len_fits(s);
    let v = chars_of(s);
    strict_params_of(&v, 0, v.len(), ParamKind::Uri)
}

/// Parse the user-params of a SIP userinfo: the same as `parse_params`, with
/// the `user` character set, which holds `?` and `/`.
pub fn parse_user_params(s: &str) -> (r: Result<Vec<(String, Option<String>)>, String>)
    ensures
        params_result(r) == strict_params(s@, 0, s@.len() as int, ParamKind::User, Seq::empty()),
{
    parse_param_list(s, ParamKind::User)
}

/// Parse a parameter list of either kind.
pub fn parse_param_list(s: &str, k: ParamKind) -> (r: Result<Vec<(String, Option<String>)>, String>)
    ensures
        params_result(r) == strict_params(s@, 0, s@.len() as int, k, Seq::empty()),
{
    byte_len_fits(s);
    let v = chars_of(s);
    strict_params_of(&v, 0, v.len(), k)
}

/// One `&`-segment `s[a..b]` of a strict header list: nothing when empty,
/// else `name=value` with a non-empty name, canonized against `hnv`.
pub open spec fn strict_header(s: Seq<char>, a: int, b: int) -> Result<Option<HeaderV>, Seq<char>> {
    if a >= b {
        Ok(None)
    } else {
        let eq = scan(s, is_char('='), a, b);
        if eq < b {
            if eq == a {
                Err("empty header name"@)
            } else {
                Ok(
                    Some(
                        (
                            pct_decode(s.subrange(a, eq), CharSet::Header),
                            pct_decode(s.subrange(eq + 1, b), CharSet::Header),
                        ),
                    ),
                )
            }
        } else {
            Err("header missing '='"@)
        }
    }
}

/// The strict header list `s[i..hi]`, split at `&`, appended to `acc`.
pub open spec fn strict_headers(s: Seq<char>, i: int, hi: int, acc: Seq<HeaderV>) -> Result<
    Seq<HeaderV>,
    Seq<char>,
>
    decreases hi - i,
{
    if i > hi {
        Ok(acc)
    } else {
        let end = scan(s, is_char('&'), i, hi);
        match strict_header(s, i, end) {
            Err(e) => Err(e),
            Ok(h) => {
                let acc2 = match h {
                    Some(x) => acc.push(x),
                    None => acc,
                };
                if end < hi {
                    proof {
                        lemma_scan(s, is_char('&'), i, hi);
                    }
                    strict_headers(s, end + 1, hi, acc2)
                } else {
                    Ok(acc2)
                }
            }
        }
    }
}

/// A header-list result as values.
pub open spec fn headers_result(r: Result<Vec<(String, String)>, String>) -> Result<
    Seq<HeaderV>,
    Seq<char>,
> {
    match r {
        Ok(v) => Ok(v.deep_view()),
        Err(e) => Err(e@),
    }
}

/// Parse URI headers (the part after `?`): `name=value` pairs separated by
/// `&`. Empty segments are skipped; a segment without `=` or with an empty
/// name is an error; names and values are canonized against `hnv`.
pub fn parse_headers(s: &str) -> (r: Result<Vec<(String, String)>, String>)
    ensures
        headers_result(r) == (if s@.len() == 0 {
            Ok(Seq::empty())
        } else {
            strict_headers(s@, 0, s@.len() as int, Seq::empty())
        }),
{
    let v = chars_of(s);
    if v.len() == 0 {
        let empty: Vec<(String, String)> = Vec::new();
        assert(empty.deep_view() =~= Seq::<HeaderV>::empty());
        return Ok(empty);
    }
    let hi = v.len();
    let mut acc: Vec<(String, String)> = Vec::new();
    let mut i: usize = 0;
    assert(acc.deep_view() =~= Seq::<HeaderV>::empty());
    loop
        invariant
            i <= hi == v@.len(),
            v@ == s@,
            strict_headers(v@, 0, hi as int, Seq::empty()) == strict_headers(
                v@,
                i as int,
                hi as int,
                acc.deep_view(),
            ),
        decreases hi - i,
    {
        let end = scan_char(&v, i, hi, '&');
        let ghost before = acc.deep_view();
        if i < end {
            let eq = scan_char(&v, i, end, '=');
            if eq < end {
                if eq == i {
                    return Err(owned("empty header name"));
                }
                let name = decode_chars(&v, i, eq, CharSet::Header);
                let value = decode_chars(&v, eq + 1, end, CharSet::Header);
                acc.push((name, value));
                assert(acc.deep_view() =~= before.push(acc@[acc@.len() - 1].deep_view()));
            } else {
                return Err(owned("header missing '='"));
            }
        }
        if end < hi {
            i = end + 1;
        } else {
            return Ok(acc);
        }
    }
}

/// `;name` or `;name=value`.
pub open spec fn param_text(p: ParamV) -> Seq<char> {
    seq![';'] + p.0 + match p.1 {
        Some(v) => seq!['='] + v,
        None => Seq::empty(),
    }
}

/// Parameters written out, each with its leading `;`.
pub open spec fn params_text(ps: Seq<ParamV>) -> Seq<char>
    decreases ps.len(),
{
    if ps.len() == 0 {
        Seq::empty()
    } else {
        params_text(ps.drop_last()) + param_text(ps.last())
    }
}

/// Headers written out: `?name=value` for the first, `&name=value` after.
pub open spec fn headers_text(hs: Seq<HeaderV>) -> Seq<char>
    decreases hs.len(),
{
    if hs.len() == 0 {
        Seq::empty()
    } else {
        headers_text(hs.drop_last()) + (if hs.len() == 1 {
            seq!['?']
        } else {
            seq!['&']
        }) + hs.last().0 + seq!['='] + hs.last().1
    }
}

/// Append parameters as `;name` / `;name=value`.
pub fn format_params(params: &[(String, Option<String>)], out: &mut String)
    ensures
        final(out)@ == old(out)@ + params_text(params.deep_view()),
{
    let ghost start = out@;
    let mut i: usize = 0;
    assert(params.deep_view().take(0) =~= Seq::<ParamV>::empty());
    while i < params.len()
        invariant
            i <= params@.len(),
            out@ == start + params_text(params.deep_view().take(i as int)),
        decreases params@.len() - i,
    {
        let ghost prev = params.deep_view().take(i as int);
        push_str(out, ";");
        push_str(out, params[i].0.as_str());
        match &params[i].1 {
            Some(v) => {
                push_str(out, "=");
                push_str(out, v.as_str());
            },
            None => {},
        }
        i = i + 1;
        proof {
            let cur = params.deep_view().take(i as int);
            assert(cur.drop_last() =~= prev);
            assert(cur.last() == params@[i - 1].deep_view());
            reveal_strlit(";");
            reveal_strlit("=");
            assert(out@ =~= start + params_text(cur));
        }
    }
    assert(params.deep_view().take(i as int) =~= params.deep_view());
}

/// Append headers as `?name=value&name=value`.
pub fn format_headers(headers: &[(String, String)], out: &mut String)
    ensures
        final(out)@ == old(out)@ + headers_text(headers.deep_view()),
{
    let ghost start = out@;
    let mut i: usize = 0;
    assert(headers.deep_view().take(0) =~= Seq::<HeaderV>::empty());
    while i < headers.len()
        invariant
            i <= headers@.len(),
            out@ == start + headers_text(headers.deep_view().take(i as int)),
        decreases headers@.len() - i,
    {
        let ghost prev = headers.deep_view().take(i as int);
        if i == 0 {
            push_str(out, "?");
        } else {
            push_str(out, "&");
        }
        push_str(out, headers[i].0.as_str());
        push_str(out, "=");
        push_str(out, headers[i].1.as_str());
        i = i + 1;
        proof {
            let cur = headers.deep_view().take(i as int);
            assert(cur.drop_last() =~= prev);
            assert(cur.last() == headers@[i - 1].deep_view());
            reveal_strlit("?");
            reveal_strlit("&");
            reveal_strlit("=");
            assert(out@ =~= start + headers_text(cur));
        }
    }
    assert(headers.deep_view().take(i as int) =~= headers.deep_view());
}

/// Index of the first parameter at or after `i` whose name equals `name`
/// ignoring ASCII case.
pub open spec fn param_index_from(ps: Seq<ParamV>, name: Seq<char>, i: int) -> Option<int>
    decreases ps.len() - i,
{
    if 0 <= i < ps.len() {
        if eq_ignore_case(ps[i].0, name) {
            Some(i)
        } else {
            param_index_from(ps, name, i + 1)
        }
    } else {
        None
    }
}

/// `param_index_from` finds an index at or after `i`.
pub proof fn lemma_param_index(ps: Seq<ParamV>, name: Seq<char>, i: int)
    requires
        0 <= i,
    ensures
        param_index_from(ps, name, i) matches Some(k) ==> i <= k < ps.len() && eq_ignore_case(
            ps[k].0,
            name,
        ),
    decreases ps.len() - i,
{
    if 0 <= i < ps.len() && !eq_ignore_case(ps[i].0, name) {
        lemma_param_index(ps, name, i + 1);
    }
}

/// Index of the first parameter named `name` (ASCII case-insensitive).
pub open spec fn param_index(ps: Seq<ParamV>, name: Seq<char>) -> Option<int> {
    param_index_from(ps, name, 0)
}

/// Look up a parameter by name, ignoring ASCII case; the first match wins.
pub fn find_param<'a>(params: &'a [(String, Option<String>)], name: &str) -> (r: Option<
    &'a Option<String>,
>)
    ensures
        match param_index(params.deep_view(), name@) {
            Some(i) => r == Some(&params@[i].1),
            None => r is None,
        },
{
    let mut i: usize = 0;
    while i < params.len()
        invariant
            i <= params@.len(),
            param_index(params.deep_view(), name@) == param_index_from(
                params.deep_view(),
                name@,
                i as int,
            ),
        decreases params@.len() - i,
    {
        assert(params.deep_view()[i as int].0 == params@[i as int].0@);
        if eq_ignore_case_str(params[i].0.as_str(), name) {
            return Some(&params[i].1);
        }
        i = i + 1;
    }
    None
}

/// The component warnings on a lenient parameter list are filed under.
pub open spec fn kind_component(k: ParamKind) -> Component {
    match k {
        ParamKind::Uri | ParamKind::Tel => Component::Param,
        ParamKind::User => Component::UserParam,
    }
}

/// The set a lenient parameter list is checked against: URI parameters as
/// RFC 3261 writes them (so `@` and `,` warn), user-params as the user part.
pub open spec fn kind_check_set(k: ParamKind) -> CharSet {
    match k {
        ParamKind::Uri | ParamKind::Tel => CharSet::StrictParam,
        ParamKind::User => CharSet::User,
    }
}

/// The set a lenient parameter name is checked against: a tel: name is
/// RFC 3966 `pname`, other names are checked as values are.
pub open spec fn kind_name_set(k: ParamKind) -> CharSet {
    match k {
        ParamKind::Tel => CharSet::Pname,
        _ => kind_check_set(k),
    }
}

/// One `;`-segment `s[a..b]` of a lenient parameter list, with the warnings
/// it raises appended to `w`: an empty segment is dropped with a warning, an
/// empty name warns, characters outside the set warn; nothing is rejected.
pub open spec fn lenient_segment(
    s: Seq<char>,
    a: int,
    b: int,
    k: ParamKind,
    w: Seq<ParseWarning>,
) -> (Option<ParamV>, Seq<ParseWarning>) {
    let comp = kind_component(k);
    let check = kind_check_set(k);
    let name_check = kind_name_set(k);
    let set = kind_set(k);
    if a >= b {
        (None, w.push(warning_at(s, comp, WarningCode::EmptySegment, a)))
    } else {
        let eq = scan(s, is_char('='), a, b);
        if eq < b {
            let w1 = if eq == a {
                w.push(warning_at(s, comp, WarningCode::EmptyName, a))
            } else {
                w
            };
            let w2 = w1 + charset_warnings(s, comp, name_check, a, eq) + charset_warnings(
                s,
                comp,
                check,
                eq + 1,
                b,
            );
            (
                Some(
                    (pct_decode(s.subrange(a, eq), set), Some(pct_decode(s.subrange(eq + 1, b), set))),
                ),
                w2,
            )
        } else {
            (Some((pct_decode(s.subrange(a, b), set), None)), w + charset_warnings(s, comp, name_check, a, b))
        }
    }
}

/// The lenient parameter list `s[i..hi]`, split at `;`, appended to `acc`
/// with its warnings appended to `w`.
pub open spec fn lenient_params(
    s: Seq<char>,
    i: int,
    hi: int,
    k: ParamKind,
    acc: Seq<ParamV>,
    w: Seq<ParseWarning>,
) -> (Seq<ParamV>, Seq<ParseWarning>)
    decreases hi - i,
{
    if i > hi {
        (acc, w)
    } else {
        let end = scan(s, is_char(';'), i, hi);
        let (seg, w2) = lenient_segment(s, i, end, k, w);
        let acc2 = match seg {
            Some(p) => acc.push(p),
            None => acc,
        };
        if end < hi {
            proof {
                lemma_scan(s, is_char(';'), i, hi);
            }
            lenient_params(s, end + 1, hi, k, acc2, w2)
        } else {
            (acc2, w2)
        }
    }
}

fn lenient_segment_at(
    v: &Vec<char>,
    a: usize,
    b: usize,
    k: ParamKind,
    warnings: &mut Warnings,
) -> (r: Option<(String, Option<String>)>)
    requires
        a <= b <= v@.len(),
        byte_len(v@) <= usize::MAX,
    ensures
        lenient_segment(v@, a as int, b as int, k, old(warnings)@) == (
            r.deep_view(),
            final(warnings)@,
        ),
{
    let (comp, check, name_check, set) = match k {
        ParamKind::Uri => (Component::Param, CharSet::StrictParam, CharSet::StrictParam, CharSet::Param),
        ParamKind::User => (Component::UserParam, CharSet::User, CharSet::User, CharSet::User),
        ParamKind::Tel => (Component::Param, CharSet::StrictParam, CharSet::Pname, CharSet::Param),
    };
    if a >= b {
        warnings.push(comp, WarningCode::EmptySegment, v, a);
        return None;
    }
    let eq = scan_char(v, a, b, '=');
    if eq < b {
        if eq == a {
            warnings.push(comp, WarningCode::EmptyName, v, a);
        }
        warnings.charset(comp, v, a, eq, name_check);
        warnings.charset(comp, v, eq + 1, b, check);
        let name = decode_chars(v, a, eq, set);
        let value = decode_chars(v, eq + 1, b, set);
        Some((name, Some(value)))
    } else {
        warnings.charset(comp, v, a, b, name_check);
        let name = decode_chars(v, a, b, set);
        Some((name, None))
    }
}

/// Parse the parameter list `v[lo..hi]` leniently (see `lenient_params`).
pub fn collect_params(v: &Vec<char>, lo: usize, hi: usize, k: ParamKind, warnings: &mut Warnings) -> (r: Vec<
    (String, Option<String>),
>)
    requires
        lo <= hi <= v@.len(),
        byte_len(v@) <= usize::MAX,
    ensures
        lenient_params(v@, lo as int, hi as int, k, Seq::empty(), old(warnings)@) == (
            r.deep_view(),
            final(warnings)@,
        ),
{
    let mut acc: Vec<(String, Option<String>)> = Vec::new();
    let mut i = lo;
    assert(acc.deep_view() =~= Seq::<ParamV>::empty());
    loop
        invariant
            lo <= i <= hi <= v@.len(),
            byte_len(v@) <= usize::MAX,
            lenient_params(v@, lo as int, hi as int, k, Seq::empty(), old(warnings)@)
                == lenient_params(v@, i as int, hi as int, k, acc.deep_view(), warnings@),
        decreases hi - i,
    {
        let end = scan_char(v, i, hi, ';');
        let ghost before = acc.deep_view();
        match lenient_segment_at(v, i, end, k, warnings) {
            Some(p) => {
                acc.push(p);
                assert(acc.deep_view() =~= before.push(acc@[acc@.len() - 1].deep_view()));
            },
            None => {},
        }
        if end < hi {
            i = end + 1;
        } else {
            return acc;
        }
    }
}

/// One `&`-segment `s[a..b]` of a lenient header list with its warnings
/// appended to `w`: an empty segment is dropped with a warning; a segment
/// without `=` or with an empty name is an error; characters outside `hnv`
/// warn; name and value are re-encoded canonically.
pub open spec fn lenient_header(s: Seq<char>, a: int, b: int, w: Seq<ParseWarning>) -> Result<
    (Option<HeaderV>, Seq<ParseWarning>),
    Seq<char>,
> {
    if a >= b {
        Ok((None, w.push(warning_at(s, Component::Header, WarningCode::EmptySegment, a))))
    } else {
        let eq = scan(s, is_char('='), a, b);
        if eq >= b {
            Err("header missing '='"@)
        } else if eq == a {
            Err("empty header name"@)
        } else {
            Ok(
                (
                    Some((canonical_header(s.subrange(a, eq)), canonical_header(s.subrange(eq + 1, b)))),
                    w + charset_warnings(s, Component::Header, CharSet::Header, a, eq)
                        + charset_warnings(s, Component::Header, CharSet::Header, eq + 1, b),
                ),
            )
        }
    }
}

/// The lenient header list `s[i..hi]`, split at `&`.
pub open spec fn lenient_headers(
    s: Seq<char>,
    i: int,
    hi: int,
    acc: Seq<HeaderV>,
    w: Seq<ParseWarning>,
) -> Result<(Seq<HeaderV>, Seq<ParseWarning>), Seq<char>>
    decreases hi - i,
{
    if i > hi {
        Ok((acc, w))
    } else {
        let end = scan(s, is_char('&'), i, hi);
        match lenient_header(s, i, end, w) {
            Err(e) => Err(e),
            Ok((h, w2)) => {
                let acc2 = match h {
                    Some(x) => acc.push(x),
                    None => acc,
                };
                if end < hi {
                    proof {
                        lemma_scan(s, is_char('&'), i, hi);
                    }
                    lenient_headers(s, end + 1, hi, acc2, w2)
                } else {
                    Ok((acc2, w2))
                }
            },
        }
    }
}

/// The headers `s[lo..hi]`: none when empty, else the lenient list.
pub open spec fn header_section(s: Seq<char>, lo: int, hi: int, w: Seq<ParseWarning>) -> Result<
    (Seq<HeaderV>, Seq<ParseWarning>),
    Seq<char>,
> {
    if lo >= hi {
        Ok((Seq::empty(), w))
    } else {
        lenient_headers(s, lo, hi, Seq::empty(), w)
    }
}

/// Parse the header list `v[lo..hi]` leniently (see `header_section`).
pub fn collect_headers(v: &Vec<char>, lo: usize, hi: usize, warnings: &mut Warnings) -> (r: Result<
    Vec<(String, String)>,
    String,
>)
    requires
        lo <= hi <= v@.len(),
        byte_len(v@) <= usize::MAX,
    ensures
        match header_section(v@, lo as int, hi as int, old(warnings)@) {
            Ok((hs, w)) => r matches Ok(x) && x.deep_view() == hs && final(warnings)@ == w,
            Err(m) => r matches Err(e) && e@ == m,
        },
{
    let mut acc: Vec<(String, String)> = Vec::new();
    assert(acc.deep_view() =~= Seq::<HeaderV>::empty());
    if lo >= hi {
        return Ok(acc);
    }
    let mut i = lo;
    loop
        invariant
            lo <= i <= hi <= v@.len(),
            byte_len(v@) <= usize::MAX,
            lo < hi,
            lenient_headers(v@, lo as int, hi as int, Seq::empty(), old(warnings)@)
                == lenient_headers(v@, i as int, hi as int, acc.deep_view(), warnings@),
        decreases hi - i,
    {
        let end = scan_char(v, i, hi, '&');
        let ghost before = acc.deep_view();
        if i >= end {
            warnings.push(Component::Header, WarningCode::EmptySegment, v, i);
        } else {
            let eq = scan_char(v, i, end, '=');
            if eq >= end {
                return Err(owned("header missing '='"));
            }
            if eq == i {
                return Err(owned("empty header name"));
            }
            warnings.charset(Component::Header, v, i, eq, CharSet::Header);
            warnings.charset(Component::Header, v, eq + 1, end, CharSet::Header);
            let name = canonical_header_at(v, i, eq);
            let value = canonical_header_at(v, eq + 1, end);
            acc.push((name, value));
            assert(acc.deep_view() =~= before.push(acc@[acc@.len() - 1].deep_view()));
        }
        if end < hi {
            i = end + 1;
        } else {
            return Ok(acc);
        }
    }
}

/// Index of the first header at or after `i` whose name equals `name`
/// ignoring ASCII case.
pub open spec fn header_index_from(hs: Seq<HeaderV>, name: Seq<char>, i: int) -> Option<int>
    decreases hs.len() - i,
{
    if 0 <= i < hs.len() {
        if eq_ignore_case(hs[i].0, name) {
            Some(i)
        } else {
            header_index_from(hs, name, i + 1)
        }
    } else {
        None
    }
}

/// `header_index_from` finds an index at or after `i`.
pub proof fn lemma_header_index(hs: Seq<HeaderV>, name: Seq<char>, i: int)
    requires
        0 <= i,
    ensures
        header_index_from(hs, name, i) matches Some(k) ==> i <= k < hs.len() && eq_ignore_case(
            hs[k].0,
            name,
        ),
    decreases hs.len() - i,
{
    if 0 <= i < hs.len() && !eq_ignore_case(hs[i].0, name) {
        lemma_header_index(hs, name, i + 1);
    }
}

/// Look up a header value by name, ignoring ASCII case; the first match wins.
pub fn find_header<'a>(headers: &'a [(String, String)], name: &str) -> (r: Option<&'a str>)
    ensures
        match header_index_from(headers.deep_view(), name@, 0) {
            Some(i) => r matches Some(x) && x@ == headers.deep_view()[i].1,
            None => r is None,
        },
{
    proof {
        lemma_header_index(headers.deep_view(), name@, 0);
    }
    let mut i: usize = 0;
    while i < headers.len()
        invariant
            i <= headers@.len(),
            header_index_from(headers.deep_view(), name@, 0) == header_index_from(
                headers.deep_view(),
                name@,
                i as int,
            ),
        decreases headers@.len() - i,
    {
        assert(headers.deep_view()[i as int].0 == headers@[i as int].0@);
        if eq_ignore_case_str(headers[i].0.as_str(), name) {
            assert(headers.deep_view()[i as int].1 == headers@[i as int].1@);
            return Some(headers[i].1.as_str());
        }
        i = i + 1;
    }
    None
}

} // verus!
