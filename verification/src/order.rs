//! Warnings come in input order: every parser lists the breaches it accepted
//! with byte positions that never decrease.

use vstd::prelude::*;

use crate::params::{
    ParamKind, header_section, lenient_header, lenient_headers, lenient_params, lenient_segment,
    kind_check_set, kind_component, kind_name_set,
};
use crate::parse::is_char;
use crate::text::{byte_len, byte_offset, lemma_scan, scan};
use crate::host::{host_at, host_end, hostname_at, label_problem, labels_end, parse_host};
use crate::sip_uri::{
    fragment_section, hostport_parts, parse_sip, port_section, port_stops, scheme_of, tail_section,
    userinfo_parts,
};
use crate::warning::{
    Component, ParseWarning, WarningCode, charset_warnings, lemma_byte_offset_le,
    lemma_charset_ordered, lemma_ordered_append, lemma_ordered_push, lemma_ordered_single,
    lemma_insert_in_order, lemma_ordered_empty, lemma_ordered_widen, lemma_warning_at_pos,
    in_input_order, insert_in_order, ordered_between, placed_between, warning_at,
};

verus! {

/// Byte offset of character index `k` of `s`, as an integer.
pub open spec fn at_byte(s: Seq<char>, k: int) -> int {
    byte_offset(s, k) as int
}

/// `at_byte` grows with the index.
pub proof fn lemma_at_byte_le(s: Seq<char>, i: int, j: int)
    requires
        0 <= i <= j <= s.len(),
    ensures
        at_byte(s, i) <= at_byte(s, j),
{
    lemma_byte_offset_le(s, i, j);
}

/// A warning at index `k` is placed at `at_byte(s, k)`.
pub proof fn lemma_single_at(s: Seq<char>, c: Component, code: WarningCode, k: int)
    requires
        0 <= k <= s.len(),
        byte_len(s) <= usize::MAX,
    ensures
        ordered_between(seq![warning_at(s, c, code, k)], at_byte(s, k), at_byte(s, k)),
        crate::warning::placed_between(warning_at(s, c, code, k), at_byte(s, k), at_byte(s, k)),
{
    lemma_ordered_single(s, c, code, k);
    lemma_warning_at_pos(s, c, code, k);
}

/// Ordered warnings followed by the charset warning of `s[a..b]`.
pub proof fn lemma_then_charset(
    s: Seq<char>,
    w: Seq<ParseWarning>,
    c: Component,
    set: crate::parse::CharSet,
    lo: int,
    a: int,
    b: int,
)
    requires
        0 <= a <= b <= s.len(),
        byte_len(s) <= usize::MAX,
        ordered_between(w, lo, at_byte(s, a)),
        lo <= at_byte(s, a),
    ensures
        ordered_between(w + charset_warnings(s, c, set, a, b), lo, at_byte(s, b)),
{
    lemma_charset_ordered(s, c, set, a, b);
    lemma_at_byte_le(s, a, b);
    lemma_ordered_append(w, charset_warnings(s, c, set, a, b), lo, at_byte(s, a), at_byte(s, b));
}

/// Ordered warnings followed by one at index `k`.
pub proof fn lemma_then_single(
    s: Seq<char>,
    w: Seq<ParseWarning>,
    c: Component,
    code: WarningCode,
    lo: int,
    a: int,
    k: int,
)
    requires
        0 <= a <= k <= s.len(),
        byte_len(s) <= usize::MAX,
        ordered_between(w, lo, at_byte(s, a)),
        lo <= at_byte(s, a),
    ensures
        ordered_between(w.push(warning_at(s, c, code, k)), lo, at_byte(s, k)),
{
    lemma_single_at(s, c, code, k);
    lemma_at_byte_le(s, a, k);
    lemma_ordered_push(w, warning_at(s, c, code, k), lo, at_byte(s, a), at_byte(s, k));
}

/// One lenient parameter segment `s[a..b]` adds warnings within it.
pub proof fn lemma_segment_order(
    s: Seq<char>,
    a: int,
    b: int,
    k: ParamKind,
    w: Seq<ParseWarning>,
    lo: int,
)
    requires
        0 <= a <= b <= s.len(),
        byte_len(s) <= usize::MAX,
        ordered_between(w, lo, at_byte(s, a)),
        lo <= at_byte(s, a),
    ensures
        ordered_between(lenient_segment(s, a, b, k, w).1, lo, at_byte(s, b)),
{
    let comp = kind_component(k);
    let check = kind_check_set(k);
    let name_check = kind_name_set(k);
    if a >= b {
        lemma_then_single(s, w, comp, WarningCode::EmptySegment, lo, a, a);
    } else {
        let eq = scan(s, is_char('='), a, b);
        lemma_scan(s, is_char('='), a, b);
        if eq < b {
            let w1 = if eq == a {
                w.push(warning_at(s, comp, WarningCode::EmptyName, a))
            } else {
                w
            };
            if eq == a {
                lemma_then_single(s, w, comp, WarningCode::EmptyName, lo, a, a);
            }
            lemma_then_charset(s, w1, comp, name_check, lo, a, eq);
            let w2 = w1 + charset_warnings(s, comp, name_check, a, eq);
            lemma_at_byte_le(s, eq, eq + 1);
            lemma_at_byte_le(s, a, eq);
            lemma_ordered_widen(w2, lo, at_byte(s, eq), lo, at_byte(s, eq + 1));
            lemma_then_charset(s, w2, comp, check, lo, eq + 1, b);
        } else {
            lemma_then_charset(s, w, comp, name_check, lo, a, b);
        }
    }
}

/// A lenient parameter list `s[i..hi]` adds warnings within it.
pub proof fn lemma_params_order(
    s: Seq<char>,
    i: int,
    hi: int,
    k: ParamKind,
    acc: Seq<crate::params::ParamV>,
    w: Seq<ParseWarning>,
    lo: int,
)
    requires
        0 <= i <= hi <= s.len(),
        byte_len(s) <= usize::MAX,
        ordered_between(w, lo, at_byte(s, i)),
        lo <= at_byte(s, i),
    ensures
        ordered_between(lenient_params(s, i, hi, k, acc, w).1, lo, at_byte(s, hi)),
    decreases hi - i,
{
    let end = scan(s, is_char(';'), i, hi);
    lemma_scan(s, is_char(';'), i, hi);
    lemma_segment_order(s, i, end, k, w, lo);
    let (seg, w2) = lenient_segment(s, i, end, k, w);
    let acc2 = match seg {
        Some(p) => acc.push(p),
        None => acc,
    };
    lemma_at_byte_le(s, i, end);
    if end < hi {
        lemma_at_byte_le(s, end, end + 1);
        lemma_ordered_widen(w2, lo, at_byte(s, end), lo, at_byte(s, end + 1));
        lemma_params_order(s, end + 1, hi, k, acc2, w2, lo);
    }
}

/// A lenient header list `s[i..hi]`, when it parses, adds warnings within it.
pub proof fn lemma_headers_order(
    s: Seq<char>,
    i: int,
    hi: int,
    acc: Seq<crate::params::HeaderV>,
    w: Seq<ParseWarning>,
    lo: int,
)
    requires
        0 <= i <= hi <= s.len(),
        byte_len(s) <= usize::MAX,
        ordered_between(w, lo, at_byte(s, i)),
        lo <= at_byte(s, i),
    ensures
        lenient_headers(s, i, hi, acc, w) matches Ok((hs, w2)) ==> ordered_between(
            w2,
            lo,
            at_byte(s, hi),
        ),
    decreases hi - i,
{
    let end = scan(s, is_char('&'), i, hi);
    lemma_scan(s, is_char('&'), i, hi);
    lemma_at_byte_le(s, i, end);
    match lenient_header(s, i, end, w) {
        Err(_) => {},
        Ok((h, w2)) => {
            if i >= end {
                lemma_then_single(s, w, Component::Header, WarningCode::EmptySegment, lo, i, i);
            } else {
                let eq = scan(s, is_char('='), i, end);
                lemma_scan(s, is_char('='), i, end);
                lemma_then_charset(s, w, Component::Header, crate::parse::CharSet::Header, lo, i, eq);
                let w1 = w + charset_warnings(s, Component::Header, crate::parse::CharSet::Header, i, eq);
                assert(eq < end);
                lemma_at_byte_le(s, i, eq);
                lemma_at_byte_le(s, eq, eq + 1);
                lemma_ordered_widen(w1, lo, at_byte(s, eq), lo, at_byte(s, eq + 1));
                lemma_then_charset(
                    s,
                    w1,
                    Component::Header,
                    crate::parse::CharSet::Header,
                    lo,
                    eq + 1,
                    end,
                );
            }
            let acc2 = match h {
                Some(x) => acc.push(x),
                None => acc,
            };
            if end < hi {
                lemma_at_byte_le(s, end, end + 1);
                lemma_ordered_widen(w2, lo, at_byte(s, end), lo, at_byte(s, end + 1));
                lemma_headers_order(s, end + 1, hi, acc2, w2, lo);
            }
        },
    }
}

/// A header section `s[a..b]`, when it parses, adds warnings within it.
pub proof fn lemma_header_section_order(s: Seq<char>, a: int, b: int, w: Seq<ParseWarning>, lo: int)
    requires
        0 <= a <= b <= s.len(),
        byte_len(s) <= usize::MAX,
        ordered_between(w, lo, at_byte(s, a)),
        lo <= at_byte(s, a),
    ensures
        header_section(s, a, b, w) matches Ok((hs, w2)) ==> ordered_between(w2, lo, at_byte(s, b)),
{
    lemma_at_byte_le(s, a, b);
    if a >= b {
        lemma_ordered_widen(w, lo, at_byte(s, a), lo, at_byte(s, b));
    } else {
        lemma_headers_order(s, a, b, Seq::empty(), w, lo);
    }
}

/// A label problem is reported inside the labels it reads.
pub proof fn lemma_label_problem_bounds(name: Seq<char>, i: int, hi: int)
    requires
        0 <= i <= hi <= name.len(),
    ensures
        label_problem(name, i, hi) matches Some((c, off)) ==> i <= off <= hi,
    decreases hi - i,
{
    let end = scan(name, is_char('.'), i, hi);
    lemma_scan(name, is_char('.'), i, hi);
    if !(end <= i || name[i] == '-' || name[end - 1] == '-') && end < hi && i <= hi {
        lemma_label_problem_bounds(name, end + 1, hi);
    }
}

/// The warnings on a host lie within it.
pub proof fn lemma_host_order(s: Seq<char>, lo: int, hi: int)
    requires
        0 <= lo <= hi <= s.len(),
        byte_len(s) <= usize::MAX,
    ensures
        host_at(s, lo, hi) matches Ok((h, c, hw)) ==> lo <= c <= hi && ordered_between(
            hw,
            at_byte(s, lo),
            at_byte(s, c),
        ),
{
    if host_at(s, lo, hi) is Ok {
        crate::host::lemma_host_at_valid(s, lo, hi);
        let (h, c, hw) = host_at(s, lo, hi)->Ok_0;
        lemma_at_byte_le(s, lo, c);
        if s[lo] == '[' {
            lemma_ordered_empty(at_byte(s, lo), at_byte(s, c));
        } else {
            let end = host_end(s, lo, hi);
            assert(c == end);
            let raw = s.subrange(lo, end);
            let escaped = raw.contains('%');
            let w1 = if escaped {
                seq![warning_at(s, Component::Host, WarningCode::EscapedHost, lo)]
            } else {
                Seq::empty()
            };
            if escaped {
                lemma_single_at(s, Component::Host, WarningCode::EscapedHost, lo);
            }
            assert(ordered_between(w1, at_byte(s, lo), at_byte(s, lo)));
            let name = if escaped {
                crate::parse::pct_decode(raw, crate::parse::CharSet::Unreserved)
            } else {
                raw
            };
            if !(crate::host::all_digits_dots(name) && crate::ip::parse_ipv4(name, 0, name.len() as int) is Some) {
                let le = labels_end(name);
                lemma_label_problem_bounds(name, 0, le);
                match label_problem(name, 0, le) {
                    Some((code, off)) => {
                        let k = lo + if name.len() == raw.len() {
                            off
                        } else {
                            0
                        };
                        lemma_single_at(s, Component::Host, code, k);
                        lemma_at_byte_le(s, lo, k);
                        lemma_at_byte_le(s, k, end);
                        lemma_ordered_widen(
                            seq![warning_at(s, Component::Host, code, k)],
                            at_byte(s, k),
                            at_byte(s, k),
                            at_byte(s, lo),
                            at_byte(s, end),
                        );
                        lemma_ordered_append(
                            w1,
                            seq![warning_at(s, Component::Host, code, k)],
                            at_byte(s, lo),
                            at_byte(s, lo),
                            at_byte(s, end),
                        );
                    },
                    None => {
                        lemma_ordered_widen(w1, at_byte(s, lo), at_byte(s, lo), at_byte(s, lo), at_byte(s, end));
                        assert(w1 + Seq::<ParseWarning>::empty() =~= w1);
                    },
                }
            } else {
                lemma_ordered_widen(w1, at_byte(s, lo), at_byte(s, lo), at_byte(s, lo), at_byte(s, end));
            }
        }
    }
}

/// The port's warnings stand at its `:` or sign.
pub proof fn lemma_port_order(s: Seq<char>, c: int, hi: int, w: Seq<ParseWarning>, lo: int)
    requires
        0 <= c <= hi <= s.len(),
        byte_len(s) <= usize::MAX,
        ordered_between(w, lo, at_byte(s, c)),
        lo <= at_byte(s, c),
    ensures
        port_section(s, c, hi, w) matches Ok((p, a, w1)) ==> c <= a <= hi && ordered_between(
            w1,
            lo,
            at_byte(s, a),
        ),
{
    if c < hi && s[c] == ':' {
        let pe = scan(s, port_stops(), c + 1, hi);
        lemma_scan(s, port_stops(), c + 1, hi);
        lemma_at_byte_le(s, c, pe);
        if pe <= c + 1 {
            lemma_then_single(s, w, Component::Port, WarningCode::EmptyPort, lo, c, c);
            lemma_ordered_widen(
                w.push(warning_at(s, Component::Port, WarningCode::EmptyPort, c)),
                lo,
                at_byte(s, c),
                lo,
                at_byte(s, pe),
            );
        } else {
            if s[c + 1] == '+' {
                lemma_then_single(s, w, Component::Port, WarningCode::SignedPort, lo, c, c + 1);
                lemma_at_byte_le(s, c + 1, pe);
                lemma_ordered_widen(
                    w.push(warning_at(s, Component::Port, WarningCode::SignedPort, c + 1)),
                    lo,
                    at_byte(s, c + 1),
                    lo,
                    at_byte(s, pe),
                );
            } else {
                lemma_ordered_widen(w, lo, at_byte(s, c), lo, at_byte(s, pe));
            }
        }
    }
}

/// The fragment's warning stands at its `#`, after everything before it.
pub proof fn lemma_fragment_order(s: Seq<char>, a: int, hi: int)
    requires
        0 <= a <= hi <= s.len(),
        byte_len(s) <= usize::MAX,
    ensures
        a <= fragment_section(s, a, hi, Seq::empty()).0 <= hi,
        ordered_between(
            fragment_section(s, a, hi, Seq::empty()).2,
            at_byte(s, fragment_section(s, a, hi, Seq::empty()).0),
            at_byte(s, hi),
        ),
{
    let h = scan(s, is_char('#'), a, hi);
    lemma_scan(s, is_char('#'), a, hi);
    if h < hi {
        let code = if h + 1 >= hi {
            WarningCode::EmptyFragment
        } else {
            WarningCode::UnexpectedFragment
        };
        lemma_then_single(s, Seq::empty(), Component::Fragment, code, at_byte(s, h), h, h);
        lemma_at_byte_le(s, h, hi);
        lemma_ordered_widen(
            Seq::<ParseWarning>::empty().push(warning_at(s, Component::Fragment, code, h)),
            at_byte(s, h),
            at_byte(s, h),
            at_byte(s, h),
            at_byte(s, hi),
        );
    } else {
        lemma_ordered_empty(at_byte(s, hi), at_byte(s, hi));
    }
}

/// Parameters and headers add warnings within them.
pub proof fn lemma_tail_order(s: Seq<char>, a: int, e: int, w: Seq<ParseWarning>, lo: int)
    requires
        0 <= a <= e <= s.len(),
        byte_len(s) <= usize::MAX,
        ordered_between(w, lo, at_byte(s, a)),
        lo <= at_byte(s, a),
    ensures
        tail_section(s, a, e, w) matches Ok((ps, hs, w3)) ==> ordered_between(w3, lo, at_byte(s, e)),
{
    lemma_at_byte_le(s, a, e);
    if a >= e {
        lemma_ordered_widen(w, lo, at_byte(s, a), lo, at_byte(s, e));
    } else if s[a] == ';' {
        let q = scan(s, is_char('?'), a + 1, e);
        lemma_scan(s, is_char('?'), a + 1, e);
        lemma_at_byte_le(s, a, a + 1);
        lemma_ordered_widen(w, lo, at_byte(s, a), lo, at_byte(s, a + 1));
        lemma_params_order(s, a + 1, q, ParamKind::Uri, Seq::empty(), w, lo);
        let w1 = lenient_params(s, a + 1, q, ParamKind::Uri, Seq::empty(), w).1;
        lemma_at_byte_le(s, a + 1, q);
        if q < e {
            lemma_at_byte_le(s, q, q + 1);
            lemma_ordered_widen(w1, lo, at_byte(s, q), lo, at_byte(s, q + 1));
            lemma_header_section_order(s, q + 1, e, w1, lo);
        }
    } else if s[a] == '?' {
        lemma_at_byte_le(s, a, a + 1);
        lemma_ordered_widen(w, lo, at_byte(s, a), lo, at_byte(s, a + 1));
        lemma_header_section_order(s, a + 1, e, w, lo);
    }
}

/// Host, port, parameters, headers and fragment add warnings in input order.
pub proof fn lemma_hostport_order(s: Seq<char>, lo: int, hi: int, w: Seq<ParseWarning>, x: int)
    requires
        0 <= lo <= hi <= s.len(),
        byte_len(s) <= usize::MAX,
        ordered_between(w, x, at_byte(s, lo)),
        x <= at_byte(s, lo),
    ensures
        hostport_parts(s, lo, hi, w) matches Ok((h, port, ps, hs, f, w2)) ==> ordered_between(
            w2,
            x,
            at_byte(s, hi),
        ),
{
    reveal(hostport_parts);
    if hostport_parts(s, lo, hi, w) is Ok {
        lemma_host_order(s, lo, hi);
        let (h, c, hw) = host_at(s, lo, hi)->Ok_0;
        lemma_at_byte_le(s, lo, c);
        lemma_ordered_append(w, hw, x, at_byte(s, lo), at_byte(s, c));
        lemma_port_order(s, c, hi, w + hw, x);
        let (port, a, w1) = port_section(s, c, hi, w + hw)->Ok_0;
        lemma_fragment_order(s, a, hi);
        let (e, frag, fw) = fragment_section(s, a, hi, Seq::empty());
        lemma_at_byte_le(s, c, a);
        lemma_tail_order(s, a, e, w1, x);
        let w3 = tail_section(s, a, e, w1)->Ok_0.2;
        lemma_at_byte_le(s, a, e);
        lemma_at_byte_le(s, e, hi);
        lemma_ordered_append(w3, fw, x, at_byte(s, e), at_byte(s, hi));
    }
}

/// The userinfo adds warnings in input order: the user part's (a
/// header-shaped user placed among them by position), then the password's.
pub proof fn lemma_userinfo_order(s: Seq<char>, a: int, b: int, w: Seq<ParseWarning>, x: int)
    requires
        0 <= a <= b <= s.len(),
        byte_len(s) <= usize::MAX,
        ordered_between(w, x, at_byte(s, a)),
        x <= at_byte(s, a),
    ensures
        userinfo_parts(s, a, b, w) matches Ok((u, ups, pw, w2)) ==> ordered_between(
            w2,
            x,
            at_byte(s, b),
        ),
{
    reveal(userinfo_parts);
    let c = scan(s, is_char(':'), a, b);
    lemma_scan(s, is_char(':'), a, b);
    let semi = scan(s, is_char(';'), a, c);
    lemma_scan(s, is_char(';'), a, c);
    let pw_w = if c < b {
        charset_warnings(s, Component::Password, crate::parse::CharSet::Password, c + 1, b)
    } else {
        Seq::empty()
    };
    lemma_at_byte_le(s, a, c);
    lemma_at_byte_le(s, c, b);
    if c < b {
        lemma_charset_ordered(s, Component::Password, crate::parse::CharSet::Password, c + 1, b);
        lemma_at_byte_le(s, c, c + 1);
        lemma_ordered_widen(pw_w, at_byte(s, c + 1), at_byte(s, b), at_byte(s, c), at_byte(s, b));
    } else {
        lemma_ordered_empty(at_byte(s, c), at_byte(s, b));
    }
    if userinfo_parts(s, a, b, w) is Ok {
        if semi <= a {
            lemma_then_single(s, w, Component::User, WarningCode::PasswordWithoutUser, x, a, a);
            let w1 = w.push(warning_at(s, Component::User, WarningCode::PasswordWithoutUser, a));
            lemma_ordered_append(w1, pw_w, x, at_byte(s, c), at_byte(s, b));
        } else {
            lemma_charset_ordered(s, Component::User, crate::parse::CharSet::User, a, semi);
            let w2 = charset_warnings(s, Component::User, crate::parse::CharSet::User, a, semi);
            lemma_at_byte_le(s, a, semi);
            lemma_at_byte_le(s, semi, c);
            let w3 = if semi < c {
                lenient_params(s, semi + 1, c, ParamKind::User, Seq::empty(), w2).1
            } else {
                w2
            };
            if semi < c {
                lemma_at_byte_le(s, semi, semi + 1);
                lemma_ordered_widen(w2, at_byte(s, a), at_byte(s, semi), at_byte(s, a), at_byte(s, semi + 1));
                lemma_params_order(s, semi + 1, c, ParamKind::User, Seq::empty(), w2, at_byte(s, a));
            }
            assert(ordered_between(w3, at_byte(s, a), at_byte(s, c)));
            let q = scan(s, is_char('?'), a, c);
            lemma_scan(s, is_char('?'), a, c);
            let w4 = if q < c {
                insert_in_order(w3, warning_at(s, Component::User, WarningCode::HeaderShapedUser, q))
            } else {
                w3
            };
            if q < c {
                lemma_single_at(s, Component::User, WarningCode::HeaderShapedUser, q);
                lemma_at_byte_le(s, a, q);
                lemma_at_byte_le(s, q, c);
                lemma_insert_in_order(
                    w3,
                    warning_at(s, Component::User, WarningCode::HeaderShapedUser, q),
                    at_byte(s, a),
                    at_byte(s, c),
                );
            }
            lemma_ordered_append(w, w4, x, at_byte(s, a), at_byte(s, c));
            lemma_ordered_append(w + w4, pw_w, x, at_byte(s, c), at_byte(s, b));
        }
    }
}

/// Every warning a SIP URI's parse raises comes in input order: their
/// positions never decrease (the text's encoding fitting a `usize`, as that
/// of any `&str` does).
pub proof fn law_sip_warnings_in_order(s: Seq<char>)
    requires
        parse_sip(s) is Ok,
        byte_len(s) <= usize::MAX,
    ensures
        in_input_order(parse_sip(s)->Ok_0.1),
{
    let n = s.len() as int;
    let colon = scan(s, is_char(':'), 0, n);
    lemma_scan(s, is_char(':'), 0, n);
    let r = colon + 1;
    let sc = scheme_of(s, colon)->Some_0;
    crate::parse::lemma_userinfo_at_bounds(s, r, n);
    lemma_at_byte_le(s, r, n);
    match crate::parse::userinfo_at(s, r, n) {
        Some(at) => {
            lemma_ordered_empty(at_byte(s, r), at_byte(s, r));
            lemma_userinfo_order(s, r, at, Seq::empty(), at_byte(s, r));
            let w1 = userinfo_parts(s, r, at, Seq::empty())->Ok_0.3;
            lemma_at_byte_le(s, r, at);
            lemma_at_byte_le(s, at, at + 1);
            lemma_ordered_widen(w1, at_byte(s, r), at_byte(s, at), at_byte(s, r), at_byte(s, at + 1));
            lemma_hostport_order(s, at + 1, n, w1, at_byte(s, r));
        },
        None => {
            lemma_ordered_empty(at_byte(s, r), at_byte(s, r));
            lemma_hostport_order(s, r, n, Seq::empty(), at_byte(s, r));
        },
    }
}

/// Every warning of a standalone host comes in input order.
pub proof fn law_host_warnings_in_order(s: Seq<char>)
    requires
        parse_host(s) is Ok,
        byte_len(s) <= usize::MAX,
    ensures
        in_input_order(parse_host(s)->Ok_0.1),
{
    let n = s.len() as int;
    lemma_host_order(s, 0, n);
}

/// Every warning of an accepted tel: URI comes in input order.
pub proof fn law_tel_warnings_in_order(s: Seq<char>)
    requires
        crate::tel_uri::parse_tel(s) is Ok,
        byte_len(s) <= usize::MAX,
    ensures
        in_input_order(crate::tel_uri::tel_warnings(s)),
{
    crate::tel_uri::lemma_tel_layout(s);
    let n = s.len() as int;
    let r = crate::tel_uri::tel_body_start(s)->Some_0;
    let h = crate::tel_uri::tel_hash(s, r);
    let semi = scan(s, is_char(';'), r, h);
    let (ps, pw) = if semi < h {
        crate::tel_uri::tel_params(s, semi + 1, h)
    } else {
        (Seq::<crate::params::ParamV>::empty(), Seq::<ParseWarning>::empty())
    };
    let ctx = if s[r] != '+' && crate::params::param_index(ps, "phone-context"@) is None {
        seq![warning_at(s, Component::Number, WarningCode::MissingPhoneContext, r)]
    } else {
        Seq::empty()
    };
    let fw = if h < n {
        seq![
            warning_at(
                s,
                Component::Fragment,
                if h + 1 < n {
                    WarningCode::UnexpectedFragment
                } else {
                    WarningCode::EmptyFragment
                },
                h,
            ),
        ]
    } else {
        Seq::empty()
    };
    assert(crate::tel_uri::tel_warnings(s) == ctx + pw + fw);
    lemma_at_byte_le(s, r, semi);
    lemma_at_byte_le(s, semi, h);
    lemma_at_byte_le(s, h, n);
    if s[r] != '+' && crate::params::param_index(ps, "phone-context"@) is None {
        lemma_single_at(s, Component::Number, WarningCode::MissingPhoneContext, r);
    } else {
        lemma_ordered_empty(at_byte(s, r), at_byte(s, r));
    }
    if semi < h {
        lemma_at_byte_le(s, semi, semi + 1);
        lemma_ordered_empty(at_byte(s, semi + 1), at_byte(s, semi + 1));
        lemma_params_order(s, semi + 1, h, ParamKind::Tel, Seq::empty(), Seq::empty(), at_byte(s, semi + 1));
        lemma_ordered_widen(pw, at_byte(s, semi + 1), at_byte(s, h), at_byte(s, r), at_byte(s, h));
    } else {
        lemma_ordered_empty(at_byte(s, r), at_byte(s, h));
    }
    lemma_ordered_append(ctx, pw, at_byte(s, r), at_byte(s, r), at_byte(s, h));
    if h < n {
        let code = if h + 1 < n {
            WarningCode::UnexpectedFragment
        } else {
            WarningCode::EmptyFragment
        };
        lemma_single_at(s, Component::Fragment, code, h);
    } else {
        lemma_ordered_empty(at_byte(s, h), at_byte(s, h));
    }
    lemma_ordered_append(ctx + pw, fw, at_byte(s, r), at_byte(s, h), at_byte(s, h));
}

/// An optional URN component's warnings stand between its marker and its end.
pub proof fn lemma_component_order(s: Seq<char>, comp: Component, lo: int, hi: int, mark: int)
    requires
        0 <= mark <= lo <= hi <= s.len(),
        byte_len(s) <= usize::MAX,
    ensures
        ordered_between(
            crate::urn_uri::component_warnings(s, comp, lo, hi, mark),
            at_byte(s, mark),
            at_byte(s, hi),
        ),
{
    lemma_at_byte_le(s, mark, lo);
    lemma_at_byte_le(s, lo, hi);
    if lo >= hi {
        lemma_single_at(s, comp, WarningCode::EmptyComponent, mark);
        lemma_ordered_widen(
            seq![warning_at(s, comp, WarningCode::EmptyComponent, mark)],
            at_byte(s, mark),
            at_byte(s, mark),
            at_byte(s, mark),
            at_byte(s, hi),
        );
    } else {
        lemma_charset_ordered(s, comp, crate::parse::CharSet::UrnComponent, lo, hi);
        lemma_ordered_widen(
            charset_warnings(s, comp, crate::parse::CharSet::UrnComponent, lo, hi),
            at_byte(s, lo),
            at_byte(s, hi),
            at_byte(s, mark),
            at_byte(s, hi),
        );
    }
}

/// Every warning a URN raises comes in input order.
pub proof fn law_urn_warnings_in_order(s: Seq<char>)
    requires
        byte_len(s) <= usize::MAX,
    ensures
        in_input_order(crate::urn_uri::urn_warnings(s)),
{
    let n = s.len() as int;
    let colon = scan(s, is_char(':'), 0, n);
    lemma_scan(s, is_char(':'), 0, n);
    let nid_end = scan(s, is_char(':'), colon + 1, n);
    if !(colon >= n || nid_end >= n) {
        lemma_scan(s, is_char(':'), colon + 1, n);
        let h = scan(s, is_char('#'), nid_end + 1, n);
        lemma_scan(s, is_char('#'), nid_end + 1, n);
        let qm = scan(s, is_char('?'), nid_end + 1, h);
        lemma_scan(s, is_char('?'), nid_end + 1, h);
        let rq = if qm < h {
            crate::urn_uri::rq_warnings(s, qm, h)
        } else {
            Seq::empty()
        };
        lemma_at_byte_le(s, qm, h);
        lemma_at_byte_le(s, h, n);
        if qm < h && h - qm >= 2 {
            if s[qm + 1] == '+' {
                let qe = crate::urn_uri::find_query(s, qm + 2, h);
                crate::urn_uri::lemma_find_query(s, qm + 2, h);
                if qe < h {
                    lemma_component_order(s, Component::RComponent, qm + 2, qe, qm);
                    lemma_component_order(s, Component::QComponent, qe + 2, h, qe);
                    lemma_at_byte_le(s, qe, qe + 2);
                    lemma_at_byte_le(s, qm, qe);
                    lemma_at_byte_le(s, qe, h);
                    lemma_ordered_append(
                        crate::urn_uri::component_warnings(s, Component::RComponent, qm + 2, qe, qm),
                        crate::urn_uri::component_warnings(s, Component::QComponent, qe + 2, h, qe),
                        at_byte(s, qm),
                        at_byte(s, qe),
                        at_byte(s, h),
                    );
                } else {
                    lemma_component_order(s, Component::RComponent, qm + 2, h, qm);
                }
            } else if s[qm + 1] == '=' {
                lemma_component_order(s, Component::QComponent, qm + 2, h, qm);
            } else {
                lemma_ordered_empty(at_byte(s, qm), at_byte(s, h));
            }
        } else {
            lemma_ordered_empty(at_byte(s, qm), at_byte(s, h));
        }
        assert(ordered_between(rq, at_byte(s, qm), at_byte(s, h)));
        if h < n {
            lemma_charset_ordered(s, Component::FComponent, crate::parse::CharSet::UrnComponent, h + 1, n);
            lemma_at_byte_le(s, h, h + 1);
            lemma_ordered_widen(
                charset_warnings(s, Component::FComponent, crate::parse::CharSet::UrnComponent, h + 1, n),
                at_byte(s, h + 1),
                at_byte(s, n),
                at_byte(s, h),
                at_byte(s, n),
            );
            lemma_ordered_append(
                rq,
                charset_warnings(s, Component::FComponent, crate::parse::CharSet::UrnComponent, h + 1, n),
                at_byte(s, qm),
                at_byte(s, h),
                at_byte(s, n),
            );
        } else {
            assert(rq + Seq::<ParseWarning>::empty() =~= rq);
        }
    }
}

/// Every warning of an accepted URI of any scheme comes in input order.
pub proof fn law_uri_warnings_in_order(s: Seq<char>)
    requires
        crate::uri::parse_uri(s) is Ok,
        byte_len(s) <= usize::MAX,
    ensures
        in_input_order(crate::uri::uri_warnings(s)),
{
    reveal_strlit("tel");
    reveal_strlit("sip");
    reveal_strlit("sips");
    reveal_strlit("urn");
    let n = s.len() as int;
    let colon = scan(s, is_char(':'), 0, n);
    let scheme = s.take(colon);
    if crate::text::eq_ignore_case(scheme, "tel"@) {
        law_tel_warnings_in_order(s);
    } else if crate::text::eq_ignore_case(scheme, "sip"@) || crate::text::eq_ignore_case(scheme, "sips"@) {
        if parse_sip(s) is Ok {
            law_sip_warnings_in_order(s);
        }
    } else if crate::text::eq_ignore_case(scheme, "urn"@) {
        law_urn_warnings_in_order(s);
    } else {
        lemma_single_at(s, Component::Scheme, WarningCode::InvalidScheme, 0);
    }
}

} // verus!
