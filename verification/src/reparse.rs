//! What the parameter parsers read back from what `params_text` writes.

use vstd::prelude::*;

use crate::canon::{
    canonical, lemma_canonical_escaped, lemma_canonical_excludes, lemma_canonical_fixed,
    lemma_decode_canonical, lemma_first_invalid_window, lemma_scan_is, none_in,
};
use crate::params::{
    ParamKind, ParamV, kind_set, lenient_params, lenient_segment, param_text, params_text,
    strict_params, strict_segment,
};
use crate::params::{HeaderV, header_section, headers_text, lenient_header, lenient_headers};
use crate::parse::{canonical_header, hex_upper, hex_val, hnv_char, hnv_encode, pct_decode_bytes};
use crate::text::ascii_text;
use crate::warning::ParseWarning;
use vstd::utf8::{encode_scalar, encode_utf8};
use crate::parse::{CharSet, char_allowed, hex_char, is_char, lemma_first_invalid_bounds, pct_decode};
use crate::text::{lemma_scan, scan};

verus! {

/// A parameter that writing out and reading back against `set` keeps:
/// canonical name and value, no `;` in either and no `=` in the name, and
/// never an empty name without a value.
pub open spec fn clean_param(p: ParamV, set: CharSet) -> bool {
    &&& canonical(p.0, set)
    &&& none_in(p.0, is_char('='))
    &&& none_in(p.0, is_char(';'))
    &&& match p.1 {
        Some(v) => canonical(v, set) && none_in(v, is_char(';')),
        None => p.0.len() > 0,
    }
}

/// Every parameter of the list is clean.
pub open spec fn clean_params(ps: Seq<ParamV>, set: CharSet) -> bool {
    forall|j: int| 0 <= j < ps.len() ==> clean_param(#[trigger] ps[j], set)
}

/// Writing out a list is writing its first parameter, then the rest.
pub proof fn lemma_params_text_cons(p: ParamV, rest: Seq<ParamV>)
    ensures
        params_text(seq![p] + rest) == param_text(p) + params_text(rest),
    decreases rest.len(),
{
    let ps = seq![p] + rest;
    if rest.len() == 0 {
        assert(ps.drop_last() =~= Seq::<ParamV>::empty());
        assert(params_text(rest) =~= Seq::<char>::empty());
        assert(params_text(ps.drop_last()) =~= Seq::<char>::empty());
        assert(params_text(ps) =~= param_text(p) + params_text(rest));
    } else {
        lemma_params_text_cons(p, rest.drop_last());
        assert(ps.drop_last() =~= seq![p] + rest.drop_last());
        assert(ps.last() == rest.last());
        assert(params_text(ps) =~= param_text(p) + params_text(rest));
    }
}

/// Written-out parameters start with `;`.
pub proof fn lemma_params_text_head(ps: Seq<ParamV>)
    requires
        ps.len() > 0,
    ensures
        params_text(ps).len() > 0,
        params_text(ps)[0] == ';',
{
    lemma_params_text_cons(ps[0], ps.skip(1));
    assert(ps =~= seq![ps[0]] + ps.skip(1));
}

/// Decoding never empties nonempty text.
pub proof fn lemma_decode_nonempty(t: Seq<char>, set: CharSet)
    requires
        t.len() > 0,
    ensures
        pct_decode(t, set).len() > 0,
{
}

/// `;` and `=` lie outside the URI parameter set.
pub proof fn lemma_param_set_excludes(t: Seq<char>)
    requires
        canonical(t, CharSet::Param),
    ensures
        none_in(t, is_char(';')),
        none_in(t, is_char('=')),
{
    assert forall|c: char| #[trigger] is_char(';')(c) implies c != '%' && !hex_char(c)
        && !char_allowed(CharSet::Param, c) by {}
    lemma_canonical_excludes(t, CharSet::Param, is_char(';'));
    assert forall|c: char| #[trigger] is_char('=')(c) implies c != '%' && !hex_char(c)
        && !char_allowed(CharSet::Param, c) by {}
    lemma_canonical_excludes(t, CharSet::Param, is_char('='));
}

/// A segment that `strict_segment` accepts gives a clean URI parameter.
pub proof fn lemma_strict_segment_clean(s: Seq<char>, a: int, b: int)
    requires
        0 <= a <= b <= s.len(),
        strict_segment(s, a, b, ParamKind::Uri) matches Ok(Some(p)),
    ensures
        strict_segment(s, a, b, ParamKind::Uri) matches Ok(Some(p)) && clean_param(
            p,
            CharSet::Param,
        ),
{
    let set = CharSet::Param;
    let eq = scan(s, is_char('='), a, b);
    lemma_scan(s, is_char('='), a, b);
    lemma_first_invalid_bounds(s, set, a, eq);
    lemma_first_invalid_window(s, set, a, eq);
    let name = pct_decode(s.subrange(a, eq), set);
    lemma_decode_canonical(s.subrange(a, eq), set);
    lemma_param_set_excludes(name);
    if eq < b {
        lemma_first_invalid_bounds(s, set, eq + 1, b);
        lemma_first_invalid_window(s, set, eq + 1, b);
        lemma_decode_canonical(s.subrange(eq + 1, b), set);
        lemma_param_set_excludes(pct_decode(s.subrange(eq + 1, b), set));
    } else {
        lemma_decode_nonempty(s.subrange(a, b), set);
    }
}

/// Every parameter that `strict_params` collects for URI parameters is
/// clean.
pub proof fn lemma_strict_params_clean(s: Seq<char>, i: int, hi: int, acc: Seq<ParamV>)
    requires
        0 <= i,
        hi <= s.len(),
        clean_params(acc, CharSet::Param),
        strict_params(s, i, hi, ParamKind::Uri, acc) is Ok,
    ensures
        strict_params(s, i, hi, ParamKind::Uri, acc) matches Ok(ps) && clean_params(
            ps,
            CharSet::Param,
        ),
    decreases hi - i,
{
    if i <= hi {
        let end = scan(s, is_char(';'), i, hi);
        lemma_scan(s, is_char(';'), i, hi);
        let acc2 = match strict_segment(s, i, end, ParamKind::Uri) {
            Ok(Some(p)) => {
                lemma_strict_segment_clean(s, i, end);
                acc.push(p)
            },
            _ => acc,
        };
        assert(clean_params(acc2, CharSet::Param)) by {
            if acc2.len() > acc.len() {
                assert forall|j: int| 0 <= j < acc2.len() implies clean_param(
                    #[trigger] acc2[j],
                    CharSet::Param,
                ) by {
                    if j < acc.len() {
                        assert(acc2[j] == acc[j]);
                    }
                }
            }
        }
        if end < hi {
            lemma_strict_params_clean(s, end + 1, hi, acc2);
        }
    }
}

/// Reading back one written-out clean parameter: when `s[i - 1..end]` is
/// `param_text(p)`, the segment `s[i..end]` holds no `;` and gives `p`.
pub proof fn lemma_segment_reparse(s: Seq<char>, i: int, end: int, p: ParamV)
    requires
        0 < i <= end <= s.len(),
        s.subrange(i - 1, end) == param_text(p),
        clean_param(p, CharSet::Param),
    ensures
        i < end,
        forall|k: int| i <= k < end ==> !is_char(';')(#[trigger] s[k]),
        strict_segment(s, i, end, ParamKind::Uri) == Ok::<Option<ParamV>, Seq<char>>(Some(p)),
{
    let set = CharSet::Param;
    let name = p.0;
    let pt = param_text(p);
    assert(pt.len() >= 2);
    assert forall|k: int| 0 <= k < name.len() implies s[i + k] == name[k] by {
        assert(s[i + k] == pt[1 + k]);
    }
    assert forall|k: int| i <= k < end implies !is_char(';')(#[trigger] s[k]) by {
        assert(s[k] == pt[k - i + 1]);
        if k - i < name.len() {
            assert(pt[k - i + 1] == name[k - i]);
        } else if k - i > name.len() {
            let v = p.1->Some_0;
            assert(pt[k - i + 1] == v[k - i - name.len() - 1]);
        }
    }
    let eq = if p.1 is Some {
        i + name.len()
    } else {
        end
    };
    assert forall|k: int| i <= k < eq implies !is_char('=')(#[trigger] s[k]) by {
        assert(s[i + (k - i)] == name[k - i]);
    }
    if p.1 is Some {
        assert(s[eq] == pt[1 + name.len() as int]);
    }
    lemma_scan_is(s, is_char('='), i, eq, end);
    assert(s.subrange(i, eq) =~= name);
    lemma_canonical_escaped(name, set);
    lemma_first_invalid_window(s, set, i, eq);
    lemma_canonical_fixed(name, set);
    match p.1 {
        Some(v) => {
            assert forall|k: int| 0 <= k < v.len() implies s[eq + 1 + k] == v[k] by {
                assert(s[eq + 1 + k] == pt[2 + name.len() + k]);
            }
            assert(s.subrange(eq + 1, end) =~= v);
            lemma_canonical_escaped(v, set);
            lemma_first_invalid_window(s, set, eq + 1, end);
            lemma_canonical_fixed(v, set);
        },
        None => {},
    }
}

/// Reading back written-out clean URI parameters: when `s[i - 1..hi]` is
/// `params_text(ps)`, `strict_params` from `i` appends exactly `ps`.
pub proof fn lemma_strict_params_reparse(
    s: Seq<char>,
    i: int,
    hi: int,
    ps: Seq<ParamV>,
    acc: Seq<ParamV>,
)
    requires
        0 < i <= hi <= s.len(),
        ps.len() > 0,
        s.subrange(i - 1, hi) == params_text(ps),
        clean_params(ps, CharSet::Param),
    ensures
        strict_params(s, i, hi, ParamKind::Uri, acc) == Ok::<Seq<ParamV>, Seq<char>>(acc + ps),
    decreases ps.len(),
{
    let set = CharSet::Param;
    let p = ps[0];
    let rest = ps.skip(1);
    assert(ps =~= seq![p] + rest);
    lemma_params_text_cons(p, rest);
    assert(clean_param(p, set));
    let pt = param_text(p);
    let w = s.subrange(i - 1, hi);
    let end = i - 1 + pt.len();
    assert(w == pt + params_text(rest));
    assert(s.subrange(i - 1, end) =~= w.subrange(0, pt.len() as int));
    assert(w.subrange(0, pt.len() as int) =~= pt);
    lemma_segment_reparse(s, i, end, p);
    if rest.len() > 0 {
        lemma_params_text_head(rest);
        assert(s[end] == w[pt.len() as int]);
    }
    lemma_scan_is(s, is_char(';'), i, end, hi);
    if rest.len() > 0 {
        assert(s.subrange(end, hi) =~= w.subrange(pt.len() as int, w.len() as int));
        assert(w.subrange(pt.len() as int, w.len() as int) =~= params_text(rest));
        assert(clean_params(rest, set)) by {
            assert forall|j: int| 0 <= j < rest.len() implies clean_param(#[trigger] rest[j], set) by {
                assert(rest[j] == ps[j + 1]);
            }
        }
        lemma_strict_params_reparse(s, end + 1, hi, rest, acc.push(p));
        assert(acc.push(p) + rest =~= acc + ps);
    } else {
        assert(params_text(rest) =~= Seq::<char>::empty());
        assert(acc.push(p) =~= acc + ps);
    }
}

/// Decoding against a set brings in no character outside it that is
/// neither `%` nor a hex digit.
pub proof fn lemma_decode_excludes(t: Seq<char>, set: CharSet, p: spec_fn(char) -> bool)
    requires
        set != CharSet::Any,
        none_in(t, p),
        forall|c: char| #[trigger] p(c) ==> c != '%' && !hex_char(c) && !char_allowed(set, c),
    ensures
        none_in(pct_decode(t, set), p),
    decreases t.len(),
{
    if t.len() > 0 {
        let r = if t.len() >= 3 && t[0] == '%' && hex_char(t[1]) && hex_char(t[2]) {
            t.skip(3)
        } else {
            t.skip(1)
        };
        assert(none_in(r, p)) by {
            assert forall|j: int| 0 <= j < r.len() implies !p(#[trigger] r[j]) by {
                assert(r[j] == t[j + (t.len() - r.len())]);
            }
        }
        lemma_decode_excludes(r, set, p);
        let dr = pct_decode(r, set);
        if t.len() >= 3 && t[0] == '%' && hex_char(t[1]) && hex_char(t[2]) {
            let d = crate::parse::hex_pair(t[1] as u8, t[2] as u8);
            crate::canon::lemma_upper_hex(t[1]);
            crate::canon::lemma_upper_hex(t[2]);
            if crate::parse::allows(set, d) {
                crate::parse::lemma_allows_ascii(set, d);
                assert((d as char) as u32 == d as u32);
                assert(d < 128 ==> ((d as u32) as u8) == d) by (bit_vector);
                assert(char_allowed(set, d as char));
                let x = seq![d as char] + dr;
                assert(pct_decode(t, set) == x);
                assert forall|j: int| 0 <= j < x.len() implies !p(#[trigger] x[j]) by {
                    if j > 0 {
                        assert(x[j] == dr[j - 1]);
                    }
                }
            } else {
                let x = seq!['%', crate::text::upper(t[1]), crate::text::upper(t[2])] + dr;
                assert(pct_decode(t, set) == x);
                assert forall|j: int| 0 <= j < x.len() implies !p(#[trigger] x[j]) by {
                    if j >= 3 {
                        assert(x[j] == dr[j - 3]);
                    }
                }
            }
        } else {
            let x = seq![t[0]] + dr;
            assert(pct_decode(t, set) == x);
            assert forall|j: int| 0 <= j < x.len() implies !p(#[trigger] x[j]) by {
                if j > 0 {
                    assert(x[j] == dr[j - 1]);
                }
            }
        }
    }
}

/// A parameter that writing out and reading back leniently against `set`
/// keeps: decoding leaves name and value as they are, neither holds `;` and
/// the name holds no `=`.
pub open spec fn stable_param(p: ParamV, set: CharSet) -> bool {
    &&& pct_decode(p.0, set) == p.0
    &&& none_in(p.0, is_char('='))
    &&& none_in(p.0, is_char(';'))
    &&& match p.1 {
        Some(v) => pct_decode(v, set) == v && none_in(v, is_char(';')),
        None => p.0.len() > 0,
    }
}

/// Every parameter of the list is stable.
pub open spec fn stable_params(ps: Seq<ParamV>, set: CharSet) -> bool {
    forall|j: int| 0 <= j < ps.len() ==> stable_param(#[trigger] ps[j], set)
}

/// Reading back one written-out stable parameter leniently.
pub proof fn lemma_lenient_segment_reparse(
    s: Seq<char>,
    i: int,
    end: int,
    p: ParamV,
    k: ParamKind,
    w: Seq<ParseWarning>,
)
    requires
        0 < i <= end <= s.len(),
        s.subrange(i - 1, end) == param_text(p),
        stable_param(p, kind_set(k)),
    ensures
        i < end,
        forall|j: int| i <= j < end ==> !is_char(';')(#[trigger] s[j]),
        lenient_segment(s, i, end, k, w).0 == Some(p),
{
    let set = kind_set(k);
    let name = p.0;
    let pt = param_text(p);
    assert(pt.len() >= 2);
    assert forall|j: int| 0 <= j < name.len() implies s[i + j] == name[j] by {
        assert(s[i + j] == pt[1 + j]);
    }
    assert forall|j: int| i <= j < end implies !is_char(';')(#[trigger] s[j]) by {
        assert(s[j] == pt[j - i + 1]);
        if j - i < name.len() {
            assert(pt[j - i + 1] == name[j - i]);
        } else if j - i > name.len() {
            let v = p.1->Some_0;
            assert(pt[j - i + 1] == v[j - i - name.len() - 1]);
        }
    }
    let eq = if p.1 is Some {
        i + name.len()
    } else {
        end
    };
    assert forall|j: int| i <= j < eq implies !is_char('=')(#[trigger] s[j]) by {
        assert(s[i + (j - i)] == name[j - i]);
    }
    if p.1 is Some {
        assert(s[eq] == pt[1 + name.len() as int]);
    }
    lemma_scan_is(s, is_char('='), i, eq, end);
    assert(s.subrange(i, eq) =~= name);
    match p.1 {
        Some(v) => {
            assert forall|j: int| 0 <= j < v.len() implies s[eq + 1 + j] == v[j] by {
                assert(s[eq + 1 + j] == pt[2 + name.len() + j]);
            }
            assert(s.subrange(eq + 1, end) =~= v);
        },
        None => {},
    }
}

/// Reading back written-out stable parameters leniently: when
/// `s[i - 1..hi]` is `params_text(ps)`, `lenient_params` from `i` appends
/// exactly `ps`.
pub proof fn lemma_lenient_params_reparse(
    s: Seq<char>,
    i: int,
    hi: int,
    k: ParamKind,
    ps: Seq<ParamV>,
    acc: Seq<ParamV>,
    w: Seq<ParseWarning>,
)
    requires
        0 < i <= hi <= s.len(),
        ps.len() > 0,
        s.subrange(i - 1, hi) == params_text(ps),
        stable_params(ps, kind_set(k)),
    ensures
        lenient_params(s, i, hi, k, acc, w).0 == acc + ps,
    decreases ps.len(),
{
    let set = kind_set(k);
    let p = ps[0];
    let rest = ps.skip(1);
    assert(ps =~= seq![p] + rest);
    lemma_params_text_cons(p, rest);
    assert(stable_param(p, set));
    let pt = param_text(p);
    let wt = s.subrange(i - 1, hi);
    let end = i - 1 + pt.len();
    assert(wt == pt + params_text(rest));
    assert(s.subrange(i - 1, end) =~= wt.subrange(0, pt.len() as int));
    assert(wt.subrange(0, pt.len() as int) =~= pt);
    lemma_lenient_segment_reparse(s, i, end, p, k, w);
    if rest.len() > 0 {
        lemma_params_text_head(rest);
        assert(s[end] == wt[pt.len() as int]);
    }
    lemma_scan_is(s, is_char(';'), i, end, hi);
    let w2 = lenient_segment(s, i, end, k, w).1;
    if rest.len() > 0 {
        assert(s.subrange(end, hi) =~= wt.subrange(pt.len() as int, wt.len() as int));
        assert(wt.subrange(pt.len() as int, wt.len() as int) =~= params_text(rest));
        assert(stable_params(rest, set)) by {
            assert forall|j: int| 0 <= j < rest.len() implies stable_param(#[trigger] rest[j], set) by {
                assert(rest[j] == ps[j + 1]);
            }
        }
        lemma_lenient_params_reparse(s, end + 1, hi, k, rest, acc.push(p), w2);
        assert(acc.push(p) + rest =~= acc + ps);
    } else {
        assert(params_text(rest) =~= Seq::<char>::empty());
        assert(acc.push(p) =~= acc + ps);
    }
}

/// ASCII bytes read as characters encode back to themselves.
pub proof fn lemma_encode_ascii_text(b: Seq<u8>)
    requires
        forall|j: int| 0 <= j < b.len() ==> #[trigger] b[j] < 128,
    ensures
        encode_utf8(ascii_text(b)) == b,
    decreases b.len(),
{
    let t = ascii_text(b);
    if b.len() == 0 {
        assert(t =~= Seq::<char>::empty());
        assert(encode_utf8(t) =~= b);
    } else {
        let c = t[0];
        assert(c == b[0] as char);
        assert((b[0] as char) as u32 == b[0] as u32);
        crate::parse::lemma_scalar_ascii_byte(c);
        let x = b[0] as u32;
        assert(x < 128 ==> (x as u8) as u32 == x) by (bit_vector);
        assert(c as u8 == b[0]);
        assert(t.drop_first() =~= ascii_text(b.skip(1)));
        lemma_encode_ascii_text(b.skip(1));
        assert(encode_utf8(t) == encode_scalar(c as u32) + encode_utf8(t.drop_first()));
        assert(encode_utf8(t) =~= b);
    }
}

/// The uppercase hex digit of a value below 16 is worth it.
pub proof fn lemma_hex_upper(n: u8)
    requires
        n < 16,
    ensures
        hex_val(hex_upper(n)) == Some(n),
        hex_upper(n) < 128,
{
}

/// Header-encoded bytes are ASCII: bytes of `hnv`, `%` and uppercase hex
/// digits.
pub proof fn lemma_hnv_encode_bytes(d: Seq<u8>)
    ensures
        forall|j: int| 0 <= j < hnv_encode(d).len() ==> #[trigger] hnv_encode(d)[j] < 128 && (
        hnv_char(hnv_encode(d)[j]) || hnv_encode(d)[j] == ('%' as u8) || hex_val(
            hnv_encode(d)[j],
        ) is Some),
        d.len() > 0 ==> hnv_encode(d).len() > 0,
    decreases d.len(),
{
    if d.len() > 0 {
        lemma_hnv_encode_bytes(d.skip(1));
        let r = hnv_encode(d.skip(1));
        let x = d[0];
        let c = if hnv_char(x) {
            seq![x]
        } else {
            seq![('%' as u8), hex_upper(x / 16), hex_upper(x % 16)]
        };
        assert(hnv_encode(d) == c + r);
        if !hnv_char(x) {
            lemma_hex_upper(x / 16);
            lemma_hex_upper(x % 16);
        } else {
            assert(x < 128);
        }
        assert forall|j: int| 0 <= j < hnv_encode(d).len() implies #[trigger] hnv_encode(d)[j] < 128
            && (hnv_char(hnv_encode(d)[j]) || hnv_encode(d)[j] == ('%' as u8) || hex_val(
            hnv_encode(d)[j],
        ) is Some) by {
            if j >= c.len() {
                assert(hnv_encode(d)[j] == r[j - c.len()]);
            }
        }
    }
}

/// Decoding every escape of header-encoded bytes gives the bytes back.
pub proof fn lemma_decode_hnv_encode(d: Seq<u8>)
    ensures
        pct_decode_bytes(hnv_encode(d), CharSet::Any) == d,
    decreases d.len(),
{
    if d.len() == 0 {
        assert(pct_decode_bytes(hnv_encode(d), CharSet::Any) =~= d);
    } else {
        lemma_decode_hnv_encode(d.skip(1));
        let r = hnv_encode(d.skip(1));
        let x = d[0];
        if hnv_char(x) {
            let e = seq![x] + r;
            assert(hnv_encode(d) == e);
            assert(x != ('%' as u8));
            assert(e.skip(1) =~= r);
            assert(pct_decode_bytes(e, CharSet::Any) == seq![x] + pct_decode_bytes(r, CharSet::Any));
        } else {
            let e = seq![('%' as u8), hex_upper(x / 16), hex_upper(x % 16)] + r;
            assert(hnv_encode(d) == e);
            lemma_hex_upper(x / 16);
            lemma_hex_upper(x % 16);
            assert(crate::parse::hex_pair(e[1], e[2]) == x);
            assert(e.skip(3) =~= r);
            assert(pct_decode_bytes(e, CharSet::Any) == seq![x] + pct_decode_bytes(r, CharSet::Any));
        }
        assert(d =~= seq![x] + d.skip(1));
    }
}

/// Canonical header text is its own canonical form, holds none of
/// `& = # @ ;`, and is empty only for empty text.
pub proof fn lemma_canonical_header(x: Seq<char>)
    ensures
        canonical_header(canonical_header(x)) == canonical_header(x),
        none_in(canonical_header(x), is_char('&')),
        none_in(canonical_header(x), is_char('=')),
        none_in(canonical_header(x), is_char('#')),
        none_in(canonical_header(x), is_char('@')),
        none_in(canonical_header(x), is_char(';')),
        x.len() > 0 ==> canonical_header(x).len() > 0,
{
    let d = pct_decode_bytes(encode_utf8(x), CharSet::Any);
    let e = hnv_encode(d);
    let c = canonical_header(x);
    assert(c == ascii_text(e));
    lemma_hnv_encode_bytes(d);
    lemma_encode_ascii_text(e);
    lemma_decode_hnv_encode(d);
    assert(canonical_header(c) == ascii_text(hnv_encode(pct_decode_bytes(e, CharSet::Any))));
    assert forall|j: int| 0 <= j < c.len() implies !is_char('&')(#[trigger] c[j]) && c[j] != '='
        && c[j] != '#' && c[j] != '@' && c[j] != ';' by {
        let b = e[j];
        assert(c[j] == b as char);
        assert((b as char) as u32 == b as u32);
        if hex_val(b) is Some {
        } else if b == ('%' as u8) {
        } else {
            assert(hnv_char(b));
        }
    }
    if x.len() > 0 {
        assert(encode_utf8(x).len() > 0) by {
            crate::parse::lemma_scalar_ascii_byte(x[0]);
        }
        assert(d.len() > 0);
    }
}

/// A header as the lenient parser leaves it: a nonempty name, both parts
/// their own canonical form, no `&` in either and no `=` in the name.
pub open spec fn stable_header(h: HeaderV) -> bool {
    &&& h.0.len() > 0
    &&& canonical_header(h.0) == h.0
    &&& canonical_header(h.1) == h.1
    &&& none_in(h.0, is_char('&')) && none_in(h.0, is_char('='))
    &&& none_in(h.1, is_char('&'))
}

/// Every header of the list is stable.
pub open spec fn stable_headers(hs: Seq<HeaderV>) -> bool {
    forall|j: int| 0 <= j < hs.len() ==> stable_header(#[trigger] hs[j])
}

/// `name=value`.
pub open spec fn header_pair(h: HeaderV) -> Seq<char> {
    h.0 + seq!['='] + h.1
}

/// Headers joined by `&`.
pub open spec fn joined_headers(hs: Seq<HeaderV>) -> Seq<char>
    decreases hs.len(),
{
    if hs.len() == 0 {
        Seq::empty()
    } else if hs.len() == 1 {
        header_pair(hs[0])
    } else {
        joined_headers(hs.drop_last()) + seq!['&'] + header_pair(hs.last())
    }
}

/// Written-out headers are `?` and the headers joined by `&`.
pub proof fn lemma_headers_text_joined(hs: Seq<HeaderV>)
    requires
        hs.len() > 0,
    ensures
        headers_text(hs) == seq!['?'] + joined_headers(hs),
    decreases hs.len(),
{
    if hs.len() == 1 {
        assert(hs.drop_last() =~= Seq::<HeaderV>::empty());
        assert(headers_text(hs.drop_last()) =~= Seq::<char>::empty());
        assert(headers_text(hs) =~= seq!['?'] + joined_headers(hs));
    } else {
        lemma_headers_text_joined(hs.drop_last());
        assert(headers_text(hs) =~= seq!['?'] + joined_headers(hs));
    }
}

/// Joining is the first header, then `&` and the rest.
pub proof fn lemma_joined_cons(h: HeaderV, rest: Seq<HeaderV>)
    ensures
        joined_headers(seq![h] + rest) == header_pair(h) + if rest.len() == 0 {
            Seq::<char>::empty()
        } else {
            seq!['&'] + joined_headers(rest)
        },
    decreases rest.len(),
{
    let hs = seq![h] + rest;
    if rest.len() == 0 {
        assert(hs.len() == 1);
        assert(joined_headers(hs) =~= header_pair(h) + Seq::<char>::empty());
    } else if rest.len() == 1 {
        assert(hs.drop_last() =~= seq![h]);
        assert(hs.last() == rest[0]);
        assert(joined_headers(seq![h]) == header_pair(h));
        assert(joined_headers(rest) == header_pair(rest[0]));
        assert(joined_headers(hs) == joined_headers(hs.drop_last()) + seq!['&'] + header_pair(
            hs.last(),
        ));
        assert(joined_headers(hs) =~= header_pair(h) + (seq!['&'] + joined_headers(rest)));
    } else {
        lemma_joined_cons(h, rest.drop_last());
        assert(hs.drop_last() =~= seq![h] + rest.drop_last());
        assert(hs.last() == rest.last());
        assert(joined_headers(hs) =~= header_pair(h) + (seq!['&'] + joined_headers(rest)));
    }
}

/// Reading back one written-out stable header.
pub proof fn lemma_header_segment_reparse(
    s: Seq<char>,
    i: int,
    end: int,
    h: HeaderV,
    w: Seq<ParseWarning>,
)
    requires
        0 <= i <= end <= s.len(),
        s.subrange(i, end) == header_pair(h),
        stable_header(h),
    ensures
        forall|j: int| i <= j < end ==> !is_char('&')(#[trigger] s[j]),
        lenient_header(s, i, end, w) matches Ok((Some(x), w2)) && x == h,
{
    let pr = header_pair(h);
    let eq = i + h.0.len();
    assert(pr.len() == end - i);
    assert forall|j: int| i <= j < end implies s[j] == pr[j - i] by {
        assert(s[j] == s.subrange(i, end)[j - i]);
    }
    assert forall|j: int| i <= j < end implies !is_char('&')(#[trigger] s[j]) by {
        if j - i < h.0.len() {
            assert(pr[j - i] == h.0[j - i]);
        } else if j - i > h.0.len() {
            assert(pr[j - i] == h.1[j - i - h.0.len() - 1]);
        } else {
            assert(pr[j - i] == '=');
        }
    }
    assert forall|j: int| i <= j < eq implies !is_char('=')(#[trigger] s[j]) by {
        assert(pr[j - i] == h.0[j - i]);
    }
    assert(s[eq] == pr[h.0.len() as int]);
    lemma_scan_is(s, is_char('='), i, eq, end);
    assert(s.subrange(i, eq) =~= h.0);
    assert(s.subrange(eq + 1, end) =~= h.1) by {
        assert forall|j: int| 0 <= j < h.1.len() implies s.subrange(eq + 1, end)[j] == h.1[j] by {
            assert(s[eq + 1 + j] == pr[h.0.len() + 1 + j]);
        }
    }
}

/// Reading back joined stable headers: when `s[i..hi]` is
/// `joined_headers(hs)`, `lenient_headers` from `i` appends exactly `hs`.
#[verifier::rlimit(50)]
pub proof fn lemma_lenient_headers_reparse(
    s: Seq<char>,
    i: int,
    hi: int,
    hs: Seq<HeaderV>,
    acc: Seq<HeaderV>,
    w: Seq<ParseWarning>,
)
    requires
        0 <= i <= hi <= s.len(),
        hs.len() > 0,
        s.subrange(i, hi) == joined_headers(hs),
        stable_headers(hs),
    ensures
        lenient_headers(s, i, hi, acc, w) matches Ok((x, w2)) && x == acc + hs,
    decreases hs.len(),
{
    let h = hs[0];
    let rest = hs.skip(1);
    assert(hs =~= seq![h] + rest);
    lemma_joined_cons(h, rest);
    assert(stable_header(h));
    let pr = header_pair(h);
    let wt = s.subrange(i, hi);
    let end = i + pr.len();
    let more = if rest.len() == 0 {
        Seq::<char>::empty()
    } else {
        seq!['&'] + joined_headers(rest)
    };
    assert(wt == pr + more);
    assert(wt.len() == hi - i);
    assert(end <= hi);
    assert(s.subrange(i, end) =~= wt.subrange(0, pr.len() as int));
    assert(wt.subrange(0, pr.len() as int) =~= pr);
    lemma_header_segment_reparse(s, i, end, h, w);
    if rest.len() > 0 {
        assert(s[end] == wt[pr.len() as int]);
    }
    lemma_scan_is(s, is_char('&'), i, end, hi);
    let w2 = lenient_header(s, i, end, w)->Ok_0.1;
    if rest.len() > 0 {
        assert(s.subrange(end + 1, hi) =~= wt.subrange(pr.len() + 1int, wt.len() as int));
        assert(wt.subrange(pr.len() + 1int, wt.len() as int) =~= joined_headers(rest));
        assert(stable_headers(rest)) by {
            assert forall|j: int| 0 <= j < rest.len() implies stable_header(#[trigger] rest[j]) by {
                assert(rest[j] == hs[j + 1]);
            }
        }
        lemma_lenient_headers_reparse(s, end + 1, hi, rest, acc.push(h), w2);
        assert(acc.push(h) + rest =~= acc + hs);
    } else {
        assert(acc.push(h) =~= acc + hs);
    }
}

/// The headers the lenient parser collects are stable.
pub proof fn lemma_lenient_headers_stable(
    s: Seq<char>,
    i: int,
    hi: int,
    acc: Seq<HeaderV>,
    w: Seq<ParseWarning>,
)
    requires
        0 <= i,
        hi <= s.len(),
        stable_headers(acc),
        lenient_headers(s, i, hi, acc, w) is Ok,
    ensures
        lenient_headers(s, i, hi, acc, w) matches Ok((hs, w2)) && stable_headers(hs),
    decreases hi - i,
{
    if i <= hi {
        let end = scan(s, is_char('&'), i, hi);
        lemma_scan(s, is_char('&'), i, hi);
        let (ho, w2) = lenient_header(s, i, end, w)->Ok_0;
        let acc2 = match ho {
            Some(x) => acc.push(x),
            None => acc,
        };
        if let Some(x) = ho {
            let eq = scan(s, is_char('='), i, end);
            lemma_scan(s, is_char('='), i, end);
            lemma_canonical_header(s.subrange(i, eq));
            lemma_canonical_header(s.subrange(eq + 1, end));
        }
        assert(stable_headers(acc2)) by {
            assert forall|j: int| 0 <= j < acc2.len() implies stable_header(#[trigger] acc2[j]) by {
                if j < acc.len() {
                    assert(acc2[j] == acc[j]);
                }
            }
        }
        if end < hi {
            lemma_lenient_headers_stable(s, end + 1, hi, acc2, w2);
        }
    }
}

/// Canonizing what `encode_uri_header` produces changes nothing: the
/// encoding is already the canonical form of a header value, for every input.
pub proof fn law_encoded_header_canonical(x: Seq<char>)
    ensures
        canonical_header(ascii_text(hnv_encode(encode_utf8(x)))) == ascii_text(
            hnv_encode(encode_utf8(x)),
        ),
{
    let b = encode_utf8(x);
    let e = hnv_encode(b);
    lemma_hnv_encode_bytes(b);
    lemma_encode_ascii_text(e);
    lemma_decode_hnv_encode(b);
}

/// Header-encoded text is canonical for the header set.
pub proof fn lemma_hnv_encode_canonical(b: Seq<u8>)
    ensures
        canonical(ascii_text(hnv_encode(b)), CharSet::Header),
    decreases b.len(),
{
    if b.len() > 0 {
        lemma_hnv_encode_canonical(b.skip(1));
        let x = b[0];
        let r = hnv_encode(b.skip(1));
        let c = if hnv_char(x) {
            seq![x]
        } else {
            seq![('%' as u8), hex_upper(x / 16), hex_upper(x % 16)]
        };
        assert(hnv_encode(b) == c + r);
        let t = ascii_text(c + r);
        assert(t =~= ascii_text(c) + ascii_text(r));
        if hnv_char(x) {
            let ch = x as char;
            assert(x < 128);
            assert((x as char) as u32 == x as u32);
            let v = x as u32;
            assert(v < 128 ==> (v as u8) as u32 == v) by (bit_vector);
            assert(ch as u8 == x);
            assert(ch != '%');
            assert(char_allowed(CharSet::Header, ch));
            assert(t.skip(1) =~= ascii_text(r));
        } else {
            lemma_hex_upper(x / 16);
            lemma_hex_upper(x % 16);
            let h1 = hex_upper(x / 16) as char;
            let h2 = hex_upper(x % 16) as char;
            let a1 = hex_upper(x / 16) as u32;
            let a2 = hex_upper(x % 16) as u32;
            assert(a1 < 128 ==> (a1 as u8) as u32 == a1) by (bit_vector);
            assert(a2 < 128 ==> (a2 as u8) as u32 == a2) by (bit_vector);
            assert(h1 as u32 == a1);
            assert(h2 as u32 == a2);
            assert(h1 as u8 == hex_upper(x / 16));
            assert(h2 as u8 == hex_upper(x % 16));
            assert(crate::text::upper(h1) == h1);
            assert(crate::text::upper(h2) == h2);
            assert(crate::parse::hex_pair(h1 as u8, h2 as u8) == x);
            assert(t[0] == '%');
            assert(t.skip(3) =~= ascii_text(r));
        }
    }
}

/// Canonizing what `encode_uri_header` produces against the header set
/// changes nothing, for every input.
pub proof fn law_encoded_header_fixed(x: Seq<char>)
    ensures
        pct_decode(ascii_text(hnv_encode(encode_utf8(x))), CharSet::Header) == ascii_text(
            hnv_encode(encode_utf8(x)),
        ),
{
    lemma_hnv_encode_canonical(encode_utf8(x));
    lemma_canonical_fixed(ascii_text(hnv_encode(encode_utf8(x))), CharSet::Header);
}

} // verus!
