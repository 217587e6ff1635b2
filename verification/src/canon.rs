//! Canonical percent-encoded text: what per-component decoding produces, and
//! why decoding it again changes nothing. These facts carry the round-trip
//! laws of the URI types.

use vstd::prelude::*;

use crate::parse::{
    CharSet, allows, char_allowed, first_invalid, hex_char, hex_pair, hex_val, pct_decode,
    pct_decode_bytes,
};
use vstd::utf8::{encode_scalar, encode_utf8};
use crate::text::{is_ascii, scan, upper};

verus! {

/// Every `%` in `t` starts a `%XX` escape and every other character is in
/// `set`.
pub open spec fn well_escaped(t: Seq<char>, set: CharSet) -> bool
    decreases t.len(),
{
    if t.len() == 0 {
        true
    } else if t[0] == '%' {
        t.len() >= 3 && hex_char(t[1]) && hex_char(t[2]) && well_escaped(t.skip(3), set)
    } else {
        char_allowed(set, t[0]) && well_escaped(t.skip(1), set)
    }
}

/// `t` is in the form decoding against `set` leaves: characters of the set,
/// and uppercase `%XX` escapes of bytes outside it.
pub open spec fn canonical(t: Seq<char>, set: CharSet) -> bool
    decreases t.len(),
{
    if t.len() == 0 {
        true
    } else if t[0] == '%' {
        &&& t.len() >= 3
        &&& hex_char(t[1]) && upper(t[1]) == t[1]
        &&& hex_char(t[2]) && upper(t[2]) == t[2]
        &&& !allows(set, hex_pair(t[1] as u8, t[2] as u8))
        &&& canonical(t.skip(3), set)
    } else {
        char_allowed(set, t[0]) && canonical(t.skip(1), set)
    }
}

/// No character of `t` satisfies `p`.
pub open spec fn none_in(t: Seq<char>, p: spec_fn(char) -> bool) -> bool {
    forall|j: int| 0 <= j < t.len() ==> !p(#[trigger] t[j])
}

/// Uppercasing a hex digit keeps it a hex digit of the same value.
pub proof fn lemma_upper_hex(c: char)
    requires
        hex_char(c),
    ensures
        hex_char(upper(c)),
        upper(upper(c)) == upper(c),
        hex_val(upper(c) as u8) == hex_val(c as u8),
        upper(c) as u8 == (if 'a' <= c && c <= 'z' {
            (c as u8 - 32) as u8
        } else {
            c as u8
        }),
{
    let v = c as u32;
    assert(v < 128);
    if 'a' <= c && c <= 'z' {
        let w = (v - 32) as u32;
        assert(upper(c) == w as char);
        assert((w as char) as u32 == w);
        assert(v < 128 ==> (v as u8) as u32 == v) by (bit_vector);
        assert(w < 128 ==> (w as u8) as u32 == w) by (bit_vector);
    } else {
        assert(upper(c) == c);
    }
}

/// `%`-escapes lie outside every set but `Any`.
pub proof fn lemma_percent_not_allowed(set: CharSet)
    requires
        set != CharSet::Any,
    ensures
        !allows(set, '%' as u8),
{
}

/// Decoding well-escaped text gives canonical text.
pub proof fn lemma_decode_canonical(t: Seq<char>, set: CharSet)
    requires
        set != CharSet::Any,
        well_escaped(t, set),
    ensures
        canonical(pct_decode(t, set), set),
    decreases t.len(),
{
    if t.len() == 0 {
        assert(pct_decode(t, set) =~= Seq::<char>::empty());
    } else if t[0] == '%' {
        lemma_decode_canonical(t.skip(3), set);
        let r = pct_decode(t.skip(3), set);
        let d = hex_pair(t[1] as u8, t[2] as u8);
        lemma_upper_hex(t[1]);
        lemma_upper_hex(t[2]);
        if allows(set, d) {
            crate::parse::lemma_allows_ascii(set, d);
            let x = seq![d as char] + r;
            assert(x.skip(1) =~= r);
            assert((d as char) as u32 == d as u32);
            assert(d < 128 ==> ((d as u32) as u8) == d) by (bit_vector);
            assert((d as char) as u8 == d);
            lemma_percent_not_allowed(set);
            assert(x[0] != '%');
            assert(char_allowed(set, x[0]));
            assert(pct_decode(t, set) == x);
        } else {
            let x = seq!['%', upper(t[1]), upper(t[2])] + r;
            assert(x.skip(3) =~= r);
            assert(hex_pair(upper(t[1]) as u8, upper(t[2]) as u8) == d);
            assert(pct_decode(t, set) == x);
        }
    } else {
        lemma_decode_canonical(t.skip(1), set);
        let x = seq![t[0]] + pct_decode(t.skip(1), set);
        assert(x.skip(1) =~= pct_decode(t.skip(1), set));
        assert(pct_decode(t, set) == x);
    }
}

/// Decoding canonical text gives it back.
pub proof fn lemma_canonical_fixed(t: Seq<char>, set: CharSet)
    requires
        canonical(t, set),
    ensures
        pct_decode(t, set) == t,
    decreases t.len(),
{
    if t.len() == 0 {
        assert(pct_decode(t, set) =~= t);
    } else if t[0] == '%' {
        lemma_canonical_fixed(t.skip(3), set);
        assert(t =~= seq!['%', upper(t[1]), upper(t[2])] + t.skip(3));
    } else {
        lemma_canonical_fixed(t.skip(1), set);
        assert(t =~= seq![t[0]] + t.skip(1));
    }
}

/// Canonical text is well escaped.
pub proof fn lemma_canonical_escaped(t: Seq<char>, set: CharSet)
    requires
        canonical(t, set),
    ensures
        well_escaped(t, set),
    decreases t.len(),
{
    if t.len() > 0 {
        if t[0] == '%' {
            lemma_canonical_escaped(t.skip(3), set);
        } else {
            lemma_canonical_escaped(t.skip(1), set);
        }
    }
}

/// A character that is neither `%`, nor a hex digit, nor in the set does
/// not occur in canonical text.
pub proof fn lemma_canonical_excludes(t: Seq<char>, set: CharSet, p: spec_fn(char) -> bool)
    requires
        canonical(t, set),
        forall|c: char| #[trigger] p(c) ==> c != '%' && !hex_char(c) && !char_allowed(set, c),
    ensures
        none_in(t, p),
    decreases t.len(),
{
    if t.len() > 0 {
        if t[0] == '%' {
            lemma_canonical_excludes(t.skip(3), set, p);
            assert forall|j: int| 0 <= j < t.len() implies !p(#[trigger] t[j]) by {
                if j >= 3 {
                    assert(t[j] == t.skip(3)[j - 3]);
                }
            }
        } else {
            lemma_canonical_excludes(t.skip(1), set, p);
            assert forall|j: int| 0 <= j < t.len() implies !p(#[trigger] t[j]) by {
                if j >= 1 {
                    assert(t[j] == t.skip(1)[j - 1]);
                }
            }
        }
    }
}

/// `first_invalid` reaches the end of a window exactly when the window is
/// well escaped.
pub proof fn lemma_first_invalid_window(s: Seq<char>, set: CharSet, i: int, hi: int)
    requires
        0 <= i <= hi <= s.len(),
    ensures
        (first_invalid(s, set, i, hi) == hi) == well_escaped(s.subrange(i, hi), set),
    decreases hi - i,
{
    let w = s.subrange(i, hi);
    if i < hi {
        if s[i] == '%' {
            if hi - i > 2 && hex_char(s[i + 1]) && hex_char(s[i + 2]) {
                lemma_first_invalid_window(s, set, i + 3, hi);
                assert(w.skip(3) =~= s.subrange(i + 3, hi));
            }
        } else if char_allowed(set, s[i]) {
            lemma_first_invalid_window(s, set, i + 1, hi);
            assert(w.skip(1) =~= s.subrange(i + 1, hi));
        }
    }
}

/// `scan` stops at `j` when nothing before it matches and `s[j]` does (or
/// `j` is the end).
pub proof fn lemma_scan_is(s: Seq<char>, p: spec_fn(char) -> bool, i: int, j: int, hi: int)
    requires
        i <= j <= hi,
        forall|k: int| i <= k < j ==> !p(#[trigger] s[k]),
        j == hi || p(s[j]),
    ensures
        scan(s, p, i, hi) == j,
    decreases j - i,
{
    if i < j {
        lemma_scan_is(s, p, i + 1, j, hi);
    }
}

/// A character that is neither `%`, nor a hex digit, nor in the set does
/// not occur in well-escaped text.
pub proof fn lemma_well_escaped_excludes(t: Seq<char>, set: CharSet, p: spec_fn(char) -> bool)
    requires
        well_escaped(t, set),
        forall|c: char| #[trigger] p(c) ==> c != '%' && !hex_char(c) && !char_allowed(set, c),
    ensures
        none_in(t, p),
    decreases t.len(),
{
    if t.len() > 0 {
        if t[0] == '%' {
            lemma_well_escaped_excludes(t.skip(3), set, p);
            assert forall|j: int| 0 <= j < t.len() implies !p(#[trigger] t[j]) by {
                if j >= 3 {
                    assert(t[j] == t.skip(3)[j - 3]);
                }
            }
        } else {
            lemma_well_escaped_excludes(t.skip(1), set, p);
            assert forall|j: int| 0 <= j < t.len() implies !p(#[trigger] t[j]) by {
                if j >= 1 {
                    assert(t[j] == t.skip(1)[j - 1]);
                }
            }
        }
    }
}

/// Canonizing `x` against `set` leaves text that canonizing again keeps:
/// after each `%` of `x` that starts no escape, the canonized rest does not
/// begin with two hex digits that would form an escape canonizing changes
/// (one of a byte the set holds, or one in lowercase).
pub open spec fn canonizes_stably(x: Seq<char>, set: CharSet) -> bool
    decreases x.len(),
{
    if x.len() == 0 {
        true
    } else if x.len() >= 3 && x[0] == '%' && hex_char(x[1]) && hex_char(x[2]) {
        canonizes_stably(x.skip(3), set)
    } else if x[0] == '%' {
        let r = pct_decode(x.skip(1), set);
        (r.len() >= 2 && hex_char(r[0]) && hex_char(r[1]) ==> !allows(
            set,
            hex_pair(r[0] as u8, r[1] as u8),
        ) && upper(r[0]) == r[0] && upper(r[1]) == r[1]) && canonizes_stably(x.skip(1), set)
    } else {
        canonizes_stably(x.skip(1), set)
    }
}

/// Canonized text that starts with two characters other than `%` canonizes
/// past them as itself.
pub proof fn lemma_fixed_tail(r: Seq<char>, set: CharSet)
    requires
        r.len() >= 2,
        r[0] != '%',
        r[1] != '%',
        pct_decode(r, set) == r,
    ensures
        pct_decode(r.skip(2), set) == r.skip(2),
{
    assert(pct_decode(r, set) == seq![r[0]] + pct_decode(r.skip(1), set));
    assert(r.skip(1)[0] == r[1]);
    assert(pct_decode(r.skip(1), set) == seq![r[1]] + pct_decode(r.skip(1).skip(1), set));
    assert(r.skip(1).skip(1) =~= r.skip(2));
    assert(r =~= seq![r[0]] + (seq![r[1]] + r.skip(2)));
    assert(pct_decode(r.skip(2), set) =~= r.skip(2));
}

/// Canonizing twice is canonizing once, whenever canonizing leaves no new
/// escape after a `%` that starts none (see `canonizes_stably`).
pub proof fn law_canonize_idempotent(x: Seq<char>, set: CharSet)
    requires
        set != CharSet::Any,
        canonizes_stably(x, set),
    ensures
        pct_decode(pct_decode(x, set), set) == pct_decode(x, set),
    decreases x.len(),
{
    let y = pct_decode(x, set);
    if x.len() == 0 {
        assert(y =~= Seq::<char>::empty());
    } else if x.len() >= 3 && x[0] == '%' && hex_char(x[1]) && hex_char(x[2]) {
        let rest = x.skip(3);
        law_canonize_idempotent(rest, set);
        let r = pct_decode(rest, set);
        let d = hex_pair(x[1] as u8, x[2] as u8);
        lemma_upper_hex(x[1]);
        lemma_upper_hex(x[2]);
        if allows(set, d) {
            crate::parse::lemma_allows_ascii(set, d);
            lemma_percent_not_allowed(set);
            assert((d as char) as u32 == d as u32);
            assert(d < 128 ==> ((d as u32) as u8) == d) by (bit_vector);
            assert((d as char) as u8 == d);
            assert(d as char != '%');
            assert(y == seq![d as char] + r);
            assert(y.skip(1) =~= r);
        } else {
            let u1 = upper(x[1]);
            let u2 = upper(x[2]);
            assert(y == seq!['%', u1, u2] + r);
            assert(y.skip(3) =~= r);
            assert(hex_pair(u1 as u8, u2 as u8) == d);
            assert(pct_decode(y, set) == seq!['%', upper(u1), upper(u2)] + pct_decode(r, set));
        }
    } else if x[0] == '%' {
        let rest = x.skip(1);
        law_canonize_idempotent(rest, set);
        let r = pct_decode(rest, set);
        assert(y == seq!['%'] + r);
        assert(y.skip(1) =~= r);
        if r.len() >= 2 && hex_char(r[0]) && hex_char(r[1]) {
            assert(r[0] != '%' && r[1] != '%');
            lemma_fixed_tail(r, set);
            assert(y.skip(3) =~= r.skip(2));
            assert(y =~= seq!['%', r[0], r[1]] + r.skip(2));
        }
    } else {
        let rest = x.skip(1);
        law_canonize_idempotent(rest, set);
        assert(y == seq![x[0]] + pct_decode(rest, set));
        assert(y.skip(1) =~= pct_decode(rest, set));
    }
}

/// Full decoding copies a prefix without `%`.
pub proof fn lemma_decode_bytes_plain(p: Seq<u8>, r: Seq<u8>)
    requires
        forall|j: int| 0 <= j < p.len() ==> p[j] != ('%' as u8),
    ensures
        pct_decode_bytes(p + r, CharSet::Any) == p + pct_decode_bytes(r, CharSet::Any),
    decreases p.len(),
{
    if p.len() > 0 {
        lemma_decode_bytes_plain(p.skip(1), r);
        assert((p + r).skip(1) =~= p.skip(1) + r);
        assert(p =~= seq![p[0]] + p.skip(1));
        assert(p + pct_decode_bytes(r, CharSet::Any) =~= seq![p[0]] + (p.skip(1) + pct_decode_bytes(
            r,
            CharSet::Any,
        )));
    } else {
        assert(p + r =~= r);
        assert(p + pct_decode_bytes(r, CharSet::Any) =~= pct_decode_bytes(r, CharSet::Any));
    }
}

/// Full decoding turns an escape into its byte.
pub proof fn lemma_decode_bytes_escape(a: u8, b: u8, r: Seq<u8>)
    requires
        hex_val(a) is Some,
        hex_val(b) is Some,
    ensures
        pct_decode_bytes(seq![('%' as u8), a, b] + r, CharSet::Any) == seq![hex_pair(a, b)]
            + pct_decode_bytes(r, CharSet::Any),
{
    assert((seq![('%' as u8), a, b] + r).skip(3) =~= r);
}

/// Full decoding copies a `%` that two hex digits do not follow.
pub proof fn lemma_decode_bytes_lone(r: Seq<u8>)
    requires
        !(r.len() >= 2 && hex_val(r[0]) is Some && hex_val(r[1]) is Some),
    ensures
        pct_decode_bytes(seq![('%' as u8)] + r, CharSet::Any) == seq![('%' as u8)]
            + pct_decode_bytes(r, CharSet::Any),
{
    assert((seq![('%' as u8)] + r).skip(1) =~= r);
}

/// The UTF-8 bytes of text start with two hex digits only when the text
/// does.
pub proof fn lemma_utf8_hex_start(y: Seq<char>)
    requires
        encode_utf8(y).len() >= 2,
        hex_val(encode_utf8(y)[0]) is Some,
        hex_val(encode_utf8(y)[1]) is Some,
    ensures
        y.len() >= 2 && hex_char(y[0]) && hex_char(y[1]),
{
    let b = encode_utf8(y);
    assert(y.len() > 0);
    crate::parse::lemma_scalar_ascii_byte(y[0]);
    let e0 = encode_scalar(y[0] as u32);
    assert(b == e0 + encode_utf8(y.drop_first()));
    assert(b[0] == e0[0]);
    assert(is_ascii(y[0]));
    crate::parse::lemma_ascii_byte_value(y[0]);
    let rest = y.drop_first();
    assert(b[1] == encode_utf8(rest)[0]);
    assert(rest.len() > 0);
    crate::parse::lemma_scalar_ascii_byte(rest[0]);
    let e1 = encode_scalar(rest[0] as u32);
    assert(encode_utf8(rest) == e1 + encode_utf8(rest.drop_first()));
    assert(encode_utf8(rest)[0] == e1[0]);
    assert(is_ascii(rest[0]));
    crate::parse::lemma_ascii_byte_value(rest[0]);
    assert(rest[0] == y[1]);
}

/// Full decoding reads canonized user text as it reads the raw text at
/// every `%` that does not start an escape: canonizing the rest does not
/// put two hex digits after it.
pub open spec fn user_decodes_alike(x: Seq<char>) -> bool
    decreases x.len(),
{
    if x.len() == 0 {
        true
    } else if x.len() >= 3 && x[0] == '%' && hex_char(x[1]) && hex_char(x[2]) {
        user_decodes_alike(x.skip(3))
    } else if x[0] == '%' {
        let r = pct_decode(x.skip(1), CharSet::User);
        !(r.len() >= 2 && hex_char(r[0]) && hex_char(r[1])) && user_decodes_alike(x.skip(1))
    } else {
        user_decodes_alike(x.skip(1))
    }
}

/// `decode_user` of the canonized user part equals `decode_user` of the raw
/// one: full decoding of `canonize_user(x)` and of `x` give the same bytes,
/// whenever canonizing puts no two hex digits after a `%` that starts no
/// escape.
pub proof fn law_decode_user_canonized(x: Seq<char>)
    requires
        user_decodes_alike(x),
    ensures
        pct_decode_bytes(encode_utf8(pct_decode(x, CharSet::User)), CharSet::Any)
            == pct_decode_bytes(encode_utf8(x), CharSet::Any),
    decreases x.len(),
{
    let set = CharSet::User;
    if x.len() == 0 {
        assert(pct_decode(x, set) =~= Seq::<char>::empty());
    } else if x.len() >= 3 && x[0] == '%' && hex_char(x[1]) && hex_char(x[2]) {
        let rest = x.skip(3);
        law_decode_user_canonized(rest);
        let dr = pct_decode(rest, set);
        let d = hex_pair(x[1] as u8, x[2] as u8);
        lemma_upper_hex(x[1]);
        lemma_upper_hex(x[2]);
        // the raw text
        assert(x =~= seq!['%', x[1], x[2]] + rest);
        crate::text::lemma_encode_concat(seq!['%', x[1], x[2]], rest);
        lemma_utf8_ascii3('%', x[1], x[2]);
        lemma_decode_bytes_escape(x[1] as u8, x[2] as u8, encode_utf8(rest));
        if allows(set, d) {
            crate::parse::lemma_allows_ascii(set, d);
            let c = d as char;
            assert((d as char) as u32 == d as u32);
            assert(d < 128 ==> ((d as u32) as u8) == d) by (bit_vector);
            assert(c as u8 == d);
            assert(pct_decode(x, set) == seq![c] + dr);
            crate::text::lemma_encode_concat(seq![c], dr);
            lemma_utf8_ascii1(c);
            lemma_percent_not_allowed(set);
            lemma_decode_bytes_plain(seq![d], encode_utf8(dr));
        } else {
            let u1 = upper(x[1]);
            let u2 = upper(x[2]);
            assert(pct_decode(x, set) == seq!['%', u1, u2] + dr);
            crate::text::lemma_encode_concat(seq!['%', u1, u2], dr);
            lemma_utf8_ascii3('%', u1, u2);
            lemma_decode_bytes_escape(u1 as u8, u2 as u8, encode_utf8(dr));
        }
    } else if x[0] == '%' {
        let rest = x.skip(1);
        law_decode_user_canonized(rest);
        let dr = pct_decode(rest, set);
        assert(x =~= seq!['%'] + rest);
        crate::text::lemma_encode_concat(seq!['%'], rest);
        lemma_utf8_ascii1('%');
        assert(pct_decode(x, set) == seq!['%'] + dr);
        crate::text::lemma_encode_concat(seq!['%'], dr);
        if encode_utf8(rest).len() >= 2 && hex_val(encode_utf8(rest)[0]) is Some && hex_val(
            encode_utf8(rest)[1],
        ) is Some {
            lemma_utf8_hex_start(rest);
            assert(rest[0] == x[1] && rest[1] == x[2]);
        }
        lemma_decode_bytes_lone(encode_utf8(rest));
        if encode_utf8(dr).len() >= 2 && hex_val(encode_utf8(dr)[0]) is Some && hex_val(
            encode_utf8(dr)[1],
        ) is Some {
            lemma_utf8_hex_start(dr);
        }
        lemma_decode_bytes_lone(encode_utf8(dr));
    } else {
        let rest = x.skip(1);
        law_decode_user_canonized(rest);
        let dr = pct_decode(rest, set);
        assert(x =~= seq![x[0]] + rest);
        assert(pct_decode(x, set) == seq![x[0]] + dr);
        crate::text::lemma_encode_concat(seq![x[0]], rest);
        crate::text::lemma_encode_concat(seq![x[0]], dr);
        lemma_utf8_plain(x[0]);
        lemma_decode_bytes_plain(encode_utf8(seq![x[0]]), encode_utf8(rest));
        lemma_decode_bytes_plain(encode_utf8(seq![x[0]]), encode_utf8(dr));
    }
}

/// The UTF-8 bytes of one ASCII character.
pub proof fn lemma_utf8_ascii1(c: char)
    requires
        is_ascii(c),
    ensures
        encode_utf8(seq![c]) == seq![c as u8],
{
    crate::parse::lemma_scalar_ascii_byte(c);
    assert(seq![c].drop_first() =~= Seq::<char>::empty());
    assert(encode_utf8(seq![c].drop_first()) =~= Seq::<u8>::empty());
    assert(encode_utf8(seq![c]) =~= seq![c as u8]);
}

/// The UTF-8 bytes of three ASCII characters.
pub proof fn lemma_utf8_ascii3(a: char, b: char, c: char)
    requires
        is_ascii(a) && is_ascii(b) && is_ascii(c),
    ensures
        encode_utf8(seq![a, b, c]) == seq![a as u8, b as u8, c as u8],
{
    lemma_utf8_ascii1(a);
    lemma_utf8_ascii1(b);
    lemma_utf8_ascii1(c);
    assert(seq![a, b, c] =~= seq![a] + (seq![b] + seq![c]));
    crate::text::lemma_encode_concat(seq![b], seq![c]);
    crate::text::lemma_encode_concat(seq![a], seq![b] + seq![c]);
    assert(encode_utf8(seq![a, b, c]) =~= seq![a as u8, b as u8, c as u8]);
}

/// The UTF-8 bytes of a character other than `%` hold no `%`.
pub proof fn lemma_utf8_plain(c: char)
    requires
        c != '%',
    ensures
        forall|j: int| 0 <= j < encode_utf8(seq![c]).len() ==> #[trigger] encode_utf8(seq![c])[j]
            != ('%' as u8),
{
    crate::parse::lemma_scalar_ascii_byte(c);
    assert(seq![c].drop_first() =~= Seq::<char>::empty());
    assert(encode_utf8(seq![c].drop_first()) =~= Seq::<u8>::empty());
    assert(encode_utf8(seq![c]) =~= encode_scalar(c as u32));
    if is_ascii(c) {
        crate::parse::lemma_ascii_byte_value(c);
        assert(('%' as u8) as u32 == '%' as u32);
    }
}

} // verus!
