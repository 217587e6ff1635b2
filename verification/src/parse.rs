//! RFC 3261 §25 character classes, per-component percent-decoding and
//! encoding, and the sofia-sip `@` discovery rule.

use std::borrow::Cow;
use vstd::prelude::*;
use vstd::string::StringSliceAdditionalSpecFns;
use vstd::utf8::encode_utf8;
use vstd::utf8::encode_scalar;

use crate::text::{
    ascii_string, ascii_text, byte_len, byte_len_fits, byte_offset, chars_of, is_ascii,
    lemma_scan, offset_of, push_char, scan, to_upper, upper, utf8_of,
};

verus! {

broadcast use vstd::string::group_string_axioms;

/// ASCII letter or digit.
pub open spec fn alnum(b: u8) -> bool {
    (('0' as u8) <= b && b <= ('9' as u8)) || (('A' as u8) <= b && b <= ('Z' as u8)) || (('a' as u8) <= b && b <= ('z' as u8))
}

/// RFC 3261 `unreserved = alphanum / mark`.
pub open spec fn unreserved(b: u8) -> bool {
    alnum(b) || b == ('-' as u8) || b == ('_' as u8) || b == ('.' as u8) || b == ('!' as u8) || b == ('~' as u8) || b == ('*' as u8) || b
        == ('\'' as u8) || b == ('(' as u8) || b == (')' as u8)
}

/// RFC 3261 `user-unreserved`.
pub open spec fn user_unreserved(b: u8) -> bool {
    b == ('&' as u8) || b == ('=' as u8) || b == ('+' as u8) || b == ('$' as u8) || b == (',' as u8) || b == (';' as u8) || b == ('?' as u8) || b
        == ('/' as u8)
}

/// RFC 3261 `param-unreserved`, as the grammar writes it.
pub open spec fn strict_param_unreserved(b: u8) -> bool {
    b == ('[' as u8) || b == (']' as u8) || b == ('/' as u8) || b == (':' as u8) || b == ('&' as u8) || b == ('+' as u8) || b == ('$' as u8)
}

/// `param-unreserved` extended with `@` and `,`, which real traffic carries.
pub open spec fn param_unreserved(b: u8) -> bool {
    strict_param_unreserved(b) || b == ('@' as u8) || b == (',' as u8)
}

/// RFC 3261 `hnv-unreserved`.
pub open spec fn hnv_unreserved(b: u8) -> bool {
    b == ('[' as u8) || b == (']' as u8) || b == ('/' as u8) || b == ('?' as u8) || b == (':' as u8) || b == ('+' as u8) || b == ('$' as u8)
}

/// Characters of the SIP user part: unreserved and user-unreserved.
pub open spec fn user_char(b: u8) -> bool {
    unreserved(b) || user_unreserved(b)
}

/// Characters of the password: unreserved and `& = + $ ,`.
pub open spec fn password_char(b: u8) -> bool {
    unreserved(b) || b == ('&' as u8) || b == ('=' as u8) || b == ('+' as u8) || b == ('$' as u8) || b == (',' as u8)
}

/// Characters of URI parameter names and values (extended set).
pub open spec fn paramchar(b: u8) -> bool {
    unreserved(b) || param_unreserved(b)
}

/// Characters of URI header names and values.
pub open spec fn hnv_char(b: u8) -> bool {
    unreserved(b) || hnv_unreserved(b)
}

/// A character set a URI component is checked or decoded against.
#[derive(Debug, Clone, Copy, PartialEq, Eq)]
pub enum CharSet {
    /// `unreserved`.
    Unreserved,
    /// The user part.
    User,
    /// The password.
    Password,
    /// URI parameters, with `@` and `,` accepted.
    Param,
    /// URI parameters, exactly as RFC 3261 writes them.
    StrictParam,
    /// URI header names and values.
    Header,
    /// A URN namespace-specific string: RFC 3986 `pchar` and `/`.
    Nss,
    /// A URN r-, q- or f-component: RFC 3986 `pchar`, `/` and `?`.
    UrnComponent,
    /// A tel: parameter name (RFC 3966 `pname`): letters, digits and `-`.
    Pname,
    /// Every byte.
    Any,
}

/// Whether `set` holds the byte `b`.
pub open spec fn allows(set: CharSet, b: u8) -> bool {
    match set {
        CharSet::Unreserved => unreserved(b),
        CharSet::User => user_char(b),
        CharSet::Password => password_char(b),
        CharSet::Param => paramchar(b),
        CharSet::StrictParam => unreserved(b) || strict_param_unreserved(b),
        CharSet::Header => hnv_char(b),
        CharSet::Nss => pchar(b) || b == ('/' as u8),
        CharSet::UrnComponent => pchar(b) || b == ('/' as u8) || b == ('?' as u8),
        CharSet::Pname => alnum(b) || b == ('-' as u8),
        CharSet::Any => true,
    }
}

/// RFC 3986 `pchar` without escapes: `unreserved / sub-delims / ":" / "@"`.
pub open spec fn pchar(b: u8) -> bool {
    alnum(b) || b == ('-' as u8) || b == ('.' as u8) || b == ('_' as u8) || b == ('~' as u8) || b
        == ('!' as u8) || b == ('$' as u8) || b == ('&' as u8) || b == ('\'' as u8) || b == ('('
        as u8) || b == (')' as u8) || b == ('*' as u8) || b == ('+' as u8) || b == (',' as u8) || b
        == (';' as u8) || b == ('=' as u8) || b == (':' as u8) || b == ('@' as u8)
}

/// RFC 3986 `pchar`, unescaped form.
pub fn is_pchar(b: u8) -> (r: bool)
    ensures
        r == pchar(b),
{
    alnum_byte(b) || b == ('-' as u8) || b == ('.' as u8) || b == ('_' as u8) || b == ('~' as u8)
        || b == ('!' as u8) || b == ('$' as u8) || b == ('&' as u8) || b == ('\'' as u8) || b == (
    '(' as u8) || b == (')' as u8) || b == ('*' as u8) || b == ('+' as u8) || b == (',' as u8) || b
        == (';' as u8) || b == ('=' as u8) || b == (':' as u8) || b == ('@' as u8)
}

/// Whether `set` holds the character `c` (the sets are ASCII-only, except `Any`).
pub open spec fn char_allowed(set: CharSet, c: char) -> bool {
    is_ascii(c) && allows(set, c as u8)
}

/// Every set but `Any` holds only ASCII bytes.
pub proof fn lemma_allows_ascii(set: CharSet, b: u8)
    requires
        set != CharSet::Any,
        allows(set, b),
    ensures
        b < 128,
{
}

fn alnum_byte(c: u8) -> (r: bool)
    ensures
        r == alnum(c),
{
    (('0' as u8) <= c && c <= ('9' as u8)) || (('A' as u8) <= c && c <= ('Z' as u8)) || (('a' as u8) <= c && c <= ('z' as u8))
}

/// RFC 3261 §25: `unreserved = alphanum / mark`.
pub fn is_unreserved(c: u8) -> (r: bool)
    ensures
        r == unreserved(c),
{
    alnum_byte(c) || c == ('-' as u8) || c == ('_' as u8) || c == ('.' as u8) || c == ('!' as u8) || c == ('~' as u8) || c == ('*' as u8)
        || c == ('\'' as u8) || c == ('(' as u8) || c == (')' as u8)
}

/// RFC 3261 §25: `user-unreserved = "&" / "=" / "+" / "$" / "," / ";" / "?" / "/"`.
pub fn is_user_unreserved(c: u8) -> (r: bool)
    ensures
        r == user_unreserved(c),
{
    c == ('&' as u8) || c == ('=' as u8) || c == ('+' as u8) || c == ('$' as u8) || c == (',' as u8) || c == (';' as u8) || c == ('?' as u8) || c
        == ('/' as u8)
}

/// RFC 3261 §25 `param-unreserved`, extended with `@` and `,`.
pub fn is_param_unreserved(c: u8) -> (r: bool)
    ensures
        r == param_unreserved(c),
{
    c == ('[' as u8) || c == (']' as u8) || c == ('/' as u8) || c == (':' as u8) || c == ('&' as u8) || c == ('+' as u8) || c == ('$' as u8) || c
        == ('@' as u8) || c == (',' as u8)
}

/// RFC 3261 §25: `hnv-unreserved = "[" / "]" / "/" / "?" / ":" / "+" / "$"`.
pub fn is_hnv_unreserved(c: u8) -> (r: bool)
    ensures
        r == hnv_unreserved(c),
{
    c == ('[' as u8) || c == (']' as u8) || c == ('/' as u8) || c == ('?' as u8) || c == (':' as u8) || c == ('+' as u8) || c == ('$' as u8)
}

/// Characters allowed unescaped in the SIP user component.
pub fn is_user_char(c: u8) -> (r: bool)
    ensures
        r == user_char(c),
{
    is_unreserved(c) || is_user_unreserved(c)
}

/// Characters allowed unescaped in the password component.
pub fn is_password_char(c: u8) -> (r: bool)
    ensures
        r == password_char(c),
{
    is_unreserved(c) || c == ('&' as u8) || c == ('=' as u8) || c == ('+' as u8) || c == ('$' as u8) || c == (',' as u8)
}

/// Characters allowed unescaped in URI parameter names and values.
pub fn is_paramchar(c: u8) -> (r: bool)
    ensures
        r == paramchar(c),
{
    is_unreserved(c) || is_param_unreserved(c)
}

/// Characters allowed unescaped in header names and values.
pub fn is_hnv_char(c: u8) -> (r: bool)
    ensures
        r == hnv_char(c),
{
    is_unreserved(c) || is_hnv_unreserved(c)
}

/// Membership of a byte in a character set.
pub fn set_allows(set: CharSet, c: u8) -> (r: bool)
    ensures
        r == allows(set, c),
{
    match set {
        CharSet::Unreserved => is_unreserved(c),
        CharSet::User => is_user_char(c),
        CharSet::Password => is_password_char(c),
        CharSet::Param => is_paramchar(c),
        CharSet::StrictParam => is_unreserved(c) || c == ('[' as u8) || c == (']' as u8) || c == ('/' as u8) || c
            == (':' as u8) || c == ('&' as u8) || c == ('+' as u8) || c == ('$' as u8),
        CharSet::Header => is_hnv_char(c),
        CharSet::Nss => is_pchar(c) || c == ('/' as u8),
        CharSet::UrnComponent => is_pchar(c) || c == ('/' as u8) || c == ('?' as u8),
        CharSet::Pname => alnum_byte(c) || c == ('-' as u8),
        CharSet::Any => true,
    }
}

/// Membership of a character in a character set.
pub fn char_in_set(set: CharSet, c: char) -> (r: bool)
    ensures
        r == char_allowed(set, c),
{
    let v: u32 = c as u32;
    if v < 128 {
        set_allows(set, c as u8)
    } else {
        false
    }
}

/// Value of a hexadecimal digit.
pub open spec fn hex_val(c: u8) -> Option<u8> {
    if ('0' as u8) <= c && c <= ('9' as u8) {
        Some((c - ('0' as u8)) as u8)
    } else if ('A' as u8) <= c && c <= ('F' as u8) {
        Some((c - ('A' as u8) + 10) as u8)
    } else if ('a' as u8) <= c && c <= ('f' as u8) {
        Some((c - ('a' as u8) + 10) as u8)
    } else {
        None
    }
}

/// Whether a character is an (ASCII) hexadecimal digit.
pub open spec fn hex_char(c: char) -> bool {
    is_ascii(c) && hex_val(c as u8) is Some
}

/// The byte that `%` followed by the digits `a` and `b` stands for.
pub open spec fn hex_pair(a: u8, b: u8) -> u8 {
    (hex_val(a)->0 * 16 + hex_val(b)->0) as u8
}

/// ASCII uppercase of a byte.
pub open spec fn upper_byte(b: u8) -> u8 {
    if ('a' as u8) <= b && b <= ('z' as u8) {
        (b - 32) as u8
    } else {
        b
    }
}

/// Value of a hexadecimal digit, if `c` is one.
pub fn hex_digit(c: u8) -> (r: Option<u8>)
    ensures
        r == hex_val(c),
        r matches Some(v) ==> v < 16,
{
    if ('0' as u8) <= c && c <= ('9' as u8) {
        Some(c - ('0' as u8))
    } else if ('A' as u8) <= c && c <= ('F' as u8) {
        Some(c - ('A' as u8) + 10)
    } else if ('a' as u8) <= c && c <= ('f' as u8) {
        Some(c - ('a' as u8) + 10)
    } else {
        None
    }
}

/// Hex value of a character, if it is an ASCII hex digit.
pub fn hex_of_char(c: char) -> (r: Option<u8>)
    ensures
        r is Some <==> hex_char(c),
        r matches Some(v) ==> v == hex_val(c as u8)->0 && v < 16,
{
    let v: u32 = c as u32;
    if v < 128 {
        hex_digit(c as u8)
    } else {
        None
    }
}

fn upper_of(b: u8) -> (r: u8)
    ensures
        r == upper_byte(b),
{
    if ('a' as u8) <= b && b <= ('z' as u8) {
        b - 32
    } else {
        b
    }
}

/// Percent-decoding of bytes: a `%XX` whose byte is in `set` becomes that
/// byte, any other `%XX` stays encoded with uppercase hex, and a `%` not
/// followed by two hex digits is copied.
pub open spec fn pct_decode_bytes(b: Seq<u8>, set: CharSet) -> Seq<u8>
    decreases b.len(),
{
    if b.len() == 0 {
        Seq::empty()
    } else if b.len() >= 3 && b[0] == ('%' as u8) && hex_val(b[1]) is Some && hex_val(b[2]) is Some {
        let d = hex_pair(b[1], b[2]);
        (if allows(set, d) {
            seq![d]
        } else {
            seq![('%' as u8), upper_byte(b[1]), upper_byte(b[2])]
        }) + pct_decode_bytes(b.skip(3), set)
    } else {
        seq![b[0]] + pct_decode_bytes(b.skip(1), set)
    }
}

/// Percent-decoding of characters, the same rule as `pct_decode_bytes` on
/// an ASCII-only set.
pub open spec fn pct_decode(s: Seq<char>, set: CharSet) -> Seq<char>
    decreases s.len(),
{
    if s.len() == 0 {
        Seq::empty()
    } else if s.len() >= 3 && s[0] == '%' && hex_char(s[1]) && hex_char(s[2]) {
        let d = hex_pair(s[1] as u8, s[2] as u8);
        (if allows(set, d) {
            seq![d as char]
        } else {
            seq!['%', upper(s[1]), upper(s[2])]
        }) + pct_decode(s.skip(3), set)
    } else {
        seq![s[0]] + pct_decode(s.skip(1), set)
    }
}

/// Percent-decode bytes against `set`.
pub fn percent_decode_bytes(input: &[u8], set: CharSet) -> (out: Vec<u8>)
    ensures
        out@ == pct_decode_bytes(input@, set),
{
    let mut out: Vec<u8> = Vec::new();
    let mut i: usize = 0;
    let n = input.len();
    assert(input@.skip(0) =~= input@);
    while i < n
        invariant
            n == input@.len(),
            i <= n,
            out@ + pct_decode_bytes(input@.skip(i as int), set) == pct_decode_bytes(input@, set),
        decreases n - i,
    {
        let ghost rest = input@.skip(i as int);
        if input[i] == ('%' as u8) && n - i > 2 {
            let hi = hex_digit(input[i + 1]);
            let lo = hex_digit(input[i + 2]);
            if let (Some(h), Some(l)) = (hi, lo) {
                let decoded: u8 = h * 16 + l;
                assert(rest[0] == input@[i as int] && rest[1] == input@[i + 1] && rest[2] == input@[i
                    + 2]);
                assert(rest.skip(3) =~= input@.skip(i + 3));
                if set_allows(set, decoded) {
                    out.push(decoded);
                } else {
                    out.push(('%' as u8));
                    out.push(upper_of(input[i + 1]));
                    out.push(upper_of(input[i + 2]));
                }
                i = i + 3;
                continue;
            }
        }
        assert(rest[0] == input@[i as int]);
        assert(rest.skip(1) =~= input@.skip(i + 1));
        if n - i > 2 {
            assert(rest[1] == input@[i + 1] && rest[2] == input@[i + 2]);
        }
        out.push(input[i]);
        i = i + 1;
    }
    assert(input@.skip(n as int) =~= Seq::<u8>::empty());
    out
}

/// Percent-decode the characters `v[lo..hi]` against an ASCII-only `set`.
pub fn decode_chars(v: &Vec<char>, lo: usize, hi: usize, set: CharSet) -> (s: String)
    requires
        lo <= hi <= v@.len(),
    ensures
        s@ == pct_decode(v@.subrange(lo as int, hi as int), set),
{
    let mut s = String::new();
    let mut i: usize = lo;
    proof {
        assert(s@ + pct_decode(v@.subrange(i as int, hi as int), set) =~= pct_decode(
            v@.subrange(lo as int, hi as int),
            set,
        ));
    }
    while i < hi
        invariant
            lo <= i <= hi <= v@.len(),
            s@ + pct_decode(v@.subrange(i as int, hi as int), set) == pct_decode(
                v@.subrange(lo as int, hi as int),
                set,
            ),
        decreases hi - i,
    {
        let ghost rest = v@.subrange(i as int, hi as int);
        let ghost before = s@;
        if v[i] == '%' && hi - i > 2 {
            let h = hex_of_char(v[i + 1]);
            let l = hex_of_char(v[i + 2]);
            if let (Some(hd), Some(ld)) = (h, l) {
                let decoded: u8 = hd * 16 + ld;
                assert(rest[0] == v@[i as int] && rest[1] == v@[i + 1] && rest[2] == v@[i + 2]);
                assert(rest.skip(3) =~= v@.subrange(i + 3, hi as int));
                if set_allows(set, decoded) {
                    push_char(&mut s, decoded as char);
                    assert(s@ == before + seq![decoded as char]);
                } else {
                    push_char(&mut s, '%');
                    push_char(&mut s, to_upper(v[i + 1]));
                    push_char(&mut s, to_upper(v[i + 2]));
                    assert(s@ =~= before + seq!['%', upper(rest[1]), upper(rest[2])]);
                }
                i = i + 3;
                continue;
            }
        }
        assert(rest[0] == v@[i as int]);
        assert(rest.skip(1) =~= v@.subrange(i + 1, hi as int));
        if hi - i > 2 {
            assert(rest[1] == v@[i + 1] && rest[2] == v@[i + 2]);
        }
        push_char(&mut s, v[i]);
        assert(s@ == before + seq![rest[0]]);
        i = i + 1;
    }
    assert(v@.subrange(hi as int, hi as int) =~= Seq::<char>::empty());
    s
}

/// Percent-decode a string against an ASCII-only component set: escapes of
/// characters in the set are decoded, other escapes stay with their hex
/// digits uppercased.
pub fn percent_decode(input: &str, set: CharSet) -> (s: String)
    ensures
        s@ == pct_decode(input@, set),
{
    let v = chars_of(input);
    let s = decode_chars(&v, 0, v.len(), set);
    assert(v@.subrange(0, v@.len() as int) =~= v@);
    s
}

/// A byte sequence with no `%` decodes to itself.
pub proof fn lemma_decode_no_percent(b: Seq<u8>, set: CharSet)
    requires
        forall|i: int| 0 <= i < b.len() ==> b[i] != ('%' as u8),
    ensures
        pct_decode_bytes(b, set) == b,
    decreases b.len(),
{
    if b.len() > 0 {
        lemma_decode_no_percent(b.skip(1), set);
        assert(seq![b[0]] + b.skip(1) =~= b);
    }
}

/// Decode every `%XX` in a SIP user part to its octet.
///
/// The result is the logical value, not a URI component: `%3B` and a literal
/// `;` both come out as `;`, and the bytes need not be UTF-8. A `%` not
/// followed by two hex digits is copied verbatim. Borrows when the input
/// holds no `%`.
pub fn decode_user(user: &str) -> (r: Cow<'_, [u8]>)
    ensures
        r@ == pct_decode_bytes(user.spec_bytes(), CharSet::Any),
        r is Borrowed <==> !user@.contains('%'),
{
    let bytes = user.as_bytes();
    let n = bytes.len();
    let mut i: usize = 0;
    while i < n
        invariant
            n == bytes@.len(),
            bytes@ == user.spec_bytes(),
            i <= n,
            forall|j: int| 0 <= j < i ==> bytes@[j] != ('%' as u8),
        decreases n - i,
    {
        if bytes[i] == ('%' as u8) {
            proof {
                lemma_percent_byte_is_char(user@, i as int);
            }
            return Cow::Owned(percent_decode_bytes(bytes, CharSet::Any));
        }
        i = i + 1;
    }
    proof {
        lemma_decode_no_percent(bytes@, CharSet::Any);
        if user@.contains('%') {
            let k = choose|k: int| 0 <= k < user@.len() && user@[k] == '%';
            lemma_char_percent_is_byte(user@, k);
        }
    }
    Cow::Borrowed(bytes)
}

/// A `%` byte in the encoding of `s` is a `%` character of `s`.
pub proof fn lemma_percent_byte_is_char(s: Seq<char>, i: int)
    requires
        0 <= i < encode_utf8(s).len(),
        encode_utf8(s)[i] == ('%' as u8),
    ensures
        s.contains('%'),
    decreases s.len(),
{
    if s.len() == 0 {
        assert(encode_utf8(s) =~= Seq::<u8>::empty());
    } else {
        let c = s[0];
        let head = encode_scalar(c as u32);
        assert(encode_utf8(s) == head + encode_utf8(s.drop_first()));
        lemma_scalar_ascii_byte(c);
        if i < head.len() {
            assert(encode_utf8(s)[i] == head[i]);
            assert(is_ascii(c));
            lemma_ascii_byte_value(c);
            assert(c == '%');
            assert(s[0] == '%');
        } else {
            assert(encode_utf8(s)[i] == encode_utf8(s.drop_first())[i - head.len()]);
            lemma_percent_byte_is_char(s.drop_first(), i - head.len());
            let k = choose|k: int| 0 <= k < s.drop_first().len() && s.drop_first()[k] == '%';
            assert(s[k + 1] == '%');
        }
    }
}

/// A `%` character of `s` shows up as a `%` byte in its encoding.
pub proof fn lemma_char_percent_is_byte(s: Seq<char>, k: int)
    requires
        0 <= k < s.len(),
        s[k] == '%',
    ensures
        exists|i: int| 0 <= i < encode_utf8(s).len() && encode_utf8(s)[i] == ('%' as u8),
    decreases s.len(),
{
    let head = encode_scalar(s[0] as u32);
    assert(encode_utf8(s) == head + encode_utf8(s.drop_first()));
    lemma_scalar_ascii_byte(s[0]);
    if k == 0 {
        assert(encode_utf8(s)[0] == head[0]);
    } else {
        lemma_char_percent_is_byte(s.drop_first(), k - 1);
        let i = choose|i: int|
            0 <= i < encode_utf8(s.drop_first()).len() && encode_utf8(s.drop_first())[i] == ('%' as u8);
        assert(encode_utf8(s)[i + head.len()] == ('%' as u8));
    }
}

/// An ASCII character and its byte have the same value.
pub proof fn lemma_ascii_byte_value(c: char)
    requires
        is_ascii(c),
    ensures
        (c as u8) as u32 == c as u32,
        (c as u8) as char == c,
{
    let v = c as u32;
    assert(v < 128 ==> (v as u8) as u32 == v) by (bit_vector);
    assert(c as u8 == v as u8);
}

/// The encoding of one character: an ASCII character is its own single
/// byte, any other character is encoded with bytes of at least 0x80.
pub proof fn lemma_scalar_ascii_byte(c: char)
    ensures
        encode_scalar(c as u32).len() >= 1,
        is_ascii(c) ==> encode_scalar(c as u32) == seq![c as u8],
        !is_ascii(c) ==> forall|j: int|
            0 <= j < encode_scalar(c as u32).len() ==> #[trigger] encode_scalar(c as u32)[j] >= 128,
{
    let v = c as u32;
    if v <= 0x7F {
        assert((v & 0x7F) as u8 == v as u8) by (bit_vector)
            requires
                v <= 0x7F,
        ;
    } else if v <= 0x7FF {
        assert(0xC0u8 | ((v >> 6) & 0x1F) as u8 >= 128) by (bit_vector);
        assert(0x80u8 | (v & 0x3F) as u8 >= 128) by (bit_vector);
    } else if v <= 0xFFFF {
        assert(0xE0u8 | ((v >> 12) & 0x0F) as u8 >= 128) by (bit_vector);
        assert(0x80u8 | ((v >> 6) & 0x3F) as u8 >= 128) by (bit_vector);
        assert(0x80u8 | (v & 0x3F) as u8 >= 128) by (bit_vector);
    } else {
        assert(0xF0u8 | ((v >> 18) & 0x7) as u8 >= 128) by (bit_vector);
        assert(0x80u8 | ((v >> 12) & 0x3F) as u8 >= 128) by (bit_vector);
        assert(0x80u8 | ((v >> 6) & 0x3F) as u8 >= 128) by (bit_vector);
        assert(0x80u8 | (v & 0x3F) as u8 >= 128) by (bit_vector);
    }
}

/// Index of the first character of `s[i..hi]` that is neither in `set` nor
/// part of a well-formed `%XX` escape; `hi` when every character is fine.
pub open spec fn first_invalid(s: Seq<char>, set: CharSet, i: int, hi: int) -> int
    decreases hi - i,
{
    if i < hi {
        if s[i] == '%' {
            if hi - i > 2 && hex_char(s[i + 1]) && hex_char(s[i + 2]) {
                first_invalid(s, set, i + 3, hi)
            } else {
                i
            }
        } else if !char_allowed(set, s[i]) {
            i
        } else {
            first_invalid(s, set, i + 1, hi)
        }
    } else {
        hi
    }
}

/// `first_invalid` stays within `[i, hi]`.
pub proof fn lemma_first_invalid_bounds(s: Seq<char>, set: CharSet, i: int, hi: int)
    requires
        i <= hi,
    ensures
        i <= first_invalid(s, set, i, hi) <= hi,
    decreases hi - i,
{
    if i < hi {
        if s[i] == '%' {
            if hi - i > 2 && hex_char(s[i + 1]) && hex_char(s[i + 2]) {
                lemma_first_invalid_bounds(s, set, i + 3, hi);
            }
        } else if char_allowed(set, s[i]) {
            lemma_first_invalid_bounds(s, set, i + 1, hi);
        }
    }
}

/// Position of the first character of `v[lo..hi]` outside `set` and outside
/// a well-formed escape, or `hi`.
pub fn first_invalid_at(v: &Vec<char>, lo: usize, hi: usize, set: CharSet) -> (r: usize)
    requires
        lo <= hi <= v@.len(),
    ensures
        r == first_invalid(v@, set, lo as int, hi as int),
        lo <= r <= hi,
{
    let mut i = lo;
    while i < hi
        invariant
            lo <= i <= hi <= v@.len(),
            first_invalid(v@, set, lo as int, hi as int) == first_invalid(v@, set, i as int, hi as int),
        decreases hi - i,
    {
        if v[i] == '%' {
            if hi - i > 2 {
                let a = hex_of_char(v[i + 1]);
                let b = hex_of_char(v[i + 2]);
                if a.is_some() && b.is_some() {
                    i = i + 3;
                    continue;
                }
            }
            proof { lemma_first_invalid_bounds(v@, set, lo as int, hi as int); }
            return i;
        }
        if !char_in_set(set, v[i]) {
            proof { lemma_first_invalid_bounds(v@, set, lo as int, hi as int); }
            return i;
        }
        i = i + 1;
    }
    i
}

/// Validate that a string holds only characters of `set` and well-formed
/// `%XX` escapes; the error is the byte offset of the first offending
/// character.
pub fn validate_pct_encoded(input: &str, set: CharSet) -> (r: Result<(), usize>)
    ensures
        r is Ok <==> first_invalid(input@, set, 0, input@.len() as int) == input@.len(),
        r matches Err(p) ==> p == byte_offset(input@, first_invalid(input@, set, 0, input@.len() as int)),
{
    byte_len_fits(input);
    let v = chars_of(input);
    let k = first_invalid_at(&v, 0, v.len(), set);
    if k == v.len() {
        Ok(())
    } else {
        Err(offset_of(&v, k))
    }
}

/// Canonize a percent-encoded user component: decode unreserved and
/// user-unreserved escapes, uppercase the rest.
pub fn canonize_user(input: &str) -> (s: String)
    ensures
        s@ == pct_decode(input@, CharSet::User),
{
    percent_decode(input, CharSet::User)
}

/// Canonize a percent-encoded password component.
pub fn canonize_password(input: &str) -> (s: String)
    ensures
        s@ == pct_decode(input@, CharSet::Password),
{
    percent_decode(input, CharSet::Password)
}

/// Canonize a percent-encoded parameter component.
pub fn canonize_param(input: &str) -> (s: String)
    ensures
        s@ == pct_decode(input@, CharSet::Param),
{
    percent_decode(input, CharSet::Param)
}

/// Canonize a percent-encoded header component.
pub fn canonize_header(input: &str) -> (s: String)
    ensures
        s@ == pct_decode(input@, CharSet::Header),
{
    percent_decode(input, CharSet::Header)
}

/// Uppercase hexadecimal digit for a value below 16.
pub open spec fn hex_upper(n: u8) -> u8 {
    if n < 10 {
        (('0' as u8) + n) as u8
    } else {
        (('A' as u8) + n - 10) as u8
    }
}

/// Percent-encoding of bytes for URI headers: bytes of the `hnv` set stay,
/// every other byte becomes `%XX` with uppercase hex.
pub open spec fn hnv_encode(b: Seq<u8>) -> Seq<u8>
    decreases b.len(),
{
    if b.len() == 0 {
        Seq::empty()
    } else {
        (if hnv_char(b[0]) {
            seq![b[0]]
        } else {
            seq![('%' as u8), hex_upper(b[0] / 16), hex_upper(b[0] % 16)]
        }) + hnv_encode(b.skip(1))
    }
}

fn hex_upper_of(n: u8) -> (r: u8)
    requires
        n < 16,
    ensures
        r == hex_upper(n),
{
    if n < 10 {
        ('0' as u8) + n
    } else {
        ('A' as u8) + n - 10
    }
}

/// Header-encode a byte sequence.
pub fn hnv_encode_bytes(b: &Vec<u8>) -> (out: Vec<u8>)
    ensures
        out@ == hnv_encode(b@),
{
    let mut out: Vec<u8> = Vec::new();
    let mut i: usize = 0;
    assert(b@.skip(0) =~= b@);
    while i < b.len()
        invariant
            i <= b@.len(),
            out@ + hnv_encode(b@.skip(i as int)) == hnv_encode(b@),
        decreases b@.len() - i,
    {
        let ghost rest = b@.skip(i as int);
        assert(rest[0] == b@[i as int]);
        assert(rest.skip(1) =~= b@.skip(i + 1));
        let x = b[i];
        if is_hnv_char(x) {
            out.push(x);
        } else {
            out.push('%' as u8);
            out.push(hex_upper_of(x / 16));
            out.push(hex_upper_of(x % 16));
        }
        i = i + 1;
    }
    assert(b@.skip(i as int) =~= Seq::<u8>::empty());
    out
}

/// A string whose encoding is all ASCII is the text of its bytes.
pub proof fn lemma_ascii_text(s: Seq<char>)
    requires
        forall|i: int| 0 <= i < encode_utf8(s).len() ==> #[trigger] encode_utf8(s)[i] < 128,
    ensures
        ascii_text(encode_utf8(s)) == s,
    decreases s.len(),
{
    if s.len() == 0 {
        assert(encode_utf8(s) =~= Seq::<u8>::empty());
        assert(ascii_text(encode_utf8(s)) =~= s);
    } else {
        let c = s[0];
        let head = encode_scalar(c as u32);
        let tail = encode_utf8(s.drop_first());
        assert(encode_utf8(s) == head + tail);
        lemma_scalar_ascii_byte(c);
        assert(encode_utf8(s)[0] == head[0]);
        assert(is_ascii(c));
        lemma_ascii_byte_value(c);
        assert forall|i: int| 0 <= i < tail.len() implies #[trigger] tail[i] < 128 by {
            assert(encode_utf8(s)[i + 1] == tail[i]);
        }
        lemma_ascii_text(s.drop_first());
        assert forall|i: int| 0 <= i < s.len() implies #[trigger] ascii_text(encode_utf8(s))[i]
            == s[i] by {
            if i > 0 {
                assert(encode_utf8(s)[i] == tail[i - 1]);
                assert(ascii_text(tail)[i - 1] == s.drop_first()[i - 1]);
            }
        }
        assert(ascii_text(encode_utf8(s)) =~= s);
    }
}

/// Percent-encode a URI-header name or value into the canonical form:
/// bytes of the `hnv` set stay literal, every other byte — each byte of a
/// multi-byte character included — becomes `%XX` with uppercase hex. The
/// input is the decoded value, so `%` is data and becomes `%25`. Borrows when
/// no byte needs encoding.
pub fn encode_uri_header(s: &str) -> (r: Cow<'_, str>)
    ensures
        r@ == ascii_text(hnv_encode(s.spec_bytes())),
        r is Borrowed <==> (forall|i: int|
            0 <= i < s.spec_bytes().len() ==> hnv_char(#[trigger] s.spec_bytes()[i])),
{
    let bytes = s.as_bytes();
    let mut i: usize = 0;
    while i < bytes.len()
        invariant
            bytes@ == s.spec_bytes(),
            i <= bytes@.len(),
            forall|j: int| 0 <= j < i ==> hnv_char(#[trigger] bytes@[j]),
        decreases bytes@.len() - i,
    {
        if !is_hnv_char(bytes[i]) {
            let owned = vstd::slice::slice_to_vec(bytes);
            let enc = hnv_encode_bytes(&owned);
            return Cow::Owned(ascii_string(&enc));
        }
        i = i + 1;
    }
    proof {
        lemma_hnv_encode_identity(bytes@);
        assert forall|j: int| 0 <= j < encode_utf8(s@).len() implies #[trigger] encode_utf8(s@)[j]
            < 128 by {
            assert(hnv_char(bytes@[j]));
        }
        lemma_ascii_text(s@);
    }
    Cow::Borrowed(s)
}

/// Bytes that are all in the `hnv` set encode to themselves.
pub proof fn lemma_hnv_encode_identity(b: Seq<u8>)
    requires
        forall|i: int| 0 <= i < b.len() ==> hnv_char(#[trigger] b[i]),
    ensures
        hnv_encode(b) == b,
    decreases b.len(),
{
    if b.len() > 0 {
        assert(hnv_char(b[0]));
        assert forall|i: int| 0 <= i < b.skip(1).len() implies hnv_char(#[trigger] b.skip(1)[i]) by {
            assert(b.skip(1)[i] == b[i + 1]);
        }
        lemma_hnv_encode_identity(b.skip(1));
        assert(seq![b[0]] + b.skip(1) =~= b);
    }
}

/// The canonical form of a URI header name or value as it appears in a URI:
/// every escape decoded, then every byte outside `hnv` re-encoded.
pub open spec fn canonical_header(raw: Seq<char>) -> Seq<char> {
    ascii_text(hnv_encode(pct_decode_bytes(encode_utf8(raw), CharSet::Any)))
}

/// The canonical form of the header text `v[lo..hi]`.
pub fn canonical_header_at(v: &Vec<char>, lo: usize, hi: usize) -> (s: String)
    requires
        lo <= hi <= v@.len(),
    ensures
        s@ == canonical_header(v@.subrange(lo as int, hi as int)),
{
    let raw = utf8_of(v, lo, hi);
    let decoded = percent_decode_bytes(raw.as_slice(), CharSet::Any);
    let encoded = hnv_encode_bytes(&decoded);
    ascii_string(&encoded)
}

/// Characters that end the first scan of `@` discovery: `@ / ; ? #`.
pub open spec fn userinfo_stop(c: char) -> bool {
    c == '@' || c == '/' || c == ';' || c == '?' || c == '#'
}

/// `userinfo_stop` as a predicate value.
pub open spec fn userinfo_stops() -> spec_fn(char) -> bool {
    |c: char| userinfo_stop(c)
}

/// Equality with one character, as a predicate value.
pub open spec fn is_char(x: char) -> spec_fn(char) -> bool {
    |c: char| c == x
}

/// The `@` that separates userinfo from hostport in `s[lo..hi]`, found as
/// sofia-sip does: scan to the first `@ / ; ? #`, then from there to the
/// first `@`.
pub open spec fn userinfo_at(s: Seq<char>, lo: int, hi: int) -> Option<int> {
    let k = scan(s, userinfo_stops(), lo, hi);
    let at = scan(s, is_char('@'), k, hi);
    if at < hi {
        Some(at)
    } else {
        None
    }
}

/// Locate the userinfo `@` in `v[lo..hi]` (see `userinfo_at`).
pub fn userinfo_at_in(v: &Vec<char>, lo: usize, hi: usize) -> (r: Option<usize>)
    requires
        lo <= hi <= v@.len(),
    ensures
        r == (match userinfo_at(v@, lo as int, hi as int) {
            Some(k) => Some(k as usize),
            None => None::<usize>,
        }),
        r matches Some(k) ==> lo <= k < hi,
{
    let mut i = lo;
    while i < hi && !(v[i] == '@' || v[i] == '/' || v[i] == ';' || v[i] == '?' || v[i] == '#')
        invariant
            lo <= i <= hi <= v@.len(),
            scan(v@, userinfo_stops(), lo as int, hi as int) == scan(v@, userinfo_stops(), i as int, hi as int),
        decreases hi - i,
    {
        assert(!userinfo_stops()(v@[i as int]));
        i = i + 1;
    }
    let ghost k = i;
    proof {
        if i < hi {
            assert(userinfo_stops()(v@[i as int]));
        }
    }
    assert(scan(v@, userinfo_stops(), lo as int, hi as int) == k);
    proof { lemma_scan(v@, is_char('@'), k as int, hi as int); }
    while i < hi
        invariant
            lo <= k <= i <= hi <= v@.len(),
            scan(v@, userinfo_stops(), lo as int, hi as int) == k,
            scan(v@, is_char('@'), k as int, hi as int) == scan(v@, is_char('@'), i as int, hi as int),
        decreases hi - i,
    {
        if v[i] == '@' {
            assert(is_char('@')(v@[i as int]));
            return Some(i);
        }
        assert(!is_char('@')(v@[i as int]));
        i = i + 1;
    }
    None
}

/// `userinfo_at` lands inside the range it searches.
pub proof fn lemma_userinfo_at_bounds(s: Seq<char>, lo: int, hi: int)
    requires
        lo <= hi,
    ensures
        userinfo_at(s, lo, hi) matches Some(k) ==> lo <= k < hi && s[k] == '@',
{
    let k = scan(s, userinfo_stops(), lo, hi);
    lemma_scan(s, userinfo_stops(), lo, hi);
    lemma_scan(s, is_char('@'), k, hi);
}

/// Find the `@` delimiter that separates userinfo from hostport in a SIP URI
/// (after the scheme), as a byte offset.
///
/// `@` is not user-unreserved, but `/ ; ? #` are: the first scan stops at
/// the first `@ / ; ? #`, the second looks for `@` from there. This keeps an
/// `@` in headers (`?From=foo@bar`) from being taken as the delimiter when
/// there is no userinfo before it.
pub fn find_userinfo_at(s: &str) -> (r: Option<usize>)
    ensures
        r == (match userinfo_at(s@, 0, s@.len() as int) {
            Some(k) => Some(byte_offset(s@, k) as usize),
            None => None::<usize>,
        }),
{
    byte_len_fits(s);
    let v = chars_of(s);
    proof {
        lemma_userinfo_at_bounds(s@, 0, s@.len() as int);
        if let Some(k) = userinfo_at(s@, 0, s@.len() as int) {
            crate::text::lemma_byte_offset_mono(s@, k);
        }
    }
    match userinfo_at_in(&v, 0, v.len()) {
        Some(k) => Some(offset_of(&v, k)),
        None => None,
    }
}

} // verus!
