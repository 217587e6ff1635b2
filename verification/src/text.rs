//! Character-level helpers shared by every parser: the char sequence of a
//! `str`, building `String`s, ASCII case mapping and UTF-8 widths.

use vstd::prelude::*;
use vstd::std_specs::iter::IteratorSpec;
use vstd::string::StringExecFns;
use vstd::utf8::encode_utf8;
use vstd::utf8::encode_scalar;

verus! {

broadcast use vstd::string::group_string_axioms;

/// Whether `c` is a 7-bit ASCII character.
pub open spec fn is_ascii(c: char) -> bool {
    (c as u32) < 128
}

/// ASCII lowercase of a character; other characters are unchanged.
pub open spec fn lower(c: char) -> char {
    if 'A' <= c && c <= 'Z' {
        ((c as u32) + 32) as char
    } else {
        c
    }
}

/// ASCII uppercase of a character; other characters are unchanged.
pub open spec fn upper(c: char) -> char {
    if 'a' <= c && c <= 'z' {
        ((c as u32) - 32) as char
    } else {
        c
    }
}

/// ASCII lowercase of a whole sequence.
pub open spec fn lower_seq(s: Seq<char>) -> Seq<char> {
    s.map_values(|c: char| lower(c))
}

/// ASCII case-insensitive equality.
pub open spec fn eq_ignore_case(a: Seq<char>, b: Seq<char>) -> bool {
    a.len() == b.len() && forall|i: int| 0 <= i < a.len() ==> lower(#[trigger] a[i]) == lower(b[i])
}

/// Number of bytes in the UTF-8 encoding of a character sequence.
pub open spec fn byte_len(s: Seq<char>) -> nat {
    encode_utf8(s).len()
}

/// Byte offset of the character at index `i` of `s`.
pub open spec fn byte_offset(s: Seq<char>, i: int) -> nat {
    byte_len(s.take(i))
}

/// Number of bytes in the UTF-8 encoding of one character.
pub open spec fn char_width(c: char) -> nat {
    encode_scalar(c as u32).len()
}

/// The encoding of a concatenation is the concatenation of the encodings.
pub proof fn lemma_encode_concat(a: Seq<char>, b: Seq<char>)
    ensures
        encode_utf8(a + b) == encode_utf8(a) + encode_utf8(b),
    decreases a.len(),
{
    if a.len() == 0 {
        assert(a + b =~= b);
        assert(encode_utf8(a) =~= Seq::<u8>::empty());
        assert(encode_utf8(a) + encode_utf8(b) =~= encode_utf8(b));
    } else {
        assert((a + b).drop_first() =~= a.drop_first() + b);
        lemma_encode_concat(a.drop_first(), b);
        assert(encode_utf8(a + b) =~= encode_scalar(a[0] as u32) + encode_utf8(a.drop_first() + b));
    }
}

/// Encoding one more character adds its width.
pub proof fn lemma_byte_offset_step(s: Seq<char>, i: int)
    requires
        0 <= i < s.len(),
    ensures
        byte_offset(s, i + 1) == byte_offset(s, i) + char_width(s[i]),
        encode_utf8(s.take(i + 1)) == encode_utf8(s.take(i)) + encode_scalar(s[i] as u32),
{
    assert(s.take(i + 1) =~= s.take(i) + seq![s[i]]);
    lemma_encode_concat(s.take(i), seq![s[i]]);
    assert(seq![s[i]].drop_first() =~= Seq::<char>::empty());
    assert(encode_utf8(Seq::<char>::empty()) =~= Seq::<u8>::empty());
    assert(encode_utf8(seq![s[i]]) =~= encode_scalar(s[i] as u32));
}

/// The characters of `s`, in order.
pub fn chars_of(s: &str) -> (v: Vec<char>)
    ensures
        v@ == s@,
{
    let mut out: Vec<char> = Vec::new();
    for c in iter: s.chars()
        invariant
            iter.seq() == s@,
            out@ == s@.take(iter.index() as int),
    {
        out.push(c);
    }
    assert(out@ == s@);
    out
}

/// Appends one character to a `String` (std's `String::push`).
#[verifier::external_body]
pub fn push_char(s: &mut String, c: char)
    ensures
        final(s)@ == old(s)@.push(c),
{
    s.push(c)
}

/// Appends a string slice to a `String`.
pub fn push_str(s: &mut String, t: &str)
    ensures
        final(s)@ == old(s)@ + t@,
{
    s.append(t);
}

/// Appends `v[lo..hi]` to a `String`.
pub fn push_chars(s: &mut String, v: &Vec<char>, lo: usize, hi: usize)
    requires
        lo <= hi <= v@.len(),
    ensures
        final(s)@ == old(s)@ + v@.subrange(lo as int, hi as int),
{
    let ghost start = s@;
    let mut i = lo;
    while i < hi
        invariant
            lo <= i <= hi <= v@.len(),
            s@ == start + v@.subrange(lo as int, i as int),
        decreases hi - i,
    {
        push_char(s, v[i]);
        i = i + 1;
        assert(v@.subrange(lo as int, i as int) =~= v@.subrange(lo as int, i - 1) + seq![v@[i - 1]]);
    }
}

/// A new `String` holding `v[lo..hi]`.
pub fn string_of(v: &Vec<char>, lo: usize, hi: usize) -> (s: String)
    requires
        lo <= hi <= v@.len(),
    ensures
        s@ == v@.subrange(lo as int, hi as int),
{
    let mut s = String::new();
    push_chars(&mut s, v, lo, hi);
    s
}

/// A new `String` holding the given characters.
pub fn string_from_vec(v: &Vec<char>) -> (s: String)
    ensures
        s@ == v@,
{
    let s = string_of(v, 0, v.len());
    assert(v@.subrange(0, v@.len() as int) =~= v@);
    s
}

/// A `String` copy of a string slice.
pub fn owned(t: &str) -> (s: String)
    ensures
        s@ == t@,
{
    t.to_owned()
}

/// ASCII lowercase.
pub fn to_lower(c: char) -> (r: char)
    ensures
        r == lower(c),
{
    if 'A' <= c && c <= 'Z' {
        let b: u8 = c as u8;
        (b + 32) as char
    } else {
        c
    }
}

/// ASCII uppercase.
pub fn to_upper(c: char) -> (r: char)
    ensures
        r == upper(c),
{
    if 'a' <= c && c <= 'z' {
        let b: u8 = c as u8;
        (b - 32) as char
    } else {
        c
    }
}

/// A new `String` holding the ASCII lowercase of `v[lo..hi]`.
pub fn lowercase_of(v: &Vec<char>, lo: usize, hi: usize) -> (s: String)
    requires
        lo <= hi <= v@.len(),
    ensures
        s@ == lower_seq(v@.subrange(lo as int, hi as int)),
{
    let mut s = String::new();
    let mut i = lo;
    while i < hi
        invariant
            lo <= i <= hi <= v@.len(),
            s@ == lower_seq(v@.subrange(lo as int, i as int)),
        decreases hi - i,
    {
        let c = to_lower(v[i]);
        push_char(&mut s, c);
        i = i + 1;
        assert(lower_seq(v@.subrange(lo as int, i as int)) =~= lower_seq(
            v@.subrange(lo as int, i - 1),
        ).push(c));
    }
    s
}

/// Whether `v[lo..hi]` equals `lit` ignoring ASCII case.
pub fn eq_ignore_case_at(v: &Vec<char>, lo: usize, hi: usize, lit: &Vec<char>) -> (r: bool)
    requires
        lo <= hi <= v@.len(),
    ensures
        r == eq_ignore_case(v@.subrange(lo as int, hi as int), lit@),
{
    if hi - lo != lit.len() {
        return false;
    }
    let mut i: usize = 0;
    while i < lit.len()
        invariant
            lo <= hi <= v@.len(),
            hi - lo == lit@.len(),
            0 <= i <= lit@.len(),
            forall|j: int| 0 <= j < i ==> lower(#[trigger] v@[lo + j]) == lower(lit@[j]),
        decreases lit@.len() - i,
    {
        if to_lower(v[lo + i]) != to_lower(lit[i]) {
            assert(lower(v@.subrange(lo as int, hi as int)[i as int]) != lower(lit@[i as int]));
            return false;
        }
        i = i + 1;
    }
    assert forall|j: int| 0 <= j < lit@.len() implies lower(
        #[trigger] v@.subrange(lo as int, hi as int)[j],
    ) == lower(lit@[j]) by {
        assert(v@.subrange(lo as int, hi as int)[j] == v@[lo + j]);
    }
    true
}

/// UTF-8 width of one character.
pub fn width_of(c: char) -> (r: usize)
    ensures
        r == char_width(c),
        1 <= r <= 4,
{
    let v: u32 = c as u32;
    if v <= 0x7F {
        1
    } else if v <= 0x7FF {
        2
    } else if v <= 0xFFFF {
        3
    } else {
        4
    }
}

/// Byte offset of index `i` in a character sequence, given that the whole
/// sequence encodes to at most `usize::MAX` bytes.
pub fn offset_of(v: &Vec<char>, i: usize) -> (r: usize)
    requires
        i <= v@.len(),
        byte_len(v@) <= usize::MAX,
    ensures
        r == byte_offset(v@, i as int),
{
    let mut k: usize = 0;
    let mut total: usize = 0;
    proof {
        assert(v@.take(0) =~= Seq::<char>::empty());
        assert(encode_utf8(Seq::<char>::empty()) =~= Seq::<u8>::empty());
    }
    while k < i
        invariant
            k <= i <= v@.len(),
            byte_len(v@) <= usize::MAX,
            total == byte_offset(v@, k as int),
        decreases i - k,
    {
        proof {
            lemma_byte_offset_step(v@, k as int);
            lemma_byte_offset_mono(v@, k + 1);
        }
        let w = width_of(v[k]);
        total = total + w;
        k = k + 1;
    }
    total
}

/// A prefix never encodes to more bytes than the whole.
pub proof fn lemma_byte_offset_mono(s: Seq<char>, i: int)
    requires
        0 <= i <= s.len(),
    ensures
        byte_offset(s, i) <= byte_len(s),
{
    assert(s =~= s.take(i) + s.skip(i));
    lemma_encode_concat(s.take(i), s.skip(i));
}

/// Index of the first position in `s[i..hi]` whose character satisfies `p`,
/// or `hi` when there is none.
pub open spec fn scan(s: Seq<char>, p: spec_fn(char) -> bool, i: int, hi: int) -> int
    decreases hi - i,
{
    if i < hi {
        if p(s[i]) {
            i
        } else {
            scan(s, p, i + 1, hi)
        }
    } else {
        hi
    }
}

/// What `scan` returns: the first match, or `hi`.
pub proof fn lemma_scan(s: Seq<char>, p: spec_fn(char) -> bool, i: int, hi: int)
    requires
        i <= hi,
    ensures
        i <= scan(s, p, i, hi) <= hi,
        scan(s, p, i, hi) < hi ==> p(s[scan(s, p, i, hi)]),
        forall|j: int| i <= j < scan(s, p, i, hi) ==> !p(#[trigger] s[j]),
    decreases hi - i,
{
    if i < hi && !p(s[i]) {
        lemma_scan(s, p, i + 1, hi);
    }
}

/// The characters `s[i..hi]` all satisfy `p`.
pub open spec fn all_in(s: Seq<char>, p: spec_fn(char) -> bool, i: int, hi: int) -> bool {
    forall|j: int| i <= j < hi ==> p(#[trigger] s[j])
}

/// Bytes as the ASCII characters they stand for.
pub open spec fn ascii_text(b: Seq<u8>) -> Seq<char> {
    b.map_values(|x: u8| x as char)
}

/// A `String` of the ASCII characters for the given bytes.
pub fn ascii_string(b: &Vec<u8>) -> (s: String)
    ensures
        s@ == ascii_text(b@),
{
    let mut s = String::new();
    let mut i: usize = 0;
    while i < b.len()
        invariant
            i <= b@.len(),
            s@ == ascii_text(b@.take(i as int)),
        decreases b@.len() - i,
    {
        push_char(&mut s, b[i] as char);
        i = i + 1;
        assert(ascii_text(b@.take(i as int)) =~= ascii_text(b@.take(i - 1)).push(b@[i - 1] as char));
    }
    assert(b@.take(b@.len() as int) =~= b@);
    s
}

/// The UTF-8 encoding of a string fits in a `usize`.
pub fn byte_len_fits(s: &str)
    ensures
        byte_len(s@) <= usize::MAX,
{
    broadcast use vstd::slice::group_slice_axioms;
    let b = s.as_bytes();
    let _n = b.len();
}

/// Appends the UTF-8 encoding of one character.
pub fn push_utf8(out: &mut Vec<u8>, c: char)
    ensures
        final(out)@ == old(out)@ + encode_scalar(c as u32),
{
    let v: u32 = c as u32;
    if v <= 0x7F {
        out.push((v & 0x7F) as u8);
    } else if v <= 0x7FF {
        out.push(0xC0 | ((v >> 6) & 0x1F) as u8);
        out.push(0x80 | (v & 0x3F) as u8);
    } else if v <= 0xFFFF {
        out.push(0xE0 | ((v >> 12) & 0x0F) as u8);
        out.push(0x80 | ((v >> 6) & 0x3F) as u8);
        out.push(0x80 | (v & 0x3F) as u8);
    } else {
        out.push(0xF0 | ((v >> 18) & 0x7) as u8);
        out.push(0x80 | ((v >> 12) & 0x3F) as u8);
        out.push(0x80 | ((v >> 6) & 0x3F) as u8);
        out.push(0x80 | (v & 0x3F) as u8);
    }
    assert(final(out)@ =~= old(out)@ + encode_scalar(c as u32));
}

/// The UTF-8 encoding of `v[lo..hi]`.
pub fn utf8_of(v: &Vec<char>, lo: usize, hi: usize) -> (b: Vec<u8>)
    requires
        lo <= hi <= v@.len(),
    ensures
        b@ == encode_utf8(v@.subrange(lo as int, hi as int)),
{
    let mut out: Vec<u8> = Vec::new();
    let mut i = lo;
    proof {
        assert(v@.subrange(lo as int, lo as int) =~= Seq::<char>::empty());
        assert(encode_utf8(Seq::<char>::empty()) =~= Seq::<u8>::empty());
    }
    while i < hi
        invariant
            lo <= i <= hi <= v@.len(),
            out@ == encode_utf8(v@.subrange(lo as int, i as int)),
        decreases hi - i,
    {
        proof {
            let sub = v@.subrange(lo as int, hi as int);
            lemma_byte_offset_step(sub, i - lo);
            assert(sub.take(i - lo) =~= v@.subrange(lo as int, i as int));
            assert(sub.take(i - lo + 1) =~= v@.subrange(lo as int, i + 1));
        }
        push_utf8(&mut out, v[i]);
        i = i + 1;
    }
    out
}

/// The decimal digit character for a value below 10.
pub open spec fn digit_char(d: nat) -> char {
    ((('0' as u8) + d) as u8) as char
}

/// Decimal notation of a natural number, without leading zeros.
pub open spec fn decimal(n: nat) -> Seq<char>
    decreases n,
{
    if n < 10 {
        seq![digit_char(n)]
    } else {
        decimal(n / 10).push(digit_char(n % 10))
    }
}

/// Appends the decimal notation of `n`.
pub fn push_decimal(s: &mut String, n: usize)
    ensures
        final(s)@ == old(s)@ + decimal(n as nat),
    decreases n,
{
    if n < 10 {
        let d: u8 = n as u8;
        push_char(s, (('0' as u8) + d) as char);
    } else {
        push_decimal(s, n / 10);
        let d: u8 = (n % 10) as u8;
        push_char(s, (('0' as u8) + d) as char);
    }
}

/// `s[a..k]` encodes to no more bytes than `s`.
pub proof fn lemma_byte_len_subrange(s: Seq<char>, a: int, k: int)
    requires
        0 <= a <= k <= s.len(),
    ensures
        byte_len(s.subrange(a, k)) <= byte_len(s),
{
    assert(s =~= s.take(a) + (s.subrange(a, k) + s.skip(k)));
    lemma_encode_concat(s.take(a), s.subrange(a, k) + s.skip(k));
    lemma_encode_concat(s.subrange(a, k), s.skip(k));
}

/// Number of bytes in the UTF-8 encoding of `v[a..k]`.
pub fn byte_len_between(v: &Vec<char>, a: usize, k: usize) -> (r: usize)
    requires
        a <= k <= v@.len(),
        byte_len(v@) <= usize::MAX,
    ensures
        r == byte_len(v@.subrange(a as int, k as int)),
{
    let mut j = a;
    let mut total: usize = 0;
    proof {
        assert(v@.subrange(a as int, a as int) =~= Seq::<char>::empty());
        assert(encode_utf8(Seq::<char>::empty()) =~= Seq::<u8>::empty());
    }
    while j < k
        invariant
            a <= j <= k <= v@.len(),
            byte_len(v@) <= usize::MAX,
            total == byte_len(v@.subrange(a as int, j as int)),
        decreases k - j,
    {
        proof {
            let sub = v@.subrange(a as int, k as int);
            lemma_byte_offset_step(sub, j - a);
            assert(sub.take(j - a) =~= v@.subrange(a as int, j as int));
            assert(sub.take(j - a + 1) =~= v@.subrange(a as int, j + 1));
            lemma_byte_len_subrange(v@, a as int, j + 1);
        }
        let w = width_of(v[j]);
        total = total + w;
        j = j + 1;
    }
    total
}

/// ASCII case-insensitive equality of two string slices.
pub fn eq_ignore_case_str(a: &str, b: &str) -> (r: bool)
    ensures
        r == eq_ignore_case(a@, b@),
{
    let va = chars_of(a);
    let vb = chars_of(b);
    let r = eq_ignore_case_at(&va, 0, va.len(), &vb);
    assert(va@.subrange(0, va@.len() as int) =~= va@);
    r
}

} // verus!
