//! IPv4 and IPv6 addresses: the textual forms a URI host may take, and the
//! canonical rendering of each.

use vstd::prelude::*;

use crate::parse::{hex_char, hex_of_char, hex_val};
use crate::text::{chars_of, decimal, lemma_scan, owned, push_char, push_decimal, push_str, scan};

verus! {

broadcast use vstd::string::group_string_axioms;

/// An IPv4 address.
#[derive(Debug, Clone, Copy, PartialEq, Eq, Hash)]
pub struct Ipv4Addr {
    octets: [u8; 4],
}

/// An IPv6 address.
#[derive(Debug, Clone, Copy, PartialEq, Eq, Hash)]
pub struct Ipv6Addr {
    segments: [u16; 8],
}

/// The text is not an IP address of the requested family.
#[derive(Debug, Clone, Copy, PartialEq, Eq)]
pub struct AddrParseError;

impl View for Ipv4Addr {
    type V = Seq<u8>;

    closed spec fn view(&self) -> Seq<u8> {
        self.octets@
    }
}

impl View for Ipv6Addr {
    type V = Seq<u16>;

    closed spec fn view(&self) -> Seq<u16> {
        self.segments@
    }
}

/// ASCII decimal digit.
pub open spec fn dec_digit(c: char) -> bool {
    '0' <= c && c <= '9'
}

/// Not a decimal digit, as a predicate value.
pub open spec fn not_dec() -> spec_fn(char) -> bool {
    |c: char| !dec_digit(c)
}

/// Not a hex digit, as a predicate value.
pub open spec fn not_hex() -> spec_fn(char) -> bool {
    |c: char| !hex_char(c)
}

/// Value of the decimal digits `s[i..e]`.
pub open spec fn digits_value(s: Seq<char>, i: int, e: int) -> nat
    decreases e - i,
{
    if e <= i {
        0
    } else {
        digits_value(s, i, e - 1) * 10 + ((s[e - 1] as u32) - ('0' as u32)) as nat
    }
}

/// Value of the hex digits `s[i..e]`.
pub open spec fn hex_digits_value(s: Seq<char>, i: int, e: int) -> nat
    decreases e - i,
{
    if e <= i {
        0
    } else {
        hex_digits_value(s, i, e - 1) * 16 + hex_val(s[e - 1] as u8)->0 as nat
    }
}

/// A decimal octet at `s[i..]`: the whole run of digits there, one to three
/// of them, no leading zero unless it is the only digit, at most 255; with
/// the index after it.
pub open spec fn octet_at(s: Seq<char>, i: int, hi: int) -> Option<(u8, int)> {
    let e = scan(s, not_dec(), i, hi);
    let n = e - i;
    if n == 0 || n > 3 || (n > 1 && s[i] == '0') || digits_value(s, i, e) > 255 {
        None
    } else {
        Some((digits_value(s, i, e) as u8, e))
    }
}

/// Four octets separated by `.` starting at `s[i]`, with the index after
/// the last one.
pub open spec fn ipv4_at(s: Seq<char>, i: int, hi: int) -> Option<(Seq<u8>, int)> {
    match octet_at(s, i, hi) {
        None => None,
        Some((a, e1)) => if !(e1 < hi && s[e1] == '.') {
            None
        } else {
            match octet_at(s, e1 + 1, hi) {
                None => None,
                Some((b, e2)) => if !(e2 < hi && s[e2] == '.') {
                    None
                } else {
                    match octet_at(s, e2 + 1, hi) {
                        None => None,
                        Some((c, e3)) => if !(e3 < hi && s[e3] == '.') {
                            None
                        } else {
                            match octet_at(s, e3 + 1, hi) {
                                None => None,
                                Some((d, e4)) => Some((seq![a, b, c, d], e4)),
                            }
                        },
                    }
                },
            }
        },
    }
}

/// The IPv4 address that `s[lo..hi]` is, in dotted-decimal form.
pub open spec fn parse_ipv4(s: Seq<char>, lo: int, hi: int) -> Option<Seq<u8>> {
    match ipv4_at(s, lo, hi) {
        Some((o, e)) => if e == hi {
            Some(o)
        } else {
            None
        },
        None => None,
    }
}

/// A group of one to four hex digits at `s[i..]` (the whole run of hex
/// digits there), with the index after it.
pub open spec fn hex_group_at(s: Seq<char>, i: int, hi: int) -> Option<(u16, int)> {
    let e = scan(s, not_hex(), i, hi);
    let n = e - i;
    if n == 0 || n > 4 {
        None
    } else {
        Some((hex_digits_value(s, i, e) as u16, e))
    }
}

/// The two 16-bit groups an embedded IPv4 address stands for.
pub open spec fn v4_groups(o: Seq<u8>) -> Seq<u16> {
    seq![(o[0] * 256 + o[1]) as u16, (o[2] * 256 + o[3]) as u16]
}

/// Reads up to `limit` colon-separated groups from `s[i..hi]` after those in
/// `acc`, the last two of which may be an embedded IPv4 address. Gives the
/// groups, the index after them, and whether an IPv4 address ended them.
pub open spec fn read_groups(s: Seq<char>, i: int, hi: int, limit: nat, acc: Seq<u16>) -> (
    Seq<u16>,
    int,
    bool,
)
    decreases limit - acc.len(),
{
    if acc.len() >= limit {
        (acc, i, false)
    } else {
        let k = acc.len();
        let has_sep = k == 0 || (i < hi && s[i] == ':');
        let j = if k == 0 {
            i
        } else {
            i + 1
        };
        if has_sep && k + 1 < limit && ipv4_at(s, j, hi) is Some {
            let (o, e) = ipv4_at(s, j, hi)->0;
            (acc + v4_groups(o), e, true)
        } else if has_sep && hex_group_at(s, j, hi) is Some {
            let (g, e) = hex_group_at(s, j, hi)->0;
            read_groups(s, e, hi, limit, acc.push(g))
        } else {
            (acc, i, false)
        }
    }
}

/// The IPv6 address that `s[lo..hi]` is: eight groups, or fewer with one
/// `::` standing for at least one zero group; an IPv4 address may end it.
pub open spec fn parse_ipv6(s: Seq<char>, lo: int, hi: int) -> Option<Seq<u16>> {
    let (head, p, v4) = read_groups(s, lo, hi, 8, Seq::empty());
    if head.len() == 8 {
        if p == hi {
            Some(head)
        } else {
            None
        }
    } else if v4 {
        None
    } else if hi - p >= 2 && s[p] == ':' && s[p + 1] == ':' {
        let (tail, p2, _) = read_groups(s, p + 2, hi, (7 - head.len()) as nat, Seq::empty());
        if p2 == hi {
            Some(head + Seq::new((8 - head.len() - tail.len()) as nat, |i: int| 0u16) + tail)
        } else {
            None
        }
    } else {
        None
    }
}

/// Dotted-decimal text of four octets.
pub open spec fn v4_text(o: Seq<u8>) -> Seq<char> {
    decimal(o[0] as nat) + "."@ + decimal(o[1] as nat) + "."@ + decimal(o[2] as nat) + "."@
        + decimal(o[3] as nat)
}

/// Lowercase hex digit character for a value below 16.
pub open spec fn hex_lower_digit(d: nat) -> char {
    if d < 10 {
        ((('0' as u8) + d) as u8) as char
    } else {
        ((('a' as u8) + d - 10) as u8) as char
    }
}

/// Lowercase hex notation without leading zeros.
pub open spec fn hex_text(n: nat) -> Seq<char>
    decreases n,
{
    if n < 16 {
        seq![hex_lower_digit(n)]
    } else {
        hex_text(n / 16).push(hex_lower_digit(n % 16))
    }
}

/// Groups in hex joined by `:`.
pub open spec fn groups_text(g: Seq<u16>) -> Seq<char>
    decreases g.len(),
{
    if g.len() == 0 {
        Seq::empty()
    } else if g.len() == 1 {
        hex_text(g[0] as nat)
    } else {
        groups_text(g.drop_last()) + ":"@ + hex_text(g.last() as nat)
    }
}

/// Number of consecutive zero groups starting at `i`.
pub open spec fn zero_run(g: Seq<u16>, i: int) -> nat
    decreases g.len() - i,
{
    if 0 <= i < g.len() && g[i] == 0 {
        1 + zero_run(g, i + 1)
    } else {
        0
    }
}

/// The leftmost longest run of zero groups at or after `i`: start and length.
pub open spec fn longest_zeros(g: Seq<u16>, i: int) -> (int, nat)
    decreases g.len() - i,
{
    if 0 <= i < g.len() {
        let (s2, l2) = longest_zeros(g, i + 1);
        let r = zero_run(g, i);
        if r > 0 && r >= l2 {
            (i, r)
        } else {
            (s2, l2)
        }
    } else {
        (g.len() as int, 0)
    }
}

/// Whether the address is an IPv4-mapped one (`::ffff:a.b.c.d`).
pub open spec fn v4_mapped(g: Seq<u16>) -> bool {
    g[0] == 0 && g[1] == 0 && g[2] == 0 && g[3] == 0 && g[4] == 0 && g[5] == 0xffff
}

/// Canonical IPv6 text: IPv4-mapped addresses as `::ffff:a.b.c.d`, else
/// lowercase hex groups with the leftmost longest run of two or more zero
/// groups written as `::`.
pub open spec fn v6_text(g: Seq<u16>) -> Seq<char> {
    if v4_mapped(g) {
        "::ffff:"@ + v4_text(
            seq![(g[6] / 256) as u8, (g[6] % 256) as u8, (g[7] / 256) as u8, (g[7] % 256) as u8],
        )
    } else {
        let (st, ln) = longest_zeros(g, 0);
        if ln > 1 {
            groups_text(g.subrange(0, st)) + "::"@ + groups_text(g.subrange(st + ln, 8))
        } else {
            groups_text(g)
        }
    }
}

fn is_dec(c: char) -> (r: bool)
    ensures
        r == dec_digit(c),
{
    '0' <= c && c <= '9'
}

/// Reads a decimal octet at `v[i..hi]`.
fn octet_at_exec(v: &Vec<char>, i: usize, hi: usize) -> (r: Option<(u8, usize)>)
    requires
        i <= hi <= v@.len(),
    ensures
        match octet_at(v@, i as int, hi as int) {
            Some((o, e)) => r == Some((o, e as usize)),
            None => r is None,
        },
        octet_at(v@, i as int, hi as int) matches Some((o, e)) ==> i < e <= hi,
{
    proof {
        lemma_scan(v@, not_dec(), i as int, hi as int);
        lemma_octet_end(v@, i as int, hi as int);
    }
    let mut e = i;
    let mut value: u32 = 0;
    while e < hi && is_dec(v[e])
        invariant
            i <= e <= hi <= v@.len(),
            scan(v@, not_dec(), i as int, hi as int) == scan(v@, not_dec(), e as int, hi as int),
            value == digits_value(v@, i as int, e as int),
            e - i <= 3,
            e - i == 0 ==> value == 0,
            e - i <= 1 ==> value < 10,
            e - i <= 2 ==> value < 100,
            value < 1000,
        decreases hi - e,
    {
        assert(!not_dec()(v@[e as int]));
        if e - i == 3 {
            proof {
                lemma_scan(v@, not_dec(), e as int, hi as int);
            }
            assert(scan(v@, not_dec(), i as int, hi as int) > e);
            return None;
        }
        let d: u32 = (v[e] as u32) - ('0' as u32);
        value = value * 10 + d;
        e = e + 1;
    }
    proof {
        if e < hi {
            assert(not_dec()(v@[e as int]));
        }
        assert(scan(v@, not_dec(), e as int, hi as int) == e);
    }
    let n = e - i;
    if n == 0 || (n > 1 && v[i] == '0') || value > 255 {
        return None;
    }
    Some((value as u8, e))
}

/// Reads four dotted octets at `v[i..hi]`.
fn ipv4_at_exec(v: &Vec<char>, i: usize, hi: usize) -> (r: Option<([u8; 4], usize)>)
    requires
        i <= hi <= v@.len(),
    ensures
        match ipv4_at(v@, i as int, hi as int) {
            Some((o, e)) => r matches Some((a, e2)) && a@ == o && e2 == e,
            None => r is None,
        },
        ipv4_at(v@, i as int, hi as int) matches Some((o, e)) ==> i < e <= hi && o.len() == 4,
{
    proof {
        lemma_ipv4_at_end(v@, i as int, hi as int);
    }
    let (a, e1) = match octet_at_exec(v, i, hi) {
        Some(x) => x,
        None => return None,
    };
    if !(e1 < hi && v[e1] == '.') {
        return None;
    }
    let (b, e2) = match octet_at_exec(v, e1 + 1, hi) {
        Some(x) => x,
        None => return None,
    };
    if !(e2 < hi && v[e2] == '.') {
        return None;
    }
    let (c, e3) = match octet_at_exec(v, e2 + 1, hi) {
        Some(x) => x,
        None => return None,
    };
    if !(e3 < hi && v[e3] == '.') {
        return None;
    }
    let (d, e4) = match octet_at_exec(v, e3 + 1, hi) {
        Some(x) => x,
        None => return None,
    };
    let arr = [a, b, c, d];
    assert(arr@ =~= seq![a, b, c, d]);
    Some((arr, e4))
}

/// Reads a hex group at `v[i..hi]`.
fn hex_group_exec(v: &Vec<char>, i: usize, hi: usize) -> (r: Option<(u16, usize)>)
    requires
        i <= hi <= v@.len(),
    ensures
        match hex_group_at(v@, i as int, hi as int) {
            Some((g, e)) => r == Some((g, e as usize)),
            None => r is None,
        },
        hex_group_at(v@, i as int, hi as int) matches Some((g, e)) ==> i < e <= hi,
{
    proof {
        lemma_scan(v@, not_hex(), i as int, hi as int);
        lemma_hex_group_end(v@, i as int, hi as int);
    }
    let mut e = i;
    let mut value: u32 = 0;
    while e < hi && hex_of_char(v[e]).is_some()
        invariant
            i <= e <= hi <= v@.len(),
            scan(v@, not_hex(), i as int, hi as int) == scan(v@, not_hex(), e as int, hi as int),
            value == hex_digits_value(v@, i as int, e as int),
            e - i <= 4,
            e - i == 0 ==> value == 0,
            e - i <= 1 ==> value < 16,
            e - i <= 2 ==> value < 256,
            e - i <= 3 ==> value < 4096,
            value < 65536,
        decreases hi - e,
    {
        assert(!not_hex()(v@[e as int]));
        if e - i == 4 {
            proof {
                lemma_scan(v@, not_hex(), e as int, hi as int);
            }
            assert(scan(v@, not_hex(), i as int, hi as int) > e);
            return None;
        }
        let d = match hex_of_char(v[e]) {
            Some(d) => d,
            None => 0,
        };
        value = value * 16 + d as u32;
        e = e + 1;
    }
    proof {
        if e < hi {
            assert(not_hex()(v@[e as int]));
        }
        assert(scan(v@, not_hex(), e as int, hi as int) == e);
    }
    if e == i {
        return None;
    }
    Some((value as u16, e))
}

/// Reads up to `limit` groups at `v[i..hi]` (see `read_groups`).
fn read_groups_exec(v: &Vec<char>, i: usize, hi: usize, limit: usize) -> (r: (Vec<u16>, usize, bool))
    requires
        i <= hi <= v@.len(),
        limit <= 8,
    ensures
        read_groups(v@, i as int, hi as int, limit as nat, Seq::empty()) == (r.0@, r.1 as int, r.2),
        r.0@.len() <= limit,
        i <= r.1 <= hi,
{
    let mut acc: Vec<u16> = Vec::new();
    let mut p = i;
    loop
        invariant
            i <= p <= hi <= v@.len(),
            limit <= 8,
            acc@.len() <= limit,
            read_groups(v@, i as int, hi as int, limit as nat, Seq::empty()) == read_groups(
                v@,
                p as int,
                hi as int,
                limit as nat,
                acc@,
            ),
        decreases limit - acc@.len(),
    {
        if acc.len() >= limit {
            return (acc, p, false);
        }
        let k = acc.len();
        let has_sep = k == 0 || (p < hi && v[p] == ':');
        let j = if k == 0 {
            p
        } else if has_sep {
            p + 1
        } else {
            p
        };
        if has_sep && k + 1 < limit {
            match ipv4_at_exec(v, j, hi) {
                Some((o, e)) => {
                    let g1: u16 = (o[0] as u16) * 256 + (o[1] as u16);
                    let g2: u16 = (o[2] as u16) * 256 + (o[3] as u16);
                    let ghost before = acc@;
                    acc.push(g1);
                    acc.push(g2);
                    assert(acc@ =~= before + v4_groups(o@));
                    proof {
                        lemma_ipv4_at_end(v@, j as int, hi as int);
                    }
                    return (acc, e, true);
                },
                None => {},
            }
        }
        if !has_sep {
            return (acc, p, false);
        }
        match hex_group_exec(v, j, hi) {
            Some((g, e)) => {
                proof {
                    lemma_hex_group_end(v@, j as int, hi as int);
                }
                acc.push(g);
                p = e;
            },
            None => {
                return (acc, p, false);
            },
        }
    }
}

/// An octet ends inside the range, after where it starts.
pub proof fn lemma_octet_end(s: Seq<char>, i: int, hi: int)
    requires
        i <= hi,
    ensures
        octet_at(s, i, hi) matches Some((o, e)) ==> i < e <= hi,
{
    lemma_scan(s, not_dec(), i, hi);
}

/// An IPv4 address ends inside the range, after where it starts.
pub proof fn lemma_ipv4_at_end(s: Seq<char>, i: int, hi: int)
    requires
        i <= hi,
    ensures
        ipv4_at(s, i, hi) matches Some((o, e)) ==> i < e <= hi && o.len() == 4,
{
    lemma_octet_end(s, i, hi);
    if let Some((a, e1)) = octet_at(s, i, hi) {
        if e1 < hi {
            lemma_octet_end(s, e1 + 1, hi);
            if let Some((b, e2)) = octet_at(s, e1 + 1, hi) {
                if e2 < hi {
                    lemma_octet_end(s, e2 + 1, hi);
                    if let Some((c, e3)) = octet_at(s, e2 + 1, hi) {
                        if e3 < hi {
                            lemma_octet_end(s, e3 + 1, hi);
                        }
                    }
                }
            }
        }
    }
}

/// A hex group ends inside the range, after where it starts.
pub proof fn lemma_hex_group_end(s: Seq<char>, i: int, hi: int)
    requires
        i <= hi,
    ensures
        hex_group_at(s, i, hi) matches Some((g, e)) ==> i < e <= hi,
{
    lemma_scan(s, not_hex(), i, hi);
}

/// Parse the IPv6 address text `v[lo..hi]`.
pub fn parse_ipv6_at(v: &Vec<char>, lo: usize, hi: usize) -> (r: Option<Ipv6Addr>)
    requires
        lo <= hi <= v@.len(),
    ensures
        match parse_ipv6(v@, lo as int, hi as int) {
            Some(g) => r matches Some(a) && a@ == g,
            None => r is None,
        },
{
    let (head, p, v4) = read_groups_exec(v, lo, hi, 8);
    if head.len() == 8 {
        if p == hi {
            let a = Ipv6Addr {
                segments: [head[0], head[1], head[2], head[3], head[4], head[5], head[6], head[7]],
            };
            assert(a@ =~= head@);
            return Some(a);
        }
        return None;
    }
    if v4 {
        return None;
    }
    if hi - p >= 2 && v[p] == ':' && v[p + 1] == ':' {
        let limit = 7 - head.len();
        let (tail, p2, _) = read_groups_exec(v, p + 2, hi, limit);
        if p2 == hi {
            let mut segs: [u16; 8] = [0u16; 8];
            let mut k: usize = 0;
            let zeros = 8 - head.len() - tail.len();
            let ghost want = head@ + Seq::new(zeros as nat, |i: int| 0u16) + tail@;
            assert(want.len() == 8);
            while k < 8
                invariant
                    0 <= k <= 8,
                    head@.len() + tail@.len() <= 7,
                    zeros == 8 - head@.len() - tail@.len(),
                    want == head@ + Seq::new(zeros as nat, |i: int| 0u16) + tail@,
                    forall|j: int| 0 <= j < k ==> segs@[j] == want[j],
                decreases 8 - k,
            {
                let x = if k < head.len() {
                    head[k]
                } else if k < head.len() + zeros {
                    0u16
                } else {
                    tail[k - head.len() - zeros]
                };
                segs[k] = x;
                k = k + 1;
            }
            let a = Ipv6Addr { segments: segs };
            assert(a@ =~= want);
            return Some(a);
        }
    }
    None
}

/// Parse a whole string as an IPv6 address.
pub fn parse_ipv6_str(s: &str) -> (r: Option<Ipv6Addr>)
    ensures
        match parse_ipv6(s@, 0, s@.len() as int) {
            Some(g) => r matches Some(a) && a@ == g,
            None => r is None,
        },
{
    let v = chars_of(s);
    parse_ipv6_at(&v, 0, v.len())
}

/// Parse the dotted-decimal text `v[lo..hi]`.
pub fn parse_ipv4_at(v: &Vec<char>, lo: usize, hi: usize) -> (r: Option<Ipv4Addr>)
    requires
        lo <= hi <= v@.len(),
    ensures
        match parse_ipv4(v@, lo as int, hi as int) {
            Some(o) => r matches Some(a) && a@ == o,
            None => r is None,
        },
{
    match ipv4_at_exec(v, lo, hi) {
        Some((o, e)) => {
            if e == hi {
                Some(Ipv4Addr { octets: o })
            } else {
                None
            }
        },
        None => None,
    }
}

fn hex_lower_of(d: u16) -> (c: char)
    requires
        d < 16,
    ensures
        c == hex_lower_digit(d as nat),
{
    let b: u8 = d as u8;
    if b < 10 {
        (('0' as u8) + b) as char
    } else {
        (('a' as u8) + b - 10) as char
    }
}

/// Appends lowercase hex without leading zeros.
fn push_hex(s: &mut String, n: u16)
    ensures
        final(s)@ == old(s)@ + hex_text(n as nat),
    decreases n,
{
    if n < 16 {
        push_char(s, hex_lower_of(n));
    } else {
        push_hex(s, n / 16);
        push_char(s, hex_lower_of(n % 16));
    }
}

/// Appends the groups `g[lo..hi]` in hex joined by `:`.
fn push_groups(s: &mut String, g: &[u16; 8], lo: usize, hi: usize)
    requires
        lo <= hi <= 8,
    ensures
        final(s)@ == old(s)@ + groups_text(g@.subrange(lo as int, hi as int)),
{
    let ghost start = s@;
    let mut k = lo;
    assert(g@.subrange(lo as int, lo as int) =~= Seq::<u16>::empty());
    while k < hi
        invariant
            lo <= k <= hi <= 8,
            g@.len() == 8,
            s@ == start + groups_text(g@.subrange(lo as int, k as int)),
        decreases hi - k,
    {
        let ghost prev = g@.subrange(lo as int, k as int);
        if k > lo {
            push_str(s, ":");
        }
        push_hex(s, g[k]);
        k = k + 1;
        proof {
            let cur = g@.subrange(lo as int, k as int);
            assert(cur.drop_last() =~= prev);
            assert(cur.last() == g@[k - 1]);
            if cur.len() == 1 {
                assert(prev =~= Seq::<u16>::empty());
                assert(s@ =~= start + groups_text(cur));
            } else {
                assert(s@ =~= start + groups_text(cur));
            }
        }
    }
}

impl Ipv4Addr {
    /// The address `a.b.c.d`.
    pub fn new(a: u8, b: u8, c: u8, d: u8) -> (r: Ipv4Addr)
        ensures
            r@ == seq![a, b, c, d],
    {
        let r = Ipv4Addr { octets: [a, b, c, d] };
        assert(r@ =~= seq![a, b, c, d]);
        r
    }

    /// The four octets.
    pub fn octets(&self) -> (r: [u8; 4])
        ensures
            r@ == self@,
    {
        self.octets
    }

    /// Dotted-decimal text.
    pub fn to_string(&self) -> (s: String)
        ensures
            s@ == v4_text(self@),
    {
        let mut s = String::new();
        push_decimal(&mut s, self.octets[0] as usize);
        push_str(&mut s, ".");
        push_decimal(&mut s, self.octets[1] as usize);
        push_str(&mut s, ".");
        push_decimal(&mut s, self.octets[2] as usize);
        push_str(&mut s, ".");
        push_decimal(&mut s, self.octets[3] as usize);
        assert(s@ =~= v4_text(self@));
        s
    }
}

impl Ipv6Addr {
    /// The address with the eight given 16-bit groups.
    pub fn new(a: u16, b: u16, c: u16, d: u16, e: u16, f: u16, g: u16, h: u16) -> (r: Ipv6Addr)
        ensures
            r@ == seq![a, b, c, d, e, f, g, h],
    {
        let r = Ipv6Addr { segments: [a, b, c, d, e, f, g, h] };
        assert(r@ =~= seq![a, b, c, d, e, f, g, h]);
        r
    }

    /// The eight 16-bit groups.
    pub fn segments(&self) -> (r: [u16; 8])
        ensures
            r@ == self@,
    {
        self.segments
    }

    /// Canonical text, without brackets (see `v6_text`).
    pub fn to_string(&self) -> (s: String)
        ensures
            s@ == v6_text(self@),
    {
        let g = &self.segments;
        if g[0] == 0 && g[1] == 0 && g[2] == 0 && g[3] == 0 && g[4] == 0 && g[5] == 0xffff {
            let mut s = owned("::ffff:");
            let v4 = Ipv4Addr::new(
                (g[6] / 256) as u8,
                (g[6] % 256) as u8,
                (g[7] / 256) as u8,
                (g[7] % 256) as u8,
            );
            let t = v4.to_string();
            push_str(&mut s, t.as_str());
            return s;
        }
        let (st, ln) = longest_zero_span(g);
        let mut s = String::new();
        if ln > 1 {
            push_groups(&mut s, g, 0, st);
            push_str(&mut s, "::");
            push_groups(&mut s, g, st + ln, 8);
        } else {
            push_groups(&mut s, g, 0, 8);
            assert(g@.subrange(0, 8) =~= g@);
        }
        s
    }
}

/// The leftmost longest run of zero groups.
fn longest_zero_span(g: &[u16; 8]) -> (r: (usize, usize))
    ensures
        longest_zeros(g@, 0) == (r.0 as int, r.1 as nat),
        r.0 + r.1 <= 8,
{
    let mut i: usize = 8;
    let mut run: usize = 0;
    let mut best_start: usize = 8;
    let mut best_len: usize = 0;
    while i > 0
        invariant
            0 <= i <= 8,
            g@.len() == 8,
            run == zero_run(g@, i as int),
            longest_zeros(g@, i as int) == (best_start as int, best_len as nat),
            i + run <= 8,
            best_start + best_len <= 8,
        decreases i,
    {
        i = i - 1;
        if g[i] == 0 {
            run = run + 1;
        } else {
            run = 0;
        }
        if run > 0 && run >= best_len {
            best_start = i;
            best_len = run;
        }
    }
    (best_start, best_len)
}

impl Ipv4Addr {
    /// Parse dotted-decimal text: four decimal octets, each without a
    /// leading zero (see `parse_ipv4`).
    pub fn parse(s: &str) -> (r: Result<Ipv4Addr, AddrParseError>)
        ensures
            match parse_ipv4(s@, 0, s@.len() as int) {
                Some(o) => r matches Ok(a) && a@ == o,
                None => r is Err,
            },
    {
        let v = chars_of(s);
        match parse_ipv4_at(&v, 0, v.len()) {
            Some(a) => Ok(a),
            None => Err(AddrParseError),
        }
    }
}

impl Ipv6Addr {
    /// Parse IPv6 text, with `::` compression and an embedded IPv4 tail
    /// (see `parse_ipv6`).
    pub fn parse(s: &str) -> (r: Result<Ipv6Addr, AddrParseError>)
        ensures
            match parse_ipv6(s@, 0, s@.len() as int) {
                Some(g) => r matches Ok(a) && a@ == g,
                None => r is Err,
            },
    {
        match parse_ipv6_str(s) {
            Some(a) => Ok(a),
            None => Err(AddrParseError),
        }
    }
}

impl std::str::FromStr for Ipv4Addr {
    type Err = AddrParseError;

    fn from_str(s: &str) -> (r: Result<Ipv4Addr, AddrParseError>)
        ensures
            match parse_ipv4(s@, 0, s@.len() as int) {
                Some(o) => r matches Ok(a) && a@ == o,
                None => r is Err,
            },
    {
        Ipv4Addr::parse(s)
    }
}

impl std::str::FromStr for Ipv6Addr {
    type Err = AddrParseError;

    fn from_str(s: &str) -> (r: Result<Ipv6Addr, AddrParseError>)
        ensures
            match parse_ipv6(s@, 0, s@.len() as int) {
                Some(g) => r matches Ok(a) && a@ == g,
                None => r is Err,
            },
    {
        Ipv6Addr::parse(s)
    }
}

} // verus!
