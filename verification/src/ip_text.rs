//! Reading back the text that renders an address: decimal and hex numbers,
//! dotted-decimal IPv4 and canonical IPv6.

use vstd::prelude::*;

use crate::canon::lemma_scan_is;
use crate::ip::{
    dec_digit, digits_value, groups_text, hex_digits_value, hex_group_at, hex_lower_digit,
    hex_text, ipv4_at, longest_zeros, not_dec, not_hex, octet_at, parse_ipv4, parse_ipv6,
    read_groups, v4_groups, v4_mapped, v4_text, v6_text, zero_run,
};
use crate::ip::lemma_hex_group_end;
use crate::parse::{hex_char, hex_val};
use crate::text::{decimal, digit_char, scan};

verus! {

/// The digit character of a value below 10 is a decimal digit worth it.
pub proof fn lemma_digit_char(d: nat)
    requires
        d < 10,
    ensures
        dec_digit(digit_char(d)),
        digit_char(d) as u32 == '0' as u32 + d,
        ((digit_char(d) as u32) - ('0' as u32)) as nat == d,
        (digit_char(d) == '0') == (d == 0),
{
    let b = (('0' as u8) + d) as u8;
    assert(b as u32 == 48 + d);
    assert((b as char) as u32 == b as u32);
}

/// Decimal text written at `s[i..]`: all digits, worth `n`, no leading zero,
/// and no longer than the number needs.
pub proof fn lemma_decimal_window(n: nat, s: Seq<char>, i: int)
    requires
        0 <= i,
        i + decimal(n).len() <= s.len(),
        s.subrange(i, i + decimal(n).len()) == decimal(n),
    ensures
        decimal(n).len() >= 1,
        forall|k: int| i <= k < i + decimal(n).len() ==> dec_digit(#[trigger] s[k]),
        digits_value(s, i, i + decimal(n).len()) == n,
        decimal(n).len() > 1 ==> s[i] != '0',
        n < 10 ==> decimal(n).len() == 1,
        n < 100 ==> decimal(n).len() <= 2,
        n < 1000 ==> decimal(n).len() <= 3,
        n < 10000 ==> decimal(n).len() <= 4,
        n < 100000 ==> decimal(n).len() <= 5,
        decimal(n).len() == 1 ==> n < 10,
    decreases n,
{
    let t = decimal(n);
    let e = i + t.len();
    if n < 10 {
        lemma_digit_char(n);
        assert(s[i] == t[0]);
        assert(digits_value(s, i, i) == 0);
    } else {
        let p = decimal(n / 10);
        assert(t == p.push(digit_char(n % 10)));
        assert(s.subrange(i, i + p.len()) =~= p) by {
            assert forall|k: int| 0 <= k < p.len() implies s.subrange(i, i + p.len())[k] == p[k] by {
                assert(s[i + k] == t[k]);
            }
        }
        lemma_decimal_window(n / 10, s, i);
        lemma_digit_char(n % 10);
        if p.len() == 1 {
            lemma_digit_char(n / 10);
            assert(p[0] == digit_char(n / 10));
        }
        assert(n < 100 ==> n / 10 < 10);
        assert(n < 1000 ==> n / 10 < 100);
        assert(n < 10000 ==> n / 10 < 1000);
        assert(n < 100000 ==> n / 10 < 10000);
        assert(s[e - 1] == t[t.len() - 1]);
        assert(s[i] == p[0]);
        assert(n / 10 * 10 + n % 10 == n);
    }
}

/// The octet written in decimal at `s[i..]`, followed by a non-digit or the
/// end, reads back as itself.
pub proof fn lemma_octet_text(x: u8, s: Seq<char>, i: int, hi: int)
    requires
        0 <= i,
        i + decimal(x as nat).len() <= hi <= s.len(),
        s.subrange(i, i + decimal(x as nat).len()) == decimal(x as nat),
        i + decimal(x as nat).len() == hi || !dec_digit(s[i + decimal(x as nat).len()]),
    ensures
        octet_at(s, i, hi) == Some((x, i + decimal(x as nat).len())),
{
    let e = i + decimal(x as nat).len();
    lemma_decimal_window(x as nat, s, i);
    assert forall|k: int| i <= k < e implies !not_dec()(#[trigger] s[k]) by {}
    lemma_scan_is(s, not_dec(), i, e, hi);
}

/// Dotted-decimal text reads back as the four octets.
pub proof fn lemma_v4_text(o: Seq<u8>, s: Seq<char>, i: int, hi: int)
    requires
        o.len() == 4,
        0 <= i,
        i + v4_text(o).len() <= hi <= s.len(),
        s.subrange(i, i + v4_text(o).len()) == v4_text(o),
        i + v4_text(o).len() == hi || !(dec_digit(s[i + v4_text(o).len()])),
    ensures
        ipv4_at(s, i, hi) == Some((o, i + v4_text(o).len())),
{
    reveal_strlit(".");
    let d0 = decimal(o[0] as nat);
    let d1 = decimal(o[1] as nat);
    let d2 = decimal(o[2] as nat);
    let d3 = decimal(o[3] as nat);
    let t = v4_text(o);
    assert(t == d0 + "."@ + d1 + "."@ + d2 + "."@ + d3);
    let e1 = i + d0.len();
    let e2 = e1 + 1 + d1.len();
    let e3 = e2 + 1 + d2.len();
    let e4 = e3 + 1 + d3.len();
    assert(e4 == i + t.len());
    assert(s.subrange(i, e1) =~= d0) by {
        assert forall|k: int| 0 <= k < d0.len() implies s.subrange(i, e1)[k] == d0[k] by {
            assert(s[i + k] == t[k]);
        }
    }
    assert(s.subrange(e1 + 1, e2) =~= d1) by {
        assert forall|k: int| 0 <= k < d1.len() implies s.subrange(e1 + 1, e2)[k] == d1[k] by {
            assert(s[e1 + 1 + k] == t[d0.len() + 1 + k]);
        }
    }
    assert(s.subrange(e2 + 1, e3) =~= d2) by {
        assert forall|k: int| 0 <= k < d2.len() implies s.subrange(e2 + 1, e3)[k] == d2[k] by {
            assert(s[e2 + 1 + k] == t[d0.len() + 1 + d1.len() + 1 + k]);
        }
    }
    assert(s.subrange(e3 + 1, e4) =~= d3) by {
        assert forall|k: int| 0 <= k < d3.len() implies s.subrange(e3 + 1, e4)[k] == d3[k] by {
            assert(s[e3 + 1 + k] == t[d0.len() + 1 + d1.len() + 1 + d2.len() + 1 + k]);
        }
    }
    assert(s[e1] == t[d0.len() as int]);
    assert(s[e2] == t[(d0.len() + 1 + d1.len()) as int]);
    assert(s[e3] == t[(d0.len() + 1 + d1.len() + 1 + d2.len()) as int]);
    lemma_octet_text(o[0], s, i, hi);
    lemma_octet_text(o[1], s, e1 + 1, hi);
    lemma_octet_text(o[2], s, e2 + 1, hi);
    lemma_octet_text(o[3], s, e3 + 1, hi);
    assert(seq![o[0], o[1], o[2], o[3]] =~= o);
}

/// Dotted-decimal text parses as the four octets.
pub proof fn lemma_parse_v4_text(o: Seq<u8>)
    requires
        o.len() == 4,
    ensures
        parse_ipv4(v4_text(o), 0, v4_text(o).len() as int) == Some(o),
{
    let t = v4_text(o);
    assert(t.subrange(0, t.len() as int) =~= t);
    lemma_v4_text(o, t, 0, t.len() as int);
}

/// The lowercase hex digit of a value below 16 is a hex digit worth it.
pub proof fn lemma_hex_lower_digit(d: nat)
    requires
        d < 16,
    ensures
        hex_char(hex_lower_digit(d)),
        hex_val(hex_lower_digit(d) as u8) == Some(d as u8),
        hex_lower_digit(d) != '.' && hex_lower_digit(d) != ':' && hex_lower_digit(d) != ']',
        dec_digit(hex_lower_digit(d)) == (d < 10),
{
    if d < 10 {
        let b = (('0' as u8) + d) as u8;
        assert(b as u32 == 48 + d);
        assert((b as char) as u32 == b as u32);
        let w = b as u32;
        assert(w < 128 ==> (w as u8) as u32 == w) by (bit_vector);
        assert((b as char) as u8 == b);
    } else {
        let b = (('a' as u8) + d - 10) as u8;
        assert(b as u32 == 97 + d - 10);
        assert((b as char) as u32 == b as u32);
        let w = b as u32;
        assert(w < 128 ==> (w as u8) as u32 == w) by (bit_vector);
        assert((b as char) as u8 == b);
    }
}

/// Hex text written at `s[i..]`: all hex digits, worth `n`, at most four
/// of them for a 16-bit value.
pub proof fn lemma_hex_text_window(n: nat, s: Seq<char>, i: int)
    requires
        0 <= i,
        i + hex_text(n).len() <= s.len(),
        s.subrange(i, i + hex_text(n).len()) == hex_text(n),
    ensures
        hex_text(n).len() >= 1,
        forall|k: int| i <= k < i + hex_text(n).len() ==> hex_char(#[trigger] s[k]) && s[k] != '.'
            && s[k] != ':' && s[k] != ']',
        hex_digits_value(s, i, i + hex_text(n).len()) == n,
        n < 16 ==> hex_text(n).len() == 1,
        n < 256 ==> hex_text(n).len() <= 2,
        n < 4096 ==> hex_text(n).len() <= 3,
        n < 65536 ==> hex_text(n).len() <= 4,
    decreases n,
{
    let t = hex_text(n);
    let e = i + t.len();
    if n < 16 {
        lemma_hex_lower_digit(n);
        assert(s[i] == t[0]);
        assert(hex_digits_value(s, i, i) == 0);
        assert(hex_val(s[i] as u8)->0 == n as u8);
        assert(hex_digits_value(s, i, i + 1) == 0 * 16 + (hex_val(s[i] as u8)->0 as nat));
    } else {
        let p = hex_text(n / 16);
        assert(t == p.push(hex_lower_digit(n % 16)));
        assert(s.subrange(i, i + p.len()) =~= p) by {
            assert forall|k: int| 0 <= k < p.len() implies s.subrange(i, i + p.len())[k] == p[k] by {
                assert(s[i + k] == t[k]);
            }
        }
        lemma_hex_text_window(n / 16, s, i);
        lemma_hex_lower_digit(n % 16);
        assert(s[e - 1] == t[t.len() - 1]);
        assert(hex_val(s[e - 1] as u8)->0 == (n % 16) as u8);
        assert(n / 16 * 16 + n % 16 == n);
        assert(hex_digits_value(s, i, e) == hex_digits_value(s, i, e - 1) * 16 + (hex_val(
            s[e - 1] as u8,
        )->0 as nat));
        assert(n < 256 ==> n / 16 < 16);
        assert(n < 4096 ==> n / 16 < 256);
        assert(n < 65536 ==> n / 16 < 4096);
    }
}

/// An IPv4 address starts with a run of decimal digits followed by `.`.
pub proof fn lemma_ipv4_needs_dot(s: Seq<char>, j: int, hi: int)
    requires
        ipv4_at(s, j, hi) is Some,
    ensures
        scan(s, not_dec(), j, hi) < hi,
        s[scan(s, not_dec(), j, hi)] == '.',
{
}

/// A 16-bit group written in hex at `s[j..]` and followed by the end, or by
/// a character that is neither a hex digit nor `.`, reads back as itself and
/// is no IPv4 address.
pub proof fn lemma_group_text(g: u16, s: Seq<char>, j: int, hi: int)
    requires
        0 <= j,
        j + hex_text(g as nat).len() <= hi <= s.len(),
        s.subrange(j, j + hex_text(g as nat).len()) == hex_text(g as nat),
        j + hex_text(g as nat).len() == hi || (!hex_char(s[j + hex_text(g as nat).len()]) && s[j
            + hex_text(g as nat).len()] != '.'),
    ensures
        hex_group_at(s, j, hi) == Some((g, j + hex_text(g as nat).len())),
        ipv4_at(s, j, hi) is None,
{
    let e = j + hex_text(g as nat).len();
    lemma_hex_text_window(g as nat, s, j);
    assert forall|k: int| j <= k < e implies !not_hex()(#[trigger] s[k]) by {}
    lemma_scan_is(s, not_hex(), j, e, hi);
    crate::text::lemma_scan(s, not_dec(), j, hi);
    let d = scan(s, not_dec(), j, hi);
    if ipv4_at(s, j, hi) is Some {
        lemma_ipv4_needs_dot(s, j, hi);
        if d < e {
            assert(s[d] != '.');
        } else {
            assert(forall|k: int| j <= k < d ==> dec_digit(#[trigger] s[k]));
            assert(hex_char(s[e]) || !hex_char(s[e]));
            if d > e {
                assert(dec_digit(s[e]));
                assert(hex_char(s[e])) by {
                    assert(crate::text::is_ascii(s[e]));
                }
            }
        }
    }
}

/// Writing out groups is writing the first, then `:` and the rest.
pub proof fn lemma_groups_text_cons(a: u16, rest: Seq<u16>)
    ensures
        groups_text(seq![a] + rest) == if rest.len() == 0 {
            hex_text(a as nat)
        } else {
            hex_text(a as nat) + ":"@ + groups_text(rest)
        },
    decreases rest.len(),
{
    let gs = seq![a] + rest;
    if rest.len() == 0 {
        assert(gs.len() == 1);
    } else if rest.len() == 1 {
        assert(gs.drop_last() =~= seq![a]);
        assert(gs.last() == rest[0]);
        assert(groups_text(seq![a]) == hex_text(a as nat));
        assert(groups_text(rest) == hex_text(rest[0] as nat));
        assert(groups_text(gs) == groups_text(gs.drop_last()) + ":"@ + hex_text(gs.last() as nat));
    } else {
        lemma_groups_text_cons(a, rest.drop_last());
        assert(gs.drop_last() =~= seq![a] + rest.drop_last());
        assert(gs.last() == rest.last());
        assert(groups_text(rest) == groups_text(rest.drop_last()) + ":"@ + hex_text(
            rest.last() as nat,
        ));
        assert(groups_text(gs) =~= hex_text(a as nat) + ":"@ + groups_text(rest));
    }
}

/// What comes before the next group: nothing for the first, else `:`.
pub open spec fn group_sep(acc: Seq<u16>) -> Seq<char> {
    if acc.len() == 0 {
        Seq::empty()
    } else {
        ":"@
    }
}

/// Reading written-out groups: when `s[i..]` holds the groups `gs` written
/// out (after a `:` when groups were read before), followed by the end or by
/// a character that is neither a hex digit nor `.`, `read_groups` takes them
/// all.
#[verifier::rlimit(40)]
pub proof fn lemma_read_groups_text(
    s: Seq<char>,
    i: int,
    hi: int,
    limit: nat,
    acc: Seq<u16>,
    gs: Seq<u16>,
)
    requires
        0 <= i,
        gs.len() > 0,
        acc.len() + gs.len() <= limit,
        i + (group_sep(acc) + groups_text(gs)).len() <= hi <= s.len(),
        s.subrange(i, i + (group_sep(acc) + groups_text(gs)).len()) == group_sep(acc)
            + groups_text(gs),
        i + (group_sep(acc) + groups_text(gs)).len() == hi || (!hex_char(
            s[i + (group_sep(acc) + groups_text(gs)).len()],
        ) && s[i + (group_sep(acc) + groups_text(gs)).len()] != '.'),
    ensures
        read_groups(s, i, hi, limit, acc) == read_groups(
            s,
            i + (group_sep(acc) + groups_text(gs)).len(),
            hi,
            limit,
            acc + gs,
        ),
    decreases gs.len(),
{
    reveal_strlit(":");
    let a = gs[0];
    let rest = gs.skip(1);
    assert(gs =~= seq![a] + rest);
    lemma_groups_text_cons(a, rest);
    let w = group_sep(acc) + groups_text(gs);
    let j = if acc.len() == 0 {
        i
    } else {
        i + 1
    };
    let h = hex_text(a as nat);
    let l = h.len() as int;
    assert(j - i == group_sep(acc).len());
    if acc.len() > 0 {
        assert(s[i] == w[0]);
    }
    assert(s.subrange(j, j + l) =~= h) by {
        assert forall|k: int| 0 <= k < l implies s.subrange(j, j + l)[k] == h[k] by {
            assert(s[j + k] == w[j - i + k]);
        }
    }
    if rest.len() > 0 {
        assert(s[j + l] == w[j - i + l]);
        assert(s[j + l] == ':');
    }
    lemma_group_text(a, s, j, hi);
    assert(read_groups(s, i, hi, limit, acc) == read_groups(s, j + l, hi, limit, acc.push(a)));
    if rest.len() > 0 {
        let acc2 = acc.push(a);
        let w2 = group_sep(acc2) + groups_text(rest);
        assert(j + l + w2.len() == i + w.len());
        assert(s.subrange(j + l, j + l + w2.len()) =~= w2) by {
            assert forall|k: int| 0 <= k < w2.len() implies s.subrange(j + l, j + l + w2.len())[k]
                == w2[k] by {
                assert(s[j + l + k] == w[j - i + l + k]);
            }
        }
        lemma_read_groups_text(s, j + l, hi, limit, acc2, rest);
        assert(acc2 + rest =~= acc + gs);
    } else {
        assert(acc.push(a) =~= acc + gs);
    }
}

/// Reading stops at `::` or at the end once some groups are read.
pub proof fn lemma_read_groups_stop(s: Seq<char>, i: int, hi: int, limit: nat, acc: Seq<u16>)
    requires
        0 <= i <= hi <= s.len(),
        i == hi || (i + 1 < hi && s[i] == ':' && s[i + 1] == ':'),
    ensures
        read_groups(s, i, hi, limit, acc) == (acc, i, false),
{
    if acc.len() < limit && (acc.len() == 0 || (i < hi && s[i] == ':')) {
        let j = if acc.len() == 0 {
            i
        } else {
            i + 1
        };
        assert(j == hi || s[j] == ':');
        crate::text::lemma_scan(s, not_dec(), j, hi);
        crate::text::lemma_scan(s, not_hex(), j, hi);
        assert(scan(s, not_dec(), j, hi) == j);
        assert(scan(s, not_hex(), j, hi) == j);
    }
}

/// A run of zero groups is made of zero groups.
pub proof fn lemma_zero_run(g: Seq<u16>, i: int)
    requires
        0 <= i,
    ensures
        i + zero_run(g, i) <= g.len() || zero_run(g, i) == 0,
        forall|k: int| i <= k < i + zero_run(g, i) ==> g[k] == 0,
    decreases g.len() - i,
{
    if 0 <= i < g.len() && g[i] == 0 {
        lemma_zero_run(g, i + 1);
    }
}

/// The longest run found is a run of zero groups.
pub proof fn lemma_longest_zeros(g: Seq<u16>, i: int)
    requires
        0 <= i,
    ensures
        longest_zeros(g, i).1 > 0 ==> i <= longest_zeros(g, i).0 && longest_zeros(g, i).0
            + longest_zeros(g, i).1 <= g.len() && forall|k: int|
            longest_zeros(g, i).0 <= k < longest_zeros(g, i).0 + longest_zeros(g, i).1 ==> g[k]
                == 0,
    decreases g.len() - i,
{
    if 0 <= i < g.len() {
        lemma_longest_zeros(g, i + 1);
        lemma_zero_run(g, i);
    }
}

/// Canonical IPv6 text, written at `s[i..hi]`, parses as the address.
pub proof fn lemma_v6_text(g: Seq<u16>, s: Seq<char>, i: int, hi: int)
    requires
        g.len() == 8,
        0 <= i <= hi <= s.len(),
        s.subrange(i, hi) == v6_text(g),
    ensures
        parse_ipv6(s, i, hi) == Some(g),
{
    if v4_mapped(g) {
        lemma_v6_mapped_text(g, s, i, hi);
    } else {
        let (st, ln) = longest_zeros(g, 0);
        if ln > 1 {
            lemma_v6_compressed_text(g, s, i, hi);
        } else {
            let t = groups_text(g);
            assert(s.subrange(i, hi) == t);
            assert(group_sep(Seq::<u16>::empty()) + t =~= t);
            lemma_read_groups_text(s, i, hi, 8, Seq::empty(), g);
            assert(Seq::<u16>::empty() + g =~= g);
        }
    }
}

/// The IPv4-mapped form `::ffff:a.b.c.d` parses as the address.
pub proof fn lemma_v6_mapped_text(g: Seq<u16>, s: Seq<char>, i: int, hi: int)
    requires
        g.len() == 8,
        0 <= i <= hi <= s.len(),
        v4_mapped(g),
        s.subrange(i, hi) == v6_text(g),
    ensures
        parse_ipv6(s, i, hi) == Some(g),
{
    reveal_strlit("::ffff:");
    reveal_strlit(":");
    let o = seq![(g[6] / 256) as u8, (g[6] % 256) as u8, (g[7] / 256) as u8, (g[7] % 256) as u8];
    let vt = v4_text(o);
    let t = v6_text(g);
    assert(t == "::ffff:"@ + vt);
    assert(t.len() == hi - i);
    assert(t[0] == ':' && t[1] == ':' && t[6] == ':');
    assert(s[i] == s.subrange(i, hi)[0]);
    assert(s[i + 1] == s.subrange(i, hi)[1]);
    assert(s[i + 6] == s.subrange(i, hi)[6]);
    assert(s[i] == ':' && s[i + 1] == ':');
    // the empty head
    lemma_read_groups_stop(s, i, hi, 8, Seq::empty());
    // `ffff`
    assert(hex_text(65535) =~= seq!['f', 'f', 'f', 'f']) by {
        reveal_with_fuel(hex_text, 4);
        assert(hex_lower_digit(15) == 'f');
    }
    assert(s.subrange(i + 2, i + 6) =~= hex_text(65535)) by {
        assert forall|k: int| 0 <= k < 4 implies s.subrange(i + 2, i + 6)[k] == hex_text(65535)[k] by {
            assert(s[i + 2 + k] == t[2 + k]);
        }
    }
    assert(s[i + 6] == ':');
    lemma_group_text(0xffff, s, i + 2, hi);
    // the IPv4 tail
    assert(s.subrange(i + 7, hi) =~= vt) by {
        assert forall|k: int| 0 <= k < vt.len() implies s.subrange(i + 7, hi)[k] == vt[k] by {
            assert(s[i + 7 + k] == t[7 + k]);
        }
    }
    lemma_v4_text(o, s, i + 7, hi);
    let tail = seq![0xffffu16].push(0u16);
    assert(v4_groups(o) =~= seq![g[6], g[7]]) by {
        assert((g[6] / 256) * 256 + g[6] % 256 == g[6]);
        assert((g[7] / 256) * 256 + g[7] % 256 == g[7]);
    }
    assert(read_groups(s, i + 2, hi, 7, Seq::empty()) == read_groups(
        s,
        i + 6,
        hi,
        7,
        Seq::<u16>::empty().push(0xffffu16),
    ));
    assert(Seq::<u16>::empty().push(0xffffu16) =~= seq![0xffffu16]);
    assert(i + 7 + vt.len() == hi);
    let r = read_groups(s, i + 2, hi, 7, Seq::empty());
    assert(r == (seq![0xffffu16] + v4_groups(o), hi, true));
    assert(Seq::<u16>::empty() + Seq::new(5, |k: int| 0u16) + (seq![0xffffu16] + v4_groups(o))
        =~= g);
}

/// The head of the `::` form: the groups before the run, ending at `::`.
pub proof fn lemma_v6_head(g: Seq<u16>, s: Seq<char>, i: int, hi: int)
    requires
        g.len() == 8,
        0 <= i <= hi <= s.len(),
        !v4_mapped(g),
        longest_zeros(g, 0).1 > 1,
        s.subrange(i, hi) == v6_text(g),
    ensures
        longest_zeros(g, 0).0 + longest_zeros(g, 0).1 <= 8,
        read_groups(s, i, hi, 8, Seq::empty()) == (
            g.subrange(0, longest_zeros(g, 0).0),
            i + groups_text(g.subrange(0, longest_zeros(g, 0).0)).len(),
            false,
        ),
        i + groups_text(g.subrange(0, longest_zeros(g, 0).0)).len() + 2 <= hi,
        s[i + groups_text(g.subrange(0, longest_zeros(g, 0).0)).len()] == ':',
        s[i + groups_text(g.subrange(0, longest_zeros(g, 0).0)).len() + 1] == ':',
{
    reveal_strlit("::");
    let (st, ln) = longest_zeros(g, 0);
    lemma_longest_zeros(g, 0);
    let head = g.subrange(0, st);
    let tail = g.subrange(st + ln, 8);
    let g1 = groups_text(head);
    let g2 = groups_text(tail);
    let t = v6_text(g);
    assert(t == g1 + "::"@ + g2);
    let p = i + g1.len();
    assert(t.len() == hi - i);
    assert(s[p] == ':' && s[p + 1] == ':') by {
        assert(s[p] == s.subrange(i, hi)[g1.len() as int]);
        assert(s[p + 1] == s.subrange(i, hi)[g1.len() + 1int]);
    }
    if st > 0 {
        assert(s.subrange(i, p) =~= group_sep(Seq::<u16>::empty()) + g1) by {
            assert forall|k: int| 0 <= k < g1.len() implies s.subrange(i, p)[k] == g1[k] by {
                assert(s[i + k] == s.subrange(i, hi)[k]);
            }
        }
        lemma_read_groups_text(s, i, hi, 8, Seq::empty(), head);
        assert(Seq::<u16>::empty() + head =~= head);
        lemma_read_groups_stop(s, p, hi, 8, head);
    } else {
        assert(g1 =~= Seq::<char>::empty());
        assert(head =~= Seq::<u16>::empty());
        crate::text::lemma_scan(s, not_dec(), i, hi);
        crate::text::lemma_scan(s, not_hex(), i, hi);
        assert(scan(s, not_dec(), i, hi) == i);
        assert(scan(s, not_hex(), i, hi) == i);
    }
}

/// The tail of the `::` form: the groups after the run, to the end.
pub proof fn lemma_v6_tail(g: Seq<u16>, s: Seq<char>, i: int, q: int, hi: int)
    requires
        g.len() == 8,
        0 <= i <= q <= hi <= s.len(),
        !v4_mapped(g),
        longest_zeros(g, 0).1 > 1,
        longest_zeros(g, 0).0 + longest_zeros(g, 0).1 <= 8,
        s.subrange(q, hi) == groups_text(g.subrange(longest_zeros(g, 0).0 + longest_zeros(g, 0).1, 8)),
    ensures
        read_groups(s, q, hi, (7 - longest_zeros(g, 0).0) as nat, Seq::empty()) == (
            g.subrange(longest_zeros(g, 0).0 + longest_zeros(g, 0).1, 8),
            hi,
            false,
        ),
{
    let (st, ln) = longest_zeros(g, 0);
    lemma_longest_zeros(g, 0);
    let tail = g.subrange(st + ln, 8);
    let g2 = groups_text(tail);
    if st + ln < 8 {
        assert(s.subrange(q, hi) =~= group_sep(Seq::<u16>::empty()) + g2);
        lemma_read_groups_text(s, q, hi, (7 - st) as nat, Seq::empty(), tail);
        assert(Seq::<u16>::empty() + tail =~= tail);
        lemma_read_groups_stop(s, hi, hi, (7 - st) as nat, tail);
    } else {
        assert(tail =~= Seq::<u16>::empty());
        assert(g2.len() == 0);
        assert(q == hi);
        lemma_read_groups_stop(s, hi, hi, (7 - st) as nat, Seq::<u16>::empty());
    }
}

/// The form with `::` for the longest zero run parses as the address.
pub proof fn lemma_v6_compressed_text(g: Seq<u16>, s: Seq<char>, i: int, hi: int)
    requires
        g.len() == 8,
        0 <= i <= hi <= s.len(),
        !v4_mapped(g),
        longest_zeros(g, 0).1 > 1,
        s.subrange(i, hi) == v6_text(g),
    ensures
        parse_ipv6(s, i, hi) == Some(g),
{
    reveal_strlit("::");
    let (st, ln) = longest_zeros(g, 0);
    lemma_longest_zeros(g, 0);
    lemma_v6_head(g, s, i, hi);
    let head = g.subrange(0, st);
    let tail = g.subrange(st + ln, 8);
    let g1 = groups_text(head);
    let g2 = groups_text(tail);
    let t = v6_text(g);
    assert(t == g1 + "::"@ + g2);
    let p = i + g1.len();
    let q = p + 2;
    assert(t.len() == hi - i);
    assert(s.subrange(q, hi) =~= g2) by {
        assert forall|k: int| 0 <= k < g2.len() implies s.subrange(q, hi)[k] == g2[k] by {
            assert(s[q + k] == s.subrange(i, hi)[g1.len() + 2 + k]);
        }
    }
    lemma_v6_tail(g, s, i, q, hi);
    assert(head + Seq::new((8 - head.len() - tail.len()) as nat, |k: int| 0u16) + tail =~= g);
}

/// `read_groups` never reads past its limit.
pub proof fn lemma_read_groups_len(s: Seq<char>, i: int, hi: int, limit: nat, acc: Seq<u16>)
    requires
        acc.len() <= limit,
    ensures
        acc.len() <= read_groups(s, i, hi, limit, acc).0.len() <= limit,
    decreases limit - acc.len(),
{
    if acc.len() < limit {
        let k = acc.len();
        let has_sep = k == 0 || (i < hi && s[i] == ':');
        let j = if k == 0 {
            i
        } else {
            i + 1
        };
        if has_sep && k + 1 < limit && ipv4_at(s, j, hi) is Some {
        } else if has_sep && hex_group_at(s, j, hi) is Some {
            let (g, e) = hex_group_at(s, j, hi)->0;
            lemma_read_groups_len(s, e, hi, limit, acc.push(g));
        }
    }
}

/// A parsed IPv6 address has eight groups.
pub proof fn lemma_parse_ipv6_len(s: Seq<char>, lo: int, hi: int)
    requires
        parse_ipv6(s, lo, hi) is Some,
    ensures
        parse_ipv6(s, lo, hi)->0.len() == 8,
{
    lemma_read_groups_len(s, lo, hi, 8, Seq::empty());
    let (head, p, v4) = read_groups(s, lo, hi, 8, Seq::empty());
    if head.len() != 8 {
        lemma_read_groups_len(s, p + 2, hi, (7 - head.len()) as nat, Seq::empty());
    }
}

/// IPv6 text holds a `:`.
pub proof fn lemma_ipv6_needs_colon(s: Seq<char>, lo: int, hi: int)
    requires
        0 <= lo <= hi <= s.len(),
        forall|j: int| lo <= j < hi ==> s[j] != ':',
    ensures
        parse_ipv6(s, lo, hi) is None,
{
    let (head, p, v4) = read_groups(s, lo, hi, 8, Seq::empty());
    if !(ipv4_at(s, lo, hi) is Some) {
        if hex_group_at(s, lo, hi) is Some {
            let (g, e) = hex_group_at(s, lo, hi)->0;
            lemma_hex_group_end(s, lo, hi);
            assert(read_groups(s, e, hi, 8, seq![g]) == (seq![g], e, false)) by {
                assert(!(e < hi && s[e] == ':'));
            }
            assert(Seq::<u16>::empty().push(g) =~= seq![g]);
        }
    }
}

/// Canonical IPv6 text holds only hex digits, `:` and `.`.
pub proof fn lemma_v6_text_chars(g: Seq<u16>)
    requires
        g.len() == 8,
    ensures
        forall|k: int|
            0 <= k < v6_text(g).len() ==> #[trigger] v6_text(g)[k] != ']' && v6_text(g)[k] != '['
                && v6_text(g)[k] != '/' && v6_text(g)[k] != ';' && v6_text(g)[k] != '?'
                && v6_text(g)[k] != '#' && v6_text(g)[k] != '@',
        v6_text(g).len() > 0,
{
    reveal_strlit("::ffff:");
    reveal_strlit("::");
    reveal_strlit(":");
    reveal_strlit(".");
    if v4_mapped(g) {
        let o = seq![(g[6] / 256) as u8, (g[6] % 256) as u8, (g[7] / 256) as u8, (g[7] % 256) as u8];
        lemma_v4_text_chars(o);
    } else {
        let (st, ln) = longest_zeros(g, 0);
        lemma_longest_zeros(g, 0);
        if ln > 1 {
            lemma_groups_text_chars(g.subrange(0, st));
            lemma_groups_text_chars(g.subrange(st + ln, 8));
        } else {
            lemma_groups_text_chars(g);
        }
    }
}

/// Written-out groups hold only hex digits and `:`.
pub proof fn lemma_groups_text_chars(g: Seq<u16>)
    ensures
        forall|k: int|
            0 <= k < groups_text(g).len() ==> hex_char(#[trigger] groups_text(g)[k])
                || groups_text(g)[k] == ':',
        g.len() > 0 ==> groups_text(g).len() > 0,
    decreases g.len(),
{
    reveal_strlit(":");
    if g.len() == 1 {
        let t = hex_text(g[0] as nat);
        assert(t.subrange(0, t.len() as int) =~= t);
        lemma_hex_text_window(g[0] as nat, t, 0);
    } else if g.len() > 1 {
        lemma_groups_text_chars(g.drop_last());
        let t = hex_text(g.last() as nat);
        assert(t.subrange(0, t.len() as int) =~= t);
        lemma_hex_text_window(g.last() as nat, t, 0);
        let a = groups_text(g.drop_last());
        assert(groups_text(g) == a + ":"@ + t);
        assert forall|k: int| 0 <= k < groups_text(g).len() implies hex_char(
            #[trigger] groups_text(g)[k],
        ) || groups_text(g)[k] == ':' by {
            if k < a.len() {
                assert(groups_text(g)[k] == a[k]);
            } else if k > a.len() {
                assert(groups_text(g)[k] == t[k - a.len() - 1]);
            }
        }
    }
}

/// Dotted-decimal text holds only digits and `.`.
pub proof fn lemma_v4_text_chars(o: Seq<u8>)
    requires
        o.len() == 4,
    ensures
        forall|k: int|
            0 <= k < v4_text(o).len() ==> dec_digit(#[trigger] v4_text(o)[k]) || v4_text(o)[k]
                == '.',
        v4_text(o).len() > 0,
{
    let t = v4_text(o);
    assert(t.subrange(0, t.len() as int) =~= t);
    lemma_v4_text(o, t, 0, t.len() as int);
    reveal_strlit(".");
    let d0 = decimal(o[0] as nat);
    let d1 = decimal(o[1] as nat);
    let d2 = decimal(o[2] as nat);
    let d3 = decimal(o[3] as nat);
    lemma_decimal_self(o[0] as nat);
    lemma_decimal_self(o[1] as nat);
    lemma_decimal_self(o[2] as nat);
    lemma_decimal_self(o[3] as nat);
    assert(t == d0 + "."@ + d1 + "."@ + d2 + "."@ + d3);
    assert forall|k: int| 0 <= k < t.len() implies dec_digit(#[trigger] t[k]) || t[k] == '.' by {
        let l0 = d0.len() as int;
        let l1 = d1.len() as int;
        let l2 = d2.len() as int;
        if k < l0 {
            assert(t[k] == d0[k]);
        } else if k == l0 {
        } else if k < l0 + 1 + l1 {
            assert(t[k] == d1[k - l0 - 1]);
        } else if k == l0 + 1 + l1 {
        } else if k < l0 + 2 + l1 + l2 {
            assert(t[k] == d2[k - l0 - 2 - l1]);
        } else if k == l0 + 2 + l1 + l2 {
        } else {
            assert(t[k] == d3[k - l0 - 3 - l1 - l2]);
        }
    }
}

/// Decimal text is made of decimal digits.
pub proof fn lemma_decimal_self(n: nat)
    ensures
        forall|k: int| 0 <= k < decimal(n).len() ==> dec_digit(#[trigger] decimal(n)[k]),
        decimal(n).len() >= 1,
{
    let t = decimal(n);
    assert(t.subrange(0, t.len() as int) =~= t);
    lemma_decimal_window(n, t, 0);
}

} // verus!
