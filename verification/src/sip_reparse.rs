//! Reading back a written-out SIP URI, piece by piece: what each section
//! parser finds in the text that `sip_text` writes.

use vstd::prelude::*;

use crate::canon::{lemma_scan_is, none_in};
use crate::host::{HostView, host_at, host_stop, host_text, host_valid, lemma_host_text_at};
use crate::ip::dec_digit;
use crate::ip_text::lemma_decimal_window;
use crate::params::{
    HeaderV, ParamKind, ParamV, header_section, headers_text, kind_set, lenient_params,
    lenient_segment, params_text,
};
use crate::parse::{char_allowed, hex_char};
use crate::reparse::{lemma_decode_excludes, lemma_decode_nonempty, stable_param};
use crate::parse::{CharSet, is_char, pct_decode};
use crate::reparse::{
    joined_headers, lemma_headers_text_joined, lemma_lenient_headers_reparse,
    lemma_lenient_params_reparse, lemma_params_text_cons, lemma_params_text_head, stable_headers,
    stable_params,
};
use crate::sip_uri::{
    Scheme, SipView, fragment_section, hostport_parts, parse_sip, port_section, port_stops,
    port_text, port_value, scheme_name, scheme_of, sip_rest, sip_text, tagged, tail_section,
    userinfo_parts, userinfo_text, with_hostport,
};
use crate::parse::{userinfo_at, userinfo_stops, lemma_userinfo_at_bounds};
use crate::text::{decimal, scan};
use crate::warning::ParseWarning;

verus! {

/// No parameter name or value satisfies `p`.
pub open spec fn params_avoid(ps: Seq<ParamV>, p: spec_fn(char) -> bool) -> bool {
    forall|j: int|
        0 <= j < ps.len() ==> none_in(#[trigger] ps[j].0, p) && (ps[j].1 matches Some(v)
            ==> none_in(v, p))
}

/// Written-out parameters avoid what names and values avoid, as long as
/// it is neither `;` nor `=`.
pub proof fn lemma_params_text_avoids(ps: Seq<ParamV>, c: char)
    requires
        params_avoid(ps, is_char(c)),
        c != ';' && c != '=',
    ensures
        none_in(params_text(ps), is_char(c)),
    decreases ps.len(),
{
    if ps.len() > 0 {
        let p = ps.last();
        assert(params_avoid(ps.drop_last(), is_char(c))) by {
            assert forall|j: int| 0 <= j < ps.drop_last().len() implies none_in(
                #[trigger] ps.drop_last()[j].0,
                is_char(c),
            ) && (ps.drop_last()[j].1 matches Some(v) ==> none_in(v, is_char(c))) by {
                assert(ps.drop_last()[j] == ps[j]);
            }
        }
        lemma_params_text_avoids(ps.drop_last(), c);
        let a = params_text(ps.drop_last());
        let b = crate::params::param_text(p);
        assert(params_text(ps) == a + b);
        assert(none_in(p.0, is_char(c)));
        assert forall|k: int| 0 <= k < a.len() + b.len() implies !is_char(c)(
            #[trigger] params_text(ps)[k],
        ) by {
            if k < a.len() {
                assert(params_text(ps)[k] == a[k]);
            } else {
                let m = k - a.len();
                assert(params_text(ps)[k] == b[m]);
                if 1 <= m < 1 + p.0.len() {
                    assert(b[m] == p.0[m - 1]);
                } else if m > 1 + p.0.len() {
                    let v = p.1->Some_0;
                    assert(b[m] == v[m - 2 - p.0.len()]);
                }
            }
        }
    }
}

/// Written-out headers hold none of `# @ ;` when no header does.
pub proof fn lemma_headers_text_avoids(hs: Seq<HeaderV>, c: char)
    requires
        forall|j: int|
            0 <= j < hs.len() ==> none_in(#[trigger] hs[j].0, is_char(c)) && none_in(
                hs[j].1,
                is_char(c),
            ),
        c != '?' && c != '&' && c != '=',
    ensures
        none_in(headers_text(hs), is_char(c)),
    decreases hs.len(),
{
    if hs.len() > 0 {
        let h = hs.last();
        lemma_headers_text_avoids(hs.drop_last(), c);
        let a = headers_text(hs.drop_last());
        let sep = if hs.len() == 1 {
            seq!['?']
        } else {
            seq!['&']
        };
        let b = sep + h.0 + seq!['='] + h.1;
        assert(headers_text(hs) == a + b);
        assert forall|k: int| 0 <= k < a.len() + b.len() implies !is_char(c)(
            #[trigger] headers_text(hs)[k],
        ) by {
            if k < a.len() {
                assert(headers_text(hs)[k] == a[k]);
            } else {
                let m = k - a.len();
                assert(headers_text(hs)[k] == b[m]);
                if 1 <= m < 1 + h.0.len() {
                    assert(b[m] == h.0[m - 1]);
                } else if m > 1 + h.0.len() {
                    assert(b[m] == h.1[m - 2 - h.0.len()]);
                }
            }
        }
    }
}

/// The port written at `t[c..]` and followed by the end or by `; ? #` reads
/// back as itself.
pub proof fn lemma_port_reparse(
    t: Seq<char>,
    c: int,
    n: int,
    port: Option<u16>,
    w: Seq<ParseWarning>,
)
    requires
        0 <= c,
        c + port_text(port).len() <= n <= t.len(),
        t.subrange(c, c + port_text(port).len()) == port_text(port),
        c + port_text(port).len() == n || t[c + port_text(port).len()] == ';' || t[c
            + port_text(port).len()] == '?' || t[c + port_text(port).len()] == '#',
    ensures
        port_section(t, c, n, w) matches Ok((p2, a2, w2)) && p2 == port && a2 == c + port_text(
            port,
        ).len(),
{
    reveal_strlit(":");
    match port {
        Some(p) => {
            let d = decimal(p as nat);
            let e = c + 1 + d.len();
            assert(port_text(port) == ":"@ + d);
            assert(t[c] == port_text(port)[0]);
            assert(t.subrange(c + 1, e) =~= d) by {
                assert forall|k: int| 0 <= k < d.len() implies t.subrange(c + 1, e)[k] == d[k] by {
                    assert(t[c + 1 + k] == t.subrange(c, e)[1 + k]);
                }
            }
            lemma_decimal_window(p as nat, t, c + 1);
            assert forall|k: int| c + 1 <= k < e implies !port_stops()(#[trigger] t[k]) by {
                assert(dec_digit(t[k]));
            }
            lemma_scan_is(t, port_stops(), c + 1, e, n);
            assert(dec_digit(t[c + 1]));
            assert(port_value(t, c + 1, e) == Some(p));
        },
        None => {
            assert(port_text(port).len() == 0);
        },
    }
}

/// The fragment written at `t[e..n]` after text without `#` reads back as
/// itself.
pub proof fn lemma_fragment_reparse(
    t: Seq<char>,
    a: int,
    e: int,
    n: int,
    f: Option<Seq<char>>,
    w: Seq<ParseWarning>,
)
    requires
        0 <= a <= e <= n == t.len(),
        forall|k: int| a <= k < e ==> t[k] != '#',
        t.subrange(e, n) == tagged("#"@, f),
        f matches Some(x) ==> x.len() > 0,
    ensures
        fragment_section(t, a, n, w).0 == e,
        fragment_section(t, a, n, w).1 == f,
{
    reveal_strlit("#");
    assert(t.subrange(e, n).len() == n - e);
    match f {
        Some(x) => {
            assert(tagged("#"@, f) == "#"@ + x);
            assert(n - e == 1 + x.len());
            assert(t[e] == t.subrange(e, n)[0]);
            lemma_scan_is(t, is_char('#'), a, e, n);
            assert(t.subrange(e + 1, n) =~= x) by {
                assert forall|k: int| 0 <= k < x.len() implies t.subrange(e + 1, n)[k] == x[k] by {
                    assert(t[e + 1 + k] == t.subrange(e, n)[1 + k]);
                }
            }
        },
        None => {
            assert(tagged("#"@, f).len() == 0);
            assert(e == n);
            lemma_scan_is(t, is_char('#'), a, n, n);
        },
    }
}

/// Parameters and headers written at `t[a..e]` read back as themselves.
#[verifier::rlimit(60)]
#[verifier::spinoff_prover]
pub proof fn lemma_tail_reparse(
    t: Seq<char>,
    a: int,
    e: int,
    ps: Seq<ParamV>,
    hs: Seq<HeaderV>,
    w: Seq<ParseWarning>,
)
    requires
        0 <= a <= e <= t.len(),
        t.subrange(a, e) == params_text(ps) + headers_text(hs),
        stable_params(ps, CharSet::Param),
        params_avoid(ps, is_char('?')),
        stable_headers(hs),
    ensures
        tail_section(t, a, e, w) matches Ok((ps2, hs2, w2)) && ps2 == ps && hs2 == hs,
{
    reveal_strlit("header: ");
    let pt = params_text(ps);
    let ht = headers_text(hs);
    let q = a + pt.len();
    assert((pt + ht).len() == e - a);
    assert forall|k: int| a <= k < e implies t[k] == (pt + ht)[k - a] by {
        assert(t[k] == t.subrange(a, e)[k - a]);
    }
    if hs.len() > 0 {
        lemma_headers_text_joined(hs);
        let j = joined_headers(hs);
        assert(ht == seq!['?'] + j);
        assert(t[q] == (pt + ht)[pt.len() as int]);
        assert(t[q] == '?');
        assert(t.subrange(q + 1, e) =~= j) by {
            assert forall|k: int| 0 <= k < j.len() implies t.subrange(q + 1, e)[k] == j[k] by {
                assert(t[q + 1 + k] == (pt + ht)[pt.len() + 1 + k]);
            }
        }
        assert(j.len() > 0) by {
            crate::reparse::lemma_joined_cons(hs[0], hs.skip(1));
            assert(hs =~= seq![hs[0]] + hs.skip(1));
            assert(stable_headers(hs));
            assert(hs[0].0.len() > 0);
        }
    } else {
        assert(ht =~= Seq::<char>::empty());
    }
    if ps.len() > 0 {
        lemma_params_text_head(ps);
        assert(t[a] == ';');
        lemma_params_text_avoids(ps, '?');
        assert forall|k: int| a + 1 <= k < q implies !is_char('?')(#[trigger] t[k]) by {
            assert(t[k] == pt[k - a]);
        }
        lemma_scan_is(t, is_char('?'), a + 1, q, e);
        assert(t.subrange(a, q) =~= pt) by {
            assert forall|k: int| 0 <= k < pt.len() implies t.subrange(a, q)[k] == pt[k] by {
                assert(t[a + k] == (pt + ht)[k]);
            }
        }
        lemma_lenient_params_reparse(t, a + 1, q, ParamKind::Uri, ps, Seq::empty(), w);
        assert(Seq::<ParamV>::empty() + ps =~= ps);
        if hs.len() > 0 {
            let w1 = lenient_params(t, a + 1, q, ParamKind::Uri, Seq::empty(), w).1;
            lemma_lenient_headers_reparse(t, q + 1, e, hs, Seq::empty(), w1);
            assert(Seq::<HeaderV>::empty() + hs =~= hs);
        }
    } else {
        assert(pt =~= Seq::<char>::empty());
        if hs.len() > 0 {
            lemma_lenient_headers_reparse(t, a + 1, e, hs, Seq::empty(), w);
            assert(Seq::<HeaderV>::empty() + hs =~= hs);
        }
    }
}

/// A window of a window.
pub proof fn lemma_sub_window(t: Seq<char>, lo: int, hi: int, x: Seq<char>, a: int, b: int)
    requires
        0 <= lo <= hi <= t.len(),
        t.subrange(lo, hi) == x,
        0 <= a <= b <= x.len(),
    ensures
        t.subrange(lo + a, lo + b) == x.subrange(a, b),
{
    assert(t.subrange(lo + a, lo + b) =~= x.subrange(a, b)) by {
        assert forall|k: int| 0 <= k < b - a implies t.subrange(lo + a, lo + b)[k] == x.subrange(
            a,
            b,
        )[k] by {
            assert(t[lo + a + k] == t.subrange(lo, hi)[a + k]);
        }
    }
}

/// Written-out headers hold no `#`.
pub proof fn lemma_stable_headers_avoid(hs: Seq<HeaderV>)
    requires
        stable_headers(hs),
    ensures
        none_in(headers_text(hs), is_char('#')),
{
    assert forall|j: int| 0 <= j < hs.len() implies none_in(#[trigger] hs[j].0, is_char('#'))
        && none_in(hs[j].1, is_char('#')) by {
        crate::reparse::lemma_canonical_header(hs[j].0);
        crate::reparse::lemma_canonical_header(hs[j].1);
    }
    lemma_headers_text_avoids(hs, '#');
}

/// Where the pieces after the host stand in the written-out text.
#[verifier::rlimit(40)]
pub proof fn lemma_hostport_layout(
    t: Seq<char>,
    lo: int,
    h: HostView,
    port: Option<u16>,
    ps: Seq<ParamV>,
    hs: Seq<HeaderV>,
    f: Option<Seq<char>>,
)
    requires
        0 <= lo <= t.len(),
        t.subrange(lo, t.len() as int) == host_text(h) + port_text(port) + params_text(ps)
            + headers_text(hs) + tagged("#"@, f),
        params_avoid(ps, is_char('#')),
        stable_headers(hs),
    ensures
        ({
            let n = t.len() as int;
            let c = lo + host_text(h).len();
            let a = c + port_text(port).len();
            let e = a + params_text(ps).len() + headers_text(hs).len();
            &&& c == n || host_stop(t[c])
            &&& a == n || t[a] == ';' || t[a] == '?' || t[a] == '#'
            &&& t.subrange(lo, c) == host_text(h)
            &&& t.subrange(c, a) == port_text(port)
            &&& t.subrange(a, e) == params_text(ps) + headers_text(hs)
            &&& t.subrange(e, n) == tagged("#"@, f)
            &&& forall|k: int| a <= k < e ==> t[k] != '#'
            &&& e <= n
        }),
{
    reveal_strlit(":");
    reveal_strlit("#");
    let n = t.len() as int;
    let ht = host_text(h);
    let pt = port_text(port);
    let pp = params_text(ps);
    let hh = headers_text(hs);
    let ft = tagged("#"@, f);
    let x = ht + pt + pp + hh + ft;
    let c = lo + ht.len();
    let a = c + pt.len();
    let e = a + pp.len() + hh.len();
    assert(x.len() == n - lo);
    if ps.len() > 0 {
        lemma_params_text_head(ps);
    }
    if hs.len() > 0 {
        lemma_headers_text_joined(hs);
    }
    let rest_after_port = pp + hh + ft;
    assert(a == n || t[a] == ';' || t[a] == '?' || t[a] == '#') by {
        if a < n {
            assert(t[a] == t.subrange(lo, n)[a - lo]);
            assert(x[a - lo] == rest_after_port[0]);
        }
    }
    assert(c == n || host_stop(t[c])) by {
        if c < n {
            assert(t[c] == t.subrange(lo, n)[c - lo]);
            if port is Some {
                assert(x[c - lo] == pt[0]);
            } else {
                assert(x[c - lo] == rest_after_port[0]);
            }
        }
    }
    lemma_sub_window(t, lo, n, x, 0, ht.len() as int);
    assert(x.subrange(0, ht.len() as int) =~= ht);
    lemma_sub_window(t, lo, n, x, ht.len() as int, (ht.len() + pt.len()) as int);
    assert(x.subrange(ht.len() as int, (ht.len() + pt.len()) as int) =~= pt);
    lemma_params_text_avoids(ps, '#');
    lemma_stable_headers_avoid(hs);
    assert forall|k: int| a <= k < e implies t[k] != '#' by {
        assert(t[k] == t.subrange(lo, n)[k - lo]);
        let m = k - a;
        if m < pp.len() {
            assert(x[k - lo] == pp[m]);
            assert(!is_char('#')(pp[m]));
        } else {
            assert(x[k - lo] == hh[m - pp.len()]);
            assert(!is_char('#')(hh[m - pp.len()]));
        }
    }
    lemma_sub_window(t, lo, n, x, e - lo, n - lo);
    assert(x.subrange(e - lo, n - lo) =~= ft);
    lemma_sub_window(t, lo, n, x, a - lo, e - lo);
    assert(x.subrange(a - lo, e - lo) =~= pp + hh);
}

/// Host, port, parameters, headers and fragment written out at `t[lo..]`
/// read back as themselves.
#[verifier::spinoff_prover]
pub proof fn lemma_hostport_reparse(
    t: Seq<char>,
    lo: int,
    h: HostView,
    port: Option<u16>,
    ps: Seq<ParamV>,
    hs: Seq<HeaderV>,
    f: Option<Seq<char>>,
    w: Seq<ParseWarning>,
)
    requires
        0 <= lo <= t.len(),
        t.subrange(lo, t.len() as int) == host_text(h) + port_text(port) + params_text(ps)
            + headers_text(hs) + tagged("#"@, f),
        host_valid(h),
        stable_params(ps, CharSet::Param),
        params_avoid(ps, is_char('?')),
        params_avoid(ps, is_char('#')),
        stable_headers(hs),
        f matches Some(x) ==> x.len() > 0,
    ensures
        hostport_parts(t, lo, t.len() as int, w) matches Ok((h2, p2, ps2, hs2, f2, w2)) && h2 == h
            && p2 == port && ps2 == ps && hs2 == hs && f2 == f,
{
    reveal(hostport_parts);
    let n = t.len() as int;
    let c = lo + host_text(h).len();
    let a = c + port_text(port).len();
    let e = a + params_text(ps).len() + headers_text(hs).len();
    lemma_hostport_layout(t, lo, h, port, ps, hs, f);
    lemma_host_text_at(h, t, lo, n);
    let hw = host_at(t, lo, n)->Ok_0.2;
    lemma_port_reparse(t, c, n, port, w + hw);
    let w1 = port_section(t, c, n, w + hw)->Ok_0.2;
    lemma_fragment_reparse(t, a, e, n, f, Seq::empty());
    lemma_tail_reparse(t, a, e, ps, hs, w1);
}

/// The userinfo written out at `t[r..=at]` reads back as itself.
pub proof fn lemma_userinfo_reparse(t: Seq<char>, r: int, at: int, u: SipView, w: Seq<ParseWarning>)
    requires
        0 <= r < at < t.len(),
        t.subrange(r, at + 1) == userinfo_text(u),
        u.user matches Some(x) ==> x.len() > 0 && pct_decode(x, CharSet::User) == x && none_in(
            x,
            is_char(':'),
        ) && none_in(x, is_char(';')),
        u.user is None ==> u.password is Some && u.user_params.len() == 0,
        u.password matches Some(p) ==> pct_decode(p, CharSet::Password) == p,
        stable_params(u.user_params, CharSet::User),
        params_avoid(u.user_params, is_char(':')),
    ensures
        userinfo_parts(t, r, at, w) matches Ok((u2, ups2, pw2, w2)) && u2 == u.user && ups2
            == u.user_params && pw2 == u.password,
{
    if u.user is Some {
        lemma_userinfo_reparse_user(t, r, at, u, w);
    } else {
        lemma_userinfo_reparse_password(t, r, at, u, w);
    }
}

/// A userinfo with a user reads back as itself.
#[verifier::rlimit(100)]
#[verifier::spinoff_prover]
pub proof fn lemma_userinfo_reparse_user(
    t: Seq<char>,
    r: int,
    at: int,
    u: SipView,
    w: Seq<ParseWarning>,
)
    requires
        0 <= r < at < t.len(),
        t.subrange(r, at + 1) == userinfo_text(u),
        u.user matches Some(x) && x.len() > 0 && pct_decode(x, CharSet::User) == x && none_in(
            x,
            is_char(':'),
        ) && none_in(x, is_char(';')),
        u.password matches Some(p) ==> pct_decode(p, CharSet::Password) == p,
        stable_params(u.user_params, CharSet::User),
        params_avoid(u.user_params, is_char(':')),
    ensures
        userinfo_parts(t, r, at, w) matches Ok((u2, ups2, pw2, w2)) && u2 == u.user && ups2
            == u.user_params && pw2 == u.password,
{
    reveal(userinfo_parts);
    reveal_strlit(":");
    reveal_strlit("@");
    let ui = userinfo_text(u);
    assert(ui.len() == at + 1 - r);
    assert forall|k: int| r <= k <= at implies t[k] == ui[k - r] by {
        assert(t[k] == t.subrange(r, at + 1)[k - r]);
    }
    let x = u.user->Some_0;
    let pp = params_text(u.user_params);
    let pw = tagged(":"@, u.password);
    assert(ui == x + pp + pw + "@"@);
    let semi0 = r + x.len();
    let c0 = semi0 + pp.len();
    assert(c0 + pw.len() == at);
    lemma_params_text_avoids(u.user_params, ':');
    assert forall|k: int| r <= k < c0 implies !is_char(':')(#[trigger] t[k]) by {
        if k < semi0 {
            assert(ui[k - r] == x[k - r]);
        } else {
            assert(ui[k - r] == pp[k - semi0]);
        }
    }
    if u.password is Some {
        assert(ui[c0 - r] == pw[0]);
    }
    lemma_scan_is(t, is_char(':'), r, c0, at);
    assert forall|k: int| r <= k < semi0 implies !is_char(';')(#[trigger] t[k]) by {
        assert(ui[k - r] == x[k - r]);
    }
    if u.user_params.len() > 0 {
        lemma_params_text_head(u.user_params);
        assert(ui[semi0 - r] == pp[0]);
    } else {
        assert(pp =~= Seq::<char>::empty());
    }
    lemma_scan_is(t, is_char(';'), r, semi0, c0);
    assert(t.subrange(r, semi0) =~= x) by {
        assert forall|k: int| 0 <= k < x.len() implies t.subrange(r, semi0)[k] == x[k] by {
            assert(ui[k] == x[k]);
        }
    }
    match u.password {
        Some(p) => {
            assert(t.subrange(c0 + 1, at) =~= p) by {
                assert forall|k: int| 0 <= k < p.len() implies t.subrange(c0 + 1, at)[k] == p[k] by {
                    assert(ui[c0 + 1 + k - r] == pw[1 + k]);
                }
            }
        },
        None => {},
    }
    if u.user_params.len() > 0 {
        assert(t.subrange(semi0, c0) =~= pp) by {
            assert forall|k: int| 0 <= k < pp.len() implies t.subrange(semi0, c0)[k] == pp[k] by {
                assert(ui[semi0 + k - r] == pp[k]);
            }
        }
        assert forall|wx: Seq<ParseWarning>| #[trigger]
            lenient_params(t, semi0 + 1, c0, ParamKind::User, Seq::empty(), wx).0
                == u.user_params by {
            lemma_lenient_params_reparse(
                t,
                semi0 + 1,
                c0,
                ParamKind::User,
                u.user_params,
                Seq::empty(),
                wx,
            );
            assert(Seq::<ParamV>::empty() + u.user_params =~= u.user_params);
        }
    }
}

/// A userinfo of a password alone reads back as itself.
pub proof fn lemma_userinfo_reparse_password(
    t: Seq<char>,
    r: int,
    at: int,
    u: SipView,
    w: Seq<ParseWarning>,
)
    requires
        0 <= r < at < t.len(),
        t.subrange(r, at + 1) == userinfo_text(u),
        u.user is None,
        u.password is Some,
        u.user_params.len() == 0,
        u.password matches Some(p) ==> pct_decode(p, CharSet::Password) == p,
    ensures
        userinfo_parts(t, r, at, w) matches Ok((u2, ups2, pw2, w2)) && u2 == u.user && ups2
            == u.user_params && pw2 == u.password,
{
    reveal(userinfo_parts);
    reveal_strlit(":");
    reveal_strlit("@");
    let ui = userinfo_text(u);
    assert(ui.len() == at + 1 - r);
    assert forall|k: int| r <= k <= at implies t[k] == ui[k - r] by {
        assert(t[k] == t.subrange(r, at + 1)[k - r]);
    }
    let p = u.password->Some_0;
    assert(ui == ":"@ + p + "@"@);
    assert(t[r] == ':');
    lemma_scan_is(t, is_char(':'), r, r, at);
    assert(t.subrange(r + 1, at) =~= p) by {
        assert forall|k: int| 0 <= k < p.len() implies t.subrange(r + 1, at)[k] == p[k] by {
            assert(ui[1 + k] == p[k]);
        }
    }
    assert(u.user_params =~= Seq::<ParamV>::empty());
}

/// The shape every URI parameter of the parser has: no `=` or `;` in the
/// name, no `;` in the value, and a nonempty name without a value.
pub open spec fn param_shape(p: ParamV) -> bool {
    &&& none_in(p.0, is_char('='))
    &&& none_in(p.0, is_char(';'))
    &&& match p.1 {
        Some(v) => none_in(v, is_char(';')),
        None => p.0.len() > 0,
    }
}

/// Every parameter of the list has the shape.
pub open spec fn params_shaped(ps: Seq<ParamV>) -> bool {
    forall|j: int| 0 <= j < ps.len() ==> param_shape(#[trigger] ps[j])
}

/// Decoding leaves every name and value as it is.
pub open spec fn params_decoded(ps: Seq<ParamV>, set: CharSet) -> bool {
    forall|j: int|
        0 <= j < ps.len() ==> pct_decode(#[trigger] ps[j].0, set) == ps[j].0 && (ps[j].1 matches Some(
            v,
        ) ==> pct_decode(v, set) == v)
}

/// Shaped parameters that decoding leaves as they are are stable.
pub proof fn lemma_stable_from_shape(ps: Seq<ParamV>, set: CharSet)
    requires
        params_shaped(ps),
        params_decoded(ps, set),
    ensures
        stable_params(ps, set),
{
    assert forall|j: int| 0 <= j < ps.len() implies stable_param(#[trigger] ps[j], set) by {
        assert(param_shape(ps[j]));
    }
}

/// A character that decoding against a set cannot bring in.
pub open spec fn kept_out(set: CharSet, c: char) -> bool {
    c != '%' && !hex_char(c) && !char_allowed(set, c)
}

/// Lenient parameters read from text without `c` hold no `c`, when
/// decoding cannot bring it in.
pub proof fn lemma_lenient_params_avoid(
    s: Seq<char>,
    i: int,
    hi: int,
    k: ParamKind,
    acc: Seq<ParamV>,
    w: Seq<ParseWarning>,
    c: char,
)
    requires
        0 <= i,
        hi <= s.len(),
        kind_set(k) != CharSet::Any,
        forall|j: int| i <= j < hi ==> s[j] != c,
        kept_out(kind_set(k), c),
        params_avoid(acc, is_char(c)),
    ensures
        params_avoid(lenient_params(s, i, hi, k, acc, w).0, is_char(c)),
    decreases hi - i,
{
    if i <= hi {
        let set = kind_set(k);
        let end = scan(s, is_char(';'), i, hi);
        crate::text::lemma_scan(s, is_char(';'), i, hi);
        let (seg, w2) = lenient_segment(s, i, end, k, w);
        let acc2 = match seg {
            Some(p) => acc.push(p),
            None => acc,
        };
        assert forall|x: char| #[trigger] is_char(c)(x) implies x != '%' && !hex_char(x)
            && !char_allowed(set, x) by {}
        if i < end {
            let eq = scan(s, is_char('='), i, end);
            crate::text::lemma_scan(s, is_char('='), i, end);
            lemma_decode_excludes(s.subrange(i, eq), set, is_char(c));
            if eq < end {
                lemma_decode_excludes(s.subrange(eq + 1, end), set, is_char(c));
            }
        }
        assert(params_avoid(acc2, is_char(c))) by {
            assert forall|j: int| 0 <= j < acc2.len() implies none_in(#[trigger] acc2[j].0, is_char(c))
                && (acc2[j].1 matches Some(v) ==> none_in(v, is_char(c))) by {
                if j < acc.len() {
                    assert(acc2[j] == acc[j]);
                }
            }
        }
        if end < hi {
            lemma_lenient_params_avoid(s, end + 1, hi, k, acc2, w2, c);
        }
    }
}

/// Lenient parameters decoded as URI parameters have the shape.
pub proof fn lemma_lenient_params_shaped(
    s: Seq<char>,
    i: int,
    hi: int,
    k: ParamKind,
    acc: Seq<ParamV>,
    w: Seq<ParseWarning>,
)
    requires
        kind_set(k) == CharSet::Param,
        0 <= i,
        hi <= s.len(),
        params_shaped(acc),
    ensures
        params_shaped(lenient_params(s, i, hi, k, acc, w).0),
    decreases hi - i,
{
    if i <= hi {
        let set = CharSet::Param;
        let end = scan(s, is_char(';'), i, hi);
        crate::text::lemma_scan(s, is_char(';'), i, hi);
        let (seg, w2) = lenient_segment(s, i, end, k, w);
        let acc2 = match seg {
            Some(p) => acc.push(p),
            None => acc,
        };
        if i < end {
            let eq = scan(s, is_char('='), i, end);
            crate::text::lemma_scan(s, is_char('='), i, end);
            assert forall|x: char| #[trigger] is_char(';')(x) implies kept_out(set, x) by {}
            assert forall|x: char| #[trigger] is_char('=')(x) implies kept_out(set, x) by {}
            assert(none_in(s.subrange(i, eq), is_char(';')));
            assert(none_in(s.subrange(i, eq), is_char('=')));
            lemma_decode_excludes(s.subrange(i, eq), set, is_char(';'));
            lemma_decode_excludes(s.subrange(i, eq), set, is_char('='));
            if eq < end {
                assert(none_in(s.subrange(eq + 1, end), is_char(';')));
                lemma_decode_excludes(s.subrange(eq + 1, end), set, is_char(';'));
            } else {
                lemma_decode_nonempty(s.subrange(i, end), set);
            }
        }
        assert(params_shaped(acc2)) by {
            assert forall|j: int| 0 <= j < acc2.len() implies param_shape(#[trigger] acc2[j]) by {
                if j < acc.len() {
                    assert(acc2[j] == acc[j]);
                }
            }
        }
        if end < hi {
            lemma_lenient_params_shaped(s, end + 1, hi, k, acc2, w2);
        }
    }
}

/// What the userinfo parser leaves from text without `@`: a nonempty user
/// without `:` or `@`, or else a password and no user-params; no `@` in the
/// password, and no `:` or `@` in user-params.
pub proof fn lemma_userinfo_props(s: Seq<char>, r: int, at: int, w: Seq<ParseWarning>)
    requires
        0 <= r < at <= s.len(),
        forall|j: int| r <= j < at ==> s[j] != '@',
        userinfo_parts(s, r, at, w) is Ok,
    ensures
        userinfo_parts(s, r, at, w) matches Ok((user, ups, pw, w2)) && (user matches Some(x) ==> x.len()
            > 0 && none_in(x, is_char(':')) && none_in(x, is_char('@'))) && (user is None ==> pw is Some
            && ups.len() == 0) && (pw matches Some(p) ==> none_in(p, is_char('@'))) && params_avoid(
            ups,
            is_char(':'),
        ) && params_avoid(ups, is_char('@')),
{
    reveal(userinfo_parts);
    let c = scan(s, is_char(':'), r, at);
    crate::text::lemma_scan(s, is_char(':'), r, at);
    let semi = scan(s, is_char(';'), r, c);
    crate::text::lemma_scan(s, is_char(';'), r, c);
    assert forall|x: char| #[trigger] is_char('@')(x) implies kept_out(CharSet::Password, x) by {}
    assert forall|x: char| #[trigger] is_char('@')(x) implies kept_out(CharSet::User, x) by {}
    assert forall|x: char| #[trigger] is_char(':')(x) implies kept_out(CharSet::User, x) by {}
    if c < at {
        assert(none_in(s.subrange(c + 1, at), is_char('@')));
        lemma_decode_excludes(s.subrange(c + 1, at), CharSet::Password, is_char('@'));
    }
    if semi > r {
        assert(none_in(s.subrange(r, semi), is_char('@')));
        assert(none_in(s.subrange(r, semi), is_char(':')));
        lemma_decode_excludes(s.subrange(r, semi), CharSet::User, is_char('@'));
        lemma_decode_excludes(s.subrange(r, semi), CharSet::User, is_char(':'));
        lemma_decode_nonempty(s.subrange(r, semi), CharSet::User);
        if semi < c {
            assert forall|wx: Seq<ParseWarning>| params_avoid(
                #[trigger] lenient_params(s, semi + 1, c, ParamKind::User, Seq::empty(), wx).0,
                is_char('@'),
            ) && params_avoid(
                lenient_params(s, semi + 1, c, ParamKind::User, Seq::empty(), wx).0,
                is_char(':'),
            ) by {
                lemma_lenient_params_avoid(
                    s,
                    semi + 1,
                    c,
                    ParamKind::User,
                    Seq::empty(),
                    wx,
                    '@',
                );
                lemma_lenient_params_avoid(
                    s,
                    semi + 1,
                    c,
                    ParamKind::User,
                    Seq::empty(),
                    wx,
                    ':',
                );
            }
        }
    }
}

/// What the parser leaves from the host on: a valid host, shaped parameters
/// without `?` or `#`, stable headers, and a nonempty fragment that is the
/// text after a `#` at the end.
#[verifier::rlimit(40)]
#[verifier::spinoff_prover]
pub proof fn lemma_hostport_props(s: Seq<char>, lo: int, w: Seq<ParseWarning>)
    requires
        0 <= lo <= s.len(),
        hostport_parts(s, lo, s.len() as int, w) is Ok,
    ensures
        hostport_parts(s, lo, s.len() as int, w) matches Ok((h, port, ps, hs, f, w2)) && host_valid(h)
            && params_shaped(ps) && params_avoid(ps, is_char('?')) && params_avoid(ps, is_char('#'))
            && stable_headers(hs) && (f matches Some(x) ==> x.len() > 0 && lo < s.len() - x.len()
            && s[s.len() - x.len() - 1] == '#' && x == s.subrange(s.len() - x.len(), s.len() as int)),
{
    reveal(hostport_parts);
    let n = s.len() as int;
    crate::host::lemma_host_at_valid(s, lo, n);
    let (h, c, hw) = host_at(s, lo, n)->Ok_0;
    let (port, a, w1) = port_section(s, c, n, w + hw)->Ok_0;
    assert(c <= a <= n) by {
        if c < n && s[c] == ':' {
            crate::text::lemma_scan(s, port_stops(), c + 1, n);
        }
    }
    let hh = scan(s, is_char('#'), a, n);
    crate::text::lemma_scan(s, is_char('#'), a, n);
    let (e, f, fw) = fragment_section(s, a, n, Seq::empty());
    let w2 = w1;
    assert(e == hh);
    assert forall|j: int| a <= j < e implies s[j] != '#' by {
        assert(!is_char('#')(s[j]));
    }
    assert forall|x: char| #[trigger] is_char('?')(x) implies kept_out(CharSet::Param, x) by {}
    assert forall|x: char| #[trigger] is_char('#')(x) implies kept_out(CharSet::Param, x) by {}
    if a < e && s[a] == ';' {
        let q = scan(s, is_char('?'), a + 1, e);
        crate::text::lemma_scan(s, is_char('?'), a + 1, e);
        lemma_lenient_params_avoid(s, a + 1, q, ParamKind::Uri, Seq::empty(), w2, '?');
        lemma_lenient_params_avoid(s, a + 1, q, ParamKind::Uri, Seq::empty(), w2, '#');
        lemma_lenient_params_shaped(s, a + 1, q, ParamKind::Uri, Seq::empty(), w2);
        let w3 = lenient_params(s, a + 1, q, ParamKind::Uri, Seq::empty(), w2).1;
        if q < e && q + 1 < e {
            crate::reparse::lemma_lenient_headers_stable(s, q + 1, e, Seq::empty(), w3);
        }
    } else if a < e && s[a] == '?' {
        if a + 1 < e {
            crate::reparse::lemma_lenient_headers_stable(s, a + 1, e, Seq::empty(), w2);
        }
    }
}

/// `scan` stops no later than a match.
pub proof fn lemma_scan_le(s: Seq<char>, p: spec_fn(char) -> bool, i: int, j: int, hi: int)
    requires
        i <= j < hi,
        p(s[j]),
    ensures
        scan(s, p, i, hi) <= j,
{
    crate::text::lemma_scan(s, p, i, hi);
}

/// A valid host is written without `@`.
pub proof fn lemma_host_text_no_at(h: HostView)
    requires
        host_valid(h),
    ensures
        none_in(host_text(h), is_char('@')),
{
    reveal_strlit("[");
    reveal_strlit("]");
    match h {
        HostView::IPv4(o) => {
            crate::ip_text::lemma_v4_text_chars(o);
        },
        HostView::IPv6(g) => {
            crate::ip_text::lemma_v6_text_chars(g);
            let v = crate::ip::v6_text(g);
            assert(host_text(h) == "["@ + v + "]"@);
            assert forall|k: int| 0 <= k < host_text(h).len() implies !is_char('@')(
                #[trigger] host_text(h)[k],
            ) by {
                if 0 < k < host_text(h).len() - 1 {
                    assert(host_text(h)[k] == v[k - 1]);
                }
            }
        },
        HostView::Hostname(nm) => {
            assert forall|k: int| 0 <= k < nm.len() implies !is_char('@')(#[trigger] nm[k]) by {
                assert(crate::host::hostname_char(nm[k]));
            }
        },
    }
}

/// What every SIP URI the parser gives looks like (see the lemmas above),
/// with, when there is no userinfo, a fragment without `@`.
pub open spec fn sip_parsed_shape(u: SipView) -> bool {
    &&& host_valid(u.host)
    &&& params_shaped(u.params)
    &&& params_avoid(u.params, is_char('?'))
    &&& params_avoid(u.params, is_char('#'))
    &&& stable_headers(u.headers)
    &&& (u.fragment matches Some(x) ==> x.len() > 0)
    &&& (u.user matches Some(x) ==> x.len() > 0 && none_in(x, is_char(':')) && none_in(
        x,
        is_char('@'),
    ))
    &&& (u.user is None ==> u.user_params.len() == 0)
    &&& (u.password matches Some(p) ==> none_in(p, is_char('@')))
    &&& params_avoid(u.user_params, is_char(':'))
    &&& params_avoid(u.user_params, is_char('@'))
    &&& (u.user is None && u.password is None ==> (u.fragment matches Some(x) ==> none_in(
        x,
        is_char('@'),
    )))
}

/// Every SIP URI the parser gives has that shape.
#[verifier::rlimit(40)]
pub proof fn lemma_parse_sip_shape(s: Seq<char>)
    requires
        parse_sip(s) is Ok,
    ensures
        sip_parsed_shape(parse_sip(s)->Ok_0.0),
{
    let n = s.len() as int;
    let colon = scan(s, is_char(':'), 0, n);
    crate::text::lemma_scan(s, is_char(':'), 0, n);
    let r = colon + 1;
    let u = parse_sip(s)->Ok_0.0;
    lemma_userinfo_at_bounds(s, r, n);
    let k = scan(s, userinfo_stops(), r, n);
    crate::text::lemma_scan(s, userinfo_stops(), r, n);
    crate::text::lemma_scan(s, is_char('@'), k, n);
    match userinfo_at(s, r, n) {
        Some(at) => {
            assert forall|j: int| r <= j < at implies s[j] != '@' by {
                if j < k {
                    assert(!userinfo_stops()(s[j]));
                } else {
                    assert(!is_char('@')(s[j]));
                }
            }
            lemma_userinfo_props(s, r, at, Seq::empty());
            let w1 = userinfo_parts(s, r, at, Seq::empty())->Ok_0.3;
            lemma_hostport_props(s, at + 1, w1);
        },
        None => {
            lemma_hostport_props(s, r, Seq::empty());
            match u.fragment {
                Some(x) => {
                    let hpos = n - x.len() - 1;
                    assert(userinfo_stops()(s[hpos]));
                    lemma_scan_le(s, userinfo_stops(), r, hpos, n);
                    assert forall|j: int| 0 <= j < x.len() implies !is_char('@')(#[trigger] x[j]) by {
                        assert(x[j] == s[n - x.len() + j]);
                        assert(!is_char('@')(s[n - x.len() + j]));
                    }
                },
                None => {},
            }
            assert(u.user_params =~= Seq::<ParamV>::empty());
        },
    }
}

/// The parsed SIP URIs that writing out and reading back keeps: decoding
/// leaves the user, the password and every parameter as it is; the user
/// holds no `;`; user-params keep their `;` and `=` structure; and, when
/// there is no userinfo, no URI parameter holds `@`.
pub open spec fn sip_stable(u: SipView) -> bool {
    &&& (u.user matches Some(x) ==> pct_decode(x, CharSet::User) == x && none_in(x, is_char(';')))
    &&& (u.password matches Some(p) ==> pct_decode(p, CharSet::Password) == p)
    &&& stable_params(u.user_params, CharSet::User)
    &&& params_decoded(u.params, CharSet::Param)
    &&& (u.user is None && u.password is None ==> params_avoid(u.params, is_char('@')))
}

/// The scheme of written-out text reads back.
pub proof fn lemma_scheme_reparse(t: Seq<char>, sc: Scheme)
    requires
        t.len() > scheme_name(sc).len(),
        t.subrange(0, scheme_name(sc).len() as int) == scheme_name(sc),
        t[scheme_name(sc).len() as int] == ':',
    ensures
        scan(t, is_char(':'), 0, t.len() as int) == scheme_name(sc).len(),
        scheme_of(t, scheme_name(sc).len() as int) == Some(sc),
{
    reveal_strlit("sip");
    reveal_strlit("sips");
    let m = scheme_name(sc).len() as int;
    assert forall|k: int| 0 <= k < m implies !is_char(':')(#[trigger] t[k]) by {
        assert(t[k] == t.subrange(0, m)[k]);
    }
    lemma_scan_is(t, is_char(':'), 0, m, t.len() as int);
    assert(t.take(m) =~= scheme_name(sc));
    match sc {
        Scheme::Sip => {
            assert(crate::text::eq_ignore_case(scheme_name(sc), "sip"@));
        },
        Scheme::Sips => {
            assert(!crate::text::eq_ignore_case(scheme_name(sc), "sip"@));
            assert(crate::text::eq_ignore_case(scheme_name(sc), "sips"@));
        },
    }
}

/// A SIP URI of the parsed shape that is stable reads back from its text
/// as itself.
#[verifier::rlimit(60)]
pub proof fn lemma_sip_reparse(u: SipView)
    requires
        sip_parsed_shape(u),
        sip_stable(u),
    ensures
        parse_sip(sip_text(u)) matches Ok((u2, w2)) && u2 == u,
{
    reveal_strlit(":");
    reveal_strlit("#");
    let t = sip_text(u);
    let n = t.len() as int;
    let sn = scheme_name(u.scheme);
    let ui = userinfo_text(u);
    let rest = crate::host::host_text(u.host) + port_text(u.port) + params_text(u.params)
        + headers_text(u.headers) + tagged("#"@, u.fragment);
    assert(t =~= sn + ":"@ + ui + rest);
    let r: int = sn.len() as int + 1;
    let hpos: int = r + ui.len();
    assert(sn.len() > 0) by {
        reveal_strlit("sip");
        reveal_strlit("sips");
    }
    assert(t.subrange(0, sn.len() as int) =~= sn);
    assert(t[sn.len() as int] == ':');
    lemma_scheme_reparse(t, u.scheme);
    assert(t.subrange(hpos, n) =~= rest);
    assert(crate::host::host_text(u.host).len() > 0) by {
        lemma_host_text_no_at(u.host);
        match u.host {
            HostView::IPv4(o) => {
                crate::ip_text::lemma_v4_text_chars(o);
            },
            HostView::IPv6(g) => {
                reveal_strlit("[");
            },
            HostView::Hostname(nm) => {},
        }
    }
    lemma_stable_from_shape(u.params, CharSet::Param);
    let k = scan(t, userinfo_stops(), r, n);
    crate::text::lemma_scan(t, userinfo_stops(), r, n);
    if ui.len() > 0 {
        let at = hpos - 1;
        lemma_userinfo_text_shape(u);
        assert forall|j: int| r <= j < at implies t[j] != '@' by {
            assert(t[j] == ui[j - r]);
        }
        assert(t[at] == '@') by {
            assert(t[at] == ui[ui.len() - 1]);
        }
        lemma_scan_le(t, userinfo_stops(), r, at, n);
        lemma_scan_is(t, is_char('@'), k, at, n);
        assert(userinfo_at(t, r, n) == Some(at));
        assert(t.subrange(r, at + 1) =~= ui);
        lemma_userinfo_reparse(t, r, at, u, Seq::empty());
        let w1 = userinfo_parts(t, r, at, Seq::empty())->Ok_0.3;
        lemma_hostport_reparse(
            t,
            at + 1,
            u.host,
            u.port,
            u.params,
            u.headers,
            u.fragment,
            w1,
        );
        assert(sip_rest(t, u.scheme, r) == with_hostport(
            t,
            at + 1,
            u.scheme,
            u.user,
            u.user_params,
            u.password,
            w1,
        ));
    } else {
        assert(u.user is None && u.password is None) by {
            if u.user is Some || u.password is Some {
                lemma_userinfo_text_shape(u);
            }
        }
        lemma_rest_no_at(u);
        assert forall|j: int| k <= j < n implies !is_char('@')(#[trigger] t[j]) by {
            assert(t[j] == rest[j - hpos]);
        }
        lemma_scan_is(t, is_char('@'), k, n, n);
        assert(userinfo_at(t, r, n) is None);
        lemma_hostport_reparse(
            t,
            r,
            u.host,
            u.port,
            u.params,
            u.headers,
            u.fragment,
            Seq::empty(),
        );
        assert(u.user_params =~= Seq::<ParamV>::empty());
    }
}

/// Written-out userinfo ends with its only `@`.
pub proof fn lemma_userinfo_text_shape(u: SipView)
    requires
        sip_parsed_shape(u),
        u.user is Some || u.password is Some,
    ensures
        userinfo_text(u).len() >= 2,
        userinfo_text(u)[userinfo_text(u).len() - 1] == '@',
        forall|j: int| 0 <= j < userinfo_text(u).len() - 1 ==> userinfo_text(u)[j] != '@',
{
    reveal_strlit(":");
    reveal_strlit("@");
    let ui = userinfo_text(u);
    match u.user {
        Some(x) => {
            let pp = params_text(u.user_params);
            let pw = tagged(":"@, u.password);
            assert(ui == x + pp + pw + "@"@);
            lemma_params_text_avoids(u.user_params, '@');
            assert forall|j: int| 0 <= j < ui.len() - 1 implies ui[j] != '@' by {
                if j < x.len() {
                    assert(ui[j] == x[j]);
                    assert(!is_char('@')(x[j]));
                } else if j < x.len() + pp.len() {
                    assert(ui[j] == pp[j - x.len()]);
                    assert(!is_char('@')(pp[j - x.len()]));
                } else if j > x.len() + pp.len() {
                    let p = u.password->Some_0;
                    assert(ui[j] == p[j - x.len() - pp.len() - 1]);
                    assert(!is_char('@')(p[j - x.len() - pp.len() - 1]));
                }
            }
        },
        None => {
            let p = u.password->Some_0;
            assert(ui == ":"@ + p + "@"@);
            assert forall|j: int| 0 <= j < ui.len() - 1 implies ui[j] != '@' by {
                if j > 0 {
                    assert(ui[j] == p[j - 1]);
                    assert(!is_char('@')(p[j - 1]));
                }
            }
        },
    }
}

/// Without userinfo, nothing after the scheme is written with `@`.
pub proof fn lemma_rest_no_at(u: SipView)
    requires
        sip_parsed_shape(u),
        sip_stable(u),
        u.user is None && u.password is None,
    ensures
        none_in(
            crate::host::host_text(u.host) + port_text(u.port) + params_text(u.params)
                + headers_text(u.headers) + tagged("#"@, u.fragment),
            is_char('@'),
        ),
{
    reveal_strlit(":");
    reveal_strlit("#");
    let ht = crate::host::host_text(u.host);
    let pt = port_text(u.port);
    let pp = params_text(u.params);
    let hh = headers_text(u.headers);
    let ft = tagged("#"@, u.fragment);
    lemma_host_text_no_at(u.host);
    if let Some(p) = u.port {
        let d = decimal(p as nat);
        crate::ip_text::lemma_decimal_self(p as nat);
        assert forall|j: int| 0 <= j < pt.len() implies !is_char('@')(#[trigger] pt[j]) by {
            if j > 0 {
                assert(pt[j] == d[j - 1]);
                assert(dec_digit(d[j - 1]));
            }
        }
    }
    lemma_params_text_avoids(u.params, '@');
    assert forall|j: int| 0 <= j < u.headers.len() implies none_in(
        #[trigger] u.headers[j].0,
        is_char('@'),
    ) && none_in(u.headers[j].1, is_char('@')) by {
        crate::reparse::lemma_canonical_header(u.headers[j].0);
        crate::reparse::lemma_canonical_header(u.headers[j].1);
    }
    lemma_headers_text_avoids(u.headers, '@');
    if let Some(x) = u.fragment {
        assert forall|j: int| 0 <= j < ft.len() implies !is_char('@')(#[trigger] ft[j]) by {
            if j > 0 {
                assert(ft[j] == x[j - 1]);
            }
        }
    }
    let all = ht + pt + pp + hh + ft;
    assert forall|j: int| 0 <= j < all.len() implies !is_char('@')(#[trigger] all[j]) by {
        let a1 = ht.len() as int;
        let a2 = a1 + pt.len();
        let a3 = a2 + pp.len();
        let a4 = a3 + hh.len();
        if j < a1 {
            assert(all[j] == ht[j]);
        } else if j < a2 {
            assert(all[j] == pt[j - a1]);
        } else if j < a3 {
            assert(all[j] == pp[j - a2]);
        } else if j < a4 {
            assert(all[j] == hh[j - a3]);
        } else {
            assert(all[j] == ft[j - a4]);
        }
    }
}

/// Writing out a parsed SIP URI and parsing the text again gives the same
/// URI, `parse(display(parse(x))) == parse(x)`, whenever the parsed URI is
/// stable: decoding leaves its user, password and parameters as they are,
/// its user holds no `;`, its user-params keep their structure, and without
/// userinfo no URI parameter holds `@`.
pub proof fn law_sip_round_trip(s: Seq<char>)
    requires
        parse_sip(s) is Ok,
        sip_stable(parse_sip(s)->Ok_0.0),
    ensures
        parse_sip(sip_text(parse_sip(s)->Ok_0.0)) matches Ok((u2, w2)) && u2 == parse_sip(
            s,
        )->Ok_0.0,
{
    lemma_parse_sip_shape(s);
    lemma_sip_reparse(parse_sip(s)->Ok_0.0);
}

/// Written-out SIP URIs start with the scheme name and `:`.
pub proof fn lemma_sip_text_prefix(u: SipView)
    ensures
        sip_text(u).len() > scheme_name(u.scheme).len(),
        sip_text(u).subrange(0, scheme_name(u.scheme).len() as int) == scheme_name(u.scheme),
        sip_text(u)[scheme_name(u.scheme).len() as int] == ':',
        forall|k: int| 0 <= k < scheme_name(u.scheme).len() ==> scheme_name(u.scheme)[k] != ':',
{
    reveal_strlit(":");
    reveal_strlit("sip");
    reveal_strlit("sips");
    let t = sip_text(u);
    let sn = scheme_name(u.scheme);
    let rest = userinfo_text(u) + crate::host::host_text(u.host) + port_text(u.port)
        + params_text(u.params) + headers_text(u.headers) + tagged("#"@, u.fragment);
    assert(t =~= sn + (":"@ + rest));
    assert(t.subrange(0, sn.len() as int) =~= sn);
}

} // verus!
