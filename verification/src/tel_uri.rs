//! tel: URIs (RFC 3966): a global (`+`) or local telephone number with
//! `;`-parameters and, accepted with a warning, a `#` fragment.

use vstd::prelude::*;

use crate::error::ParseTelUriError;
use crate::params::{
    ParamKind, ParamV, collect_params, find_param, format_params, lenient_params, param_index,
    params_text, scan_char,
};
use crate::parse::CharSet;
use crate::warning::{Component, ParseWarning, Parsed, WarningCode, Warnings, warning_at};
use crate::parse::{hex_char, is_char};
use crate::text::{
    byte_len, byte_len_fits, chars_of, eq_ignore_case, eq_ignore_case_at, owned, push_str,
    scan, string_of,
};

verus! {

broadcast use vstd::string::group_string_axioms;

/// A tel: URI.
#[derive(Debug, Clone, PartialEq, Eq)]
pub struct TelUri {
    number: String,
    params: Vec<(String, Option<String>)>,
    fragment: Option<String>,
}

/// A tel: URI as values.
pub struct TelView {
    /// The number as written, `+` and visual separators included.
    pub number: Seq<char>,
    /// The parameters, in order.
    pub params: Seq<ParamV>,
    /// The fragment after `#`, if any.
    pub fragment: Option<Seq<char>>,
}

impl View for TelUri {
    type V = TelView;

    closed spec fn view(&self) -> TelView {
        TelView {
            number: self.number@,
            params: self.params.deep_view(),
            fragment: self.fragment.deep_view(),
        }
    }
}

/// ASCII decimal digit.
pub open spec fn is_digit(c: char) -> bool {
    '0' <= c && c <= '9'
}

/// RFC 3966 `phonedigit = DIGIT / visual-separator`.
pub open spec fn phonedigit(c: char) -> bool {
    is_digit(c) || c == '-' || c == '.' || c == '(' || c == ')'
}

/// RFC 3966 `phonedigit-hex = HEXDIG / "*" / "#" / visual-separator`.
pub open spec fn phonedigit_hex(c: char) -> bool {
    hex_char(c) || c == '*' || c == '#' || c == '-' || c == '.' || c == '(' || c == ')'
}

/// Why the number `s[a..b]` is not a telephone number, if it is not.
pub open spec fn number_problem(s: Seq<char>, a: int, b: int) -> Option<Seq<char>> {
    if a >= b {
        Some("empty telephone number"@)
    } else if s[a] == '+' {
        if b - a < 2 {
            Some("global number must have digits after '+'"@)
        } else if !(forall|j: int| a + 1 <= j < b ==> phonedigit(#[trigger] s[j])) {
            Some("invalid character in global number"@)
        } else if !(exists|j: int| a + 1 <= j < b && is_digit(#[trigger] s[j])) {
            Some("global number must contain at least one digit"@)
        } else {
            None
        }
    } else if !(forall|j: int| a <= j < b ==> phonedigit_hex(#[trigger] s[j])) {
        Some("invalid character in local number"@)
    } else if !(exists|j: int|
        a <= j < b && (hex_char(#[trigger] s[j]) || s[j] == '*' || s[j] == '#')) {
        Some("local number must contain at least one hex digit, *, or #"@)
    } else {
        None
    }
}

/// Where the text after a case-insensitive `tel:` starts.
pub open spec fn tel_body_start(s: Seq<char>) -> Option<int> {
    let c = scan(s, is_char(':'), 0, s.len() as int);
    if c < s.len() && eq_ignore_case(s.take(c), "tel"@) {
        Some(c + 1)
    } else {
        None
    }
}

/// Where the fragment's `#` is in a tel: URI whose number starts at `r`,
/// or the end: a global number holds no `#`, so its first `#` starts the
/// fragment; a local number may hold `#`, so only a `#` after the first `;`
/// does.
pub open spec fn tel_hash(s: Seq<char>, r: int) -> int {
    let n = s.len() as int;
    if s[r] == '+' {
        scan(s, is_char('#'), r, n)
    } else {
        scan(s, is_char('#'), scan(s, is_char(';'), r, n), n)
    }
}

/// The parameters `s[a..b]`, read leniently, with their warnings: values
/// are checked against `paramchar`, names against RFC 3966 `pname`.
pub open spec fn tel_params(s: Seq<char>, a: int, b: int) -> (Seq<ParamV>, Seq<ParseWarning>) {
    lenient_params(s, a, b, ParamKind::Tel, Seq::empty(), Seq::empty())
}

/// The tel: URI that `s` denotes, or the reason it denotes none. The
/// number runs to the first `;` (or the fragment); the parameters are read
/// leniently; a nonempty fragment is kept, an empty one dropped.
pub open spec fn parse_tel(s: Seq<char>) -> Result<TelView, Seq<char>> {
    match tel_body_start(s) {
        None => Err("missing 'tel:' scheme"@),
        Some(r) => {
            if r >= s.len() {
                Err("empty telephone number"@)
            } else {
                let n = s.len() as int;
                let h = tel_hash(s, r);
                let semi = scan(s, is_char(';'), r, h);
                match number_problem(s, r, semi) {
                    Some(m) => Err(m),
                    None => Ok(
                        TelView {
                            number: s.subrange(r, semi),
                            params: if semi < h {
                                tel_params(s, semi + 1, h).0
                            } else {
                                Seq::empty()
                            },
                            fragment: if h + 1 < n {
                                Some(s.subrange(h + 1, n))
                            } else {
                                None
                            },
                        },
                    ),
                }
            }
        },
    }
}

/// The warnings a tel: URI `s` raises, in input order: a local number
/// without a `phone-context` parameter, the parameters' warnings, and a
/// fragment (dropped when empty).
pub open spec fn tel_warnings(s: Seq<char>) -> Seq<ParseWarning> {
    match tel_body_start(s) {
        None => Seq::empty(),
        Some(r) => {
            if r >= s.len() {
                Seq::empty()
            } else {
                let n = s.len() as int;
                let h = tel_hash(s, r);
                let semi = scan(s, is_char(';'), r, h);
                let (ps, pw) = if semi < h {
                    tel_params(s, semi + 1, h)
                } else {
                    (Seq::<ParamV>::empty(), Seq::<ParseWarning>::empty())
                };
                let ctx = if s[r] != '+' && param_index(ps, "phone-context"@) is None {
                    seq![warning_at(s, Component::Number, WarningCode::MissingPhoneContext, r)]
                } else {
                    Seq::empty()
                };
                let fw = if h < n {
                    seq![
                        warning_at(
                            s,
                            Component::Fragment,
                            if h + 1 < n {
                                WarningCode::UnexpectedFragment
                            } else {
                                WarningCode::EmptyFragment
                            },
                            h,
                        ),
                    ]
                } else {
                    Seq::empty()
                };
                ctx + pw + fw
            }
        },
    }
}

/// A number that does not start with `+`.
pub open spec fn is_local(number: Seq<char>) -> bool {
    !(number.len() > 0 && number[0] == '+')
}

/// The fragment written out: `#` and the fragment, after a `;` when the
/// number is local and there are no parameters (a local number may hold
/// `#`, so only a `#` after a `;` starts a fragment).
pub open spec fn fragment_text(u: TelView) -> Seq<char> {
    match u.fragment {
        Some(f) => (if is_local(u.number) && u.params.len() == 0 {
            ";"@
        } else {
            Seq::empty()
        }) + "#"@ + f,
        None => Seq::empty(),
    }
}

/// A tel: URI written out.
pub open spec fn tel_text(u: TelView) -> Seq<char> {
    "tel:"@ + u.number + params_text(u.params) + fragment_text(u)
}

fn is_digit_char(c: char) -> (r: bool)
    ensures
        r == is_digit(c),
{
    '0' <= c && c <= '9'
}

fn is_phonedigit(c: char) -> (r: bool)
    ensures
        r == phonedigit(c),
{
    is_digit_char(c) || c == '-' || c == '.' || c == '(' || c == ')'
}

fn is_phonedigit_hex(c: char) -> (r: bool)
    ensures
        r == phonedigit_hex(c),
{
    crate::parse::hex_of_char(c).is_some() || c == '*' || c == '#' || c == '-' || c == '.' || c
        == '(' || c == ')'
}

fn check_number(v: &Vec<char>, a: usize, b: usize) -> (r: Option<String>)
    requires
        a <= b <= v@.len(),
    ensures
        match r {
            Some(m) => number_problem(v@, a as int, b as int) == Some(m@),
            None => number_problem(v@, a as int, b as int) is None,
        },
{
    if a >= b {
        return Some(owned("empty telephone number"));
    }
    if v[a] == '+' {
        if b - a < 2 {
            return Some(owned("global number must have digits after '+'"));
        }
        let mut i = a + 1;
        let mut seen_digit = false;
        while i < b
            invariant
                a + 1 <= i <= b <= v@.len(),
                v@[a as int] == '+',
                b - a >= 2,
                forall|j: int| a + 1 <= j < i ==> phonedigit(#[trigger] v@[j]),
                seen_digit <==> exists|j: int| a + 1 <= j < i && is_digit(#[trigger] v@[j]),
            decreases b - i,
        {
            if !is_phonedigit(v[i]) {
                assert(!phonedigit(v@[i as int]));
                return Some(owned("invalid character in global number"));
            }
            if is_digit_char(v[i]) {
                seen_digit = true;
            }
            i = i + 1;
        }
        if !seen_digit {
            return Some(owned("global number must contain at least one digit"));
        }
        None
    } else {
        let mut i = a;
        let mut seen = false;
        while i < b
            invariant
                a <= i <= b <= v@.len(),
                a < b,
                v@[a as int] != '+',
                forall|j: int| a <= j < i ==> phonedigit_hex(#[trigger] v@[j]),
                seen <==> exists|j: int|
                    a <= j < i && (hex_char(#[trigger] v@[j]) || v@[j] == '*' || v@[j] == '#'),
            decreases b - i,
        {
            if !is_phonedigit_hex(v[i]) {
                assert(!phonedigit_hex(v@[i as int]));
                return Some(owned("invalid character in local number"));
            }
            if crate::parse::hex_of_char(v[i]).is_some() || v[i] == '*' || v[i] == '#' {
                seen = true;
            }
            i = i + 1;
        }
        if !seen {
            return Some(owned("local number must contain at least one hex digit, *, or #"));
        }
        None
    }
}

impl TelUri {
    /// A tel: URI with the given number (`+` prefix for a global number) and
    /// no parameters. The number is not checked.
    pub fn new(number: &str) -> (u: TelUri)
        ensures
            u@.number == number@,
            u@.params == Seq::<ParamV>::empty(),
            u@.fragment is None,
    {
        let u = TelUri { number: owned(number), params: Vec::new(), fragment: None };
        assert(u@.params =~= Seq::<ParamV>::empty());
        u
    }

    /// Add a parameter at the end.
    pub fn with_param(self, name: &str, value: Option<String>) -> (u: TelUri)
        ensures
            u@.number == self@.number,
            u@.params == self@.params.push((name@, value.deep_view())),
            u@.fragment == self@.fragment,
    {
        let mut u = self;
        let ghost before = u.params.deep_view();
        u.params.push((owned(name), value));
        assert(u.params.deep_view() =~= before.push((name@, value.deep_view())));
        u
    }

    /// The telephone number, `+` and visual separators included.
    pub fn number(&self) -> (r: &str)
        ensures
            r@ == self@.number,
    {
        self.number.as_str()
    }

    /// Whether this is a global number (starts with `+`).
    pub fn is_global(&self) -> (r: bool)
        ensures
            r == (self@.number.len() > 0 && self@.number[0] == '+'),
    {
        let v = chars_of(self.number.as_str());
        v.len() > 0 && v[0] == '+'
    }

    /// The parameters, in order.
    pub fn params(&self) -> (r: &[(String, Option<String>)])
        ensures
            r.deep_view() == self@.params,
    {
        self.params.as_slice()
    }

    /// Look up a parameter by name, ignoring ASCII case; the first match wins.
    pub fn param(&self, name: &str) -> (r: Option<&Option<String>>)
        ensures
            match param_index(self@.params, name@) {
                Some(i) => r matches Some(x) && x.deep_view() == self@.params[i].1,
                None => r is None,
            },
    {
        let ps = self.params.as_slice();
        assert(ps.deep_view() =~= self.params.deep_view());
        let r = find_param(ps, name);
        proof {
            crate::params::lemma_param_index(self@.params, name@, 0);
            if let Some(i) = param_index(self@.params, name@) {
                assert(ps.deep_view()[i] == ps@[i].deep_view());
            }
        }
        r
    }

    /// Set the fragment.
    pub fn with_fragment(self, fragment: &str) -> (u: TelUri)
        ensures
            u@.number == self@.number,
            u@.params == self@.params,
            u@.fragment == Some(fragment@),
    {
        let mut u = self;
        u.fragment = Some(owned(fragment));
        u
    }

    /// The fragment after `#`, if any.
    pub fn fragment(&self) -> (r: Option<&str>)
        ensures
            match self@.fragment {
                Some(f) => r matches Some(x) && x@ == f,
                None => r is None,
            },
    {
        match &self.fragment {
            Some(f) => Some(f.as_str()),
            None => None,
        }
    }

    /// Parse a tel: URI. The scheme is matched without regard to case;
    /// the number is `+` and phone digits (at least one digit), or phone hex
    /// digits (at least one hex digit, `*` or `#`); parameters follow `;`
    /// and are read leniently; a fragment follows `#` (see `parse_tel`).
    pub fn parse(input: &str) -> (r: Result<TelUri, ParseTelUriError>)
        ensures
            match r {
                Ok(u) => parse_tel(input@) == Ok::<TelView, Seq<char>>(u@),
                Err(e) => parse_tel(input@) == Err::<TelView, Seq<char>>(e.0@),
            },
    {
        byte_len_fits(input);
        let v = chars_of(input);
        let mut w = Warnings::new();
        match parse_tel_chars(&v, &mut w) {
            Ok(u) => Ok(u),
            Err(m) => Err(ParseTelUriError(m)),
        }
    }

    /// Parse a tel: URI as `parse` does, with the warnings of
    /// `tel_warnings`: it accepts exactly what `parse` accepts.
    pub fn parse_with_warnings(input: &str) -> (r: Result<Parsed<TelUri>, ParseTelUriError>)
        ensures
            match r {
                Ok(p) => parse_tel(input@) == Ok::<TelView, Seq<char>>(p.value@) && p.warnings@
                    == tel_warnings(input@),
                Err(e) => parse_tel(input@) == Err::<TelView, Seq<char>>(e.0@),
            },
            r matches Ok(p) ==> crate::warning::in_input_order(p.warnings@),
    {
        byte_len_fits(input);
        proof {
            if parse_tel(input@) is Ok {
                crate::order::law_tel_warnings_in_order(input@);
            }
        }
        let v = chars_of(input);
        let mut w = Warnings::new();
        match parse_tel_chars(&v, &mut w) {
            Ok(u) => {
                assert(w@ =~= tel_warnings(input@));
                Ok(w.finish(u))
            },
            Err(m) => Err(ParseTelUriError(m)),
        }
    }

    /// The URI written out: `tel:`, the number, `;name[=value]` for each
    /// parameter, then the fragment (see `fragment_text`).
    pub fn to_string(&self) -> (s: String)
        ensures
            s@ == tel_text(self@),
    {
        let mut s = owned("tel:");
        push_str(&mut s, self.number.as_str());
        format_params(self.params.as_slice(), &mut s);
        match &self.fragment {
            Some(f) => {
                if !self.is_global() && self.params.len() == 0 {
                    push_str(&mut s, ";");
                }
                push_str(&mut s, "#");
                push_str(&mut s, f.as_str());
            },
            None => {},
        }
        proof {
            reveal_strlit(";");
            reveal_strlit("#");
        }
        assert(s@ =~= tel_text(self@));
        s
    }
}

/// Parse the tel: URI `v`, appending its warnings to `w`.
fn parse_tel_chars(v: &Vec<char>, w: &mut Warnings) -> (r: Result<TelUri, String>)
    requires
        byte_len(v@) <= usize::MAX,
    ensures
        match r {
            Ok(u) => parse_tel(v@) == Ok::<TelView, Seq<char>>(u@) && final(w)@ == old(w)@
                + tel_warnings(v@),
            Err(m) => parse_tel(v@) == Err::<TelView, Seq<char>>(m@),
        },
{
    let n = v.len();
    let colon = scan_char(v, 0, n, ':');
    let tel: Vec<char> = vec!['t', 'e', 'l'];
    proof {
        reveal_strlit("tel");
        assert(tel@ =~= "tel"@);
        assert(v@.subrange(0, colon as int) =~= v@.take(colon as int));
    }
    if !(colon < n && eq_ignore_case_at(v, 0, colon, &tel)) {
        return Err(owned("missing 'tel:' scheme"));
    }
    let r = colon + 1;
    if r >= n {
        return Err(owned("empty telephone number"));
    }
    let h = if v[r] == '+' {
        scan_char(v, r, n, '#')
    } else {
        let s0 = scan_char(v, r, n, ';');
        scan_char(v, s0, n, '#')
    };
    let semi = scan_char(v, r, h, ';');
    if let Some(m) = check_number(v, r, semi) {
        return Err(m);
    }
    let number = string_of(v, r, semi);
    let mut pw = Warnings::new();
    let params = if semi < h {
        collect_params(v, semi + 1, h, ParamKind::Tel, &mut pw)
    } else {
        let e: Vec<(String, Option<String>)> = Vec::new();
        assert(e.deep_view() =~= Seq::<ParamV>::empty());
        e
    };
    let ghost pws = pw@;
    assert(pws == (if semi < h {
        tel_params(v@, semi + 1, h as int).1
    } else {
        Seq::<ParseWarning>::empty()
    }));
    let ghost w0 = w@;
    if v[r] != '+' {
        let ps = params.as_slice();
        assert(ps.deep_view() =~= params.deep_view());
        if find_param(ps, "phone-context").is_none() {
            w.push(Component::Number, WarningCode::MissingPhoneContext, v, r);
        }
    }
    let ghost w1 = w@;
    w.extend(pw);
    let fragment = if h < n {
        if h + 1 < n {
            w.push(Component::Fragment, WarningCode::UnexpectedFragment, v, h);
            Some(string_of(v, h + 1, n))
        } else {
            w.push(Component::Fragment, WarningCode::EmptyFragment, v, h);
            None
        }
    } else {
        None
    };
    let u = TelUri { number, params, fragment };
    proof {
        let ctx = if v@[r as int] != '+' && param_index(u@.params, "phone-context"@) is None {
            seq![warning_at(v@, Component::Number, WarningCode::MissingPhoneContext, r as int)]
        } else {
            Seq::empty()
        };
        assert(w1 =~= w0 + ctx);
        assert(final(w)@ =~= old(w)@ + tel_warnings(v@));
    }
    Ok(u)
}

impl std::str::FromStr for TelUri {
    type Err = ParseTelUriError;

    fn from_str(input: &str) -> (r: Result<TelUri, ParseTelUriError>)
        ensures
            match r {
                Ok(u) => parse_tel(input@) == Ok::<TelView, Seq<char>>(u@),
                Err(e) => parse_tel(input@) == Err::<TelView, Seq<char>>(e.0@),
            },
    {
        TelUri::parse(input)
    }
}

/// `number_problem` reads only the window it is given.
#[verifier::rlimit(40)]
#[verifier::spinoff_prover]
pub proof fn lemma_number_problem_window(s: Seq<char>, a: int, b: int, t: Seq<char>, c: int)
    requires
        0 <= a <= b <= s.len(),
        0 <= c,
        c + (b - a) <= t.len(),
        s.subrange(a, b) == t.subrange(c, c + (b - a)),
    ensures
        number_problem(s, a, b) == number_problem(t, c, c + (b - a)),
{
    let d = c - a;
    let e = c + (b - a);
    assert forall|j: int| a <= j < b implies s[j] == t[j + d] by {
        assert(s[j] == s.subrange(a, b)[j - a]);
        assert(t[j + d] == t.subrange(c, e)[j - a]);
    }
    assert forall|j: int| c <= j < e implies t[j] == s[j - d] by {
        assert(s[j - d] == t[j - d + d]);
    }
    if a < b && s[a] == '+' {
        assert((forall|j: int| a + 1 <= j < b ==> phonedigit(#[trigger] s[j])) == (forall|j: int|
            c + 1 <= j < e ==> phonedigit(#[trigger] t[j]))) by {
            if forall|j: int| a + 1 <= j < b ==> phonedigit(#[trigger] s[j]) {
                assert forall|j: int| c + 1 <= j < e implies phonedigit(#[trigger] t[j]) by {
                    assert(phonedigit(s[j - d]));
                }
            }
            if forall|j: int| c + 1 <= j < e ==> phonedigit(#[trigger] t[j]) {
                assert forall|j: int| a + 1 <= j < b implies phonedigit(#[trigger] s[j]) by {
                    assert(phonedigit(t[j + d]));
                }
            }
        }
        assert((exists|j: int| a + 1 <= j < b && is_digit(#[trigger] s[j])) == (exists|j: int|
            c + 1 <= j < e && is_digit(#[trigger] t[j]))) by {
            if exists|j: int| a + 1 <= j < b && is_digit(#[trigger] s[j]) {
                let j = choose|j: int| a + 1 <= j < b && is_digit(#[trigger] s[j]);
                assert(is_digit(t[j + d]));
            }
            if exists|j: int| c + 1 <= j < e && is_digit(#[trigger] t[j]) {
                let j = choose|j: int| c + 1 <= j < e && is_digit(#[trigger] t[j]);
                assert(is_digit(s[j - d]));
            }
        }
    } else if a < b {
        assert((forall|j: int| a <= j < b ==> phonedigit_hex(#[trigger] s[j])) == (forall|j: int|
            c <= j < e ==> phonedigit_hex(#[trigger] t[j]))) by {
            if forall|j: int| a <= j < b ==> phonedigit_hex(#[trigger] s[j]) {
                assert forall|j: int| c <= j < e implies phonedigit_hex(#[trigger] t[j]) by {
                    assert(phonedigit_hex(s[j - d]));
                }
            }
            if forall|j: int| c <= j < e ==> phonedigit_hex(#[trigger] t[j]) {
                assert forall|j: int| a <= j < b implies phonedigit_hex(#[trigger] s[j]) by {
                    assert(phonedigit_hex(t[j + d]));
                }
            }
        }
        assert((exists|j: int| a <= j < b && (hex_char(#[trigger] s[j]) || s[j] == '*' || s[j]
            == '#')) == (exists|j: int|
            c <= j < e && (hex_char(#[trigger] t[j]) || t[j] == '*' || t[j] == '#'))) by {
            if exists|j: int| a <= j < b && (hex_char(#[trigger] s[j]) || s[j] == '*' || s[j] == '#') {
                let j = choose|j: int|
                    a <= j < b && (hex_char(#[trigger] s[j]) || s[j] == '*' || s[j] == '#');
                assert(hex_char(t[j + d]) || t[j + d] == '*' || t[j + d] == '#');
            }
            if exists|j: int| c <= j < e && (hex_char(#[trigger] t[j]) || t[j] == '*' || t[j] == '#') {
                let j = choose|j: int|
                    c <= j < e && (hex_char(#[trigger] t[j]) || t[j] == '*' || t[j] == '#');
                assert(hex_char(s[j - d]) || s[j - d] == '*' || s[j - d] == '#');
            }
        }
    }
}

/// The layout of a parsed tel: URI: where the fragment and the parameters
/// start, and what the number and parameters avoid.
pub proof fn lemma_tel_layout(s: Seq<char>)
    requires
        parse_tel(s) is Ok,
    ensures
        ({
            let n = s.len() as int;
            let r = tel_body_start(s)->Some_0;
            let h = tel_hash(s, r);
            let semi = scan(s, is_char(';'), r, h);
            let u = parse_tel(s)->Ok_0;
            &&& 0 < r < n
            &&& r <= semi <= h <= n
            &&& h < n ==> s[h] == '#'
            &&& forall|k: int| r <= k < semi ==> s[k] != ';'
            &&& s[r] == '+' ==> forall|k: int| r <= k < semi ==> s[k] != '#'
            &&& u.number == s.subrange(r, semi)
            &&& semi < h ==> s[semi] == ';'
            &&& (semi < h ==> forall|k: int| semi + 1 <= k < h ==> s[k] != '#')
        }),
{
    let n = s.len() as int;
    let r = tel_body_start(s)->Some_0;
    crate::text::lemma_scan(s, is_char(':'), 0, n);
    let s0 = scan(s, is_char(';'), r, n);
    crate::text::lemma_scan(s, is_char(';'), r, n);
    crate::text::lemma_scan(s, is_char('#'), r, n);
    crate::text::lemma_scan(s, is_char('#'), s0, n);
    let h = tel_hash(s, r);
    crate::text::lemma_scan(s, is_char(';'), r, h);
    let semi = scan(s, is_char(';'), r, h);
    if s[r] != '+' {
        if s0 < n {
            assert(s[s0] == ';');
        }
        crate::canon::lemma_scan_is(s, is_char(';'), r, s0, h);
        assert(semi == s0);
    }
}

/// Writing out a parsed tel: URI and parsing the text again gives the same
/// URI, `parse(display(parse(x))) == parse(x)`, whenever decoding leaves its
/// parameters as they are (so malformed escapes such as `%%32E`, which a
/// second read decodes further, are left out).
#[verifier::rlimit(60)]
#[verifier::spinoff_prover]
pub proof fn law_tel_round_trip(s: Seq<char>)
    requires
        parse_tel(s) is Ok,
        crate::sip_reparse::params_decoded(parse_tel(s)->Ok_0.params, CharSet::Param),
    ensures
        parse_tel(tel_text(parse_tel(s)->Ok_0)) == parse_tel(s),
{
    reveal_strlit("tel:");
    reveal_strlit("tel");
    reveal_strlit(";");
    reveal_strlit("#");
    let n = s.len() as int;
    let u = parse_tel(s)->Ok_0;
    let r = tel_body_start(s)->Some_0;
    lemma_tel_layout(s);
    let h = tel_hash(s, r);
    let semi = scan(s, is_char(';'), r, h);
    let number = s.subrange(r, semi);
    let ps = u.params;
    let global = s[r] == '+';
    // the parameters: shaped, stable, free of `#`
    if semi < h {
        crate::sip_reparse::lemma_lenient_params_shaped(s, semi + 1, h, ParamKind::Tel, Seq::empty(), Seq::empty());
        crate::sip_reparse::lemma_lenient_params_avoid(
            s,
            semi + 1,
            h,
            ParamKind::Tel,
            Seq::empty(),
            Seq::empty(),
            '#',
        );
    } else {
        assert(ps =~= Seq::<ParamV>::empty());
    }
    crate::sip_reparse::lemma_stable_from_shape(ps, CharSet::Param);
    crate::sip_reparse::lemma_params_text_avoids(ps, '#');
    let pt = params_text(ps);
    let ft = fragment_text(u);
    let t = tel_text(u);
    let m = t.len() as int;
    let nn: int = 4 + number.len() as int;
    let p: int = nn + pt.len() as int;
    assert(t =~= "tel:"@ + number + pt + ft);
    assert forall|k: int| 4 <= k < nn implies t[k] == s[r + k - 4] by {
        assert(t[k] == number[k - 4]);
    }
    assert forall|k: int| nn <= k < p implies t[k] == pt[k - nn] by {}
    assert forall|k: int| p <= k < m implies t[k] == ft[k - p] by {}
    let sep = u.fragment is Some && !global && ps.len() == 0;
    let h2: int = match u.fragment {
        Some(f) => if sep {
            p + 1
        } else {
            p
        },
        None => m,
    };
    if u.fragment is Some {
        assert(h + 1 < n);
        if sep {
            assert(t[p] == ';');
            assert(t[p + 1] == '#');
        } else {
            assert(t[p] == '#');
        }
        assert(t.subrange(h2 + 1, m) =~= s.subrange(h + 1, n));
    } else {
        assert(ft =~= Seq::<char>::empty());
        assert(m == p);
    }
    if ps.len() > 0 {
        crate::reparse::lemma_params_text_head(ps);
        assert(t[nn] == ';');
    } else {
        assert(pt =~= Seq::<char>::empty());
    }
    // the scheme
    assert(t[0] == 't' && t[1] == 'e' && t[2] == 'l' && t[3] == ':');
    crate::canon::lemma_scan_is(t, is_char(':'), 0, 3, m);
    assert(t.take(3) =~= "tel"@);
    assert(tel_body_start(t) == Some(4int));
    assert(number.len() > 0);
    assert(t[4] == s[r]);
    // the fragment's `#`
    assert forall|k: int| nn <= k < p implies !is_char('#')(#[trigger] t[k]) by {
        assert(t[k] == pt[k - nn]);
    }
    assert forall|k: int| 4 <= k < nn implies !is_char(';')(#[trigger] t[k]) by {
        assert(t[k] == s[r + k - 4]);
    }
    if global {
        assert forall|k: int| 4 <= k < h2 implies !is_char('#')(#[trigger] t[k]) by {
            if k < nn {
                assert(t[k] == s[r + k - 4]);
            }
        }
        crate::canon::lemma_scan_is(t, is_char('#'), 4, h2, m);
        assert(tel_hash(t, 4) == h2);
    } else {
        crate::canon::lemma_scan_is(t, is_char(';'), 4, nn, m);
        assert forall|k: int| nn <= k < h2 implies !is_char('#')(#[trigger] t[k]) by {
            if k >= p {
                assert(t[k] == ';');
            }
        }
        crate::canon::lemma_scan_is(t, is_char('#'), nn, h2, m);
        assert(tel_hash(t, 4) == h2);
    }
    crate::canon::lemma_scan_is(t, is_char(';'), 4, nn, h2);
    assert(t.subrange(4, nn) =~= number);
    lemma_number_problem_window(s, r, semi, t, 4);
    // the parameters
    if ps.len() > 0 {
        assert(h2 == p);
        assert(t.subrange(nn, h2) =~= pt);
        crate::reparse::lemma_lenient_params_reparse(
            t,
            nn + 1,
            h2,
            ParamKind::Tel,
            ps,
            Seq::empty(),
            Seq::empty(),
        );
        assert(Seq::<ParamV>::empty() + ps =~= ps);
    } else if nn < h2 {
        assert(h2 == nn + 1);
        assert(scan(t, is_char(';'), nn + 1, nn + 1) == nn + 1);
        assert(tel_params(t, nn + 1, h2).0 =~= Seq::<ParamV>::empty());
    }
    assert(4 < m);
    assert(scan(t, is_char(';'), 4, h2) == nn);
    assert(number_problem(t, 4, nn) is None);
    let params2 = if nn < h2 {
        tel_params(t, nn + 1, h2).0
    } else {
        Seq::<ParamV>::empty()
    };
    assert(params2 == ps);
    let frag2 = if h2 + 1 < m {
        Some(t.subrange(h2 + 1, m))
    } else {
        None
    };
    assert(frag2 == u.fragment);
    assert(parse_tel(t) == Ok::<TelView, Seq<char>>(TelView { number, params: params2, fragment: frag2 }));
    assert(parse_tel(t) == Ok::<TelView, Seq<char>>(u));
}

/// An ASCII decimal digit, or a letter `a` to `f` in either case, is a hex digit.
pub proof fn lemma_hex_digit_char(c: char)
    requires
        ('0' <= c && c <= '9') || ('a' <= c && c <= 'f') || ('A' <= c && c <= 'F'),
    ensures
        hex_char(c),
{
    let v = c as u32;
    assert(v < 128);
    assert(v < 128 ==> (v as u8) as u32 == v) by (bit_vector);
}

/// The text after `tel:` is found at index 4, however the scheme is spelled
/// in case.
proof fn lemma_tel_prefix(s: Seq<char>)
    requires
        s.len() > 4,
        s[0] == 't' && s[1] == 'e' && s[2] == 'l' && s[3] == ':',
    ensures
        tel_body_start(s) == Some(4int),
{
    reveal_strlit("tel");
    crate::canon::lemma_scan_is(s, is_char(':'), 0, 3, s.len() as int);
    assert(s.take(3) =~= "tel"@);
}

/// A local number, one made of hex digits, `*`, `#` and the visual
/// separators `-`, `.`, `(` and `)` with at least one hex digit, `*` or `#`,
/// is accepted and kept exactly as written, whatever parameters or fragment
/// follow it.
pub proof fn law_local_number_accepted(number: Seq<char>, rest: Seq<char>)
    requires
        number.len() > 0,
        forall|k: int|
            0 <= k < number.len() ==> {
                let c = #[trigger] number[k];
                ('0' <= c && c <= '9') || ('a' <= c && c <= 'f') || ('A' <= c && c <= 'F') || c
                    == '*' || c == '#' || c == '-' || c == '.' || c == '(' || c == ')'
            },
        exists|k: int|
            0 <= k < number.len() && {
                let c = #[trigger] number[k];
                ('0' <= c && c <= '9') || ('a' <= c && c <= 'f') || ('A' <= c && c <= 'F') || c
                    == '*' || c == '#'
            },
        rest.len() == 0 || rest[0] == ';',
    ensures
        parse_tel("tel:"@ + number + rest) matches Ok(u) && u.number == number,
{
    reveal_strlit("tel:");
    let s = "tel:"@ + number + rest;
    let n = s.len() as int;
    let nl = number.len() as int;
    assert forall|k: int| 4 <= k < 4 + nl implies s[k] == number[k - 4] by {}
    lemma_tel_prefix(s);
    assert(s[4] == number[0]);
    assert forall|k: int| 4 <= k < 4 + nl implies !is_char(';')(#[trigger] s[k]) by {
        assert(s[k] == number[k - 4]);
    }
    if rest.len() > 0 {
        assert(s[4 + nl] == rest[0]);
    }
    crate::canon::lemma_scan_is(s, is_char(';'), 4, 4 + nl, n);
    let h = tel_hash(s, 4);
    crate::text::lemma_scan(s, is_char('#'), 4 + nl, n);
    crate::canon::lemma_scan_is(s, is_char(';'), 4, 4 + nl, h);
    assert forall|j: int| 4 <= j < 4 + nl implies phonedigit_hex(#[trigger] s[j]) by {
        let c = number[j - 4];
        assert(s[j] == c);
        if ('0' <= c && c <= '9') || ('a' <= c && c <= 'f') || ('A' <= c && c <= 'F') {
            lemma_hex_digit_char(c);
        }
    }
    let k = choose|k: int|
        0 <= k < number.len() && {
            let c = #[trigger] number[k];
            ('0' <= c && c <= '9') || ('a' <= c && c <= 'f') || ('A' <= c && c <= 'F') || c == '*'
                || c == '#'
        };
    let c = number[k];
    if ('0' <= c && c <= '9') || ('a' <= c && c <= 'f') || ('A' <= c && c <= 'F') {
        lemma_hex_digit_char(c);
    }
    assert(s[4 + k] == c);
    assert(hex_char(s[4 + k]) || s[4 + k] == '*' || s[4 + k] == '#');
    assert(number_problem(s, 4, 4 + nl) is None);
    assert(s.subrange(4, 4 + nl) =~= number);
}

/// A global number, `+` then digits and the visual separators `-`, `.`, `(`
/// and `)` with at least one digit, is accepted and kept exactly as written,
/// whatever parameters or fragment follow it.
pub proof fn law_global_number_accepted(number: Seq<char>, rest: Seq<char>)
    requires
        number.len() > 1,
        number[0] == '+',
        forall|k: int|
            1 <= k < number.len() ==> {
                let c = #[trigger] number[k];
                ('0' <= c && c <= '9') || c == '-' || c == '.' || c == '(' || c == ')'
            },
        exists|k: int| 1 <= k < number.len() && '0' <= #[trigger] number[k] && number[k] <= '9',
        rest.len() == 0 || rest[0] == ';' || rest[0] == '#',
    ensures
        parse_tel("tel:"@ + number + rest) matches Ok(u) && u.number == number,
{
    reveal_strlit("tel:");
    let s = "tel:"@ + number + rest;
    let n = s.len() as int;
    let nl = number.len() as int;
    assert forall|k: int| 4 <= k < 4 + nl implies s[k] == number[k - 4] by {}
    lemma_tel_prefix(s);
    assert(s[4] == '+');
    assert forall|k: int| 4 <= k < 4 + nl implies !is_char('#')(#[trigger] s[k]) by {
        assert(s[k] == number[k - 4]);
    }
    assert forall|k: int| 4 <= k < 4 + nl implies !is_char(';')(#[trigger] s[k]) by {
        assert(s[k] == number[k - 4]);
    }
    if rest.len() > 0 {
        assert(s[4 + nl] == rest[0]);
    }
    let h = tel_hash(s, 4);
    crate::text::lemma_scan(s, is_char('#'), 4, n);
    assert(h >= 4 + nl) by {
        if h < 4 + nl {
            assert(s[h] == '#');
        }
    }
    crate::canon::lemma_scan_is(s, is_char(';'), 4, 4 + nl, h);
    assert forall|j: int| 5 <= j < 4 + nl implies phonedigit(#[trigger] s[j]) by {
        assert(s[j] == number[j - 4]);
    }
    let k = choose|k: int| 1 <= k < number.len() && '0' <= #[trigger] number[k] && number[k] <= '9';
    assert(s[4 + k] == number[k]);
    assert(is_digit(s[4 + k]));
    assert(number_problem(s, 4, 4 + nl) is None);
    assert(s.subrange(4, 4 + nl) =~= number);
}

} // verus!
