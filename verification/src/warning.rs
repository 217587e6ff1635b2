//! Grammar breaches the parsers accept rather than reject, each reported
//! by component, code and byte offset, never by the text itself.

use vstd::prelude::*;

use crate::parse::{CharSet, first_invalid, first_invalid_at, lemma_first_invalid_bounds};
use crate::text::{byte_len, byte_offset, lemma_byte_offset_mono, offset_of, owned, push_decimal, push_str, decimal};

verus! {

broadcast use vstd::string::group_string_axioms;

/// A parse result together with the non-conformance found on the way.
#[derive(Debug, Clone, PartialEq, Eq)]
#[non_exhaustive]
pub struct Parsed<T> {
    /// The parsed value.
    pub value: T,
    /// Grammar breaches the parser accepted, in input order.
    pub warnings: Vec<ParseWarning>,
}

impl<T> Parsed<T> {
    /// Whether any warning was raised.
    pub fn has_warnings(&self) -> (r: bool)
        ensures
            r == (self.warnings@.len() > 0),
    {
        self.warnings.len() > 0
    }
}

/// A grammar breach the parser accepted rather than rejected.
#[derive(Debug, Clone, Copy, PartialEq, Eq, Hash)]
#[non_exhaustive]
pub struct ParseWarning {
    /// URI component the breach is in.
    pub component: Component,
    /// What is wrong with it.
    pub code: WarningCode,
    /// Byte offset into the parsed input, when one points at the breach.
    pub position: Option<usize>,
    /// Whether the parsed value still carries what was sent.
    pub kind: WarningKind,
}

/// URI component a warning refers to.
#[derive(Debug, Clone, Copy, PartialEq, Eq, Hash)]
#[non_exhaustive]
pub enum Component {
    /// The scheme before the first `:`.
    Scheme,
    /// SIP user part.
    User,
    /// SIP user-param, inside the userinfo.
    UserParam,
    /// SIP password.
    Password,
    /// Host.
    Host,
    /// Port.
    Port,
    /// URI parameter after the host, or a tel: parameter.
    Param,
    /// SIP URI header after `?`.
    Header,
    /// Fragment after `#`.
    Fragment,
    /// tel: telephone number.
    Number,
    /// URN r-component (`?+`).
    RComponent,
    /// URN q-component (`?=`).
    QComponent,
    /// URN f-component (`#`).
    FComponent,
}

/// Stable lowercase name of a component.
pub open spec fn component_name(c: Component) -> Seq<char> {
    match c {
        Component::Scheme => "scheme"@,
        Component::User => "user"@,
        Component::UserParam => "uparam"@,
        Component::Password => "password"@,
        Component::Host => "host"@,
        Component::Port => "port"@,
        Component::Param => "param"@,
        Component::Header => "header"@,
        Component::Fragment => "fragment"@,
        Component::Number => "number"@,
        Component::RComponent => "r-component"@,
        Component::QComponent => "q-component"@,
        Component::FComponent => "f-component"@,
    }
}

impl Component {
    /// Stable lowercase name, for logs and machine consumers.
    pub fn as_str(self) -> (r: &'static str)
        ensures
            r@ == component_name(self),
    {
        match self {
            Component::Scheme => "scheme",
            Component::User => "user",
            Component::UserParam => "uparam",
            Component::Password => "password",
            Component::Host => "host",
            Component::Port => "port",
            Component::Param => "param",
            Component::Header => "header",
            Component::Fragment => "fragment",
            Component::Number => "number",
            Component::RComponent => "r-component",
            Component::QComponent => "q-component",
            Component::FComponent => "f-component",
        }
    }
}

/// What a warning found.
#[derive(Debug, Clone, Copy, PartialEq, Eq, Hash)]
#[non_exhaustive]
pub enum WarningCode {
    /// A character outside the component's character set, kept literally.
    InvalidChar,
    /// A `%` not followed by two hex digits, kept literally.
    MalformedEscape,
    /// A parameter with no name before `=`.
    EmptyName,
    /// An empty `;` or `&` segment, dropped.
    EmptySegment,
    /// A password with no user before it.
    PasswordWithoutUser,
    /// A port written with a `+` sign.
    SignedPort,
    /// A `:` with no port after it, dropped.
    EmptyPort,
    /// A host label that is empty or starts or ends with `-`.
    InvalidHostLabel,
    /// A hostname whose last label does not start with a letter.
    NumericToplabel,
    /// A hostname written with percent-escapes.
    EscapedHost,
    /// A fragment on a URI whose grammar defines none.
    UnexpectedFragment,
    /// A `#` with nothing after it, dropped.
    EmptyFragment,
    /// A user part containing `?`, likely a header value whose `@` was taken
    /// as the userinfo delimiter.
    HeaderShapedUser,
    /// A local tel: number without `phone-context`.
    MissingPhoneContext,
    /// A URN `?+` or `?=` with nothing after it.
    EmptyComponent,
    /// A scheme outside the RFC 3986 grammar.
    InvalidScheme,
}

/// Stable kebab-case name of a warning code.
pub open spec fn code_name(c: WarningCode) -> Seq<char> {
    match c {
        WarningCode::InvalidChar => "invalid-char"@,
        WarningCode::MalformedEscape => "malformed-escape"@,
        WarningCode::EmptyName => "empty-name"@,
        WarningCode::EmptySegment => "empty-segment"@,
        WarningCode::PasswordWithoutUser => "password-without-user"@,
        WarningCode::SignedPort => "signed-port"@,
        WarningCode::EmptyPort => "empty-port"@,
        WarningCode::InvalidHostLabel => "invalid-host-label"@,
        WarningCode::NumericToplabel => "numeric-toplabel"@,
        WarningCode::EscapedHost => "escaped-host"@,
        WarningCode::UnexpectedFragment => "unexpected-fragment"@,
        WarningCode::EmptyFragment => "empty-fragment"@,
        WarningCode::HeaderShapedUser => "header-shaped-user"@,
        WarningCode::MissingPhoneContext => "missing-phone-context"@,
        WarningCode::EmptyComponent => "empty-component"@,
        WarningCode::InvalidScheme => "invalid-scheme"@,
    }
}

/// Lowercase kebab-case from position `i` on: lowercase ASCII letters, and
/// `-` only between two of them.
pub open spec fn kebab_from(x: Seq<char>, i: int) -> bool
    decreases x.len() - i,
{
    if i >= x.len() {
        true
    } else {
        (('a' <= x[i] && x[i] <= 'z') || (x[i] == '-' && 0 < i && i + 1 < x.len() && x[i + 1]
            != '-')) && kebab_from(x, i + 1)
    }
}

/// Lowercase kebab-case: nonempty words of lowercase ASCII letters joined by
/// single `-`.
pub open spec fn kebab_case(x: Seq<char>) -> bool {
    x.len() > 0 && kebab_from(x, 0)
}

/// Length, first and seventh character of a code's name, which tell the
/// names apart.
spec fn code_key(c: WarningCode) -> (int, char, char) {
    match c {
        WarningCode::InvalidChar => (12int, 'i', 'd'),
        WarningCode::MalformedEscape => (16int, 'm', 'm'),
        WarningCode::EmptyName => (10int, 'e', 'n'),
        WarningCode::EmptySegment => (13int, 'e', 's'),
        WarningCode::PasswordWithoutUser => (21int, 'p', 'r'),
        WarningCode::SignedPort => (11int, 's', '-'),
        WarningCode::EmptyPort => (10int, 'e', 'p'),
        WarningCode::InvalidHostLabel => (18int, 'i', 'd'),
        WarningCode::NumericToplabel => (16int, 'n', 'c'),
        WarningCode::EscapedHost => (12int, 'e', 'd'),
        WarningCode::UnexpectedFragment => (19int, 'u', 'c'),
        WarningCode::EmptyFragment => (14int, 'e', 'f'),
        WarningCode::HeaderShapedUser => (18int, 'h', '-'),
        WarningCode::MissingPhoneContext => (21int, 'm', 'g'),
        WarningCode::EmptyComponent => (15int, 'e', 'c'),
        WarningCode::InvalidScheme => (14int, 'i', 'd'),
    }
}

proof fn lemma_code_key(c: WarningCode)
    ensures
        code_name(c).len() == code_key(c).0,
        code_name(c)[0] == code_key(c).1,
        code_name(c)[6] == code_key(c).2,
        kebab_case(code_name(c)),
{
    reveal_strlit("invalid-char");
    reveal_strlit("malformed-escape");
    reveal_strlit("empty-name");
    reveal_strlit("empty-segment");
    reveal_strlit("password-without-user");
    reveal_strlit("signed-port");
    reveal_strlit("empty-port");
    reveal_strlit("invalid-host-label");
    reveal_strlit("numeric-toplabel");
    reveal_strlit("escaped-host");
    reveal_strlit("unexpected-fragment");
    reveal_strlit("empty-fragment");
    reveal_strlit("header-shaped-user");
    reveal_strlit("missing-phone-context");
    reveal_strlit("empty-component");
    reveal_strlit("invalid-scheme");
    reveal_with_fuel(kebab_from, 22);
}

/// Every warning code has a lowercase kebab-case name, and no two codes
/// share a name.
pub proof fn law_code_names(a: WarningCode, b: WarningCode)
    ensures
        kebab_case(code_name(a)),
        a != b ==> code_name(a) != code_name(b),
{
    lemma_code_key(a);
    lemma_code_key(b);
}

/// Human-readable description of a warning code.
pub open spec fn code_description(c: WarningCode) -> Seq<char> {
    match c {
        WarningCode::InvalidChar => "invalid character"@,
        WarningCode::MalformedEscape => "malformed percent-escape"@,
        WarningCode::EmptyName => "empty parameter name"@,
        WarningCode::EmptySegment => "empty segment dropped"@,
        WarningCode::PasswordWithoutUser => "password without user"@,
        WarningCode::SignedPort => "signed port"@,
        WarningCode::EmptyPort => "empty port dropped"@,
        WarningCode::InvalidHostLabel => "invalid host label"@,
        WarningCode::NumericToplabel => "last host label does not start with a letter"@,
        WarningCode::EscapedHost => "percent-escaped hostname"@,
        WarningCode::UnexpectedFragment => "fragment not defined for this scheme"@,
        WarningCode::EmptyFragment => "empty fragment dropped"@,
        WarningCode::HeaderShapedUser => "user part contains '?'"@,
        WarningCode::MissingPhoneContext => "local number without phone-context"@,
        WarningCode::EmptyComponent => "empty component"@,
        WarningCode::InvalidScheme => "invalid scheme"@,
    }
}

/// Whether a code marks input that was dropped: only empty segments, empty
/// ports and empty fragments are lost; everything else is kept as sent.
pub open spec fn code_kind(c: WarningCode) -> WarningKind {
    match c {
        WarningCode::EmptySegment | WarningCode::EmptyPort | WarningCode::EmptyFragment => {
            WarningKind::Lost
        },
        _ => WarningKind::Recovered,
    }
}

impl WarningCode {
    /// Stable kebab-case name, for logs and machine consumers.
    pub fn as_str(self) -> (r: &'static str)
        ensures
            r@ == code_name(self),
    {
        match self {
            WarningCode::InvalidChar => "invalid-char",
            WarningCode::MalformedEscape => "malformed-escape",
            WarningCode::EmptyName => "empty-name",
            WarningCode::EmptySegment => "empty-segment",
            WarningCode::PasswordWithoutUser => "password-without-user",
            WarningCode::SignedPort => "signed-port",
            WarningCode::EmptyPort => "empty-port",
            WarningCode::InvalidHostLabel => "invalid-host-label",
            WarningCode::NumericToplabel => "numeric-toplabel",
            WarningCode::EscapedHost => "escaped-host",
            WarningCode::UnexpectedFragment => "unexpected-fragment",
            WarningCode::EmptyFragment => "empty-fragment",
            WarningCode::HeaderShapedUser => "header-shaped-user",
            WarningCode::MissingPhoneContext => "missing-phone-context",
            WarningCode::EmptyComponent => "empty-component",
            WarningCode::InvalidScheme => "invalid-scheme",
        }
    }

    /// Human-readable description.
    pub fn describe(self) -> (r: &'static str)
        ensures
            r@ == code_description(self),
    {
        match self {
            WarningCode::InvalidChar => "invalid character",
            WarningCode::MalformedEscape => "malformed percent-escape",
            WarningCode::EmptyName => "empty parameter name",
            WarningCode::EmptySegment => "empty segment dropped",
            WarningCode::PasswordWithoutUser => "password without user",
            WarningCode::SignedPort => "signed port",
            WarningCode::EmptyPort => "empty port dropped",
            WarningCode::InvalidHostLabel => "invalid host label",
            WarningCode::NumericToplabel => "last host label does not start with a letter",
            WarningCode::EscapedHost => "percent-escaped hostname",
            WarningCode::UnexpectedFragment => "fragment not defined for this scheme",
            WarningCode::EmptyFragment => "empty fragment dropped",
            WarningCode::HeaderShapedUser => "user part contains '?'",
            WarningCode::MissingPhoneContext => "local number without phone-context",
            WarningCode::EmptyComponent => "empty component",
            WarningCode::InvalidScheme => "invalid scheme",
        }
    }

    /// Whether the value still carries what this code reports.
    pub fn kind(self) -> (r: WarningKind)
        ensures
            r == code_kind(self),
    {
        match self {
            WarningCode::EmptySegment | WarningCode::EmptyPort | WarningCode::EmptyFragment => {
                WarningKind::Lost
            },
            _ => WarningKind::Recovered,
        }
    }
}

/// Whether the parsed value still carries what the input sent.
#[derive(Debug, Clone, Copy, PartialEq, Eq, Hash)]
#[non_exhaustive]
pub enum WarningKind {
    /// Kept as sent; re-serializing reproduces it.
    Recovered,
    /// Dropped; re-serializing omits it.
    Lost,
}

/// A warning as displayed: `component: description`, then ` at byte N`
/// when it has a position.
pub open spec fn warning_text(w: ParseWarning) -> Seq<char> {
    component_name(w.component) + ": "@ + code_description(w.code) + match w.position {
        Some(p) => " at byte "@ + decimal(p as nat),
        None => Seq::empty(),
    }
}

impl ParseWarning {
    /// The warning as displayed (see `warning_text`).
    pub fn to_string(&self) -> (s: String)
        ensures
            s@ == warning_text(*self),
    {
        let mut s = owned(self.component.as_str());
        push_str(&mut s, ": ");
        push_str(&mut s, self.code.describe());
        match self.position {
            Some(p) => {
                push_str(&mut s, " at byte ");
                push_decimal(&mut s, p);
            },
            None => {},
        }
        s
    }
}

/// The warning with `code` for `component` at the character index `pos`
/// of the input `s`, reported as a byte offset.
pub open spec fn warning_at(s: Seq<char>, component: Component, code: WarningCode, pos: int) -> ParseWarning {
    ParseWarning {
        component,
        code,
        position: Some(byte_offset(s, pos) as usize),
        kind: code_kind(code),
    }
}

/// The warning (if any) for the first character of `s[lo..hi]` outside
/// `set` and outside a well-formed escape: a malformed escape when that
/// character is `%`, an invalid character otherwise.
pub open spec fn charset_warnings(
    s: Seq<char>,
    component: Component,
    set: CharSet,
    lo: int,
    hi: int,
) -> Seq<ParseWarning> {
    let k = first_invalid(s, set, lo, hi);
    if k < hi {
        seq![
            warning_at(
                s,
                component,
                if s[k] == '%' {
                    WarningCode::MalformedEscape
                } else {
                    WarningCode::InvalidChar
                },
                k,
            ),
        ]
    } else {
        Seq::empty()
    }
}

/// `a` stands strictly before `b` in the input.
pub open spec fn pos_lt(a: ParseWarning, b: ParseWarning) -> bool {
    match (a.position, b.position) {
        (Some(p), Some(q)) => p < q,
        _ => false,
    }
}

/// `a` stands no later than `b` in the input.
pub open spec fn pos_le(a: ParseWarning, b: ParseWarning) -> bool {
    match (a.position, b.position) {
        (Some(p), Some(q)) => p <= q,
        _ => true,
    }
}

/// The warnings are listed in input order: positions never decrease.
pub open spec fn in_input_order(ws: Seq<ParseWarning>) -> bool {
    forall|i: int, j: int| 0 <= i < j < ws.len() ==> pos_le(#[trigger] ws[i], #[trigger] ws[j])
}

/// The warning has a position, from `lo` to `hi`.
pub open spec fn placed_between(w: ParseWarning, lo: int, hi: int) -> bool {
    match w.position {
        Some(p) => lo <= p && p <= hi,
        None => false,
    }
}

/// The warnings are in input order, each with a position from `lo` to `hi`.
pub open spec fn ordered_between(ws: Seq<ParseWarning>, lo: int, hi: int) -> bool {
    &&& in_input_order(ws)
    &&& forall|i: int| 0 <= i < ws.len() ==> placed_between(#[trigger] ws[i], lo, hi)
}

/// `ws` with `x` put before the first warning that stands after it.
pub open spec fn insert_in_order(ws: Seq<ParseWarning>, x: ParseWarning) -> Seq<ParseWarning>
    decreases ws.len(),
{
    if ws.len() == 0 {
        seq![x]
    } else if pos_lt(x, ws[0]) {
        seq![x] + ws
    } else {
        seq![ws[0]] + insert_in_order(ws.skip(1), x)
    }
}

/// No warnings are in order anywhere.
pub proof fn lemma_ordered_empty(lo: int, hi: int)
    ensures
        ordered_between(Seq::empty(), lo, hi),
{
}

/// Ordered warnings stay ordered within wider bounds.
pub proof fn lemma_ordered_widen(ws: Seq<ParseWarning>, lo: int, hi: int, lo2: int, hi2: int)
    requires
        ordered_between(ws, lo, hi),
        lo2 <= lo,
        hi <= hi2,
    ensures
        ordered_between(ws, lo2, hi2),
{
    assert forall|i: int| 0 <= i < ws.len() implies placed_between(#[trigger] ws[i], lo2, hi2) by {
        assert(placed_between(ws[i], lo, hi));
    }
}

/// Ordered warnings followed by ordered warnings that stand no earlier.
pub proof fn lemma_ordered_append(a: Seq<ParseWarning>, b: Seq<ParseWarning>, lo: int, mid: int, hi: int)
    requires
        ordered_between(a, lo, mid),
        ordered_between(b, mid, hi),
        lo <= mid <= hi,
    ensures
        ordered_between(a + b, lo, hi),
{
    let c = a + b;
    assert forall|i: int| 0 <= i < c.len() implies placed_between(#[trigger] c[i], lo, hi) by {
        if i < a.len() {
            assert(c[i] == a[i]);
            assert(placed_between(a[i], lo, mid));
        } else {
            assert(c[i] == b[i - a.len()]);
            assert(placed_between(b[i - a.len()], mid, hi));
        }
    }
    assert forall|i: int, j: int| 0 <= i < j < c.len() implies pos_le(#[trigger] c[i], #[trigger] c[j]) by {
        if j < a.len() {
            assert(c[i] == a[i] && c[j] == a[j]);
        } else if i >= a.len() {
            assert(c[i] == b[i - a.len()] && c[j] == b[j - a.len()]);
        } else {
            assert(c[i] == a[i] && c[j] == b[j - a.len()]);
            assert(placed_between(a[i], lo, mid));
            assert(placed_between(b[j - a.len()], mid, hi));
        }
    }
}

/// Ordered warnings with one more at the end that stands no earlier.
pub proof fn lemma_ordered_push(ws: Seq<ParseWarning>, x: ParseWarning, lo: int, mid: int, hi: int)
    requires
        ordered_between(ws, lo, mid),
        placed_between(x, mid, hi),
        lo <= mid,
    ensures
        ordered_between(ws.push(x), lo, hi),
{
    assert(ordered_between(seq![x], mid, hi)) by {
        assert forall|i: int, j: int| 0 <= i < j < seq![x].len() implies pos_le(
            #[trigger] seq![x][i],
            #[trigger] seq![x][j],
        ) by {}
    }
    lemma_ordered_append(ws, seq![x], lo, mid, hi);
    assert(ws + seq![x] =~= ws.push(x));
}

/// A warning placed by `insert_in_order` keeps ordered warnings ordered.
pub proof fn lemma_insert_in_order(ws: Seq<ParseWarning>, x: ParseWarning, lo: int, hi: int)
    requires
        ordered_between(ws, lo, hi),
        placed_between(x, lo, hi),
    ensures
        ordered_between(insert_in_order(ws, x), lo, hi),
    decreases ws.len(),
{
    let px = x.position->Some_0 as int;
    if ws.len() == 0 {
        assert forall|i: int, j: int| 0 <= i < j < seq![x].len() implies pos_le(
            #[trigger] seq![x][i],
            #[trigger] seq![x][j],
        ) by {}
    } else {
        let p0 = ws[0].position->Some_0 as int;
        assert(placed_between(ws[0], lo, hi));
        let rest = ws.skip(1);
        assert(ordered_between(rest, p0, hi)) by {
            assert forall|i: int| 0 <= i < rest.len() implies placed_between(#[trigger] rest[i], p0, hi) by {
                assert(rest[i] == ws[i + 1]);
                assert(pos_le(ws[0], ws[i + 1]));
                assert(placed_between(ws[i + 1], lo, hi));
            }
            assert forall|i: int, j: int| 0 <= i < j < rest.len() implies pos_le(
                #[trigger] rest[i],
                #[trigger] rest[j],
            ) by {
                assert(rest[i] == ws[i + 1] && rest[j] == ws[j + 1]);
            }
        }
        if pos_lt(x, ws[0]) {
            assert(ordered_between(seq![x], lo, px)) by {
                assert forall|i: int, j: int| 0 <= i < j < seq![x].len() implies pos_le(
                    #[trigger] seq![x][i],
                    #[trigger] seq![x][j],
                ) by {}
            }
            assert(ordered_between(ws, px, hi)) by {
                assert forall|i: int| 0 <= i < ws.len() implies placed_between(#[trigger] ws[i], px, hi) by {
                    if i > 0 {
                        assert(pos_le(ws[0], ws[i]));
                    }
                    assert(placed_between(ws[i], lo, hi));
                }
            }
            lemma_ordered_append(seq![x], ws, lo, px, hi);
        } else {
            lemma_insert_in_order(rest, x, p0, hi);
            assert(ordered_between(seq![ws[0]], lo, p0)) by {
                assert forall|i: int, j: int| 0 <= i < j < seq![ws[0]].len() implies pos_le(
                    #[trigger] seq![ws[0]][i],
                    #[trigger] seq![ws[0]][j],
                ) by {}
            }
            lemma_ordered_append(seq![ws[0]], insert_in_order(rest, x), lo, p0, hi);
        }
    }
}

/// A warning at a character index, where the text's encoding fits in a
/// `usize`, sits at that index's byte offset.
pub proof fn lemma_warning_at_pos(s: Seq<char>, component: Component, code: WarningCode, k: int)
    requires
        0 <= k <= s.len(),
        byte_len(s) <= usize::MAX,
    ensures
        warning_at(s, component, code, k).position == Some(byte_offset(s, k) as usize),
        (byte_offset(s, k) as usize) as int == byte_offset(s, k),
{
    lemma_byte_offset_mono(s, k);
}

/// Byte offsets grow with the character index.
pub proof fn lemma_byte_offset_le(s: Seq<char>, i: int, j: int)
    requires
        0 <= i <= j <= s.len(),
    ensures
        byte_offset(s, i) <= byte_offset(s, j),
{
    assert(s.take(j) =~= s.take(i) + s.subrange(i, j));
    crate::text::lemma_encode_concat(s.take(i), s.subrange(i, j));
}

/// A single warning at index `k` of `s` is ordered at `k`'s offset.
pub proof fn lemma_ordered_single(s: Seq<char>, component: Component, code: WarningCode, k: int)
    requires
        0 <= k <= s.len(),
        byte_len(s) <= usize::MAX,
    ensures
        ordered_between(
            seq![warning_at(s, component, code, k)],
            byte_offset(s, k) as int,
            byte_offset(s, k) as int,
        ),
{
    lemma_warning_at_pos(s, component, code, k);
    let x = seq![warning_at(s, component, code, k)];
    assert forall|i: int, j: int| 0 <= i < j < x.len() implies pos_le(#[trigger] x[i], #[trigger] x[j]) by {}
}

/// The charset warning of `s[lo..hi]` lies within it.
pub proof fn lemma_charset_ordered(s: Seq<char>, component: Component, set: CharSet, lo: int, hi: int)
    requires
        0 <= lo <= hi <= s.len(),
        byte_len(s) <= usize::MAX,
    ensures
        ordered_between(
            charset_warnings(s, component, set, lo, hi),
            byte_offset(s, lo) as int,
            byte_offset(s, hi) as int,
        ),
{
    let k = first_invalid(s, set, lo, hi);
    lemma_first_invalid_bounds(s, set, lo, hi);
    if k < hi {
        let code = if s[k] == '%' {
            WarningCode::MalformedEscape
        } else {
            WarningCode::InvalidChar
        };
        lemma_ordered_single(s, component, code, k);
        lemma_byte_offset_le(s, lo, k);
        lemma_byte_offset_le(s, k, hi);
        lemma_ordered_widen(
            seq![warning_at(s, component, code, k)],
            byte_offset(s, k) as int,
            byte_offset(s, k) as int,
            byte_offset(s, lo) as int,
            byte_offset(s, hi) as int,
        );
    }
}

/// Collects warnings, positions relative to the whole parsed input.
pub struct Warnings {
    list: Vec<ParseWarning>,
}

impl View for Warnings {
    type V = Seq<ParseWarning>;

    closed spec fn view(&self) -> Seq<ParseWarning> {
        self.list@
    }
}

impl Warnings {
    /// No warnings yet.
    pub fn new() -> (w: Warnings)
        ensures
            w@ == Seq::<ParseWarning>::empty(),
    {
        Warnings { list: Vec::new() }
    }

    /// Record `code` for `component` at character index `pos` of `v`.
    pub fn push(&mut self, component: Component, code: WarningCode, v: &Vec<char>, pos: usize)
        requires
            pos <= v@.len(),
            byte_len(v@) <= usize::MAX,
        ensures
            final(self)@ == old(self)@.push(warning_at(v@, component, code, pos as int)),
    {
        proof {
            lemma_byte_offset_mono(v@, pos as int);
        }
        let p = offset_of(v, pos);
        self.list.push(ParseWarning { component, code, position: Some(p), kind: code.kind() });
    }

    /// Warn on the first character of `v[lo..hi]` outside `set` or a
    /// well-formed escape.
    pub fn charset(&mut self, component: Component, v: &Vec<char>, lo: usize, hi: usize, set: CharSet)
        requires
            lo <= hi <= v@.len(),
            byte_len(v@) <= usize::MAX,
        ensures
            final(self)@ == old(self)@ + charset_warnings(v@, component, set, lo as int, hi as int),
    {
        let k = first_invalid_at(v, lo, hi, set);
        if k < hi {
            let code = if v[k] == '%' {
                WarningCode::MalformedEscape
            } else {
                WarningCode::InvalidChar
            };
            self.push(component, code, v, k);
            assert(final(self)@ =~= old(self)@ + charset_warnings(v@, component, set, lo as int, hi as int));
        } else {
            assert(old(self)@ + charset_warnings(v@, component, set, lo as int, hi as int) =~= old(self)@);
        }
    }

    /// Record `code` for `component` at character index `pos` of `v`, placed
    /// before the first warning that stands after it.
    pub fn insert(&mut self, component: Component, code: WarningCode, v: &Vec<char>, pos: usize)
        requires
            pos <= v@.len(),
            byte_len(v@) <= usize::MAX,
        ensures
            final(self)@ == insert_in_order(old(self)@, warning_at(v@, component, code, pos as int)),
    {
        proof {
            lemma_byte_offset_mono(v@, pos as int);
        }
        let p = offset_of(v, pos);
        let x = ParseWarning { component, code, position: Some(p), kind: code.kind() };
        assert(x == warning_at(v@, component, code, pos as int));
        let ghost whole = insert_in_order(self.list@, x);
        let mut out: Vec<ParseWarning> = Vec::new();
        let mut i: usize = 0;
        assert(self.list@.skip(0) =~= self.list@);
        assert(out@ + insert_in_order(self.list@.skip(0), x) =~= whole);
        while i < self.list.len()
            invariant
                i <= self.list@.len(),
                self.list@ == old(self)@,
                whole == insert_in_order(self.list@, x),
                whole == out@ + insert_in_order(self.list@.skip(i as int), x),
                x.position == Some(p),
                x == warning_at(v@, component, code, pos as int),
            decreases self.list@.len() - i,
        {
            let y = self.list[i];
            let ghost rest = self.list@.skip(i as int);
            assert(rest[0] == y);
            if y.position.is_some() && p < y.position.unwrap() {
                assert(pos_lt(x, rest[0]));
                assert(whole == out@ + (seq![x] + rest));
                out.push(x);
                while i < self.list.len()
                    invariant
                        i <= self.list@.len(),
                        self.list@ == old(self)@,
                        whole == insert_in_order(old(self)@, x),
                        x == warning_at(v@, component, code, pos as int),
                        whole == out@ + self.list@.skip(i as int),
                    decreases self.list@.len() - i,
                {
                    let ghost r2 = self.list@.skip(i as int);
                    let ghost o2 = out@;
                    out.push(self.list[i]);
                    assert(r2 =~= seq![self.list@[i as int]] + self.list@.skip(i + 1));
                    assert(out@ =~= o2.push(self.list@[i as int]));
                    i = i + 1;
                }
                assert(self.list@.skip(i as int) =~= Seq::<ParseWarning>::empty());
                assert(whole =~= out@);
                self.list = out;
                return;
            }
            assert(!pos_lt(x, rest[0]));
            assert(rest.skip(1) =~= self.list@.skip(i + 1));
            let ghost o2 = out@;
            out.push(y);
            assert(out@ =~= o2.push(y));
            i = i + 1;
        }
        assert(self.list@.skip(i as int) =~= Seq::<ParseWarning>::empty());
        assert(insert_in_order(Seq::<ParseWarning>::empty(), x) =~= seq![x]);
        let ghost o2 = out@;
        out.push(x);
        assert(out@ =~= o2 + seq![x]);
        self.list = out;
    }

    /// Append the warnings of `other`, in order.
    pub fn extend(&mut self, other: Warnings)
        ensures
            final(self)@ == old(self)@ + other@,
    {
        let ghost start = self.list@;
        let mut i: usize = 0;
        while i < other.list.len()
            invariant
                i <= other.list@.len(),
                self.list@ == start + other.list@.take(i as int),
            decreases other.list@.len() - i,
        {
            self.list.push(other.list[i]);
            assert(other.list@.take(i + 1) =~= other.list@.take(i as int).push(other.list@[i as int]));
            i = i + 1;
        }
        assert(other.list@.take(other.list@.len() as int) =~= other.list@);
    }

    /// The collected warnings beside the value.
    pub fn finish<T>(self, value: T) -> (p: Parsed<T>)
        ensures
            p.value == value,
            p.warnings@ == self@,
    {
        Parsed { value, warnings: self.list }
    }
}

} // verus!
