use sip_uri::{
    Component, Host, ParseWarning, SipUri, TelUri, Uri, UrnUri, WarningCode, WarningKind,
};

fn codes(warnings: &[ParseWarning]) -> Vec<(Component, WarningCode)> {
    warnings
        .iter()
        .map(|w| (w.component, w.code))
        .collect()
}

fn sip(input: &str) -> (SipUri, Vec<ParseWarning>) {
    let parsed = SipUri::parse_with_warnings(input).unwrap();
    let reparsed: SipUri = parsed
        .value
        .to_string()
        .parse()
        .unwrap();
    assert_eq!(reparsed, parsed.value, "round-trip of {input:?}");
    assert_eq!(
        input
            .parse::<SipUri>()
            .unwrap(),
        parsed.value
    );
    (parsed.value, parsed.warnings)
}

fn only(warnings: &[ParseWarning], component: Component, code: WarningCode) -> ParseWarning {
    assert_eq!(codes(warnings), [(component, code)], "{warnings:?}");
    warnings[0]
}

#[test]
fn conformant_inputs_raise_nothing() {
    for input in [
        "sip:alice@example.com",
        "sips:alice@example.com:5061;transport=tls",
        "sip:+15551234567;cpc=emergency;oli=0@198.51.100.1;user=phone",
        "sip:1411@[2001:db8::1]:5061;user=phone",
        "sip:sip.bcf.qc.core.ng.example.com;participantid=2;user=phone",
        "sip:biloxi.com;transport=tcp;method=REGISTER?to=sip:bob%40biloxi.com&from=user%40example.org",
        "sip:pekka.pessi@example.com;method=%4D%45%53%53%41%47%45?body=CANNED%20MSG",
        "sip:1411@198.51.100.2;key1?key2=",
        "sip:user@example.com.",
    ] {
        let parsed = SipUri::parse_with_warnings(input).unwrap();
        assert!(parsed.warnings.is_empty(), "{input}: {:?}", parsed.warnings);
    }
    for input in [
        "tel:+15551234567;cpc=emergency;oli=0",
        "tel:1411;phone-context=example.com",
        "tel:+1.555-123-4567",
    ] {
        let parsed = TelUri::parse_with_warnings(input).unwrap();
        assert!(
            parsed
                .warnings
                .is_empty(),
            "{input}: {:?}",
            parsed.warnings
        );
    }
    for input in [
        "urn:service:sos",
        "urn:nena:callid:20250101120000001TEST001:bcf1.ng911.example.com",
        "urn:example:foo?+resolve?=query#frag",
        "urn:example:foo#",
    ] {
        let parsed = UrnUri::parse_with_warnings(input).unwrap();
        assert!(
            parsed
                .warnings
                .is_empty(),
            "{input}: {:?}",
            parsed.warnings
        );
    }
    for input in ["https://example.com/photo.jpg", "cid:abc@example.com"] {
        let parsed = Uri::parse_with_warnings(input).unwrap();
        assert!(
            parsed
                .warnings
                .is_empty(),
            "{input}: {:?}",
            parsed.warnings
        );
    }
}

#[test]
fn invalid_user_char() {
    let (uri, w) = sip("sip:a b@example.com");
    assert_eq!(uri.user(), Some("a b"));
    let w = only(&w, Component::User, WarningCode::InvalidChar);
    assert_eq!(w.position, Some(5));
    assert_eq!(w.kind, WarningKind::Recovered);
}

#[test]
fn malformed_user_escape() {
    let (uri, w) = sip("sip:us%zzer@example.com");
    assert_eq!(uri.user(), Some("us%zzer"));
    only(&w, Component::User, WarningCode::MalformedEscape);
}

#[test]
fn hash_in_user() {
    let (uri, w) = sip("sip:#**00**#;foo=/bar@198.51.100.1");
    assert_eq!(uri.user(), Some("#**00**#"));
    let w = only(&w, Component::User, WarningCode::InvalidChar);
    assert_eq!(w.position, Some(4));
}

#[test]
fn invalid_password_char() {
    let (uri, w) = sip("sip:alice:p w@example.com");
    assert_eq!(uri.password(), Some("p w"));
    only(&w, Component::Password, WarningCode::InvalidChar);
}

#[test]
fn password_without_user() {
    let (uri, w) = sip("sip::secret@example.com");
    assert_eq!(uri.user(), None);
    assert_eq!(uri.password(), Some("secret"));
    only(&w, Component::User, WarningCode::PasswordWithoutUser);
}

#[test]
fn header_shaped_user() {
    let (uri, w) = sip("sip:example.com?From=a@example.org");
    assert_eq!(uri.user(), Some("example.com?From=a"));
    let w = only(&w, Component::User, WarningCode::HeaderShapedUser);
    assert_eq!(w.position, Some(15));
}

#[test]
fn signed_port() {
    let (uri, w) = sip("sip:example.com:+5060");
    assert_eq!(uri.port(), Some(5060));
    let w = only(&w, Component::Port, WarningCode::SignedPort);
    assert_eq!(w.position, Some(16));
}

#[test]
fn empty_port() {
    let (uri, w) = sip("sip:alice@198.51.100.1:");
    assert_eq!(uri.port(), None);
    let w = only(&w, Component::Port, WarningCode::EmptyPort);
    assert_eq!(w.kind, WarningKind::Lost);
}

#[test]
fn empty_param_name() {
    let (uri, w) = sip("sip:example.com;=v");
    assert_eq!(uri.params(), &[("".into(), Some("v".into()))]);
    only(&w, Component::Param, WarningCode::EmptyName);
}

#[test]
fn empty_user_param_name() {
    let (_, w) = sip("sip:alice;=v@example.com");
    only(&w, Component::UserParam, WarningCode::EmptyName);
}

#[test]
fn empty_param_segment() {
    let (uri, w) = sip("sip:example.com;user=phone;;");
    assert_eq!(
        uri.params()
            .len(),
        1
    );
    assert_eq!(
        codes(&w),
        [
            (Component::Param, WarningCode::EmptySegment),
            (Component::Param, WarningCode::EmptySegment),
        ]
    );
    assert!(w
        .iter()
        .all(|w| w.kind == WarningKind::Lost));
}

#[test]
fn param_extension_chars() {
    let (uri, w) = sip("sip:alice@example.com;maddr=a@b");
    assert_eq!(uri.param("maddr"), Some(&Some("a@b".into())));
    only(&w, Component::Param, WarningCode::InvalidChar);
}

#[test]
fn invalid_header_char() {
    let (uri, w) = sip("sip:alice@example.com?Subject=a b");
    assert_eq!(uri.header("Subject"), Some("a%20b"));
    only(&w, Component::Header, WarningCode::InvalidChar);
}

#[test]
fn malformed_header_escape() {
    let (_, w) = sip("sip:alice@example.com?a=%");
    only(&w, Component::Header, WarningCode::MalformedEscape);
}

#[test]
fn empty_header_segment() {
    let (uri, w) = sip("sip:alice@example.com?a=1&&b=2");
    assert_eq!(
        uri.headers()
            .len(),
        2
    );
    only(&w, Component::Header, WarningCode::EmptySegment);
}

#[test]
fn invalid_host_labels() {
    for input in [
        "sip:-bad.example.com",
        "sip:bad-.example.com",
        "sip:a..example.com",
    ] {
        let (_, w) = sip(input);
        only(&w, Component::Host, WarningCode::InvalidHostLabel);
    }
}

#[test]
fn numeric_toplabel() {
    let (uri, w) = sip("sip:999.1.1.1");
    assert_eq!(uri.host(), &Host::Hostname("999.1.1.1".into()));
    let w = only(&w, Component::Host, WarningCode::NumericToplabel);
    assert_eq!(w.position, Some(12));
}

#[test]
fn escaped_host() {
    let (uri, w) = sip("sip:alice@example%2Ecom");
    assert_eq!(uri.host(), &Host::Hostname("example.com".into()));
    only(&w, Component::Host, WarningCode::EscapedHost);
}

#[test]
fn sip_fragment() {
    let (uri, w) = sip("sip:alice@example.com#frag");
    assert_eq!(uri.fragment(), Some("frag"));
    only(&w, Component::Fragment, WarningCode::UnexpectedFragment);

    let (uri, w) = sip("sip:alice@example.com#");
    assert_eq!(uri.fragment(), None);
    only(&w, Component::Fragment, WarningCode::EmptyFragment);
}

#[test]
fn tel_missing_phone_context() {
    let parsed = TelUri::parse_with_warnings("tel:911").unwrap();
    assert_eq!(
        parsed
            .value
            .number(),
        "911"
    );
    only(
        &parsed.warnings,
        Component::Number,
        WarningCode::MissingPhoneContext,
    );
}

#[test]
fn tel_param_charset() {
    let parsed = TelUri::parse_with_warnings("tel:+15551234567;a_b=1").unwrap();
    only(&parsed.warnings, Component::Param, WarningCode::InvalidChar);

    let parsed = TelUri::parse_with_warnings("tel:+15551234567;=1").unwrap();
    only(&parsed.warnings, Component::Param, WarningCode::EmptyName);
}

#[test]
fn tel_fragment() {
    let parsed = TelUri::parse_with_warnings("tel:+15551234567;cpc=emergency#x").unwrap();
    only(
        &parsed.warnings,
        Component::Fragment,
        WarningCode::UnexpectedFragment,
    );
}

#[test]
fn urn_empty_components() {
    let parsed = UrnUri::parse_with_warnings("urn:example:foo?+").unwrap();
    assert_eq!(
        parsed
            .value
            .r_component(),
        Some("")
    );
    only(
        &parsed.warnings,
        Component::RComponent,
        WarningCode::EmptyComponent,
    );

    let parsed = UrnUri::parse_with_warnings("urn:example:foo?=").unwrap();
    only(
        &parsed.warnings,
        Component::QComponent,
        WarningCode::EmptyComponent,
    );
}

#[test]
fn urn_component_charsets() {
    let parsed = UrnUri::parse_with_warnings("urn:example:foo?+a b").unwrap();
    only(
        &parsed.warnings,
        Component::RComponent,
        WarningCode::InvalidChar,
    );

    let parsed = UrnUri::parse_with_warnings("urn:example:foo?+a#b#c").unwrap();
    assert_eq!(
        parsed
            .value
            .r_component(),
        Some("a")
    );
    assert_eq!(
        parsed
            .value
            .f_component(),
        Some("b#c")
    );
    let w = only(
        &parsed.warnings,
        Component::FComponent,
        WarningCode::InvalidChar,
    );
    assert_eq!(w.position, Some(20));
    assert_eq!(
        parsed
            .value
            .to_string(),
        "urn:example:foo?+a#b#c"
    );
}

#[test]
fn uri_invalid_scheme() {
    for input in ["<sip:alice@example.com>", " sip:alice@example.com"] {
        let parsed = Uri::parse_with_warnings(input).unwrap();
        assert_eq!(
            parsed
                .value
                .as_other(),
            Some(input)
        );
        let w = only(
            &parsed.warnings,
            Component::Scheme,
            WarningCode::InvalidScheme,
        );
        assert_eq!(w.position, Some(0));
    }
}

#[test]
fn uri_forwards_scheme_warnings() {
    let parsed = Uri::parse_with_warnings("sip:example.com:+5060").unwrap();
    only(&parsed.warnings, Component::Port, WarningCode::SignedPort);
}

#[test]
fn standalone_host() {
    let parsed = Host::parse_with_warnings("-bad.example.com").unwrap();
    only(
        &parsed.warnings,
        Component::Host,
        WarningCode::InvalidHostLabel,
    );
    assert!(!Host::parse_with_warnings("2001:db8::1")
        .unwrap()
        .has_warnings());
}

#[test]
fn display_names_component_and_position() {
    let (_, w) = sip("sip:a b@example.com");
    assert_eq!(w[0].to_string(), "user: invalid character at byte 5");
}
