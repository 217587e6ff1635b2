use sip_uri::params::{parse_headers, parse_params, parse_user_params};
use sip_uri::{Host, NameAddr, SipUri, TelUri, Uri, UrnUri, WarningCode, WarningKind};

fn sip_err(input: &str) -> String {
    SipUri::parse(input).unwrap_err().0
}

#[test]
fn sip_errors_name_the_reason() {
    let cases = [
        ("sipalice", "missing scheme"),
        ("http:x", "scheme is not sip or sips"),
        ("sip:@host", "empty userinfo before @"),
        ("sip:alice@", "missing host after @"),
        ("sip:;x=1@host", "empty user before ';'"),
        ("sip:host:99999", "port is not a number in 0-65535"),
        ("sip:host:12a", "port is not a number in 0-65535"),
        ("sip:[::1]x", "unexpected character after host/port"),
        ("sip:host?a", "header: header missing '='"),
        ("sip:host?=b", "header: empty header name"),
        ("sip:[::1", "unclosed IPv6 bracket"),
        ("sip:[zz]", "invalid IPv6 address: invalid IPv6 address syntax"),
        ("sip:ho_st", "invalid hostname character"),
        ("sip::5060", "empty host"),
    ];
    for (input, reason) in cases {
        assert_eq!(sip_err(input), reason, "{input}");
    }
    assert_eq!(
        SipUri::parse("sipalice").unwrap_err().to_string(),
        "invalid SIP URI: missing scheme"
    );
}

#[test]
fn host_errors_name_the_reason() {
    assert_eq!(Host::parse("").unwrap_err().0, "empty host");
    assert_eq!(
        Host::parse("example.test:5060").unwrap_err().0,
        "trailing content after host at position 12"
    );
    assert_eq!(
        Host::parse("[192.0.2.1]").unwrap_err().0,
        "invalid IPv6 address: invalid IPv6 address syntax"
    );
    assert_eq!(Host::parse("").unwrap_err().to_string(), "invalid host: empty host");
}

#[test]
fn tel_errors_name_the_reason() {
    let cases = [
        ("tel", "missing 'tel:' scheme"),
        ("sip:123", "missing 'tel:' scheme"),
        ("tel:", "empty telephone number"),
        ("tel:;a=b", "empty telephone number"),
        ("tel:+", "global number must have digits after '+'"),
        ("tel:+12a", "invalid character in global number"),
        ("tel:+--", "global number must contain at least one digit"),
        ("tel:12g", "invalid character in local number"),
        ("tel:--", "local number must contain at least one hex digit, *, or #"),
    ];
    for (input, reason) in cases {
        assert_eq!(TelUri::parse(input).unwrap_err().0, reason, "{input}");
    }
    assert_eq!(
        TelUri::parse("tel:").unwrap_err().to_string(),
        "invalid tel URI: empty telephone number"
    );
}

#[test]
fn urn_errors_name_the_reason() {
    let long = format!("urn:{}:b", "a".repeat(33));
    let cases = [
        ("urnfoo", "missing scheme"),
        ("urx:a:b", "scheme must be 'urn'"),
        ("urn:ab", "missing ':' after NID"),
        ("urn:a:b", "NID must be at least 2 characters"),
        (long.as_str(), "NID must be at most 32 characters"),
        ("urn:-ab:c", "NID must start with alphanumeric character"),
        ("urn:ab-:c", "NID must end with alphanumeric character"),
        ("urn:a_b:c", "NID contains invalid character"),
        ("urn:ab:", "NSS must not be empty"),
        ("urn:ab:/x", "NSS must not start with '/'"),
        ("urn:ab:x%2", "invalid percent-encoding at position 1"),
        ("urn:ab:x y", "invalid character in NSS at position 1"),
        ("urn:ab:x?y", "unexpected character after '?' in URN (expected '?+' or '?=')"),
        ("urn:ab:x?", "unexpected '?' without '+' or '=' in URN"),
    ];
    for (input, reason) in cases {
        assert_eq!(UrnUri::parse(input).unwrap_err().0, reason, "{input}");
    }
    assert_eq!(
        UrnUri::parse("urnfoo").unwrap_err().to_string(),
        "invalid URN: missing scheme"
    );
}

#[test]
fn uri_errors_name_the_reason() {
    assert_eq!(Uri::parse("x").unwrap_err().0, "missing scheme");
    assert_eq!(Uri::parse(":x").unwrap_err().0, "missing scheme");
    assert_eq!(Uri::parse("sip:").unwrap_err().0, "empty host");
    assert_eq!(
        Uri::parse("x").unwrap_err().to_string(),
        "invalid URI: missing scheme"
    );
}

#[test]
fn name_addr_errors_name_the_reason() {
    let cases = [
        ("", "empty input"),
        ("   ", "empty input"),
        ("\"abc", "unterminated quoted string"),
        ("\"ab\\", "unterminated escape in quoted string"),
        ("\"Alice\" sip:a@b", "expected '<URI>' after quoted display name"),
        ("<sip:a@b", "unclosed '<'"),
        ("Alice <sip:a@b", "unclosed '<'"),
        (
            "<sip:a@b> x",
            "trailing content after '>' (header-level parameters belong in SIP header parsing, not name-addr)",
        ),
        ("<x>", "missing scheme"),
    ];
    for (input, reason) in cases {
        assert_eq!(NameAddr::parse(input).unwrap_err().0, reason, "{input:?}");
    }
    assert_eq!(
        NameAddr::parse("").unwrap_err().to_string(),
        "invalid name-addr: empty input"
    );
}

#[test]
fn strict_param_and_header_errors() {
    assert_eq!(
        parse_params("a b").unwrap_err(),
        "invalid character in parameter name at position 1"
    );
    assert_eq!(
        parse_params("%41é").unwrap_err(),
        "invalid character in parameter name at position 3"
    );
    assert_eq!(
        parse_user_params("a=b c").unwrap_err(),
        "invalid character in user parameter value at position 1"
    );
    assert_eq!(parse_headers("a").unwrap_err(), "header missing '='");
    assert_eq!(parse_headers("=b").unwrap_err(), "empty header name");
}

#[test]
fn lost_warnings_are_the_empty_ones() {
    let lost = [WarningCode::EmptySegment, WarningCode::EmptyPort, WarningCode::EmptyFragment];
    for code in lost {
        assert_eq!(code.kind(), WarningKind::Lost);
    }
    assert_eq!(WarningCode::InvalidChar.kind(), WarningKind::Recovered);
    assert_eq!(WarningCode::SignedPort.kind(), WarningKind::Recovered);
}

#[test]
fn error_messages_quote_no_input() {
    let secret = "q7z";
    for input in [
        format!("urn:a_{secret}:c"),
        format!("urn:ab:x {secret}"),
        format!("urn:ab:x?{secret}"),
    ] {
        let m = UrnUri::parse(&input).unwrap_err().0;
        assert!(!m.contains(secret), "{m}");
    }
    let m = NameAddr::parse(&format!("<sip:a@b> {secret}")).unwrap_err().0;
    assert!(!m.contains(secret), "{m}");
}

#[test]
fn tel_params_outside_the_grammar_are_accepted() {
    let uri = TelUri::parse("tel:+1;a b").unwrap();
    assert_eq!(uri.params(), &[("a b".to_string(), None)]);
    let uri = TelUri::parse("tel:+1;a=b c").unwrap();
    assert_eq!(uri.param("a"), Some(&Some("b c".to_string())));
}
