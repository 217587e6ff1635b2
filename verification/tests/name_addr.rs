use sip_uri::{NameAddr, Uri};

#[test]
fn parse_quoted_display_name() {
    let na: NameAddr =
        r#""EXAMPLE CO" <sip:+15551234567;cpc=emergency;oli=0@198.51.100.1;user=phone>"#
            .parse()
            .unwrap();
    assert_eq!(na.display_name(), Some("EXAMPLE CO"));
    let sip = na
        .sip_uri()
        .unwrap();
    assert_eq!(sip.user(), Some("+15551234567"));
    assert_eq!(
        sip.user_params(),
        &[
            ("cpc".into(), Some("emergency".into())),
            ("oli".into(), Some("0".into())),
        ]
    );
    assert_eq!(sip.param("user"), Some(&Some("phone".into())));
}

#[test]
fn parse_angle_brackets_no_name() {
    let na: NameAddr = "<sip:1305@pbx.example.com;user=phone>"
        .parse()
        .unwrap();
    assert_eq!(na.display_name(), None);
    assert!(na
        .sip_uri()
        .is_some());
}

#[test]
fn reject_trailing_params_after_angle_bracket() {
    let cases = [
        "<sip:user@example.com>;tag=abc123",
        "<sip:user@example.com>;expires=3600;foo=bar",
        "<sip:user@example.com> trailing",
    ];
    for input in cases {
        assert!(
            input
                .parse::<NameAddr>()
                .is_err(),
            "should reject trailing content: {input}",
        );
    }
}

#[test]
fn reject_trailing_params_after_quoted_name() {
    assert!(r#""Alice" <sip:alice@example.com>;expires=3600"#
        .parse::<NameAddr>()
        .is_err());
}

#[test]
fn reject_trailing_params_after_unquoted_name() {
    assert!("Alice <sip:alice@example.com>;tag=xyz"
        .parse::<NameAddr>()
        .is_err());
}

#[test]
fn parse_bare_uri() {
    let na: NameAddr = "sip:alice@example.com"
        .parse()
        .unwrap();
    assert_eq!(na.display_name(), None);
    assert!(na
        .sip_uri()
        .is_some());
}

#[test]
fn parse_tel_in_angle_brackets() {
    let na: NameAddr = "<tel:+15551234567;cpc=emergency>"
        .parse()
        .unwrap();
    assert_eq!(na.display_name(), None);
    let tel = na
        .tel_uri()
        .unwrap();
    assert_eq!(tel.number(), "+15551234567");
}

#[test]
fn parse_unquoted_display_name() {
    let na: NameAddr = "Alice <sip:alice@example.com>"
        .parse()
        .unwrap();
    assert_eq!(na.display_name(), Some("Alice"));
}

#[test]
fn parse_escaped_quotes_in_display_name() {
    let na: NameAddr = r#""Say \"Hello\"" <sip:u@h>"#
        .parse()
        .unwrap();
    assert_eq!(na.display_name(), Some(r#"Say "Hello""#));
}

#[test]
fn display_roundtrip_with_name() {
    let na: NameAddr = r#""EXAMPLE CO" <sip:+15551234567@198.51.100.1;user=phone>"#
        .parse()
        .unwrap();
    assert_eq!(
        na.to_string(),
        r#""EXAMPLE CO" <sip:+15551234567@198.51.100.1;user=phone>"#
    );
}

#[test]
fn display_no_name() {
    let na: NameAddr = "<sip:alice@example.com>"
        .parse()
        .unwrap();
    assert_eq!(na.to_string(), "<sip:alice@example.com>");
}

#[test]
fn name_addr_builder() {
    let uri: Uri = "sip:alice@example.com"
        .parse()
        .unwrap();
    let na = NameAddr::new(uri).with_display_name("Alice");
    assert_eq!(na.to_string(), "Alice <sip:alice@example.com>");
}

#[test]
fn empty_input_fails() {
    assert!(""
        .parse::<NameAddr>()
        .is_err());
}
