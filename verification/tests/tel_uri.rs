use sip_uri::TelUri;

#[test]
fn parse_global() {
    let uri: TelUri = "tel:+12345678"
        .parse()
        .unwrap();
    assert_eq!(uri.number(), "+12345678");
    assert!(uri.is_global());
    assert!(uri
        .params()
        .is_empty());
}

#[test]
fn parse_with_params() {
    let uri: TelUri = "tel:+12345678;param=1;param=2"
        .parse()
        .unwrap();
    assert_eq!(uri.number(), "+12345678");
    assert_eq!(
        uri.params()
            .len(),
        2
    );
}

#[test]
fn parse_local_number() {
    let uri: TelUri = "tel:911"
        .parse()
        .unwrap();
    assert_eq!(uri.number(), "911");
    assert!(!uri.is_global());
}

#[test]
fn parse_local_with_context() {
    let uri: TelUri = "tel:1411;phone-context=example.com"
        .parse()
        .unwrap();
    assert_eq!(uri.number(), "1411");
    assert_eq!(
        uri.param("phone-context"),
        Some(&Some("example.com".into()))
    );
}

#[test]
fn parse_visual_separators() {
    let uri: TelUri = "tel:+1.245.623-57"
        .parse()
        .unwrap();
    assert_eq!(uri.number(), "+1.245.623-57");
}

#[test]
fn parse_dtmf_local() {
    let uri: TelUri = "tel:*67"
        .parse()
        .unwrap();
    assert_eq!(uri.number(), "*67");
}

#[test]
fn tel_uri_display_roundtrip() {
    let input = "tel:+12345678;cpc=emergency;oli=0";
    let uri: TelUri = input
        .parse()
        .unwrap();
    assert_eq!(uri.to_string(), input);
}

#[test]
fn empty_number_fails() {
    assert!("tel:"
        .parse::<TelUri>()
        .is_err());
}

#[test]
fn plus_only_fails() {
    assert!("tel:+"
        .parse::<TelUri>()
        .is_err());
}

#[test]
fn param_without_value() {
    let uri: TelUri = "tel:+12345678;oli"
        .parse()
        .unwrap();
    assert_eq!(uri.param("oli"), Some(&None));
}

#[test]
fn tel_uri_builder() {
    let uri = TelUri::new("+15551234567").with_param("cpc", Some("emergency".into()));
    assert_eq!(uri.to_string(), "tel:+15551234567;cpc=emergency");
}
