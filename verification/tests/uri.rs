use sip_uri::{SipUri, Uri, UrnUri};

#[test]
fn dispatch_sip() {
    let uri: Uri = "sip:alice@example.com"
        .parse()
        .unwrap();
    assert!(uri
        .as_sip()
        .is_some());
    assert!(uri
        .as_tel()
        .is_none());
    assert!(uri
        .as_urn()
        .is_none());
}

#[test]
fn dispatch_sips() {
    let uri: Uri = "sips:bob@secure.example.com"
        .parse()
        .unwrap();
    assert!(uri
        .as_sip()
        .is_some());
}

#[test]
fn dispatch_tel() {
    let uri: Uri = "tel:+15551234567"
        .parse()
        .unwrap();
    assert!(uri
        .as_tel()
        .is_some());
    assert!(uri
        .as_sip()
        .is_none());
}

#[test]
fn dispatch_urn() {
    let uri: Uri = "urn:service:sos"
        .parse()
        .unwrap();
    assert!(uri
        .as_urn()
        .is_some());
    assert!(uri
        .as_sip()
        .is_none());
    assert!(uri
        .as_tel()
        .is_none());
}

#[test]
fn unknown_scheme() {
    let uri: Uri = "http://example.com"
        .parse()
        .unwrap();
    assert_eq!(uri.as_other(), Some("http://example.com"));
    assert!(uri
        .as_sip()
        .is_none());
    assert_eq!(uri.to_string(), "http://example.com");
}

#[test]
fn uri_display_roundtrip() {
    let input = "sip:alice@example.com;transport=tcp";
    let uri: Uri = input
        .parse()
        .unwrap();
    assert_eq!(uri.to_string(), input);
}

#[test]
fn display_roundtrip_urn() {
    let input = "urn:service:sos";
    let uri: Uri = input
        .parse()
        .unwrap();
    assert_eq!(uri.to_string(), input);
}

#[test]
fn from_sip_uri() {
    let sip: SipUri = "sip:alice@example.com"
        .parse()
        .unwrap();
    let uri: Uri = sip.into();
    assert!(uri
        .as_sip()
        .is_some());
}

#[test]
fn from_urn_uri() {
    let urn: UrnUri = "urn:service:sos"
        .parse()
        .unwrap();
    let uri: Uri = urn.into();
    assert!(uri
        .as_urn()
        .is_some());
}
