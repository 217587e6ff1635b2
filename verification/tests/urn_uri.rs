use sip_uri::UrnUri;

#[test]
fn parse_service_sos() {
    let urn: UrnUri = "urn:service:sos"
        .parse()
        .unwrap();
    assert_eq!(urn.nid(), "service");
    assert_eq!(urn.nss(), "sos");
}

#[test]
fn parse_service_sos_subtype() {
    let urn: UrnUri = "urn:service:sos.fire"
        .parse()
        .unwrap();
    assert_eq!(urn.nid(), "service");
    assert_eq!(urn.nss(), "sos.fire");
}

#[test]
fn parse_nena_service() {
    let urn: UrnUri = "urn:nena:service:sos"
        .parse()
        .unwrap();
    assert_eq!(urn.nid(), "nena");
    assert_eq!(urn.nss(), "service:sos");
}

#[test]
fn parse_nena_uid_callid() {
    let urn: UrnUri = "urn:nena:callid:20250101120000001TEST001:bcf1.ng911.example.com"
        .parse()
        .unwrap();
    assert_eq!(urn.nid(), "nena");
    assert_eq!(
        urn.nss(),
        "callid:20250101120000001TEST001:bcf1.ng911.example.com"
    );
}

#[test]
fn parse_emergency_incidentid() {
    let urn: UrnUri =
        "urn:emergency:incidentid:f1e2d3c4b5a6f7e8d9c0b1a2f3e4d5c6:bcf.ng911.example.com"
            .parse()
            .unwrap();
    assert_eq!(urn.nid(), "emergency");
    assert!(urn
        .nss()
        .starts_with("incidentid:"));
}

#[test]
fn parse_gsma_imei() {
    let urn: UrnUri = "urn:gsma:imei:35625207-210812-0"
        .parse()
        .unwrap();
    assert_eq!(urn.nid(), "gsma");
    assert_eq!(urn.nss(), "imei:35625207-210812-0");
}

#[test]
fn parse_urn7_3gpp() {
    let urn: UrnUri = "urn:urn-7:3gpp-service.ims.icsi.mmtel"
        .parse()
        .unwrap();
    assert_eq!(urn.nid(), "urn-7");
    assert_eq!(urn.nss(), "3gpp-service.ims.icsi.mmtel");
}

#[test]
fn parse_uuid() {
    let urn: UrnUri = "urn:uuid:f81d4fae-7dec-11d0-a765-00a0c91e6bf6"
        .parse()
        .unwrap();
    assert_eq!(urn.nid(), "uuid");
    assert_eq!(urn.nss(), "f81d4fae-7dec-11d0-a765-00a0c91e6bf6");
}

#[test]
fn urn_uri_parse_case_insensitive_scheme() {
    let urn: UrnUri = "URN:service:sos"
        .parse()
        .unwrap();
    assert_eq!(urn.nid(), "service");
}

#[test]
fn nid_case_insensitive() {
    let urn: UrnUri = "urn:SERVICE:sos"
        .parse()
        .unwrap();
    assert_eq!(urn.nid(), "service");
}

#[test]
fn nss_percent_encoding_uppercased() {
    let urn: UrnUri = "urn:example:foo%2fbar"
        .parse()
        .unwrap();
    assert_eq!(urn.nss(), "foo%2Fbar");
}

#[test]
fn urn_uri_display_roundtrip() {
    let input = "urn:service:sos.police";
    let urn: UrnUri = input
        .parse()
        .unwrap();
    assert_eq!(urn.to_string(), input);
}

#[test]
fn display_roundtrip_nena_callid() {
    let input = "urn:nena:callid:abc123:host.example.com";
    let urn: UrnUri = input
        .parse()
        .unwrap();
    assert_eq!(urn.to_string(), input);
}

#[test]
fn with_rq_components() {
    let urn: UrnUri = "urn:example:foo?+resolve?=query#frag"
        .parse()
        .unwrap();
    assert_eq!(urn.nss(), "foo");
    assert_eq!(urn.r_component(), Some("resolve"));
    assert_eq!(urn.q_component(), Some("query"));
    assert_eq!(urn.f_component(), Some("frag"));
    assert_eq!(urn.to_string(), "urn:example:foo?+resolve?=query#frag");
}

#[test]
fn with_r_component_only() {
    let urn: UrnUri = "urn:example:foo?+resolve"
        .parse()
        .unwrap();
    assert_eq!(urn.r_component(), Some("resolve"));
    assert_eq!(urn.q_component(), None);
}

#[test]
fn with_q_component_only() {
    let urn: UrnUri = "urn:example:foo?=query"
        .parse()
        .unwrap();
    assert_eq!(urn.r_component(), None);
    assert_eq!(urn.q_component(), Some("query"));
}

#[test]
fn with_fragment_only() {
    let urn: UrnUri = "urn:example:foo#section1"
        .parse()
        .unwrap();
    assert_eq!(urn.f_component(), Some("section1"));
    assert_eq!(urn.r_component(), None);
    assert_eq!(urn.q_component(), None);
}

#[test]
fn assigned_name() {
    let urn: UrnUri = "urn:service:sos?+r?=q#f"
        .parse()
        .unwrap();
    assert_eq!(urn.assigned_name(), "urn:service:sos");
}

#[test]
fn nss_with_slashes() {
    let urn: UrnUri = "urn:example:a/b/c"
        .parse()
        .unwrap();
    assert_eq!(urn.nss(), "a/b/c");
}

#[test]
fn nss_with_colons() {
    let urn: UrnUri = "urn:example:a:b:c"
        .parse()
        .unwrap();
    assert_eq!(urn.nss(), "a:b:c");
}

#[test]
fn urn_uri_builder() {
    let urn = UrnUri::new("service", "sos.fire");
    assert_eq!(urn.to_string(), "urn:service:sos.fire");
}

#[test]
fn builder_with_components() {
    let urn = UrnUri::new("example", "resource")
        .with_r_component("resolve")
        .with_q_component("query")
        .with_f_component("section");
    assert_eq!(
        urn.to_string(),
        "urn:example:resource?+resolve?=query#section"
    );
}

// Negative tests

#[test]
fn missing_scheme() {
    assert!("service:sos"
        .parse::<UrnUri>()
        .is_err());
}

#[test]
fn wrong_scheme() {
    assert!("http:service:sos"
        .parse::<UrnUri>()
        .is_err());
}

#[test]
fn nid_too_short() {
    assert!("urn:x:foo"
        .parse::<UrnUri>()
        .is_err());
}

#[test]
fn nid_too_long() {
    let long_nid = "a".repeat(33);
    assert!(format!("urn:{long_nid}:foo")
        .parse::<UrnUri>()
        .is_err());
}

#[test]
fn nid_starts_with_hyphen() {
    assert!("urn:-ab:foo"
        .parse::<UrnUri>()
        .is_err());
}

#[test]
fn nid_ends_with_hyphen() {
    assert!("urn:ab-:foo"
        .parse::<UrnUri>()
        .is_err());
}

#[test]
fn empty_nss() {
    assert!("urn:example:"
        .parse::<UrnUri>()
        .is_err());
}

#[test]
fn nss_starts_with_slash() {
    assert!("urn:example:/foo"
        .parse::<UrnUri>()
        .is_err());
}

#[test]
fn invalid_rq_delimiter() {
    assert!("urn:example:foo?x"
        .parse::<UrnUri>()
        .is_err());
}

#[test]
fn service_sos_with_port_in_to_header() {
    // Seen in production: `<urn:service:sos:5060>` in To header
    // The `:5060` is part of the NSS (not a port), and parses fine
    let urn: UrnUri = "urn:service:sos:5060"
        .parse()
        .unwrap();
    assert_eq!(urn.nid(), "service");
    assert_eq!(urn.nss(), "sos:5060");
}

#[test]
fn vendor_provider_id() {
    let urn: UrnUri = "urn:example:ng911:lsp:provider1"
        .parse()
        .unwrap();
    assert_eq!(urn.nid(), "example");
    assert_eq!(urn.nss(), "ng911:lsp:provider1");
}

#[test]
fn nena_service_responder_police() {
    let urn: UrnUri = "urn:nena:service:responder.police"
        .parse()
        .unwrap();
    assert_eq!(urn.nid(), "nena");
    assert_eq!(urn.nss(), "service:responder.police");
}
