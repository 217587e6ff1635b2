use sip_uri::{Host, Ipv4Addr, Scheme, SipUri};

#[test]
fn parse_simple() {
    let uri: SipUri = "sip:joe@example.com"
        .parse()
        .unwrap();
    assert_eq!(uri.scheme(), Scheme::Sip);
    assert_eq!(uri.user(), Some("joe"));
    assert_eq!(uri.host(), &Host::Hostname("example.com".into()));
    assert_eq!(uri.port(), None);
}

#[test]
fn parse_minimal_user_host() {
    let uri: SipUri = "sip:u@h"
        .parse()
        .unwrap();
    assert_eq!(uri.user(), Some("u"));
    assert_eq!(uri.host(), &Host::Hostname("h".into()));
}

#[test]
fn parse_host_only() {
    let uri: SipUri = "sip:test.host"
        .parse()
        .unwrap();
    assert_eq!(uri.user(), None);
    assert_eq!(uri.host(), &Host::Hostname("test.host".into()));
}

#[test]
fn parse_ipv4_host() {
    let uri: SipUri = "sip:172.21.55.55"
        .parse()
        .unwrap();
    assert_eq!(uri.host(), &Host::IPv4(Ipv4Addr::new(172, 21, 55, 55)));
}

#[test]
fn parse_ipv4_with_port() {
    let uri: SipUri = "sip:172.21.55.55:5060"
        .parse()
        .unwrap();
    assert_eq!(uri.host(), &Host::IPv4(Ipv4Addr::new(172, 21, 55, 55)));
    assert_eq!(uri.port(), Some(5060));
}

#[test]
fn parse_full_sips() {
    let uri: SipUri = "sips:user:pass@host:32;param=1?From=foo@bar&To=bar@baz"
        .parse()
        .unwrap();
    assert_eq!(uri.scheme(), Scheme::Sips);
    assert_eq!(uri.user(), Some("user"));
    assert_eq!(uri.password(), Some("pass"));
    assert_eq!(uri.host(), &Host::Hostname("host".into()));
    assert_eq!(uri.port(), Some(32));
    assert_eq!(uri.params(), &[("param".into(), Some("1".into()))]);
    assert_eq!(uri.header("From"), Some("foo%40bar"));
    assert_eq!(uri.header("To"), Some("bar%40baz"));
}

#[test]
fn sip_uri_parse_case_insensitive_scheme() {
    let uri: SipUri = "SIP:test@127.0.0.1:55"
        .parse()
        .unwrap();
    assert_eq!(uri.scheme(), Scheme::Sip);
    assert_eq!(uri.user(), Some("test"));
    assert_eq!(uri.port(), Some(55));
}

#[test]
fn parse_empty_port() {
    let uri: SipUri = "SIP:test@127.0.0.1:"
        .parse()
        .unwrap();
    assert_eq!(uri.scheme(), Scheme::Sip);
    assert_eq!(uri.port(), None);
}

#[test]
fn parse_percent_encoded_user() {
    let uri: SipUri = "sip:%22foo%22@172.21.55.55:5060"
        .parse()
        .unwrap();
    // %22 is double-quote, not unreserved, stays encoded
    assert_eq!(uri.user(), Some("%22foo%22"));
}

#[test]
fn parse_user_with_slash_semicolon() {
    let uri: SipUri = "sip:user/path;tel-param:pass@host:32;param=1%3d%3d1"
        .parse()
        .unwrap();
    assert_eq!(uri.user(), Some("user/path"));
    assert_eq!(uri.user_params(), &[("tel-param".into(), None)]);
    assert_eq!(uri.password(), Some("pass"));
    // %3d normalized to uppercase %3D
    assert_eq!(uri.params(), &[("param".into(), Some("1%3D%3D1".into()))]);
}

#[test]
fn parse_reserved_chars_in_user_ipv6() {
    let uri: SipUri = "sip:&=+$,;?/:&=+$,@[::1]:56001;param=+$,/:@&"
        .parse()
        .unwrap();
    assert_eq!(uri.user(), Some("&=+$,"));
    // `;` splits user from user-params, `?/` is a param name (no `=`),
    // and `:` splits the remaining `&=+$,` as the password
    assert_eq!(uri.user_params(), &[("?/".into(), None)]);
    assert_eq!(uri.password(), Some("&=+$,"));
    assert_eq!(
        uri.host(),
        &Host::IPv6(
            "::1"
                .parse()
                .unwrap()
        )
    );
    assert_eq!(uri.port(), Some(56001));
}

#[test]
fn parse_hash_in_user() {
    // Sofia-sip compatibility: phones put unescaped # in user
    let uri: SipUri = "SIP:#**00**#;foo=/bar@127.0.0.1"
        .parse()
        .unwrap();
    assert_eq!(uri.user(), Some("#**00**#"));
    assert_eq!(uri.user_params(), &[("foo".into(), Some("/bar".into()))]);
}

#[test]
fn parse_transport_params() {
    let uri: SipUri = "sip:u:p@host:5060;maddr=127.0.0.1;transport=tcp"
        .parse()
        .unwrap();
    assert_eq!(uri.param("transport"), Some(&Some("tcp".into())));
    assert_eq!(uri.param("maddr"), Some(&Some("127.0.0.1".into())));
}

#[test]
fn parse_params_without_value() {
    let uri: SipUri = "sip:u:p@host:5060;user=phone;ttl=1;isfocus"
        .parse()
        .unwrap();
    assert_eq!(uri.param("user"), Some(&Some("phone".into())));
    assert_eq!(uri.param("isfocus"), Some(&None));
}

#[test]
fn sip_uri_invalid_double_colon_port() {
    assert!("sip:test@127.0.0.1::55"
        .parse::<SipUri>()
        .is_err());
}

#[test]
fn sip_uri_invalid_trailing_colon_port() {
    assert!("sip:test@127.0.0.1:55:"
        .parse::<SipUri>()
        .is_err());
}

#[test]
fn sip_uri_invalid_non_numeric_port() {
    assert!("sip:test@127.0.0.1:sip"
        .parse::<SipUri>()
        .is_err());
}

#[test]
fn display_roundtrip_simple() {
    let input = "sip:joe@example.com";
    let uri: SipUri = input
        .parse()
        .unwrap();
    assert_eq!(uri.to_string(), input);
}

#[test]
fn display_roundtrip_full() {
    let uri: SipUri = "sips:user:pass@host:32;param=1?From=foo@bar&To=bar@baz"
        .parse()
        .unwrap();
    assert_eq!(
        uri.to_string(),
        "sips:user:pass@host:32;param=1?From=foo%40bar&To=bar%40baz"
    );
}

#[test]
fn display_keeps_password_without_user() {
    let uri: SipUri = "sip::pass@host"
        .parse()
        .unwrap();
    assert_eq!(uri.password(), Some("pass"));
    assert_eq!(uri.to_string(), "sip::pass@host");
}

#[test]
fn sip_uri_builder() {
    let uri = SipUri::new(Host::Hostname("example.com".into()))
        .with_user("alice")
        .with_param("transport", Some("tcp".into()));
    assert_eq!(uri.to_string(), "sip:alice@example.com;transport=tcp");
}

#[test]
fn user_host_convenience() {
    let uri: SipUri = "sip:alice@example.com:5060"
        .parse()
        .unwrap();
    assert_eq!(uri.user_host(), "alice@example.com:5060");
}

#[test]
fn no_user_with_host_params() {
    let uri: SipUri = "sip:172.21.55.55:5060;transport=udp"
        .parse()
        .unwrap();
    assert_eq!(uri.user(), None);
    assert_eq!(uri.port(), Some(5060));
    assert_eq!(uri.param("transport"), Some(&Some("udp".into())));
}
