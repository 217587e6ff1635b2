use sip_uri::warning::Warnings;
use sip_uri::{Host, Ipv4Addr, Ipv6Addr};

fn from_uri(s: &str) -> Result<(Host, usize), String> {
    let v: Vec<char> = s.chars().collect();
    Host::parse_from_uri(&v, 0, v.len(), &mut Warnings::new())
}

#[test]
fn parse_ipv4() {
    let (host, consumed) = from_uri("198.51.100.55:5060").unwrap();
    assert_eq!(host, Host::IPv4(Ipv4Addr::new(198, 51, 100, 55)));
    assert_eq!(consumed, 13);
}

#[test]
fn parse_ipv6() {
    let (host, consumed) = from_uri("[::1]:56001").unwrap();
    assert_eq!(host, Host::IPv6(Ipv6Addr::new(0, 0, 0, 0, 0, 0, 0, 1)));
    assert_eq!(consumed, 5);
}

#[test]
fn parse_ipv6_full() {
    let (host, consumed) = from_uri("[2001:db8::1]:5061").unwrap();
    assert_eq!(
        host,
        Host::IPv6(
            "2001:db8::1"
                .parse::<Ipv6Addr>()
                .unwrap()
        )
    );
    assert_eq!(consumed, 13);
}

#[test]
fn parse_hostname() {
    let (host, consumed) = from_uri("example.com;transport=tcp").unwrap();
    assert_eq!(host, Host::Hostname("example.com".into()));
    assert_eq!(consumed, 11);
}

#[test]
fn hostname_lowercased() {
    let (host, _) = from_uri("MY.DOMAIN").unwrap();
    assert_eq!(host, Host::Hostname("my.domain".into()));
}

#[test]
fn display_ipv6_has_brackets() {
    let host = Host::IPv6(Ipv6Addr::new(0, 0, 0, 0, 0, 0, 0, 1));
    assert_eq!(host.to_string(), "[::1]");
}

#[test]
fn from_str_accepts_all_forms() {
    assert_eq!(
        "example.test"
            .parse::<Host>()
            .unwrap(),
        Host::Hostname("example.test".into())
    );
    assert_eq!(
        "192.0.2.1"
            .parse::<Host>()
            .unwrap(),
        Host::IPv4(Ipv4Addr::new(192, 0, 2, 1))
    );
    let v6 = Host::IPv6(
        "2001:db8::1"
            .parse::<Ipv6Addr>()
            .unwrap(),
    );
    assert_eq!(
        "2001:db8::1"
            .parse::<Host>()
            .unwrap(),
        v6
    );
    assert_eq!(
        "[2001:db8::1]"
            .parse::<Host>()
            .unwrap(),
        v6
    );
}

#[test]
fn from_str_round_trips_both_renderers() {
    for input in ["example.test", "192.0.2.1", "2001:db8::1", "[2001:db8::1]"] {
        let host: Host = input
            .parse()
            .unwrap();
        assert_eq!(
            host.to_string()
                .parse::<Host>()
                .unwrap(),
            host
        );
        assert_eq!(
            host.bare()
                .to_string()
                .parse::<Host>()
                .unwrap(),
            host
        );
    }
    let host: Host = "[2001:db8::1]"
        .parse()
        .unwrap();
    assert_eq!(host.to_string(), "[2001:db8::1]");
    assert_eq!(
        host.bare()
            .to_string(),
        "2001:db8::1"
    );
}

#[test]
fn from_str_rejects_non_hosts() {
    for input in [
        "not a host:",
        "example.test:5060",
        "example.test;transport=tcp",
        "[192.0.2.1]",
        "[2001:db8::1",
        "",
    ] {
        assert!(
            input
                .parse::<Host>()
                .is_err(),
            "expected rejection of {input:?}"
        );
    }
}

#[test]
fn empty_host_fails() {
    assert!(from_uri("").is_err());
    assert!(from_uri(":5060").is_err());
}
