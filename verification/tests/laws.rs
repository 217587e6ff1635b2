use sip_uri::parse::{canonize_header, canonize_user, decode_user, encode_uri_header};
use sip_uri::{Component, Host, Ipv6Addr, NameAddr, SipUri, TelUri, Uri, UrnUri, WarningCode};

#[test]
fn tel_display_parses_back() {
    let uri: TelUri = "TEL:+1-555(0);Phone-Context=%61b;x".parse().unwrap();
    assert_eq!(uri.to_string(), "tel:+1-555(0);Phone-Context=ab;x");
    let again: TelUri = uri.to_string().parse().unwrap();
    assert_eq!(again, uri);
}

#[test]
fn urn_display_parses_back() {
    let urn: UrnUri = "URN:Example:a%2fb?+r?=q#f".parse().unwrap();
    assert_eq!(urn.nid(), "example");
    assert_eq!(urn.nss(), "a%2Fb");
    assert_eq!(urn.to_string(), "urn:example:a%2Fb?+r?=q#f");
    let again: UrnUri = urn.to_string().parse().unwrap();
    assert_eq!(again, urn);
}

#[test]
fn urn_fragment_and_marks_parse_back() {
    let urn: UrnUri = "urn:ab:c?+x?#y?=z#f".parse().unwrap();
    assert_eq!(urn.r_component(), Some("x?"));
    assert_eq!(urn.q_component(), None);
    assert_eq!(urn.f_component(), Some("y?=z#f"));
    let again: UrnUri = urn.to_string().parse().unwrap();
    assert_eq!(again, urn);
}

#[test]
fn host_renderings_parse_back() {
    for input in ["[2001:DB8:0:0:0:0:0:1]", "EXAMPLE.com", "192.0.2.10", "::FFFF:1.2.3.4"] {
        let host: Host = input.parse().unwrap();
        assert_eq!(host.to_string().parse::<Host>().unwrap(), host);
        assert_eq!(host.bare().to_string().parse::<Host>().unwrap(), host);
    }
    let host: Host = "[2001:DB8:0:0:0:0:0:1]".parse().unwrap();
    assert_eq!(host.to_string(), "[2001:db8::1]");
    let name: Host = "EXAMPLE.com".parse().unwrap();
    assert_eq!(name, Host::Hostname("example.com".into()));
}

#[test]
fn ipv6_canonical_text() {
    let cases = [
        (Ipv6Addr::new(1, 0, 0, 1, 0, 0, 0, 1), "1:0:0:1::1"),
        (Ipv6Addr::new(1, 0, 0, 2, 0, 0, 3, 4), "1::2:0:0:3:4"),
        (Ipv6Addr::new(0, 0, 0, 0, 0, 0xffff, 0x0102, 0x0304), "::ffff:1.2.3.4"),
        (Ipv6Addr::new(0, 0, 0, 0, 0, 0, 0, 0), "::"),
        (Ipv6Addr::new(1, 0, 0, 0, 0, 0, 0, 0), "1::"),
        (Ipv6Addr::new(0xabcd, 1, 2, 3, 4, 5, 6, 7), "abcd:1:2:3:4:5:6:7"),
    ];
    for (addr, text) in cases {
        assert_eq!(addr.to_string(), text);
        assert_eq!(text.parse::<Ipv6Addr>().unwrap(), addr);
    }
}

#[test]
fn sip_display_parses_back() {
    let input = "SIPS:%41lice;Cpc=X:p%77@[::1]:5060;Transport=TCP?Subject=a%20b#frag";
    let uri: SipUri = input.parse().unwrap();
    assert_eq!(uri.user(), Some("Alice"));
    assert_eq!(uri.password(), Some("pw"));
    assert_eq!(
        uri.to_string(),
        "sips:Alice;Cpc=X:pw@[::1]:5060;Transport=TCP?Subject=a%20b#frag"
    );
    let again: SipUri = uri.to_string().parse().unwrap();
    assert_eq!(again, uri);
}

#[test]
fn sip_decoded_at_in_param_reads_as_userinfo() {
    let uri: SipUri = "sip:host;maddr=a%40b".parse().unwrap();
    assert_eq!(uri.param("maddr"), Some(&Some("a@b".into())));
    assert_eq!(uri.to_string(), "sip:host;maddr=a@b");
    let again: SipUri = uri.to_string().parse().unwrap();
    assert_eq!(again.user(), Some("host"));
    assert_eq!(again.host(), &Host::Hostname("b".into()));
    assert_ne!(again, uri);
}

#[test]
fn uri_display_parses_back() {
    for input in [
        "tel:+15551234567;cpc=emergency",
        "urn:service:sos",
        "sip:alice@example.com:5060;transport=tcp?subject=hi",
        "sips:[2001:db8::1]",
        "cid:abc@example.com",
        "<sip:alice@example.com>",
        "tel:911;#x",
    ] {
        let uri: Uri = input.parse().unwrap();
        assert_eq!(uri.to_string().parse::<Uri>().unwrap(), uri);
    }
}

#[test]
fn canonizing_twice_is_canonizing_once() {
    let once = canonize_user("pekka%2epessi%3b%40");
    assert_eq!(once, "pekka.pessi;%40");
    assert_eq!(canonize_user(&once), once);
    let lone = canonize_user("%%41");
    assert_eq!(lone, "%A");
    assert_eq!(canonize_user(&lone), lone);
    assert_eq!(canonize_user("%%32E"), "%2E");
    assert_eq!(canonize_user(&canonize_user("%%32E")), ".");
}

#[test]
fn decode_user_reads_canonized_alike() {
    for raw in ["100%", "a%3b%3D", "%2b1%zz"] {
        assert_eq!(decode_user(raw), decode_user(&canonize_user(raw)));
    }
    assert_eq!(decode_user("%%32E").as_ref(), b"%2E");
    assert_eq!(decode_user(&canonize_user("%%32E")).as_ref(), b".");
}

#[test]
fn encoded_header_is_canonical() {
    let enc = encode_uri_header("a b@c;d");
    assert_eq!(enc, "a%20b%40c%3Bd");
    assert_eq!(canonize_header(&enc), enc.as_ref());
    let literal: SipUri = "sip:u@h?x=a@b".parse().unwrap();
    let escaped: SipUri = "sip:u@h?x=a%40b".parse().unwrap();
    assert_eq!(literal.header("x"), escaped.header("x"));
    assert_eq!(literal.header("x"), Some(encode_uri_header("a@b").as_ref()));
}

#[test]
fn name_addr_escapes_quotes_in_display() {
    let na: NameAddr = r#""a\"b" <sip:u@h>"#.parse().unwrap();
    assert_eq!(na.display_name(), Some("a\"b"));
    assert_eq!(na.to_string(), r#""a\"b" <sip:u@h>"#);
}

#[test]
fn warning_positions_are_byte_offsets() {
    let parsed = SipUri::parse_with_warnings("sip:é@h;a=b c").unwrap();
    let positions: Vec<Option<usize>> = parsed.warnings.iter().map(|w| w.position).collect();
    assert_eq!(positions, vec![Some(4), Some(12)]);
}

#[test]
fn name_addr_display_parses_back() {
    for input in [
        "Alice <sip:alice@example.com>",
        "<tel:+15551234567>",
        r#""a\\b c" <urn:ab:c>"#,
        "sip:bob@example.com",
    ] {
        let na: NameAddr = input.parse().unwrap();
        assert_eq!(na.to_string().parse::<NameAddr>().unwrap(), na);
    }
}

#[test]
fn name_addr_edge_cases_do_not_read_back() {
    let bare: NameAddr = "sip:a@b#x>y".parse().unwrap();
    assert_eq!(bare.to_string(), "<sip:a@b#x>y>");
    assert!(bare.to_string().parse::<NameAddr>().is_err());
    let padded: NameAddr = "\"\nA\" <sip:a@b>".parse().unwrap();
    assert_eq!(padded.display_name(), Some("\nA"));
    let again: NameAddr = padded.to_string().parse().unwrap();
    assert_eq!(again.display_name(), Some("A"));
}

#[test]
fn conformant_sip_inputs_raise_nothing() {
    for input in [
        "sip:alice@example.com",
        "sips:alice@example.com:5061;transport=tls",
        "sip:+15551234567;cpc=emergency;oli=0@198.51.100.1;user=phone",
        "sip:1411@[2001:db8::1]:5061;user=phone",
        "sip:sip.bcf.qc.core.ng.example.com;participantid=2;user=phone",
        "sip:biloxi.com;transport=tcp;method=REGISTER?to=sip:bob%40biloxi.com&from=user%40example.org",
        "sip:pekka.pessi@example.com;method=%4D%45%53%53%41%47%45?body=CANNED%20MSG",
        "sip:1411@198.51.100.2;key1?key2=",
        "sip:user@example.com.",
    ] {
        let parsed = SipUri::parse_with_warnings(input).unwrap();
        assert!(parsed.warnings.is_empty(), "{input}: {:?}", parsed.warnings);
    }
}

#[test]
fn tel_fragment_parses_back() {
    for (input, number, fragment, shown) in [
        ("tel:+15551234567;cpc=emergency#x", "+15551234567", Some("x"), "tel:+15551234567;cpc=emergency#x"),
        ("tel:+1555#x", "+1555", Some("x"), "tel:+1555#x"),
        ("tel:911;#x", "911", Some("x"), "tel:911;#x"),
        ("tel:*6#7;phone-context=ex.com#f#g", "*6#7", Some("f#g"), "tel:*6#7;phone-context=ex.com#f#g"),
        ("tel:+1555#", "+1555", None, "tel:+1555"),
    ] {
        let uri: TelUri = input.parse().unwrap();
        assert_eq!(uri.number(), number, "{input}");
        assert_eq!(uri.fragment(), fragment, "{input}");
        assert_eq!(uri.to_string(), shown, "{input}");
        let again: TelUri = uri.to_string().parse().unwrap();
        assert_eq!(again, uri, "{input}");
    }
    let built = TelUri::new("911").with_fragment("x");
    assert_eq!(built.to_string(), "tel:911;#x");
    assert_eq!(built.to_string().parse::<TelUri>().unwrap(), built);
}

#[test]
fn tel_undecoded_escape_does_not_read_back() {
    let uri: TelUri = "tel:+1;a=%%32E".parse().unwrap();
    assert_eq!(uri.param("a"), Some(&Some("%2E".to_string())));
    let again: TelUri = uri.to_string().parse().unwrap();
    assert_ne!(again, uri);
}

#[test]
fn parse_with_warnings_accepts_what_parse_accepts() {
    for input in ["tel:911", "tel:+1;=1#f", "tel:", "tel:+1;a_b"] {
        assert_eq!(TelUri::parse(input).is_ok(), TelUri::parse_with_warnings(input).is_ok());
        if let Ok(p) = TelUri::parse_with_warnings(input) {
            assert_eq!(p.value, TelUri::parse(input).unwrap());
        }
    }
    for input in ["urn:a:b?+", "urn:ab:c?+a b#x y", "urn:ab", "urn:ab:c?=#"] {
        assert_eq!(UrnUri::parse(input).is_ok(), UrnUri::parse_with_warnings(input).is_ok());
    }
    for input in ["<x:y>", "x", "sip:", "cid:a", "tel:+1#f"] {
        assert_eq!(Uri::parse(input).is_ok(), Uri::parse_with_warnings(input).is_ok());
    }
}

#[test]
fn warnings_come_in_input_order() {
    let p = SipUri::parse_with_warnings("sip:a b:p w@example.com").unwrap();
    let got: Vec<(Component, Option<usize>)> = p.warnings.iter().map(|w| (w.component, w.position)).collect();
    assert_eq!(got, [(Component::User, Some(5)), (Component::Password, Some(9))]);
    let p = SipUri::parse_with_warnings("sip::p w@example.com").unwrap();
    let got: Vec<(Component, WarningCode)> = p.warnings.iter().map(|w| (w.component, w.code)).collect();
    assert_eq!(
        got,
        [(Component::User, WarningCode::PasswordWithoutUser), (Component::Password, WarningCode::InvalidChar)]
    );
    let p = TelUri::parse_with_warnings("tel:911;a_b#x").unwrap();
    let got: Vec<WarningCode> = p.warnings.iter().map(|w| w.code).collect();
    assert_eq!(
        got,
        [WarningCode::MissingPhoneContext, WarningCode::InvalidChar, WarningCode::UnexpectedFragment]
    );
}

#[test]
fn warning_code_names_are_distinct_kebab_case() {
    let all = [
        WarningCode::InvalidChar,
        WarningCode::MalformedEscape,
        WarningCode::EmptyName,
        WarningCode::EmptySegment,
        WarningCode::PasswordWithoutUser,
        WarningCode::SignedPort,
        WarningCode::EmptyPort,
        WarningCode::InvalidHostLabel,
        WarningCode::NumericToplabel,
        WarningCode::EscapedHost,
        WarningCode::UnexpectedFragment,
        WarningCode::EmptyFragment,
        WarningCode::HeaderShapedUser,
        WarningCode::MissingPhoneContext,
        WarningCode::EmptyComponent,
        WarningCode::InvalidScheme,
    ];
    for (i, a) in all.iter().enumerate() {
        let name = a.as_str();
        assert!(!name.is_empty() && !name.starts_with('-') && !name.ends_with('-'));
        assert!(!name.contains("--"));
        assert!(name.chars().all(|c| c.is_ascii_lowercase() || c == '-'), "{name}");
        for b in &all[i + 1..] {
            assert_ne!(name, b.as_str());
        }
    }
    assert_eq!(WarningCode::InvalidScheme.as_str(), "invalid-scheme");
}

#[test]
fn other_schemes_keep_their_text() {
    let p = Uri::parse_with_warnings("cid:abc@example.com").unwrap();
    assert_eq!(p.value.as_other(), Some("cid:abc@example.com"));
    assert!(p.warnings.is_empty());
    let p = Uri::parse_with_warnings("1cid:x").unwrap();
    assert_eq!(p.warnings.len(), 1);
    assert_eq!(p.warnings[0].code, WarningCode::InvalidScheme);
    let n: NameAddr = "<https://example.com/a.jpg>".parse().unwrap();
    assert_eq!(n.uri().as_other(), Some("https://example.com/a.jpg"));
}

#[test]
fn sip_warnings_follow_the_input() {
    fn positions(input: &str) -> Vec<usize> {
        SipUri::parse_with_warnings(input)
            .unwrap()
            .warnings
            .iter()
            .map(|w| w.position.unwrap())
            .collect()
    }
    assert_eq!(positions("sip:h;a b#f"), [7, 9]);
    assert_eq!(positions("sip:a?b c@h"), [5, 7]);
    assert_eq!(positions("sip:u;p%zz?x@h"), [7, 10]);
    for input in [
        "sip:a b:p w@h;x y?a=b c#f",
        "sip:%zz;a b?q:c@-h.example:+5060;=v;;?a=1&&b=2#",
        "sip::p w@999.1.1.1;maddr=a@b#frag",
    ] {
        let p = positions(input);
        assert!(p.windows(2).all(|w| w[0] <= w[1]), "{input}: {p:?}");
    }
    let p = SipUri::parse_with_warnings("sip:h;a b#f").unwrap();
    assert_eq!(p.warnings[0].component, Component::Param);
    assert_eq!(p.warnings[1].component, Component::Fragment);
}
