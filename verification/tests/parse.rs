use std::borrow::Cow;

use sip_uri::parse::{
    canonize_header, canonize_user, decode_user, encode_uri_header, find_userinfo_at, is_unreserved,
    percent_decode, CharSet,
};

#[test]
fn unreserved_chars() {
    for c in b"abcABC019-_.!~*'()" {
        assert!(is_unreserved(*c), "expected unreserved: {:?}", *c as char);
    }
    for c in b"@:;/?#[]&=+$,\" " {
        assert!(!is_unreserved(*c), "expected reserved: {:?}", *c as char);
    }
}

#[test]
fn percent_decode_unreserved() {
    assert_eq!(percent_decode("%2E", CharSet::Unreserved), ".");
    assert_eq!(percent_decode("%41", CharSet::Unreserved), "A");
    assert_eq!(percent_decode("%20", CharSet::Unreserved), "%20");
}

#[test]
fn percent_decode_normalizes_hex_case() {
    assert_eq!(percent_decode("%3d", CharSet::Unreserved), "%3D");
    assert_eq!(percent_decode("%2f", CharSet::Unreserved), "%2F");
}

#[test]
fn find_at_basic() {
    assert_eq!(find_userinfo_at("user@host"), Some(4));
    assert_eq!(find_userinfo_at("host"), None);
    assert_eq!(find_userinfo_at("u@h?From=foo@bar"), Some(1));
}

#[test]
fn encode_uri_header_borrows_when_clean() {
    assert!(matches!(encode_uri_header(""), Cow::Borrowed("")));
    assert!(matches!(
        encode_uri_header("a-zA-Z0-9[]/?:+$"),
        Cow::Borrowed(_)
    ));
}

#[test]
fn encode_uri_header_escapes_non_hnv() {
    assert_eq!(
        encode_uri_header("12345@example.com;to-tag=abc"),
        "12345%40example.com%3Bto-tag%3Dabc"
    );
    assert_eq!(encode_uri_header("%"), "%25");
    assert_eq!(encode_uri_header("a b"), "a%20b");
    assert_eq!(encode_uri_header("é"), "%C3%A9");
}

#[test]
fn encode_uri_header_matches_canonical_form() {
    let encoded = encode_uri_header("12345@example.com;to-tag=abc");
    assert_eq!(canonize_header(&encoded), encoded.as_ref());
}

#[test]
fn decode_user_borrows_when_clean() {
    assert!(matches!(decode_user(""), Cow::Borrowed(b"")));
    assert!(matches!(
        decode_user("+15551234567;cpc=emergency"),
        Cow::Borrowed(_)
    ));
}

#[test]
fn decode_user_decodes_every_escape() {
    assert_eq!(decode_user("%2B1555").as_ref(), b"+1555");
    assert_eq!(decode_user("%22foo%22").as_ref(), b"\"foo\"");
    assert_eq!(decode_user("a%3Bb").as_ref(), b"a;b");
    assert_eq!(decode_user("%2b%3b").as_ref(), b"+;");
    assert_eq!(decode_user("%FF").as_ref(), b"\xFF");
}

#[test]
fn decode_user_keeps_malformed_percent() {
    assert_eq!(decode_user("100%").as_ref(), b"100%");
    assert_eq!(decode_user("a%2").as_ref(), b"a%2");
    assert_eq!(decode_user("%zz").as_ref(), b"%zz");
}

#[test]
fn decode_user_matches_decoding_canonical_form() {
    let raw = "%2b%22foo%22%3bcpc%3Demergency";
    assert_eq!(decode_user(raw), decode_user(&canonize_user(raw)));
}

#[test]
fn canonize_sip_user() {
    // %2E (.) should be decoded, %40 (@) should stay encoded
    assert_eq!(canonize_user("pekka%2Epessi"), "pekka.pessi");
    assert_eq!(canonize_user("%22foo%22"), "%22foo%22");
}
