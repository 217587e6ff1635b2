use sip_uri::params::{find_param, parse_headers, parse_params};

#[test]
fn parse_empty() {
    assert_eq!(parse_params("").unwrap(), vec![]);
}

#[test]
fn parse_key_value() {
    let params = parse_params("transport=tcp").unwrap();
    assert_eq!(params, vec![("transport".into(), Some("tcp".into()))]);
}

#[test]
fn parse_mixed() {
    let params = parse_params("user=phone;ttl=1;isfocus").unwrap();
    assert_eq!(
        params,
        vec![
            ("user".into(), Some("phone".into())),
            ("ttl".into(), Some("1".into())),
            ("isfocus".into(), None),
        ]
    );
}

#[test]
fn parse_headers_basic() {
    let headers = parse_headers("From=foo@bar&To=bar@baz").unwrap();
    assert_eq!(
        headers,
        vec![
            ("From".into(), "foo@bar".into()),
            ("To".into(), "bar@baz".into()),
        ]
    );
}

#[test]
fn find_param_case_insensitive() {
    let params = vec![
        ("Transport".into(), Some("tcp".into())),
        ("user".into(), Some("phone".into())),
    ];
    assert_eq!(find_param(&params, "transport"), Some(&Some("tcp".into())));
    assert_eq!(find_param(&params, "USER"), Some(&Some("phone".into())));
    assert_eq!(find_param(&params, "missing"), None);
}
