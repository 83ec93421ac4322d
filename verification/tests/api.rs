use regexr_server::http::api::{
    form_value, invalid_json, percent_decode, route_request, ApiRoute, CODE_INVALID_JSON,
    CODE_NO_ACTION, CODE_UNKNOWN,
};

#[test]
fn percent_decoding() {
    assert_eq!(percent_decode("a%20b+c"), "a b c");
    assert_eq!(percent_decode("%E4%B8%AD"), "中");
    assert_eq!(percent_decode("%7b%7D"), "{}");
    // malformed escapes are kept literally
    assert_eq!(percent_decode("100%"), "100%");
    assert_eq!(percent_decode("%zz%4"), "%zz%4");
    // bytes that are not UTF-8 are replaced
    assert_eq!(percent_decode("%FFa"), "\u{FFFD}a");
    assert_eq!(percent_decode(""), "");
}

#[test]
fn percent_escape_needs_two_following_bytes() {
    // an escape cut short at the end of the component is kept literally
    assert_eq!(percent_decode("x%4"), "x%4");
    assert_eq!(percent_decode("x%41"), "xA");
    assert_eq!(percent_decode("x%41y"), "xAy");
}

#[test]
fn form_values() {
    let body = "action=regex%2Fsolve&data=%7B%22a%22%3A1%7D";
    assert_eq!(form_value(body, "action").as_deref(), Some("regex/solve"));
    assert_eq!(form_value(body, "data").as_deref(), Some("{\"a\":1}"));
    assert_eq!(form_value(body, "missing"), None);
    // pairs without `=` are skipped, the first match wins, keys are decoded
    assert_eq!(form_value("junk&a%62=1&ab=2", "ab").as_deref(), Some("1"));
    assert_eq!(form_value("k=", "k").as_deref(), Some(""));
    assert_eq!(form_value("", "k"), None);
}

#[test]
fn no_action_error() {
    match route_request("action=") {
        ApiRoute::Fail { code, message } => {
            assert_eq!(code, 1001);
            assert_eq!(code, CODE_NO_ACTION);
            assert_eq!(message, "No action was provided");
        }
        _ => panic!("expected failure"),
    }
    assert!(matches!(route_request("foo=bar"), ApiRoute::Fail { code: 1001, .. }));
}

#[test]
fn solve_without_data() {
    match route_request("action=regex/solve") {
        ApiRoute::Fail { code, message } => {
            assert_eq!(code, CODE_INVALID_JSON);
            assert_eq!(message, "No data was provided");
        }
        _ => panic!("expected failure"),
    }
}

#[test]
fn solve_and_stub_routes() {
    match route_request("action=regex%2Fsolve&data=%7Bnot%20json") {
        ApiRoute::Solve { data } => assert_eq!(data, "{not json"),
        _ => panic!("expected a solve"),
    }
    match route_request("action=patterns/search") {
        ApiRoute::Stub { action } => assert_eq!(action, "patterns/search"),
        _ => panic!("expected a stub"),
    }
}

#[test]
fn envelope_error_on_invalid_json() {
    let data = match route_request("action=regex/solve&data=%7Bnot%20json") {
        ApiRoute::Solve { data } => data,
        _ => panic!("expected a solve"),
    };
    assert!(serde_json::from_str::<serde_json::Value>(&data).is_err());
    match invalid_json() {
        ApiRoute::Fail { code, message } => {
            assert_eq!(code, 1204);
            assert_eq!(message, "JSON was not valid");
        }
        _ => panic!("expected failure"),
    }
    assert_eq!(CODE_UNKNOWN, 1000);
}

#[test]
fn percent_encoding_round_trips() {
    // every byte of "A中" written as %XX
    assert_eq!(percent_decode("%41%E4%B8%AD"), "A中");
    // text without `%` or `+` is kept
    assert_eq!(percent_decode("plain-text_中.~"), "plain-text_中.~");
}

#[test]
fn mixed_and_lower_case_escapes_round_trip() {
    assert_eq!(percent_decode("%e4%b8%ad-a%2Bb%20c"), "中-a+b c");
    assert_eq!(percent_decode("x%3d%3D"), "x==");
}

#[test]
fn first_pair_split_at_its_first_equals() {
    assert_eq!(form_value("a=b=c&a=d", "a").as_deref(), Some("b=c"));
    assert_eq!(form_value("x&a&a=1", "a").as_deref(), Some("1"));
}
