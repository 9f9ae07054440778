use sturnus::body::{BodyError, RawBody};
use sturnus::layout::find_members;

fn parse(input: &str) -> RawBody<'_> {
    RawBody::from_slice(input.as_bytes()).unwrap()
}

fn text(body: &RawBody<'_>) -> String {
    String::from_utf8(body.to_bytes()).unwrap()
}

fn round_trip(input: &str) -> String {
    text(&parse(input))
}

#[test]
fn values_pass_through_byte_for_byte() {
    // Key order, number precision, and nested formatting all survive.
    let input = r#"{"z":1,"model":"fast","big":184467440737095516150.123456789012345678,"nested":{ "b":2, "a":1 }}"#;
    assert_eq!(
        round_trip(input),
        r#"{"z":1,"model":"fast","big":184467440737095516150.123456789012345678,"nested":{ "b":2, "a":1 }}"#
    );
}

#[test]
fn duplicate_keys_collapse_last_wins() {
    assert_eq!(round_trip(r#"{"a":1,"a":2}"#), r#"{"a":2}"#);
    // The place is that of the first.
    assert_eq!(
        round_trip(r#"{"a":1,"b":0,"a":2,"c":3,"b":4}"#),
        r#"{"a":2,"b":4,"c":3}"#
    );
}

#[test]
fn non_object_is_rejected() {
    assert!(RawBody::from_slice(b"[1,2]").is_err());
    assert!(RawBody::from_slice(b"\"hi\"").is_err());
    assert!(matches!(
        RawBody::from_slice(b"[1,2]"),
        Err(BodyError::NotAnObject)
    ));
    assert!(matches!(
        RawBody::from_slice(b"null"),
        Err(BodyError::NotAnObject)
    ));
}

#[test]
fn invalid_json_is_rejected() {
    assert!(RawBody::from_slice(br#"{"a":"#).is_err());
    // The whole input is validated, not just the top-level keys.
    assert!(RawBody::from_slice(br#"{"a":{"b":}}"#).is_err());
    match RawBody::from_slice(br#"{"a":"#) {
        Err(BodyError::InvalidJson(m)) => {
            assert_eq!(m, "EOF while parsing a value at line 1 column 5")
        }
        other => panic!("{other:?}"),
    }
}

#[test]
fn get_as_parses_fields() {
    let body = parse(r#"{"model":"fa\"st","stream":true,"n":3}"#);
    assert_eq!(body.get_as::<String>("model").unwrap(), "fa\"st");
    assert_eq!(body.get_as::<bool>("stream"), Some(true));
    assert_eq!(body.get_as::<bool>("n"), None);
    assert_eq!(body.get_as::<bool>("absent"), None);
    assert_eq!(body.get_as::<String>("n"), None);
    assert_eq!(body.get_as::<String>("absent"), None);
}

#[test]
fn set_replaces_in_place_and_appends() {
    let mut body = parse(r#"{"a":1,"model":"x","b":2}"#);
    body.set("model", "\"y\"".to_string());
    body.set("c", "3".to_string());
    assert_eq!(text(&body), r#"{"a":1,"model":"y","b":2,"c":3}"#);
    assert_eq!(body.get("model"), Some("\"y\""));
    assert_eq!(body.get("a"), Some("1"));
    assert_eq!(body.get("d"), None);
}

#[test]
fn empty_objects_and_white_space() {
    for input in [
        "{}",
        " {\n \"a\" : [ 1 , 2 ] , \"b\":null } ",
        "\t{ }\r\n",
        "{\"s\":\"}\\\",{\\\\\" ,\"n\":-0.10e+5\n,\"t\":true ,\"d\":[{\"]\":[]},{}]}",
    ] {
        assert_eq!(round_trip(input), input);
    }
}

#[test]
fn formatting_stays_around_what_is_set() {
    let mut body = parse(" { \"a\" : 1 ,\n \"b\":[ 2 ] } ");
    body.set("a", "7".to_string());
    assert_eq!(text(&body), " { \"a\" : 7 ,\n \"b\":[ 2 ] } ");
    body.set("c\n", "8".to_string());
    body.set("c\n", "9".to_string());
    assert_eq!(text(&body), " { \"a\" : 7 ,\n \"b\":[ 2 ],\"c\\n\":9 } ");
    let mut empty = parse("{ }");
    empty.set("a", "1".to_string());
    empty.set("b", "2".to_string());
    assert_eq!(text(&empty), "{\"a\":1,\"b\":2 }");
}

#[test]
fn keys_keep_their_spelling() {
    let input = "{\"a\\\"b\\\\c\\n\\u0001\\u00e9/\\u007f\":1}";
    assert_eq!(round_trip(input), input);
    let body = parse(input);
    assert_eq!(body.get("a\"b\\c\n\u{1}\u{e9}/\u{7f}"), Some("1"));
}

#[test]
fn repeated_keys_have_the_object_written_anew() {
    assert_eq!(
        round_trip("{ \"a\\\"\\n\\u00e9/\\u007f\" : 1, \"b\": [ 2 ], \"a\\\"\\n\u{e9}/\u{7f}\":3 }"),
        "{\"a\\\"\\n\u{e9}/\u{7f}\":3,\"b\":[ 2 ]}"
    );
}

#[test]
fn members_are_found_where_they_stand() {
    let input = br#" {"a": "}" , "b":{"x":[1,"]"]},"a":2}"#;
    let found: Vec<(&str, &str)> = find_members(input)
        .unwrap()
        .iter()
        .map(|m| {
            (
                std::str::from_utf8(&input[m.key..m.key_end]).unwrap(),
                std::str::from_utf8(&input[m.start..m.end]).unwrap(),
            )
        })
        .collect();
    assert_eq!(
        found,
        [
            ("\"a\"", "\"}\""),
            ("\"b\"", "{\"x\":[1,\"]\"]}"),
            ("\"a\"", "2")
        ]
    );
    for input in ["", "[]", "{", "{\"a\"}", "{\"a\":1", "{\"a\":[1];}", "{\"a\":[1}", "{\"a"] {
        assert!(find_members(input.as_bytes()).is_none(), "{input}");
    }
}

#[test]
fn truth_values_are_read_exactly() {
    let body = parse(r#"{"t":true,"f":false,"s":"true","n":null,"o":1}"#);
    assert_eq!(body.get_as::<bool>("t"), Some(true));
    assert_eq!(body.get_as::<bool>("f"), Some(false));
    assert_eq!(body.get_as::<bool>("s"), None);
    assert_eq!(body.get_as::<bool>("n"), None);
    assert_eq!(body.get_as::<bool>("o"), None);
    let mut body = body;
    body.set("t", " \t\r\n false\n".to_string());
    assert_eq!(body.get_as::<bool>("t"), Some(false));
    body.set("t", "true x".to_string());
    assert_eq!(body.get_as::<bool>("t"), None);
}

#[test]
fn entries_collapse_as_if_set_in_turn() {
    let body = RawBody::from_entries(vec![
        ("a".to_string(), "1"),
        ("b".to_string(), "2"),
        ("a".to_string(), "3"),
    ]);
    assert_eq!(text(&body), r#"{"a":3,"b":2}"#);
}
