use gstore::json::{json_str, Json};

fn error(s: &str) -> String {
    Json::parse(s).unwrap_err()
}

#[test]
fn values_are_parsed() {
    let v = Json::parse(" {\"a\": [1.5e3, true, null], \"b\": \"x\\u0041\\n\"} ").unwrap();
    assert_eq!(v.get("a").unwrap().as_array().unwrap().len(), 3);
    assert_eq!(v.get("b").unwrap().as_str(), Some("xA\n"));
    assert_eq!(v.text_field("b"), Some("xA\n".to_string()));
    assert!(v.get("c").is_none());
    assert_eq!(v.as_object().unwrap().len(), 2);
}

#[test]
fn errors_name_the_character() {
    assert!(error("{x}").contains("'x'"), "{}", error("{x}"));
    assert!(error("\"\\uZZZZ\"").contains("'Z'"), "{}", error("\"\\uZZZZ\""));
    assert!(Json::parse("").is_err());
    assert!(Json::parse("[1,]").is_err());
    assert!(Json::parse("1 2").is_err());
}

#[test]
fn a_surrogate_is_no_character() {
    assert_eq!(Json::parse("\"\\uD800\"").unwrap().as_str(), Some("\u{fffd}"));
    assert_eq!(Json::parse("\"\\u00e9\"").unwrap().as_str(), Some("\u{e9}"));
}

#[test]
fn strings_roundtrip() {
    for s in ["", "plain", "a\"b\\c", "line\nend\ttab\r", "\u{1}\u{1f}", "\u{e9}\u{4e2d}\u{1f600}"] {
        let text = json_str(s);
        assert_eq!(Json::parse(&text).unwrap().as_str(), Some(s), "{text}");
    }
    assert_eq!(json_str("a\"\n"), "\"a\\\"\\n\"");
}
