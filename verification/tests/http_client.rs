use gstore::http_client::{parse_http_url, parse_sparql_json};
use gstore::model::Term;

#[test]
fn parses_select_results_json() {
    let body = r#"{"head":{"vars":["o","name"]},"results":{"bindings":[
        {"o":{"type":"uri","value":"http://ex/b"},
         "name":{"type":"literal","value":"Alice"}},
        {"name":{"type":"literal","value":"Bonjour","xml:lang":"fr"}}
    ]}}"#;
    let sols = parse_sparql_json(body).unwrap();
    assert_eq!(sols.len(), 2);
    assert_eq!(
        sols[0],
        vec![
            ("o".to_string(), Term::iri("http://ex/b")),
            ("name".to_string(), Term::plain_literal("Alice")),
        ]
    );
    assert_eq!(
        sols[1][0].1,
        Term::Literal {
            value: "Bonjour".into(),
            datatype: None,
            lang: Some("fr".into()),
        }
    );
}

#[test]
fn parses_typed_literal_and_empty_bindings() {
    let body = r#"{"head":{"vars":["n"]},"results":{"bindings":[
        {"n":{"type":"literal","value":"42","datatype":"http://www.w3.org/2001/XMLSchema#integer"}}
    ]}}"#;
    let sols = parse_sparql_json(body).unwrap();
    assert_eq!(
        sols[0][0].1,
        Term::typed_literal("42", "http://www.w3.org/2001/XMLSchema#integer")
    );

    let empty = r#"{"head":{"vars":[]},"results":{"bindings":[]}}"#;
    assert!(parse_sparql_json(empty).unwrap().is_empty());
}

#[test]
fn rejects_non_results_json() {
    assert!(parse_sparql_json(r#"{"error":"boom"}"#).is_err());
    assert!(parse_sparql_json("not json").is_err());
}

#[test]
fn splits_http_urls() {
    assert_eq!(
        parse_http_url("http://127.0.0.1:7000/sparql").unwrap(),
        ("127.0.0.1".to_string(), 7000, "/sparql".to_string())
    );
    assert_eq!(
        parse_http_url("http://example.org/q").unwrap(),
        ("example.org".to_string(), 80, "/q".to_string())
    );
    assert_eq!(
        parse_http_url("http://host:9").unwrap(),
        ("host".to_string(), 9, "/".to_string())
    );
    assert!(parse_http_url("https://secure/x").is_err());
}
