use gstore::model::{ObjectType, Term, Triple};

#[test]
fn iri_roundtrips_through_display() {
    let t = Term::iri("http://example/a");
    assert_eq!(t.to_text(), "<http://example/a>");
    assert!(t.is_entity());
    assert!(!t.is_literal());
}

#[test]
fn blank_node_display() {
    assert_eq!(Term::blank("b0").to_text(), "_:b0");
    assert!(Term::blank("b0").is_entity());
}

#[test]
fn plain_literal_display() {
    assert_eq!(Term::plain_literal("hello").to_text(), "\"hello\"");
}

#[test]
fn typed_literal_display() {
    let t = Term::typed_literal("2500", "http://www.w3.org/2001/XMLSchema#integer");
    assert_eq!(
        t.to_text(),
        "\"2500\"^^<http://www.w3.org/2001/XMLSchema#integer>"
    );
    assert!(t.is_literal());
}

#[test]
fn lang_literal_display() {
    let t = Term::Literal {
        value: "chat".into(),
        datatype: None,
        lang: Some("fr".into()),
    };
    assert_eq!(t.to_text(), "\"chat\"@fr");
}

#[test]
fn literal_with_quotes_is_escaped() {
    let t = Term::plain_literal("say \"hi\"\nbye");
    assert_eq!(t.to_text(), "\"say \\\"hi\\\"\\nbye\"");
}

#[test]
fn triple_object_type_is_derived() {
    let t = Triple::new(Term::iri("a"), Term::iri("p"), Term::plain_literal("v"));
    assert_eq!(t.object_type(), ObjectType::Literal);
    let t2 = Triple::new(Term::iri("a"), Term::iri("p"), Term::iri("b"));
    assert_eq!(t2.object_type(), ObjectType::Entity);
}

#[test]
fn dict_key_distinguishes_iri_from_same_named_literal() {
    // <foo> and "foo" must not collide in the dictionary.
    assert_ne!(
        Term::iri("foo").dict_key(),
        Term::plain_literal("foo").dict_key()
    );
}
