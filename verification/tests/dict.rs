use gstore::dict::Dictionary;
use gstore::model::{Term, INVALID_ENTITY_LITERAL_ID, LITERAL_FIRST_ID};

#[test]
fn entity_ids_start_at_zero_and_are_stable() {
    let mut d = Dictionary::new();
    let a = d.intern_entity("<a>");
    let b = d.intern_entity("<b>");
    assert_eq!(a, 0);
    assert_eq!(b, 1);
    // re-interning is idempotent
    assert_eq!(d.intern_entity("<a>"), 0);
    assert_eq!(d.entity_id("<a>"), Some(0));
    assert_eq!(d.entity_id("<missing>"), None);
}

#[test]
fn literal_ids_are_offset_by_literal_first_id() {
    let mut d = Dictionary::new();
    let l = d.intern_literal("\"hi\"");
    assert_eq!(l, LITERAL_FIRST_ID);
    assert_eq!(d.intern_literal("\"hi\""), LITERAL_FIRST_ID);
    assert_eq!(d.intern_literal("\"bye\""), LITERAL_FIRST_ID + 1);
    assert_eq!(d.literal_id("\"hi\""), Some(LITERAL_FIRST_ID));
}

#[test]
fn entity_and_literal_spaces_do_not_collide() {
    // Same dense index 0, but distinct public ids.
    let mut d = Dictionary::new();
    let e = d.intern_entity("<foo>");
    let l = d.intern_literal("\"foo\"");
    assert_ne!(e, l);
}

#[test]
fn predicates_have_their_own_space() {
    let mut d = Dictionary::new();
    let p = d.intern_predicate("<knows>");
    assert_eq!(p, 0);
    // predicate id 0 coexists with entity id 0
    assert_eq!(d.intern_entity("<x>"), 0);
    assert_eq!(d.predicate_to_string(0), Some("<knows>"));
}

#[test]
fn id_to_string_roundtrips_across_spaces() {
    let mut d = Dictionary::new();
    let e = d.intern_entity("<a>");
    let l = d.intern_literal("\"v\"");
    assert_eq!(d.id_to_string(e), Some("<a>"));
    assert_eq!(d.id_to_string(l), Some("\"v\""));
    assert_eq!(d.id_to_string(INVALID_ENTITY_LITERAL_ID), None);
}

#[test]
fn intern_term_routes_by_kind() {
    let mut d = Dictionary::new();
    let e = d.intern_term(&Term::iri("a"));
    let l = d.intern_term(&Term::plain_literal("a"));
    assert!(e < LITERAL_FIRST_ID);
    assert!(l >= LITERAL_FIRST_ID);
    assert_eq!(d.term_id(&Term::iri("a")), Some(e));
    assert_eq!(d.term_id(&Term::iri("missing")), None);
}

#[test]
fn counts_track_interned_terms() {
    let mut d = Dictionary::new();
    d.intern_entity("<a>");
    d.intern_entity("<b>");
    d.intern_literal("\"x\"");
    d.intern_predicate("<p>");
    assert_eq!(d.entity_num(), 2);
    assert_eq!(d.literal_num(), 1);
    assert_eq!(d.predicate_num(), 1);
}
