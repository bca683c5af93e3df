//! What the schema, the lines and the index entries of a database say of its triples.

use super::export::{is_line, line_of, resolved};
use super::info::{indexed, reclaimed, touched_by, used_predicates, used_terms};
use super::schema::{classes_of, has_value, is_class, is_described, is_value, key_of, properties_of, related, used_property};
use super::state::{id_of, known, Quad};
use crate::dict::{dict_ok, DictSpec, Dictionary};
use crate::model::term::{term_key, TermSpec};
use crate::model::{IdTriple, Triple, LITERAL_FIRST_ID};
use crate::store::{all_subjects, law_reads_find_the_triples, pairs_of_object, pairs_of_subject};
use vstd::prelude::*;
use vstd::string::*;

verus! {

/// The key of an IRI.
pub open spec fn iri_key(iri: Seq<char>) -> Seq<char> {
    term_key(TermSpec::Iri(iri))
}

/// What a triple says of the vocabulary: the object of `rdf:type` is a class, and so are both
/// ends of `rdfs:subClassOf` and the objects of `rdfs:domain` and `rdfs:range`; every
/// predicate is a property, and so are the subjects of `rdfs:subPropertyOf`, `rdfs:domain`
/// and `rdfs:range`.
pub proof fn law_schema_lists_the_vocabulary(d: DictSpec, ts: Set<IdTriple>, s: Seq<char>, p: Seq<char>, o: Seq<char>, t: IdTriple)
    requires
        ts.contains(t),
        d.entities.contains_key(s),
        d.entities[s] == t.sub,
        d.predicates.contains_key(p),
        d.predicates[p] == t.pred,
        (d.entities.contains_key(o) && d.entities[o] == t.obj) || (d.literals.contains_key(o) && d.literals[o] == t.obj),
    ensures
        properties_of(d, ts).contains(p),
        p == iri_key("http://www.w3.org/1999/02/22-rdf-syntax-ns#type"@) ==> classes_of(d, ts).contains(o),
        p == iri_key("http://www.w3.org/2000/01/rdf-schema#subClassOf"@) ==> classes_of(d, ts).contains(o) && classes_of(d, ts).contains(s),
        p == iri_key("http://www.w3.org/2000/01/rdf-schema#subPropertyOf"@) ==> properties_of(d, ts).contains(s),
        p == iri_key("http://www.w3.org/2000/01/rdf-schema#domain"@) ==> classes_of(d, ts).contains(o) && properties_of(d, ts).contains(s),
        p == iri_key("http://www.w3.org/2000/01/rdf-schema#range"@) ==> classes_of(d, ts).contains(o) && properties_of(d, ts).contains(s),
{
    assert(t == IdTriple { sub: t.sub, pred: t.pred, obj: t.obj });
    assert(key_of(d, t.sub, s));
    assert(key_of(d, t.obj, o));
    assert(used_property(d, ts, p)) by {
        law_reads_find_the_triples(ts, t.sub, t.pred, t.obj);
    }
    assert forall|iri: Seq<char>| p == #[trigger] iri_key(iri) implies related(d, ts, t.sub, iri, t.obj) by {
    }
    if p == iri_key("http://www.w3.org/1999/02/22-rdf-syntax-ns#type"@) {
        assert(related(d, ts, t.sub, "http://www.w3.org/1999/02/22-rdf-syntax-ns#type"@, t.obj));
        assert(is_class(d, ts, t.obj));
    }
    if p == iri_key("http://www.w3.org/2000/01/rdf-schema#subClassOf"@) {
        assert(related(d, ts, t.sub, "http://www.w3.org/2000/01/rdf-schema#subClassOf"@, t.obj));
        assert(is_class(d, ts, t.obj) && is_class(d, ts, t.sub));
    }
    if p == iri_key("http://www.w3.org/2000/01/rdf-schema#subPropertyOf"@) {
        assert(related(d, ts, t.sub, "http://www.w3.org/2000/01/rdf-schema#subPropertyOf"@, t.obj));
        assert(is_described(d, ts, t.sub));
    }
    if p == iri_key("http://www.w3.org/2000/01/rdf-schema#domain"@) {
        assert(related(d, ts, t.sub, "http://www.w3.org/2000/01/rdf-schema#domain"@, t.obj));
        assert(is_class(d, ts, t.obj) && is_described(d, ts, t.sub));
    }
    if p == iri_key("http://www.w3.org/2000/01/rdf-schema#range"@) {
        assert(related(d, ts, t.sub, "http://www.w3.org/2000/01/rdf-schema#range"@, t.obj));
        assert(is_class(d, ts, t.obj) && is_described(d, ts, t.sub));
    }
}

/// The key is that of the id.
pub open spec fn named_by(d: DictSpec, id: u32, k: Seq<char>) -> bool {
    (d.entities.contains_key(k) && d.entities[k] == id) || (d.literals.contains_key(k) && d.literals[k] == id)
}

/// Nothing else is a class or a property: each is one by some triple.
pub proof fn law_schema_lists_nothing_else(d: DictSpec, ts: Set<IdTriple>, k: Seq<char>)
    ensures
        classes_of(d, ts).contains(k) ==> exists|t: IdTriple, p: Seq<char>|
            #[trigger] ts.contains(t) && #[trigger] d.predicates.contains_key(p) && d.predicates[p] == t.pred && {
                ||| named_by(d, t.obj, k) && (p == iri_key("http://www.w3.org/1999/02/22-rdf-syntax-ns#type"@) || p == iri_key("http://www.w3.org/2000/01/rdf-schema#subClassOf"@) || p == iri_key("http://www.w3.org/2000/01/rdf-schema#domain"@) || p == iri_key("http://www.w3.org/2000/01/rdf-schema#range"@))
                ||| named_by(d, t.sub, k) && p == iri_key("http://www.w3.org/2000/01/rdf-schema#subClassOf"@)
            },
        properties_of(d, ts).contains(k) ==> exists|t: IdTriple, p: Seq<char>|
            #[trigger] ts.contains(t) && #[trigger] d.predicates.contains_key(p) && d.predicates[p] == t.pred && {
                ||| p == k
                ||| named_by(d, t.sub, k) && (p == iri_key("http://www.w3.org/2000/01/rdf-schema#subPropertyOf"@) || p == iri_key("http://www.w3.org/2000/01/rdf-schema#domain"@) || p == iri_key("http://www.w3.org/2000/01/rdf-schema#range"@))
            },
{
    if classes_of(d, ts).contains(k) {
        let id = choose|id: u32| #[trigger] key_of(d, id, k) && is_class(d, ts, id);
        if is_value(d, ts, "http://www.w3.org/1999/02/22-rdf-syntax-ns#type"@, id) {
            lemma_value(d, ts, "http://www.w3.org/1999/02/22-rdf-syntax-ns#type"@, id);
        } else if is_value(d, ts, "http://www.w3.org/2000/01/rdf-schema#subClassOf"@, id) {
            lemma_value(d, ts, "http://www.w3.org/2000/01/rdf-schema#subClassOf"@, id);
        } else if has_value(d, ts, "http://www.w3.org/2000/01/rdf-schema#subClassOf"@, id) {
            lemma_value(d, ts, "http://www.w3.org/2000/01/rdf-schema#subClassOf"@, id);
        } else if is_value(d, ts, "http://www.w3.org/2000/01/rdf-schema#domain"@, id) {
            lemma_value(d, ts, "http://www.w3.org/2000/01/rdf-schema#domain"@, id);
        } else {
            lemma_value(d, ts, "http://www.w3.org/2000/01/rdf-schema#range"@, id);
        }
    }
    if properties_of(d, ts).contains(k) {
        if used_property(d, ts, k) {
            law_reads_find_the_triples(ts, 0, d.predicates[k], 0);
            let t = choose|t: IdTriple| #[trigger] ts.contains(t) && t.pred == d.predicates[k];
            assert(ts.contains(t) && d.predicates.contains_key(k));
        } else {
            let id = choose|id: u32| #[trigger] key_of(d, id, k) && is_described(d, ts, id);
            if has_value(d, ts, "http://www.w3.org/2000/01/rdf-schema#subPropertyOf"@, id) {
                lemma_value(d, ts, "http://www.w3.org/2000/01/rdf-schema#subPropertyOf"@, id);
            } else if has_value(d, ts, "http://www.w3.org/2000/01/rdf-schema#domain"@, id) {
                lemma_value(d, ts, "http://www.w3.org/2000/01/rdf-schema#domain"@, id);
            } else {
                lemma_value(d, ts, "http://www.w3.org/2000/01/rdf-schema#range"@, id);
            }
        }
    }
}

proof fn lemma_value(d: DictSpec, ts: Set<IdTriple>, iri: Seq<char>, id: u32)
    ensures
        is_value(d, ts, iri, id) ==> d.predicates.contains_key(iri_key(iri)) && exists|t: IdTriple| #[trigger] ts.contains(t) && t.pred == d.predicates[iri_key(iri)] && t.obj == id,
        has_value(d, ts, iri, id) ==> d.predicates.contains_key(iri_key(iri)) && exists|t: IdTriple| #[trigger] ts.contains(t) && t.pred == d.predicates[iri_key(iri)] && t.sub == id,
{
    if is_value(d, ts, iri, id) {
        let s = choose|s: u32| #[trigger] related(d, ts, s, iri, id);
        assert(ts.contains(IdTriple { sub: s, pred: d.predicates[iri_key(iri)], obj: id }));
    }
    if has_value(d, ts, iri, id) {
        let o = choose|o: u32| #[trigger] related(d, ts, id, iri, o);
        assert(ts.contains(IdTriple { sub: id, pred: d.predicates[iri_key(iri)], obj: o }));
    }
}

/// The line of a triple whose terms are known is the text of the triple, and no other.
pub proof fn law_line_is_the_text(d: DictSpec, t: Triple, line: Seq<char>)
    requires
        dict_ok(d),
        known(d, t),
    ensures
        is_line(d, id_of(d, t), line) <==> line == term_key(t.subject@) + seq![' '] + term_key(t.predicate@) + seq![' '] + term_key(t.object@) + seq![' ', '.'],
        resolved(d, id_of(d, t)),
{
    let (a, b, c) = (term_key(t.subject@), term_key(t.predicate@), term_key(t.object@));
    let x = id_of(d, t);
    assert(key_of(d, x.sub, a));
    assert(key_of(d, x.obj, c)) by {
        assert(Dictionary::space(d, t.object@).contains_key(c));
    }
    assert(d.predicates.contains_value(x.pred));
    let text = a + seq![' '] + b + seq![' '] + c + seq![' ', '.'];
    if line == text {
        assert(line_of(d, x, line, a, b, c));
    }
    if is_line(d, x, line) {
        let (s, p, o) = choose|s: Seq<char>, p: Seq<char>, o: Seq<char>| #[trigger] line_of(d, x, line, s, p, o);
        lemma_one_key(d, x.sub, s, a);
        lemma_one_key(d, x.obj, o, c);
        assert(d.predicates[p] == d.predicates[b]);
        assert(p == b);
    }
}

proof fn lemma_one_key(d: DictSpec, id: u32, a: Seq<char>, b: Seq<char>)
    requires
        dict_ok(d),
        key_of(d, id, a),
        key_of(d, id, b),
    ensures
        a == b,
{
    if d.entities.contains_key(a) && d.entities[a] == id {
        assert(id < LITERAL_FIRST_ID);
        if d.literals.contains_key(b) {
            assert(d.literals[b] >= LITERAL_FIRST_ID);
        }
        assert(d.entities[b] == id);
    } else {
        assert(id >= LITERAL_FIRST_ID);
        if d.entities.contains_key(b) {
            assert(d.entities[b] < LITERAL_FIRST_ID);
        }
        assert(d.literals[b] == id);
    }
}

/// The search index covers every subject, and every object that is an entity; the edges of an
/// entity are the predicates and ends of the triples that it is in.
pub proof fn law_index_covers_the_entities(ts: Set<IdTriple>, x: u32)
    ensures
        indexed(ts).contains(x) <==> exists|t: IdTriple| #[trigger] ts.contains(t) && (t.sub == x || (t.obj == x && x < 2_000_000_000)),
        forall|p: u32, y: u32| #[trigger] pairs_of_subject(ts, x).contains((p, y)) <==> ts.contains(IdTriple { sub: x, pred: p, obj: y }),
        forall|p: u32, y: u32| #[trigger] pairs_of_object(ts, x).contains((p, y)) <==> ts.contains(IdTriple { sub: y, pred: p, obj: x }),
{
    assert(LITERAL_FIRST_ID == 2_000_000_000);
    law_reads_find_the_triples(ts, x, 0, x);
    if indexed(ts).contains(x) {
        if all_subjects(ts).contains(x) {
            let t = choose|t: IdTriple| #[trigger] ts.contains(t) && t.sub == x;
            assert(ts.contains(t));
        } else {
            let t = choose|t: IdTriple| #[trigger] ts.contains(t) && t.obj == x;
            assert(ts.contains(t));
        }
    }
}

/// Only the entries of the ends of a triple change with it.
pub proof fn law_one_triple_touches_its_ends(ts: Set<IdTriple>, t: IdTriple, x: u32)
    requires
        !touched_by(t).contains(x),
    ensures
        pairs_of_subject(ts.insert(t), x) == pairs_of_subject(ts, x),
        x < 2_000_000_000 ==> pairs_of_object(ts.insert(t), x) == pairs_of_object(ts, x),
        pairs_of_subject(ts.remove(t), x) == pairs_of_subject(ts, x),
        x < 2_000_000_000 ==> pairs_of_object(ts.remove(t), x) == pairs_of_object(ts, x),
{
    assert(touched_by(t)[0] == t.sub);
    assert(x != t.sub);
    if x < 2_000_000_000 && x == t.obj {
        assert(touched_by(t)[1] == t.obj);
    }
    assert(pairs_of_subject(ts.insert(t), x) =~= pairs_of_subject(ts, x));
    assert(pairs_of_subject(ts.remove(t), x) =~= pairs_of_subject(ts, x));
    if x < 2_000_000_000 {
        assert(pairs_of_object(ts.insert(t), x) =~= pairs_of_object(ts, x));
        assert(pairs_of_object(ts.remove(t), x) =~= pairs_of_object(ts, x));
    }
}

/// Reclaiming drops the keys that no graph uses, and only those: a term stays if a triple or
/// the name of a graph uses its id, and a predicate stays if a triple does.
pub proof fn law_reclaim_drops_the_unused(before: DictSpec, after: DictSpec, quads: Set<Quad>, graphs: Set<u32>, k: Seq<char>)
    requires
        reclaimed(before, after, used_terms(quads, graphs), used_predicates(quads)),
    ensures
        after.entities.contains_key(k) <==> before.entities.contains_key(k) && (graphs.contains(before.entities[k]) || exists|q: Quad| #[trigger] quads.contains(q) && (q.1.sub == before.entities[k] || q.1.obj == before.entities[k])),
        after.literals.contains_key(k) <==> before.literals.contains_key(k) && (graphs.contains(before.literals[k]) || exists|q: Quad| #[trigger] quads.contains(q) && (q.1.sub == before.literals[k] || q.1.obj == before.literals[k])),
        after.predicates.contains_key(k) <==> before.predicates.contains_key(k) && exists|q: Quad| #[trigger] quads.contains(q) && q.1.pred == before.predicates[k],
        after.entities.contains_key(k) ==> after.entities[k] == before.entities[k],
        after.literals.contains_key(k) ==> after.literals[k] == before.literals[k],
        after.predicates.contains_key(k) ==> after.predicates[k] == before.predicates[k],
{
}

} // verus!
