//! The classes and properties that a database mentions.

use super::Database;
use crate::dict::DictSpec;
use crate::model::term::{term_key, TermSpec};
use crate::model::{IdTriple, Term};
use crate::store::{all_predicates, pairs_of_predicate};
use crate::text::{insert_text, lists_texts, texts};
use vstd::prelude::*;
use vstd::string::*;

verus! {

pub const RDF_TYPE: &'static str = "http://www.w3.org/1999/02/22-rdf-syntax-ns#type";

pub const RDFS_SUBCLASS: &'static str = "http://www.w3.org/2000/01/rdf-schema#subClassOf";

pub const RDFS_SUBPROP: &'static str = "http://www.w3.org/2000/01/rdf-schema#subPropertyOf";

pub const RDFS_DOMAIN: &'static str = "http://www.w3.org/2000/01/rdf-schema#domain";

pub const RDFS_RANGE: &'static str = "http://www.w3.org/2000/01/rdf-schema#range";

/// The vocabulary of a database, each list in ascending order.
#[derive(Debug)]
pub struct Schema {
    /// Objects of `rdf:type`, both sides of `rdfs:subClassOf`, and the values of
    /// `rdfs:domain` and `rdfs:range`.
    pub classes: Vec<String>,
    /// All predicates in use, and the subjects of `rdfs:subPropertyOf`,
    /// `rdfs:domain` and `rdfs:range`.
    pub properties: Vec<String>,
}

/// The key belongs to the id.
pub open spec fn key_of(d: DictSpec, id: u32, key: Seq<char>) -> bool {
    (d.entities.contains_key(key) && d.entities[key] == id) || (d.literals.contains_key(key) && d.literals[key] == id)
}

/// The subject `s` has `o` as a value of the property with the given IRI.
pub open spec fn related(d: DictSpec, ts: Set<IdTriple>, s: u32, iri: Seq<char>, o: u32) -> bool {
    let k = term_key(TermSpec::Iri(iri));
    d.predicates.contains_key(k) && ts.contains(IdTriple { sub: s, pred: d.predicates[k], obj: o })
}

/// The id is a value of the property.
pub open spec fn is_value(d: DictSpec, ts: Set<IdTriple>, iri: Seq<char>, id: u32) -> bool {
    exists|s: u32| #[trigger] related(d, ts, s, iri, id)
}

/// The id has a value of the property.
pub open spec fn has_value(d: DictSpec, ts: Set<IdTriple>, iri: Seq<char>, id: u32) -> bool {
    exists|o: u32| #[trigger] related(d, ts, id, iri, o)
}

/// The id stands for a class.
pub open spec fn is_class(d: DictSpec, ts: Set<IdTriple>, id: u32) -> bool {
    ||| is_value(d, ts, RDF_TYPE@, id)
    ||| is_value(d, ts, RDFS_SUBCLASS@, id)
    ||| has_value(d, ts, RDFS_SUBCLASS@, id)
    ||| is_value(d, ts, RDFS_DOMAIN@, id)
    ||| is_value(d, ts, RDFS_RANGE@, id)
}

/// The classes.
pub open spec fn classes_of(d: DictSpec, ts: Set<IdTriple>) -> Set<Seq<char>> {
    Set::new(|k: Seq<char>| exists|id: u32| #[trigger] key_of(d, id, k) && is_class(d, ts, id))
}

/// The key belongs to a predicate in use.
pub open spec fn used_property(d: DictSpec, ts: Set<IdTriple>, key: Seq<char>) -> bool {
    d.predicates.contains_key(key) && all_predicates(ts).contains(d.predicates[key])
}

/// The id is described as a property.
pub open spec fn is_described(d: DictSpec, ts: Set<IdTriple>, id: u32) -> bool {
    ||| has_value(d, ts, RDFS_SUBPROP@, id)
    ||| has_value(d, ts, RDFS_DOMAIN@, id)
    ||| has_value(d, ts, RDFS_RANGE@, id)
}

/// The properties.
pub open spec fn properties_of(d: DictSpec, ts: Set<IdTriple>) -> Set<Seq<char>> {
    Set::new(|k: Seq<char>| used_property(d, ts, k) || exists|id: u32| #[trigger] key_of(d, id, k) && is_described(d, ts, id))
}

/// The keys of the ids that a test selects.
pub open spec fn keys_where(d: DictSpec, test: spec_fn(u32) -> bool) -> Set<Seq<char>> {
    Set::new(|k: Seq<char>| exists|id: u32| #[trigger] key_of(d, id, k) && test(id))
}

impl Database {
    /// Add the keys of the values (or of the subjects, if `subjects`) of a property.
    fn collect_keys(&self, out: &mut Vec<String>, iri: &str, subjects: bool)
        requires
            self.wf(),
            crate::text::texts_ascend(texts(old(out)@)),
        ensures
            crate::text::texts_ascend(texts(final(out)@)),
            forall|k: Seq<char>| #[trigger] texts(final(out)@).contains(k) <==> texts(old(out)@).contains(k) || keys_where(
                self@.dict,
                |id: u32| if subjects { has_value(self@.dict, self.default_graph(), iri@, id) } else { is_value(self@.dict, self.default_graph(), iri@, id) },
            ).contains(k),
    {
        let ghost d = self@.dict;
        let ghost ts = self.default_graph();
        let ghost test = |id: u32| if subjects { has_value(d, ts, iri@, id) } else { is_value(d, ts, iri@, id) };
        let ghost k0 = term_key(TermSpec::Iri(iri@));
        let pred: u32 = match self.dict.predicate_id(Term::iri(iri).dict_key().as_str()) {
            Some(p) => p,
            None => {
                proof {
                    assert forall|k: Seq<char>| !keys_where(d, test).contains(k) by {
                        if keys_where(d, test).contains(k) {
                            let id = choose|id: u32| #[trigger] key_of(d, id, k) && test(id);
                            if subjects {
                                let o = choose|o: u32| #[trigger] related(d, ts, id, iri@, o);
                            } else {
                                let s = choose|s: u32| #[trigger] related(d, ts, s, iri@, id);
                            }
                        }
                    }
                }
                return;
            },
        };
        let pairs: Vec<(u32, u32)> = self.store.so_by_p(pred);
        let ghost t0 = texts(out@);
        let mut i: usize = 0;
        while i < pairs.len()
            invariant
                self.wf(),
                d == self@.dict,
                i <= pairs@.len(),
                crate::text::texts_ascend(texts(out@)),
                forall|k: Seq<char>| #[trigger] texts(out@).contains(k) <==> t0.contains(k) || exists|j: int| 0 <= j < i && key_of(d, picked(#[trigger] pairs@[j], subjects), k),
            decreases pairs.len() - i,
        {
            let ghost t1 = texts(out@);
            let id: u32 = if subjects { pairs[i].0 } else { pairs[i].1 };
            proof {
                self.dict.lemma_ids();
            }
            match self.dict.id_to_string(id) {
                Some(s) => {
                    insert_text(out, s);
                    proof {
                        assert forall|k: Seq<char>| key_of(d, id, k) <==> k == s@ by {
                            if key_of(d, id, k) {
                                lemma_key_unique(&self.dict, id, k, s@);
                            }
                        }
                    }
                },
                None => {
                    proof {
                        assert forall|k: Seq<char>| !key_of(d, id, k) by {
                            if key_of(d, id, k) {
                                assert(d.entities.contains_value(id) || d.literals.contains_value(id));
                            }
                        }
                    }
                },
            }
            proof {
                assert forall|k: Seq<char>| #[trigger] texts(out@).contains(k) <==> t0.contains(k) || exists|j: int| 0 <= j < i + 1 && key_of(d, picked(#[trigger] pairs@[j], subjects), k) by {
                    assert(texts(out@).contains(k) <==> t1.contains(k) || key_of(d, id, k));
                    if exists|j: int| 0 <= j < i + 1 && key_of(d, picked(#[trigger] pairs@[j], subjects), k) {
                        let j = choose|j: int| 0 <= j < i + 1 && key_of(d, picked(#[trigger] pairs@[j], subjects), k);
                        if j < i {
                            assert(key_of(d, picked(pairs@[j], subjects), k));
                        } else {
                            assert(key_of(d, id, k));
                        }
                    }
                    if key_of(d, id, k) {
                        assert(key_of(d, picked(pairs@[i as int], subjects), k));
                    }
                }
            }
            i = i + 1;
        }
        proof {
            assert forall|k: Seq<char>| #[trigger] texts(out@).contains(k) <==> t0.contains(k) || keys_where(d, test).contains(k) by {
                if exists|j: int| 0 <= j < pairs@.len() && key_of(d, picked(#[trigger] pairs@[j], subjects), k) {
                    let j = choose|j: int| 0 <= j < pairs@.len() && key_of(d, picked(#[trigger] pairs@[j], subjects), k);
                    let (s, o) = pairs@[j];
                    assert(pairs@.contains((s, o)));
                    assert(pairs_of_predicate(ts, pred).contains((s, o)));
                    assert(related(d, ts, s, iri@, o));
                    let id = picked(pairs@[j], subjects);
                    assert(key_of(d, id, k) && test(id));
                }
                if keys_where(d, test).contains(k) {
                    let id = choose|id: u32| #[trigger] key_of(d, id, k) && test(id);
                    let (s, o) = if subjects {
                        (id, choose|o: u32| #[trigger] related(d, ts, id, iri@, o))
                    } else {
                        (choose|s: u32| #[trigger] related(d, ts, s, iri@, id), id)
                    };
                    assert(related(d, ts, s, iri@, o));
                    assert(pairs_of_predicate(ts, pred).contains((s, o)));
                    let j = choose|j: int| 0 <= j < pairs@.len() && pairs@[j] == (s, o);
                    assert(key_of(d, picked(pairs@[j], subjects), k));
                }
            }
        }
    }

    /// The classes and properties that the default graph mentions.
    pub fn schema(&self) -> (r: Schema)
        requires
            self.wf(),
        ensures
            lists_texts(texts(r.classes@), classes_of(self@.dict, self.default_graph())),
            lists_texts(texts(r.properties@), properties_of(self@.dict, self.default_graph())),
    {
        let ghost d = self@.dict;
        let ghost ts = self.default_graph();
        let mut classes: Vec<String> = Vec::new();
        assert(texts(classes@) =~= Seq::<Seq<char>>::empty());
        self.collect_keys(&mut classes, RDF_TYPE, false);
        self.collect_keys(&mut classes, RDFS_SUBCLASS, true);
        self.collect_keys(&mut classes, RDFS_SUBCLASS, false);
        self.collect_keys(&mut classes, RDFS_DOMAIN, false);
        self.collect_keys(&mut classes, RDFS_RANGE, false);
        proof {
            assert forall|k: Seq<char>| #[trigger] classes_of(d, ts).contains(k) <==> texts(classes@).contains(k) by {
                if classes_of(d, ts).contains(k) {
                    let id = choose|id: u32| #[trigger] key_of(d, id, k) && is_class(d, ts, id);
                    assert(key_of(d, id, k));
                }
            }
        }
        let mut properties: Vec<String> = Vec::new();
        assert(texts(properties@) =~= Seq::<Seq<char>>::empty());
        let preds: Vec<u32> = self.store.predicates();
        let mut i: usize = 0;
        while i < preds.len()
            invariant
                self.wf(),
                d == self@.dict,
                i <= preds@.len(),
                crate::text::texts_ascend(texts(properties@)),
                forall|k: Seq<char>| #[trigger] texts(properties@).contains(k) <==> d.predicates.contains_key(k) && preds@.take(i as int).contains(d.predicates[k]),
            decreases preds.len() - i,
        {
            let ghost t1 = texts(properties@);
            let p: u32 = preds[i];
            let ghost a = preds@.take(i as int);
            let ghost b = preds@.take(i + 1);
            proof {
                self.dict.lemma_ids();
                assert(b =~= a.push(p));
            }
            match self.dict.predicate_to_string(p) {
                Some(s) => {
                    insert_text(&mut properties, s);
                    proof {
                        assert forall|k: Seq<char>| #[trigger] texts(properties@).contains(k) <==> d.predicates.contains_key(k) && b.contains(d.predicates[k]) by {
                            assert(t1.contains(k) <==> d.predicates.contains_key(k) && a.contains(d.predicates[k]));
                            if d.predicates.contains_key(k) {
                                lemma_push_has(a, p, d.predicates[k]);
                                if d.predicates[k] == p {
                                    assert(d.predicates[k] == d.predicates[s@]);
                                    assert(k == s@);
                                }
                            }
                        }
                    }
                },
                None => {
                    proof {
                        assert forall|k: Seq<char>| #[trigger] texts(properties@).contains(k) <==> d.predicates.contains_key(k) && b.contains(d.predicates[k]) by {
                            assert(t1.contains(k) <==> d.predicates.contains_key(k) && a.contains(d.predicates[k]));
                            if d.predicates.contains_key(k) {
                                lemma_push_has(a, p, d.predicates[k]);
                                assert(d.predicates.contains_value(d.predicates[k]));
                            }
                        }
                    }
                },
            }
            i = i + 1;
        }
        proof {
            assert(preds@.take(preds@.len() as int) =~= preds@);
            assert forall|k: Seq<char>| #[trigger] texts(properties@).contains(k) <==> used_property(d, ts, k) by {
                if d.predicates.contains_key(k) {
                    assert(all_predicates(ts).contains(d.predicates[k]) <==> preds@.contains(d.predicates[k]));
                }
            }
        }
        self.collect_keys(&mut properties, RDFS_SUBPROP, true);
        self.collect_keys(&mut properties, RDFS_DOMAIN, true);
        self.collect_keys(&mut properties, RDFS_RANGE, true);
        proof {
            assert forall|k: Seq<char>| #[trigger] properties_of(d, ts).contains(k) <==> texts(properties@).contains(k) by {
                if properties_of(d, ts).contains(k) && !used_property(d, ts, k) {
                    let id = choose|id: u32| #[trigger] key_of(d, id, k) && is_described(d, ts, id);
                    assert(key_of(d, id, k));
                }
            }
        }
        Schema { classes, properties }
    }
}

/// The chosen side of a pair.
spec fn picked(p: (u32, u32), first: bool) -> u32 {
    if first {
        p.0
    } else {
        p.1
    }
}

proof fn lemma_key_unique(dict: &crate::dict::Dictionary, id: u32, a: Seq<char>, b: Seq<char>)
    requires
        dict.wf(),
        key_of(dict@, id, a),
        key_of(dict@, id, b),
    ensures
        a == b,
{
    dict.lemma_ids();
}

proof fn lemma_push_has(s: Seq<u32>, o: u32, x: u32)
    ensures
        s.push(o).contains(x) <==> s.contains(x) || x == o,
{
    if s.push(o).contains(x) {
        let k = choose|k: int| 0 <= k < s.push(o).len() && s.push(o)[k] == x;
        if k < s.len() {
            assert(s[k] == x);
        }
    }
    if s.contains(x) {
        let k = choose|k: int| 0 <= k < s.len() && s[k] == x;
        assert(s.push(o)[k] == x);
    }
    assert(s.push(o)[s.len() as int] == o);
}

} // verus!
