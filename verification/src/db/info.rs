//! What a database says of itself, its settings, and its upkeep.

use super::lru::{place_of, LruCache};
use super::logs::{redo_views, RedoSpec};
use super::state::{dict_fits, encoded_in, grounded, lemma_encoded_sizes, DbSpec, Quad};
use super::{graph_ids, graphs_wf, quads_of, str_view, Database, DbStats, NamedGraph};
use crate::dict::{freed_grown, retained, with_entity, with_literal, with_predicate, DictSpec, Dictionary, MAX_LITERALS};
use crate::model::id::{entity_range, is_entity_id};
use crate::model::{EntityLiteralId, IdTriple, PredId, Term, Triple, INVALID_PRED_ID, LITERAL_FIRST_ID};
use crate::order::{ascending, lists, sort_dedup};
use crate::store::{all_objects, all_predicates, all_subjects, pairs_of_object, pairs_of_subject, spo_triple, TripleStore};
use crate::text::same;
use vstd::prelude::*;
use vstd::string::*;

verus! {

/// An entity with its outgoing edges as pairs of predicate and object, and its
/// incoming edges as pairs of predicate and subject.
#[derive(Debug)]
pub struct EntityEdges {
    pub id: EntityLiteralId,
    pub outgoing: Vec<(PredId, EntityLiteralId)>,
    pub incoming: Vec<(PredId, EntityLiteralId)>,
}

/// The entities that a search index covers: all subjects, and the objects that
/// are no literals.
pub open spec fn indexed(ts: Set<IdTriple>) -> Set<u32> {
    all_subjects(ts).union(all_objects(ts).filter(|o: u32| entity_range(o)))
}

/// Every entity with its edges, from which a search index is made.
pub fn vstree_entries(store: &TripleStore) -> (r: Vec<EntityEdges>)
    requires
        store.wf(),
    ensures
        lists(r@.map_values(|e: EntityEdges| e.id), indexed(store@)),
        forall|k: int| 0 <= k < r@.len() ==> lists((#[trigger] r@[k]).outgoing@, pairs_of_subject(store@, r@[k].id)) && lists(r@[k].incoming@, pairs_of_object(store@, r@[k].id)),
{
    let mut ids: Vec<EntityLiteralId> = store.subject_keys();
    let objects: Vec<EntityLiteralId> = store.object_keys();
    let ghost s0 = ids@;
    let mut i: usize = 0;
    while i < objects.len()
        invariant
            i <= objects@.len(),
            forall|x: u32| #[trigger] ids@.contains(x) <==> s0.contains(x) || (entity_range(x) && objects@.take(i as int).contains(x)),
        decreases objects.len() - i,
    {
        let ghost ids0 = ids@;
        let ghost t0 = objects@.take(i as int);
        let o: u32 = objects[i];
        if is_entity_id(o) {
            ids.push(o);
        }
        i = i + 1;
        proof {
            let t1 = objects@.take(i as int);
            assert(t1 =~= t0.push(o));
            assert forall|x: u32| #[trigger] ids@.contains(x) <==> s0.contains(x) || (entity_range(x) && t1.contains(x)) by {
                lemma_push_contains(ids0, o, x);
                lemma_push_contains(t0, o, x);
                assert(ids0.contains(x) <==> s0.contains(x) || (entity_range(x) && t0.contains(x)));
            }
        }
    }
    assert(objects@.take(objects@.len() as int) =~= objects@);
    let sorted: Vec<EntityLiteralId> = sort_dedup(&ids);
    let mut r: Vec<EntityEdges> = Vec::new();
    let mut k: usize = 0;
    while k < sorted.len()
        invariant
            store.wf(),
            k <= sorted@.len(),
            r@.len() == k,
            forall|j: int| 0 <= j < k ==> (#[trigger] r@[j]).id == sorted@[j] && lists(r@[j].outgoing@, pairs_of_subject(store@, r@[j].id)) && lists(r@[j].incoming@, pairs_of_object(store@, r@[j].id)),
        decreases sorted.len() - k,
    {
        let id: u32 = sorted[k];
        r.push(EntityEdges { id, outgoing: store.po_by_s(id), incoming: store.ps_by_o(id) });
        k = k + 1;
    }
    proof {
        assert(r@.map_values(|e: EntityEdges| e.id) =~= sorted@);
        assert forall|x: u32| #[trigger] indexed(store@).contains(x) <==> sorted@.contains(x) by {
            assert(sorted@.contains(x) <==> ids@.contains(x));
            assert(all_subjects(store@).contains(x) <==> s0.contains(x));
            assert(all_objects(store@).contains(x) <==> objects@.contains(x));
        }
    }
    r
}

/// The entities whose edges change with a triple: its subject, and its object unless
/// that is a literal.
pub open spec fn touched_by(t: IdTriple) -> Seq<u32> {
    if entity_range(t.obj) {
        seq![t.sub, t.obj]
    } else {
        seq![t.sub]
    }
}

/// The entities whose edges change with a triple, with their edges, from which a search
/// index is brought up to date.
pub fn vstree_updates(store: &TripleStore, t: IdTriple) -> (r: Vec<EntityEdges>)
    requires
        store.wf(),
    ensures
        r@.map_values(|e: EntityEdges| e.id) == touched_by(t),
        forall|k: int| 0 <= k < r@.len() ==> lists((#[trigger] r@[k]).outgoing@, pairs_of_subject(store@, r@[k].id)) && lists(r@[k].incoming@, pairs_of_object(store@, r@[k].id)),
{
    let mut r: Vec<EntityEdges> = Vec::new();
    r.push(EntityEdges { id: t.sub, outgoing: store.po_by_s(t.sub), incoming: store.ps_by_o(t.sub) });
    if is_entity_id(t.obj) {
        r.push(EntityEdges { id: t.obj, outgoing: store.po_by_s(t.obj), incoming: store.ps_by_o(t.obj) });
    }
    assert(r@.map_values(|e: EntityEdges| e.id) =~= touched_by(t));
    r
}

/// A search index that was brought up to date after an insertion covers what one made
/// anew would cover: all entities of before and those that the triple touches, and no
/// other entity has other edges than before.
pub proof fn law_index_update_is_rebuild(ts: Set<IdTriple>, t: IdTriple, e: u32)
    ensures
        indexed(ts.insert(t)).contains(e) <==> indexed(ts).contains(e) || touched_by(t).contains(e),
        entity_range(e) && !touched_by(t).contains(e) ==> {
            &&& pairs_of_subject(ts.insert(t), e) == pairs_of_subject(ts, e)
            &&& pairs_of_object(ts.insert(t), e) == pairs_of_object(ts, e)
        },
{
    let more = ts.insert(t);
    assert(t == spo_triple(t.sub, t.pred, t.obj));
    assert(touched_by(t)[0] == t.sub);
    if entity_range(t.obj) {
        assert(touched_by(t)[1] == t.obj);
    }
    assert(all_subjects(more).contains(e) <==> all_subjects(ts).contains(e) || e == t.sub) by {
        if all_subjects(more).contains(e) {
            let (p, o) = choose|p: u32, o: u32| more.contains(#[trigger] spo_triple(e, p, o));
            assert(ts.contains(spo_triple(e, p, o)) || spo_triple(e, p, o) == t);
        }
        if all_subjects(ts).contains(e) {
            let (p, o) = choose|p: u32, o: u32| ts.contains(#[trigger] spo_triple(e, p, o));
            assert(more.contains(spo_triple(e, p, o)));
        }
        assert(more.contains(spo_triple(t.sub, t.pred, t.obj)));
    }
    assert(all_objects(more).contains(e) <==> all_objects(ts).contains(e) || e == t.obj) by {
        if all_objects(more).contains(e) {
            let (a, p) = choose|a: u32, p: u32| more.contains(#[trigger] spo_triple(a, p, e));
            assert(ts.contains(spo_triple(a, p, e)) || spo_triple(a, p, e) == t);
        }
        if all_objects(ts).contains(e) {
            let (a, p) = choose|a: u32, p: u32| ts.contains(#[trigger] spo_triple(a, p, e));
            assert(more.contains(spo_triple(a, p, e)));
        }
        assert(more.contains(spo_triple(t.sub, t.pred, t.obj)));
    }
    if entity_range(e) && !touched_by(t).contains(e) {
        assert(e != t.sub && e != t.obj);
        assert(pairs_of_subject(more, e) =~= pairs_of_subject(ts, e));
        assert(pairs_of_object(more, e) =~= pairs_of_object(ts, e));
    }
}

proof fn lemma_push_contains(s: Seq<u32>, o: u32, x: u32)
    ensures
        s.push(o).contains(x) <==> s.contains(x) || x == o,
{
    if s.push(o).contains(x) {
        let k = choose|k: int| 0 <= k < s.push(o).len() && s.push(o)[k] == x;
        if k < s.len() {
            assert(s[k] == x);
        }
    }
    if s.contains(x) {
        let k = choose|k: int| 0 <= k < s.len() && s[k] == x;
        assert(s.push(o)[k] == x);
    }
    assert(s.push(o)[s.len() as int] == o);
}

/// The entity and literal ids that a graph uses.
pub open spec fn graph_terms(ts: Set<IdTriple>) -> Set<u32> {
    all_subjects(ts).union(all_objects(ts))
}

/// The entity and literal ids that the graphs use, with the names of the named
/// graphs, even of those that are empty.
pub open spec fn used_terms(quads: Set<Quad>, graphs: Set<u32>) -> Set<u32> {
    Set::new(|x: u32| graphs.contains(x) || exists|q: Quad| #[trigger] quads.contains(q) && (q.1.sub == x || q.1.obj == x))
}

/// The predicate ids that the graphs use.
pub open spec fn used_predicates(quads: Set<Quad>) -> Set<u32> {
    Set::new(|x: u32| exists|q: Quad| #[trigger] quads.contains(q) && q.1.pred == x)
}

/// The same ids, by graph.
spec fn listed_terms(default: Set<IdTriple>, named: Seq<NamedGraph>) -> Set<u32> {
    Set::new(
        |x: u32| graph_terms(default).contains(x) || exists|k: int| 0 <= k < named.len() && ((#[trigger] named[k]).id == x || graph_terms(named[k].store@).contains(x)),
    )
}

spec fn listed_predicates(default: Set<IdTriple>, named: Seq<NamedGraph>) -> Set<u32> {
    Set::new(|x: u32| all_predicates(default).contains(x) || exists|k: int| 0 <= k < named.len() && all_predicates((#[trigger] named[k]).store@).contains(x))
}

proof fn lemma_listed_used(default: Set<IdTriple>, named: Seq<NamedGraph>)
    ensures
        listed_terms(default, named) == used_terms(quads_of(default, named), graph_ids(named)),
        listed_predicates(default, named) == used_predicates(quads_of(default, named)),
{
    let quads = quads_of(default, named);
    let graphs = graph_ids(named);
    assert forall|x: u32| #[trigger] listed_terms(default, named).contains(x) <==> used_terms(quads, graphs).contains(x) by {
        if graph_terms(default).contains(x) {
            lemma_term_quad(default, x);
            let t = choose|t: IdTriple| default.contains(t) && (t.sub == x || t.obj == x);
            let q: Quad = (None::<u32>, t);
            assert(quads.contains(q));
        } else if listed_terms(default, named).contains(x) {
            let k = choose|k: int| 0 <= k < named.len() && ((#[trigger] named[k]).id == x || graph_terms(named[k].store@).contains(x));
            if named[k].id != x {
                lemma_term_quad(named[k].store@, x);
                let t = choose|t: IdTriple| named[k].store@.contains(t) && (t.sub == x || t.obj == x);
                let q: Quad = (Some(named[k].id), t);
                assert(quads.contains(q));
            }
        }
        if graphs.contains(x) {
            let k = choose|k: int| 0 <= k < named.len() && (#[trigger] named[k]).id == x;
            assert(named[k].id == x);
        }
        if exists|q: Quad| #[trigger] quads.contains(q) && (q.1.sub == x || q.1.obj == x) {
            let q = choose|q: Quad| #[trigger] quads.contains(q) && (q.1.sub == x || q.1.obj == x);
            let t = q.1;
            assert(t == spo_triple(t.sub, t.pred, t.obj));
            match q.0 {
                None => {
                    assert(default.contains(spo_triple(t.sub, t.pred, t.obj)));
                    assert(graph_terms(default).contains(x));
                },
                Some(g) => {
                    let k = choose|k: int| 0 <= k < named.len() && (#[trigger] named[k]).id == g && named[k].store@.contains(t);
                    assert(named[k].store@.contains(spo_triple(t.sub, t.pred, t.obj)));
                    assert(graph_terms(named[k].store@).contains(x));
                },
            }
        }
    }
    assert(listed_terms(default, named) =~= used_terms(quads, graphs));
    assert forall|x: u32| #[trigger] listed_predicates(default, named).contains(x) <==> used_predicates(quads).contains(x) by {
        if all_predicates(default).contains(x) {
            let (a, b) = choose|a: u32, b: u32| default.contains(#[trigger] spo_triple(a, x, b));
            let q: Quad = (None::<u32>, spo_triple(a, x, b));
            assert(quads.contains(q));
        } else if listed_predicates(default, named).contains(x) {
            let k = choose|k: int| 0 <= k < named.len() && all_predicates((#[trigger] named[k]).store@).contains(x);
            let (a, b) = choose|a: u32, b: u32| named[k].store@.contains(#[trigger] spo_triple(a, x, b));
            let q: Quad = (Some(named[k].id), spo_triple(a, x, b));
            assert(quads.contains(q));
        }
        if used_predicates(quads).contains(x) {
            let q = choose|q: Quad| #[trigger] quads.contains(q) && q.1.pred == x;
            let t = q.1;
            assert(t == spo_triple(t.sub, t.pred, t.obj));
            match q.0 {
                None => {
                    assert(default.contains(spo_triple(t.sub, t.pred, t.obj)));
                },
                Some(g) => {
                    let k = choose|k: int| 0 <= k < named.len() && (#[trigger] named[k]).id == g && named[k].store@.contains(t);
                    assert(named[k].store@.contains(spo_triple(t.sub, t.pred, t.obj)));
                },
            }
        }
    }
    assert(listed_predicates(default, named) =~= used_predicates(quads));
}

proof fn lemma_term_quad(ts: Set<IdTriple>, x: u32)
    requires
        graph_terms(ts).contains(x),
    ensures
        exists|t: IdTriple| ts.contains(t) && (t.sub == x || t.obj == x),
{
    if all_subjects(ts).contains(x) {
        let (p, o) = choose|p: u32, o: u32| ts.contains(#[trigger] spo_triple(x, p, o));
        assert(ts.contains(spo_triple(x, p, o)) && spo_triple(x, p, o).sub == x);
    } else {
        let (a, p) = choose|a: u32, p: u32| ts.contains(#[trigger] spo_triple(a, p, x));
        assert(ts.contains(spo_triple(a, p, x)) && spo_triple(a, p, x).obj == x);
    }
}

proof fn lemma_entity_more(d: DictSpec, key: Seq<char>)
    requires
        d.entities.dom().finite(),
    ensures
        with_entity(d, key).entities.dom().finite(),
        with_entity(d, key).entities.dom().len() == d.entities.dom().len() + (if d.entities.contains_key(key) { 0int } else { 1 }),
{
    assert(with_entity(d, key).entities.dom() =~= d.entities.dom().insert(key));
}

proof fn lemma_literal_more(d: DictSpec, key: Seq<char>)
    requires
        d.literals.dom().finite(),
    ensures
        with_literal(d, key).literals.dom().len() == d.literals.dom().len() + (if d.literals.contains_key(key) { 0int } else { 1 }),
{
    assert(with_literal(d, key).literals.dom() =~= d.literals.dom().insert(key));
}

proof fn lemma_predicate_more(d: DictSpec, key: Seq<char>)
    requires
        d.predicates.dom().finite(),
    ensures
        with_predicate(d, key).predicates.dom().len() == d.predicates.dom().len() + (if d.predicates.contains_key(key) { 0int } else { 1 }),
{
    assert(with_predicate(d, key).predicates.dom() =~= d.predicates.dom().insert(key));
}

fn append_ids(to: &mut Vec<u32>, from: Vec<u32>)
    ensures
        forall|x: u32| #[trigger] final(to)@.contains(x) <==> old(to)@.contains(x) || from@.contains(x),
{
    let mut i: usize = 0;
    while i < from.len()
        invariant
            i <= from@.len(),
            forall|x: u32| #[trigger] to@.contains(x) <==> old(to)@.contains(x) || from@.take(i as int).contains(x),
        decreases from.len() - i,
    {
        let ghost t0 = to@;
        let ghost f0 = from@.take(i as int);
        to.push(from[i]);
        i = i + 1;
        proof {
            let f1 = from@.take(i as int);
            assert(f1 =~= f0.push(from@[i - 1]));
            assert forall|x: u32| #[trigger] to@.contains(x) <==> old(to)@.contains(x) || f1.contains(x) by {
                lemma_push_contains(t0, from@[i - 1], x);
                lemma_push_contains(f0, from@[i - 1], x);
                assert(t0.contains(x) <==> old(to)@.contains(x) || f0.contains(x));
            }
        }
    }
    assert(from@.take(from@.len() as int) =~= from@);
}

impl Database {
    /// The name.
    pub fn name(&self) -> (r: &str)
        ensures
            r@ == self@.name,
    {
        self.name.as_str()
    }

    /// Number of triples in the default graph.
    pub fn triple_num(&self) -> (n: u64)
        requires
            self.wf(),
        ensures
            n == self.default_graph().len(),
    {
        self.store.triple_count()
    }

    /// Number of entities.
    pub fn entity_num(&self) -> (n: usize)
        requires
            self.wf(),
        ensures
            n == self@.dict.entities.dom().len(),
    {
        self.dict.entity_num()
    }

    /// Number of literals.
    pub fn literal_num(&self) -> (n: usize)
        requires
            self.wf(),
        ensures
            n == self@.dict.literals.dom().len(),
    {
        self.dict.literal_num()
    }

    /// Number of predicates.
    pub fn predicate_num(&self) -> (n: usize)
        requires
            self.wf(),
        ensures
            n == self@.dict.predicates.dom().len(),
    {
        self.dict.predicate_num()
    }

    /// Whether the terms of a triple, and the name of its graph, find ids.
    pub fn fits(&self, t: &Triple, graph: Option<&str>) -> (b: bool)
        requires
            self.wf(),
        ensures
            b == dict_fits(encoded_in(self@.dict, *t, str_view(graph))),
    {
        if self.has_room(1) {
            proof {
                self.dict.lemma_ok();
                lemma_encoded_sizes(self@.dict, *t, str_view(graph));
            }
            return true;
        }
        let s: String = t.subject.dict_key();
        let p: String = t.predicate.dict_key();
        let o: String = t.object.dict_key();
        let literal: bool = t.object.is_literal();
        let ghost d0 = self@.dict;
        let mut entities: u64 = self.dict.entity_num() as u64;
        proof {
            self.dict.lemma_ok();
            lemma_encoded_sizes(d0, *t, str_view(graph));
        }
        let ghost mut d = d0;
        let mut named: Option<String> = None;
        match graph {
            Some(g) => {
                let k: String = Term::iri(g).dict_key();
                proof {
                    lemma_entity_more(d, k@);
                    d = with_entity(d, k@);
                }
                if self.dict.entity_id(k.as_str()).is_none() {
                    entities = entities + 1;
                }
                named = Some(k);
            },
            None => {},
        }
        let known: bool = match &named {
            Some(k) => same(k.as_str(), s.as_str()),
            None => false,
        };
        proof {
            lemma_entity_more(d, s@);
        }
        if !known && self.dict.entity_id(s.as_str()).is_none() {
            entities = entities + 1;
        }
        let ghost d1 = with_entity(d, s@);
        let ghost d2 = with_predicate(d1, p@);
        let predicates: u64 = self.dict.predicate_num() as u64 + if self.dict.predicate_id(p.as_str()).is_none() { 1 } else { 0 };
        let mut literals: u64 = self.dict.literal_num() as u64;
        proof {
            lemma_predicate_more(d1, p@);
            lemma_entity_more(d2, o@);
            lemma_literal_more(d2, o@);
        }
        if literal {
            if self.dict.term_id(&t.object).is_none() {
                literals = literals + 1;
            }
        } else {
            let known: bool = same(s.as_str(), o.as_str()) || match &named {
                Some(k) => same(k.as_str(), o.as_str()),
                None => false,
            };
            if !known && self.dict.entity_id(o.as_str()).is_none() {
                entities = entities + 1;
            }
        }
        entities <= LITERAL_FIRST_ID as u64 && literals <= MAX_LITERALS as u64 && predicates <= INVALID_PRED_ID as u64
    }

    /// Whether `n` more triples find ids for all their terms, if all of them are new.
    pub fn has_room(&self, n: usize) -> (b: bool)
        requires
            self.wf(),
        ensures
            b == super::state::room_for(self@.dict, n as nat),
    {
        let more: u128 = n as u128;
        self.entity_num() as u128 + 3 * more <= LITERAL_FIRST_ID as u128 && self.literal_num() as u128 + more <= MAX_LITERALS as u128 && self.predicate_num() as u128 + more <= INVALID_PRED_ID as u128
    }

    /// The dictionary.
    pub fn dict(&self) -> (r: &Dictionary)
        requires
            self.wf(),
        ensures
            r.wf(),
            r@ == self@.dict,
    {
        &self.dict
    }

    /// The default graph.
    pub fn store(&self) -> (r: &TripleStore)
        requires
            self.wf(),
        ensures
            r.wf(),
            r@ == self.default_graph(),
    {
        &self.store
    }

    /// The named graphs, by ascending id.
    pub fn named_graphs(&self) -> (r: &Vec<NamedGraph>)
        requires
            self.wf(),
        ensures
            graphs_wf(r@),
            r@ == self.graphs(),
            self@.quads == quads_of(self.default_graph(), r@),
            self@.graphs == graph_ids(r@),
            self@.graphs.len() == r@.len(),
    {
        proof {
            self.lemma_graphs();
        }
        &self.named
    }

    /// Counts and status.
    pub fn stats(&self) -> (r: DbStats)
        requires
            self.wf(),
        ensures
            r.name@ == self@.name,
            r.triple_num == self.default_graph().len(),
            r.entity_num == self@.dict.entities.dom().len(),
            r.literal_num == self@.dict.literals.dom().len(),
            r.predicate_num == self@.dict.predicates.dom().len(),
            r.index_valid == self@.index_valid,
            r.in_transaction == (self@.txn is Some),
    {
        DbStats {
            name: self.name.clone(),
            triple_num: self.store.triple_count(),
            entity_num: self.dict.entity_num(),
            literal_num: self.dict.literal_num(),
            predicate_num: self.dict.predicate_num(),
            index_valid: self.index_valid,
            in_transaction: self.txn.is_some(),
        }
    }

    /// Give the edges that a new search index is to be made from, and take the
    /// index as valid. The new index is in memory.
    pub fn rebuild_index(&mut self) -> (r: Vec<EntityEdges>)
        requires
            old(self).wf(),
        ensures
            final(self).wf(),
            final(self)@ == (DbSpec { index_valid: true, disk_index: false, ..old(self)@ }),
            lists(r@.map_values(|e: EntityEdges| e.id), indexed(old(self).default_graph())),
            forall|k: int| 0 <= k < r@.len() ==> lists((#[trigger] r@[k]).outgoing@, pairs_of_subject(old(self).default_graph(), r@[k].id)) && lists(r@[k].incoming@, pairs_of_object(old(self).default_graph(), r@[k].id)),
    {
        let r: Vec<EntityEdges> = vstree_entries(&self.store);
        self.index_valid = true;
        self.disk_index = false;
        assert(self@ =~= (DbSpec { index_valid: true, disk_index: false, ..old(self)@ }));
        r
    }

    /// Note every executed update request for the log at `path`.
    pub fn enable_update_log(&mut self, path: &str)
        requires
            old(self).wf(),
        ensures
            final(self).wf(),
            final(self)@ == (DbSpec { update_log: Some(path@), ..old(self)@ }),
    {
        self.update_log = Some(path.to_owned());
        assert(self@ =~= (DbSpec { update_log: Some(path@), ..old(self)@ }));
    }

    /// Stop noting update requests.
    pub fn disable_update_log(&mut self)
        requires
            old(self).wf(),
        ensures
            final(self).wf(),
            final(self)@ == (DbSpec { update_log: None, ..old(self)@ }),
    {
        self.update_log = None;
        assert(self@ =~= (DbSpec { update_log: None, ..old(self)@ }));
    }

    /// Are update requests noted?
    pub fn update_log_enabled(&self) -> (b: bool)
        ensures
            b == (self@.update_log is Some),
    {
        self.update_log.is_some()
    }

    /// Where update requests are noted.
    pub fn update_log_path(&self) -> (r: Option<&str>)
        ensures
            str_view(r) == self@.update_log,
    {
        match &self.update_log {
            Some(p) => Some(p.as_str()),
            None => None,
        }
    }

    /// Where changes are noted.
    pub fn redo_log_path(&self) -> (r: Option<&str>)
        ensures
            str_view(r) == self@.redo_log,
    {
        match &self.redo_log {
            Some(p) => Some(p.as_str()),
            None => None,
        }
    }

    /// Note every committed change for the log at `path`.
    pub fn enable_redo_log(&mut self, path: &str)
        requires
            old(self).wf(),
        ensures
            final(self).wf(),
            final(self)@ == (DbSpec { redo_log: Some(path@), ..old(self)@ }),
    {
        self.redo_log = Some(path.to_owned());
        assert(self@ =~= (DbSpec { redo_log: Some(path@), ..old(self)@ }));
    }

    /// Stop noting changes. Those that wait for a commit are dropped.
    pub fn disable_redo_log(&mut self)
        requires
            old(self).wf(),
        ensures
            final(self).wf(),
            final(self)@ == (DbSpec { redo_log: None, redo_pending: Seq::empty(), ..old(self)@ }),
    {
        self.redo_log = None;
        self.redo_pending = Vec::new();
        assert(redo_views(self.redo_pending@) =~= Seq::<RedoSpec>::empty());
        assert(self@ =~= (DbSpec { redo_log: None, redo_pending: Seq::empty(), ..old(self)@ }));
    }

    /// Are changes noted?
    pub fn redo_log_enabled(&self) -> (b: bool)
        ensures
            b == (self@.redo_log is Some),
    {
        self.redo_log.is_some()
    }

    /// Take the bytes that are to be appended to the update log.
    pub fn take_update_out(&mut self) -> (r: Vec<u8>)
        requires
            old(self).wf(),
        ensures
            final(self).wf(),
            r@ == old(self)@.update_out,
            final(self)@ == (DbSpec { update_out: Seq::empty(), ..old(self)@ }),
    {
        let mut r: Vec<u8> = Vec::new();
        r.append(&mut self.update_out);
        assert(r@ =~= old(self)@.update_out);
        assert(self@ =~= (DbSpec { update_out: Seq::empty(), ..old(self)@ }));
        r
    }

    /// Take the bytes that are to be appended to the redo log.
    pub fn take_redo_out(&mut self) -> (r: Vec<u8>)
        requires
            old(self).wf(),
        ensures
            final(self).wf(),
            r@ == old(self)@.redo_out,
            final(self)@ == (DbSpec { redo_out: Seq::empty(), ..old(self)@ }),
    {
        let mut r: Vec<u8> = Vec::new();
        r.append(&mut self.redo_out);
        assert(r@ =~= old(self)@.redo_out);
        assert(self@ =~= (DbSpec { redo_out: Seq::empty(), ..old(self)@ }));
        r
    }

    /// Make the result cache anew, with another capacity; zero switches it off.
    pub fn set_query_cache_capacity(&mut self, cap: usize)
        requires
            old(self).wf(),
        ensures
            final(self).wf(),
            final(self)@ == (DbSpec { cache: Seq::empty(), cache_cap: cap as nat, ..old(self)@ }),
    {
        self.query_cache = LruCache::new(cap);
        assert(self@ =~= (DbSpec { cache: Seq::empty(), cache_cap: cap as nat, ..old(self)@ }));
    }

    /// Number of results in the cache.
    pub fn query_cache_len(&self) -> (n: usize)
        ensures
            n == self@.cache.len(),
    {
        self.query_cache.len()
    }

    /// Is a result for this query in the cache?
    pub fn query_cache_contains(&self, sparql: &str) -> (b: bool)
        requires
            self.wf(),
        ensures
            b == (place_of(self@.cache, sparql@) is Some),
    {
        self.query_cache.contains(sparql)
    }

    /// Free the ids of all terms that no graph uses and that name no graph. Gives
    /// the number of ids freed. The graphs stay as they are.
    pub fn reclaim_unused(&mut self) -> (freed: u64)
        requires
            old(self).wf(),
        ensures
            final(self).wf(),
            final(self)@ == (DbSpec { dict: final(self)@.dict, ..old(self)@ }),
            reclaimed(old(self)@.dict, final(self)@.dict, used_terms(old(self)@.quads, old(self)@.graphs), used_predicates(old(self)@.quads)),
            freed == (old(self)@.dict.entities.dom().len() - final(self)@.dict.entities.dom().len()) + (old(self)@.dict.literals.dom().len() - final(self)@.dict.literals.dom().len()) + (old(self)@.dict.predicates.dom().len() - final(self)@.dict.predicates.dom().len()),
    {
        let mut terms: Vec<u32> = self.store.subject_keys();
        let objects: Vec<u32> = self.store.object_keys();
        let ghost st = self.store@;
        let ghost named = self.named@;
        assert(forall|x: u32| #[trigger] all_subjects(st).contains(x) <==> terms@.contains(x));
        assert(forall|x: u32| #[trigger] all_objects(st).contains(x) <==> objects@.contains(x));
        append_ids(&mut terms, objects);
        let mut preds: Vec<u32> = self.store.predicates();
        let mut i: usize = 0;
        proof {
            assert forall|x: u32| #[trigger] terms@.contains(x) <==> listed_terms(st, named.take(0)).contains(x) by {
                assert(graph_terms(st).contains(x) <==> all_subjects(st).contains(x) || all_objects(st).contains(x));
            }
            assert forall|x: u32| #[trigger] preds@.contains(x) <==> listed_predicates(st, named.take(0)).contains(x) by {
                assert(all_predicates(st).contains(x) <==> preds@.contains(x));
            }
        }
        while i < self.named.len()
            invariant
                self.wf(),
                *self == *old(self),
                st == self.store@,
                named == self.named@,
                i <= named.len(),
                forall|x: u32| #[trigger] terms@.contains(x) <==> listed_terms(st, named.take(i as int)).contains(x),
                forall|x: u32| #[trigger] preds@.contains(x) <==> listed_predicates(st, named.take(i as int)).contains(x),
            decreases self.named.len() - i,
        {
            assert(named[i as int].store.wf());
            let ghost t0 = terms@;
            let ghost p0 = preds@;
            let ghost g = named[i as int].store@;
            let id: u32 = self.named[i].id;
            let mut subjects: Vec<u32> = self.named[i].store.subject_keys();
            let ghost s0 = subjects@;
            subjects.push(id);
            let ghost s1 = subjects@;
            let objects: Vec<u32> = self.named[i].store.object_keys();
            let predicates: Vec<u32> = self.named[i].store.predicates();
            let ghost o0 = objects@;
            let ghost q0 = predicates@;
            append_ids(&mut terms, subjects);
            append_ids(&mut terms, objects);
            append_ids(&mut preds, predicates);
            proof {
                let a = named.take(i as int);
                let b = named.take(i + 1);
                assert forall|x: u32| #[trigger] terms@.contains(x) <==> listed_terms(st, b).contains(x) by {
                    lemma_used_step(st, named, i as int, x);
                    lemma_push_contains(s0, id, x);
                    assert(all_subjects(g).contains(x) <==> s0.contains(x));
                    assert(all_objects(g).contains(x) <==> o0.contains(x));
                    assert(t0.contains(x) <==> listed_terms(st, a).contains(x));
                }
                assert forall|x: u32| #[trigger] preds@.contains(x) <==> listed_predicates(st, b).contains(x) by {
                    lemma_used_step(st, named, i as int, x);
                    assert(all_predicates(g).contains(x) <==> q0.contains(x));
                    assert(p0.contains(x) <==> listed_predicates(st, a).contains(x));
                }
            }
            i = i + 1;
        }
        let ts: Vec<u32> = sort_dedup(&terms);
        let ps: Vec<u32> = sort_dedup(&preds);
        assert(named.take(named.len() as int) =~= named);
        let freed: u64 = self.dict.reclaim_unused(&ts, &ps);
        proof {
            let tset = listed_terms(st, named);
            let pset = listed_predicates(st, named);
            lemma_listed_used(st, named);
            let d0 = old(self)@.dict;
            let d1 = self@.dict;
            assert forall|x: u32| #[trigger] ts@.contains(x) <==> tset.contains(x) by {
                assert(terms@.contains(x) <==> tset.contains(x));
            }
            assert forall|x: u32| #[trigger] ps@.contains(x) <==> pset.contains(x) by {
                assert(preds@.contains(x) <==> pset.contains(x));
            }
            assert(self@ =~= (DbSpec { dict: d1, ..old(self)@ }));
            lemma_space_reclaimed(d0.entities, d1.entities, d0.freed_entities, d1.freed_entities, 0, ts@, tset);
            lemma_space_reclaimed(d0.literals, d1.literals, d0.freed_literals, d1.freed_literals, crate::model::LITERAL_FIRST_ID as int, ts@, tset);
            lemma_space_reclaimed(d0.predicates, d1.predicates, d0.freed_predicates, d1.freed_predicates, 0, ps@, pset);
        }
        freed
    }
}

proof fn lemma_used_step(st: Set<IdTriple>, named: Seq<NamedGraph>, i: int, x: u32)
    requires
        0 <= i < named.len(),
    ensures
        listed_terms(st, named.take(i + 1)).contains(x) <==> listed_terms(st, named.take(i)).contains(x) || named[i].id == x || graph_terms(named[i].store@).contains(x),
        listed_predicates(st, named.take(i + 1)).contains(x) <==> listed_predicates(st, named.take(i)).contains(x) || all_predicates(named[i].store@).contains(x),
{
    let a = named.take(i);
    let b = named.take(i + 1);
    assert(b[i] == named[i]);
    assert forall|k: int| 0 <= k < a.len() implies #[trigger] a[k] == b[k] by {
    }
    if listed_terms(st, b).contains(x) && !graph_terms(st).contains(x) {
        let k = choose|k: int| 0 <= k < b.len() && ((#[trigger] b[k]).id == x || graph_terms(b[k].store@).contains(x));
        if k < i {
            assert(a[k] == b[k]);
        }
    }
    if listed_predicates(st, b).contains(x) && !all_predicates(st).contains(x) {
        let k = choose|k: int| 0 <= k < b.len() && all_predicates((#[trigger] b[k]).store@).contains(x);
        if k < i {
            assert(a[k] == b[k]);
        }
    }
}

proof fn lemma_space_reclaimed(m0: Map<Seq<char>, u32>, m1: Map<Seq<char>, u32>, f0: Seq<u32>, f1: Seq<u32>, first: int, used: Seq<u32>, set: Set<u32>)
    requires
        retained(m0, m1, used),
        freed_grown(m0, used, first, f0, f1),
        forall|x: u32| #[trigger] used.contains(x) <==> set.contains(x),
    ensures
        space_reclaimed(m0, m1, f0, f1, first, set),
{
}

/// What reclaiming does to one space: the keys whose id is used are left, with
/// their ids, and the indexes of the others wait in ascending order behind those
/// that waited before. Ids are indexes counted from `first`.
pub open spec fn space_reclaimed(m0: Map<Seq<char>, u32>, m1: Map<Seq<char>, u32>, f0: Seq<u32>, f1: Seq<u32>, first: int, used: Set<u32>) -> bool {
    let new = f1.skip(f0.len() as int);
    &&& forall|s: Seq<char>| #[trigger] m1.contains_key(s) <==> m0.contains_key(s) && used.contains(m0[s])
    &&& forall|s: Seq<char>| #[trigger] m1.contains_key(s) ==> m1[s] == m0[s]
    &&& f1.take(f0.len() as int) == f0
    &&& ascending(new)
    &&& forall|j: u32| #[trigger] new.contains(j) <==> m0.contains_value((j + first) as u32) && j + first <= u32::MAX && !used.contains((j + first) as u32)
}

/// What reclaiming does to a dictionary.
pub open spec fn reclaimed(before: DictSpec, after: DictSpec, terms: Set<u32>, preds: Set<u32>) -> bool {
    &&& space_reclaimed(before.entities, after.entities, before.freed_entities, after.freed_entities, 0, terms)
    &&& space_reclaimed(before.literals, after.literals, before.freed_literals, after.freed_literals, crate::model::LITERAL_FIRST_ID as int, terms)
    &&& space_reclaimed(before.predicates, after.predicates, before.freed_predicates, after.freed_predicates, 0, preds)
}

/// Reclaiming never takes the id of a term that a graph uses: every id in the
/// graphs belongs to the key that it belonged to.
pub proof fn law_reclaim_keeps_graphs(before: DictSpec, after: DictSpec, quads: Set<Quad>, graphs: Set<u32>)
    requires
        reclaimed(before, after, used_terms(quads, graphs), used_predicates(quads)),
        grounded(before, quads),
        forall|q: Quad| #[trigger] quads.contains(q) ==> (q.0 matches Some(g) ==> graphs.contains(g)),
    ensures
        grounded(after, quads),
        forall|s: Seq<char>| #[trigger] after.entities.contains_key(s) ==> before.entities.contains_key(s) && after.entities[s] == before.entities[s],
        forall|s: Seq<char>| #[trigger] after.literals.contains_key(s) ==> before.literals.contains_key(s) && after.literals[s] == before.literals[s],
        forall|s: Seq<char>| #[trigger] after.predicates.contains_key(s) ==> before.predicates.contains_key(s) && after.predicates[s] == before.predicates[s],
{
    let terms = used_terms(quads, graphs);
    let preds = used_predicates(quads);
    assert forall|q: Quad| #[trigger] quads.contains(q) implies ({
        &&& q.0 matches Some(g) ==> after.entities.contains_value(g)
        &&& after.entities.contains_value(q.1.sub)
        &&& after.predicates.contains_value(q.1.pred)
        &&& after.entities.contains_value(q.1.obj) || after.literals.contains_value(q.1.obj)
    }) by {
        let t = q.1;
        match q.0 {
            None => {},
            Some(g) => {
                assert(terms.contains(g));
                lemma_value_kept(before.entities, after.entities, g, terms);
            },
        }
        assert(terms.contains(t.sub) && terms.contains(t.obj) && preds.contains(t.pred));
        lemma_value_kept(before.entities, after.entities, t.sub, terms);
        lemma_value_kept(before.predicates, after.predicates, t.pred, preds);
        if before.entities.contains_value(t.obj) {
            lemma_value_kept(before.entities, after.entities, t.obj, terms);
        } else {
            lemma_value_kept(before.literals, after.literals, t.obj, terms);
        }
    }
}

proof fn lemma_value_kept(m0: Map<Seq<char>, u32>, m1: Map<Seq<char>, u32>, v: u32, used: Set<u32>)
    requires
        forall|s: Seq<char>| #[trigger] m1.contains_key(s) <==> m0.contains_key(s) && used.contains(m0[s]),
        forall|s: Seq<char>| #[trigger] m1.contains_key(s) ==> m1[s] == m0[s],
        m0.contains_value(v),
        used.contains(v),
    ensures
        m1.contains_value(v),
{
    let s = choose|s: Seq<char>| #[trigger] m0.contains_key(s) && m0[s] == v;
    assert(m0.contains_key(s) && m0[s] == v);
    assert(m1.contains_key(s));
    assert(m1[s] == v);
}

} // verus!
