//! A database as a mathematical value, and what each change does to it.

use super::logs::{redo_bytes, redo_bytes_all, RedoSpec};
use super::lru::CacheSpec;
use super::rules::RuleSpec;
use crate::dict::{dict_ok, freed_after, id_for, one_to_one, space_ok, with_entity, with_literal, with_predicate, with_term, DictSpec, Dictionary, MAX_LITERALS};
use crate::model::term::{term_key, triple_text, TermSpec};
use crate::model::{IdTriple, Triple, INVALID_PRED_ID, LITERAL_FIRST_ID};
use vstd::prelude::*;

verus! {

/// A triple in a graph: the default graph, or the one named by an entity id.
pub type Quad = (Option<u32>, IdTriple);

/// How to undo one change.
#[derive(Debug, Clone, Copy)]
pub enum UndoOp {
    /// Put the triple back.
    Add(Option<u32>, IdTriple),
    /// Take the triple out.
    Del(Option<u32>, IdTriple),
}

/// The quads after undoing one change.
pub open spec fn undone(op: UndoOp, quads: Set<Quad>) -> Set<Quad> {
    match op {
        UndoOp::Add(g, t) => quads.insert((g, t)),
        UndoOp::Del(g, t) => quads.remove((g, t)),
    }
}

/// The quads after undoing a log of changes, the last change first.
pub open spec fn undone_all(log: Seq<UndoOp>, quads: Set<Quad>) -> Set<Quad>
    decreases log.len(),
{
    if log.len() == 0 {
        quads
    } else {
        undone_all(log.drop_last(), undone(log.last(), quads))
    }
}

/// A database as a mathematical value.
#[verifier::ext_equal]
pub ghost struct DbSpec {
    pub name: Seq<char>,
    pub dict: DictSpec,
    pub quads: Set<Quad>,
    /// The ids of the named graphs, the empty ones too.
    pub graphs: Set<u32>,
    /// The search index matches the default graph.
    pub index_valid: bool,
    /// The search index lives on disk and cannot be kept current.
    pub disk_index: bool,
    /// The quads at the start of the open transaction.
    pub txn: Option<Set<Quad>>,
    /// The named graphs that lost a triple in the open transaction.
    pub txn_graphs: Set<u32>,
    pub cache: CacheSpec,
    pub cache_cap: nat,
    pub update_log: Option<Seq<char>>,
    /// The bytes for the update log that the host has not taken yet.
    pub update_out: Seq<u8>,
    pub redo_log: Option<Seq<char>>,
    /// Changes of the open transaction that are not in the redo log yet.
    pub redo_pending: Seq<RedoSpec>,
    /// The bytes for the redo log that the host has not taken yet.
    pub redo_out: Seq<u8>,
    /// The rules that users defined.
    pub rules: Seq<RuleSpec>,
    /// The names of the functions that users registered.
    pub functions: Seq<Seq<char>>,
}

/// The named graphs that a log of changes puts a triple back into.
pub open spec fn refilled(log: Seq<UndoOp>) -> Set<u32> {
    Set::new(|g: u32| exists|k: int| 0 <= k < log.len() && ((#[trigger] log[k]) matches UndoOp::Add(Some(h), t) && h == g))
}

/// The ids of some graphs with that of one more, if it is a named one.
pub open spec fn with_graph(graphs: Set<u32>, g: Option<u32>) -> Set<u32> {
    match g {
        Some(id) => graphs.insert(id),
        None => graphs,
    }
}

/// One more change in the log.
pub proof fn lemma_refilled(log: Seq<UndoOp>, op: UndoOp)
    ensures
        refilled(log.push(op)) == (match op {
            UndoOp::Add(g, t) => with_graph(refilled(log), g),
            UndoOp::Del(g, t) => refilled(log),
        }),
{
    let more = log.push(op);
    let b = match op {
        UndoOp::Add(g, t) => with_graph(refilled(log), g),
        UndoOp::Del(g, t) => refilled(log),
    };
    assert forall|g: u32| #[trigger] refilled(more).contains(g) <==> b.contains(g) by {
        if refilled(more).contains(g) {
            let k = choose|k: int| 0 <= k < more.len() && ((#[trigger] more[k]) matches UndoOp::Add(Some(h), t) && h == g);
            if k < log.len() {
                assert(log[k] == more[k]);
            }
        }
        if refilled(log).contains(g) {
            let k = choose|k: int| 0 <= k < log.len() && ((#[trigger] log[k]) matches UndoOp::Add(Some(h), t) && h == g);
            assert(more[k] == log[k]);
        }
        assert(more[log.len() as int] == op);
    }
    assert(refilled(more) =~= b);
}

/// The first change of a log.
pub proof fn lemma_refilled_front(op: UndoOp, log: Seq<UndoOp>)
    ensures
        refilled(seq![op] + log) == (match op {
            UndoOp::Add(g, t) => with_graph(refilled(log), g),
            UndoOp::Del(g, t) => refilled(log),
        }),
{
    let more = seq![op] + log;
    let b = match op {
        UndoOp::Add(g, t) => with_graph(refilled(log), g),
        UndoOp::Del(g, t) => refilled(log),
    };
    assert forall|g: u32| #[trigger] refilled(more).contains(g) <==> b.contains(g) by {
        if refilled(more).contains(g) {
            let k = choose|k: int| 0 <= k < more.len() && ((#[trigger] more[k]) matches UndoOp::Add(Some(h), t) && h == g);
            if k > 0 {
                assert(log[k - 1] == more[k]);
            }
        }
        if refilled(log).contains(g) {
            let k = choose|k: int| 0 <= k < log.len() && ((#[trigger] log[k]) matches UndoOp::Add(Some(h), t) && h == g);
            assert(more[k + 1] == log[k]);
        }
        assert(more[0] == op);
    }
    assert(refilled(more) =~= b);
}

/// The effect of a change on the redo log: inside a transaction it waits for the
/// commit, else it is written at once.
pub open spec fn noted(db: DbSpec, rec: RedoSpec) -> DbSpec {
    if db.redo_log is None {
        db
    } else if db.txn is Some {
        DbSpec { redo_pending: db.redo_pending.push(rec), ..db }
    } else {
        DbSpec { redo_pending: Seq::empty(), redo_out: db.redo_out + redo_bytes_all(db.redo_pending.push(rec)), ..db }
    }
}

/// The effect of some changes on the redo log.
pub open spec fn noted_all(db: DbSpec, recs: Seq<RedoSpec>) -> DbSpec {
    if db.redo_log is None || recs.len() == 0 {
        db
    } else if db.txn is Some {
        DbSpec { redo_pending: db.redo_pending + recs, ..db }
    } else {
        DbSpec { redo_pending: Seq::empty(), redo_out: db.redo_out + redo_bytes_all(db.redo_pending + recs), ..db }
    }
}

pub proof fn lemma_bytes_join(a: Seq<RedoSpec>, b: Seq<RedoSpec>)
    ensures
        redo_bytes_all(a + b) == redo_bytes_all(a) + redo_bytes_all(b),
    decreases b.len(),
{
    if b.len() == 0 {
        assert(a + b =~= a);
        assert(redo_bytes_all(a) + redo_bytes_all(b) =~= redo_bytes_all(a));
    } else {
        assert((a + b).drop_last() =~= a + b.drop_last());
        lemma_bytes_join(a, b.drop_last());
        assert(redo_bytes_all(a + b) =~= redo_bytes_all(a) + redo_bytes_all(b));
    }
}

/// One more change after some others.
pub proof fn lemma_noted_push(db: DbSpec, recs: Seq<RedoSpec>, rec: RedoSpec)
    ensures
        noted_all(db, recs.push(rec)) == noted(noted_all(db, recs), rec),
{
    let a = noted_all(db, recs.push(rec));
    let b = noted(noted_all(db, recs), rec);
    if db.redo_log is Some {
        if recs.len() == 0 {
            assert(db.redo_pending + recs.push(rec) =~= db.redo_pending.push(rec));
        } else if db.txn is Some {
            assert(db.redo_pending + recs.push(rec) =~= (db.redo_pending + recs).push(rec));
        } else {
            assert(db.redo_pending + recs.push(rec) =~= (db.redo_pending + recs) + seq![rec]);
            assert(Seq::<RedoSpec>::empty().push(rec) =~= seq![rec]);
            lemma_bytes_join(db.redo_pending + recs, seq![rec]);
            assert(a.redo_out =~= b.redo_out);
        }
    }
    assert(a =~= b);
}

/// The key with an id.
pub open spec fn key_with(m: Map<Seq<char>, u32>, id: u32) -> Seq<char> {
    choose|s: Seq<char>| #[trigger] m.contains_key(s) && m[s] == id
}

/// The key of an entity or a literal.
pub open spec fn name_of(d: DictSpec, id: u32) -> Option<Seq<char>> {
    if d.entities.contains_value(id) {
        Some(key_with(d.entities, id))
    } else if d.literals.contains_value(id) {
        Some(key_with(d.literals, id))
    } else {
        None
    }
}

/// The key of a predicate.
pub open spec fn predicate_name(d: DictSpec, id: u32) -> Option<Seq<char>> {
    if d.predicates.contains_value(id) {
        Some(key_with(d.predicates, id))
    } else {
        None
    }
}

/// Without the angle brackets.
pub open spec fn stripped(s: Seq<char>) -> Seq<char> {
    if s.len() >= 2 && s[0] == '<' && s[s.len() - 1] == '>' {
        s.subrange(1, s.len() - 1)
    } else {
        s
    }
}

/// The redo record of a quad: its ids by their keys. A quad with an id that belongs to
/// no key has none.
pub open spec fn quad_record(d: DictSpec, op: char, q: Quad) -> Option<RedoSpec> {
    match (name_of(d, q.1.sub), predicate_name(d, q.1.pred), name_of(d, q.1.obj)) {
        (Some(s), Some(p), Some(o)) => Some(
            RedoSpec {
                op,
                graph: (match q.0 {
                    None => None,
                    Some(g) => match name_of(d, g) {
                        Some(k) => Some(stripped(k)),
                        None => None,
                    },
                }),
                triple: s + " "@ + p + " "@ + o + " ."@,
            },
        ),
        _ => None,
    }
}

/// The redo records of some quads.
pub open spec fn quad_records(d: DictSpec, op: char, qs: Seq<Quad>) -> Seq<RedoSpec>
    decreases qs.len(),
{
    if qs.len() == 0 {
        Seq::empty()
    } else {
        match quad_record(d, op, qs.last()) {
            Some(r) => quad_records(d, op, qs.drop_last()).push(r),
            None => quad_records(d, op, qs.drop_last()),
        }
    }
}

/// The key with an id is the only one.
pub proof fn lemma_key_with(m: Map<Seq<char>, u32>, s: Seq<char>)
    requires
        one_to_one(m),
        m.contains_key(s),
    ensures
        m.contains_value(m[s]),
        key_with(m, m[s]) == s,
{
    let k = key_with(m, m[s]);
    assert(m.contains_key(s) && m[s] == m[s]);
    assert(m.contains_key(k) && m[k] == m[s]);
}

/// The key of an id is that of the entity or literal it was given to.
pub proof fn lemma_name_of(d: DictSpec, s: Seq<char>)
    requires
        dict_ok(d),
    ensures
        d.entities.contains_key(s) ==> name_of(d, d.entities[s]) == Some(s),
        d.literals.contains_key(s) ==> name_of(d, d.literals[s]) == Some(s),
{
    if d.entities.contains_key(s) {
        lemma_key_with(d.entities, s);
    }
    if d.literals.contains_key(s) {
        lemma_key_with(d.literals, s);
        let id = d.literals[s];
        if d.entities.contains_value(id) {
            let e = choose|e: Seq<char>| #[trigger] d.entities.contains_key(e) && d.entities[e] == id;
            assert(d.entities[e] < LITERAL_FIRST_ID);
        }
    }
}

/// The record of a triple whose terms are known has the text of the triple.
pub proof fn lemma_quad_record(d: DictSpec, op: char, t: Triple, g: Option<Seq<char>>)
    requires
        dict_ok(d),
        known(d, t),
        graph_known(d, g),
    ensures
        quad_record(d, op, quad_of(d, t, g)) == Some(redo_of(op, g, t)),
{
    lemma_name_of(d, term_key(t.subject@));
    lemma_name_of(d, term_key(t.object@));
    lemma_key_with(d.predicates, term_key(t.predicate@));
    if g is Some {
        lemma_name_of(d, graph_key(g->0));
        assert(stripped(graph_key(g->0)) =~= g->0);
    }
    reveal_strlit(" ");
    reveal_strlit(" .");
    let q = quad_of(d, t, g);
    assert(quad_record(d, op, q)->0.triple =~= triple_text(t));
}

/// The database after a quad was added. A change of the default graph leaves the
/// search index valid only if it can be kept current.
pub open spec fn quad_added(db: DbSpec, q: Quad, rec: RedoSpec) -> DbSpec {
    noted(
        DbSpec {
            quads: db.quads.insert(q),
            graphs: with_graph(db.graphs, q.0),
            index_valid: db.index_valid && (q.0 is Some || !db.disk_index),
            cache: Seq::empty(),
            ..db
        },
        rec,
    )
}

/// The database after a quad was removed. That of the default graph leaves the
/// search index stale.
pub open spec fn quad_removed(db: DbSpec, q: Quad, rec: RedoSpec) -> DbSpec {
    noted(
        DbSpec {
            quads: db.quads.remove(q),
            txn_graphs: (if db.txn is Some { with_graph(db.txn_graphs, q.0) } else { db.txn_graphs }),
            index_valid: db.index_valid && q.0 is Some,
            cache: Seq::empty(),
            ..db
        },
        rec,
    )
}

/// The database with an open transaction.
pub open spec fn begun(db: DbSpec) -> DbSpec {
    DbSpec { txn: Some(db.quads), txn_graphs: Set::empty(), ..db }
}

/// The database after the open transaction was committed.
pub open spec fn committed(db: DbSpec) -> DbSpec {
    DbSpec {
        txn: None,
        txn_graphs: Set::empty(),
        redo_pending: Seq::empty(),
        redo_out: (if db.redo_log is Some { db.redo_out + redo_bytes_all(db.redo_pending) } else { db.redo_out }),
        ..db
    }
}

/// The database after the open transaction was rolled back.
pub open spec fn rolled_back(db: DbSpec) -> DbSpec {
    DbSpec {
        quads: db.txn->0,
        graphs: db.graphs.union(db.txn_graphs),
        index_valid: false,
        txn: None,
        txn_graphs: Set::empty(),
        cache: Seq::empty(),
        redo_pending: Seq::empty(),
        ..db
    }
}

/// The key of a graph name.
pub open spec fn graph_key(g: Seq<char>) -> Seq<char> {
    term_key(TermSpec::Iri(g))
}

/// All terms of the triple have ids.
pub open spec fn known(d: DictSpec, t: Triple) -> bool {
    &&& d.entities.contains_key(term_key(t.subject@))
    &&& d.predicates.contains_key(term_key(t.predicate@))
    &&& Dictionary::space(d, t.object@).contains_key(term_key(t.object@))
}

/// The name of the graph has an id.
pub open spec fn graph_known(d: DictSpec, g: Option<Seq<char>>) -> bool {
    g matches Some(n) ==> d.entities.contains_key(graph_key(n))
}

/// The ids of a triple whose terms are known.
pub open spec fn id_of(d: DictSpec, t: Triple) -> IdTriple {
    IdTriple {
        sub: d.entities[term_key(t.subject@)],
        pred: d.predicates[term_key(t.predicate@)],
        obj: Dictionary::space(d, t.object@)[term_key(t.object@)],
    }
}

/// The graph of a quad: the default graph, or the one with the given name.
pub open spec fn graph_id(d: DictSpec, g: Option<Seq<char>>) -> Option<u32> {
    match g {
        Some(n) => Some(d.entities[graph_key(n)]),
        None => None,
    }
}

/// The quad of a triple whose terms are known.
pub open spec fn quad_of(d: DictSpec, t: Triple, g: Option<Seq<char>>) -> Quad {
    (graph_id(d, g), id_of(d, t))
}

/// The dictionary after the terms of a triple were interned: subject, predicate,
/// object.
pub open spec fn encoded(d: DictSpec, t: Triple) -> DictSpec {
    with_term(with_predicate(with_entity(d, term_key(t.subject@)), term_key(t.predicate@)), t.object@)
}

/// The dictionary after the terms of a triple and the name of its graph, which
/// comes first, were interned.
pub open spec fn encoded_in(d: DictSpec, t: Triple, g: Option<Seq<char>>) -> DictSpec {
    match g {
        Some(n) => encoded(with_entity(d, graph_key(n)), t),
        None => encoded(d, t),
    }
}

/// The redo record of a change.
pub open spec fn redo_of(op: char, g: Option<Seq<char>>, t: Triple) -> RedoSpec {
    RedoSpec { op, graph: g, triple: triple_text(t) }
}

/// The database after a triple was inserted into a graph. New terms get ids even
/// if the triple was there.
pub open spec fn inserted(db: DbSpec, t: Triple, g: Option<Seq<char>>) -> DbSpec {
    let d = encoded_in(db.dict, t, g);
    let mid = DbSpec { dict: d, ..db };
    if insert_changes(db, t, g) {
        quad_added(mid, quad_of(d, t, g), redo_of('I', g, t))
    } else {
        mid
    }
}

/// Does inserting the triple change the graph?
pub open spec fn insert_changes(db: DbSpec, t: Triple, g: Option<Seq<char>>) -> bool {
    !db.quads.contains(quad_of(encoded_in(db.dict, t, g), t, g))
}

/// The triple is in the graph.
pub open spec fn present(db: DbSpec, t: Triple, g: Option<Seq<char>>) -> bool {
    &&& known(db.dict, t)
    &&& graph_known(db.dict, g)
    &&& db.quads.contains(quad_of(db.dict, t, g))
}

/// The database after a triple was deleted from a graph. Terms keep their ids.
pub open spec fn deleted(db: DbSpec, t: Triple, g: Option<Seq<char>>) -> DbSpec {
    if present(db, t, g) {
        quad_removed(db, quad_of(db.dict, t, g), redo_of('D', g, t))
    } else {
        db
    }
}

/// The id spaces hold all keys.
pub open spec fn dict_fits(d: DictSpec) -> bool {
    &&& d.entities.dom().len() <= LITERAL_FIRST_ID
    &&& d.literals.dom().len() <= MAX_LITERALS
    &&& d.predicates.dom().len() <= INVALID_PRED_ID
}

/// Room in the id spaces for the terms of `n` more triples in named graphs, if all of
/// them are new.
pub open spec fn room_for(d: DictSpec, n: nat) -> bool {
    &&& d.entities.dom().len() + 3 * n <= LITERAL_FIRST_ID
    &&& d.literals.dom().len() + n <= MAX_LITERALS
    &&& d.predicates.dom().len() + n <= INVALID_PRED_ID
}

/// A change of one triple in a graph.
pub ghost enum Change {
    Insert(Triple, Option<Seq<char>>),
    Delete(Triple, Option<Seq<char>>),
}

/// The database after a change.
pub open spec fn changed_by(db: DbSpec, c: Change) -> DbSpec {
    match c {
        Change::Insert(t, g) => inserted(db, t, g),
        Change::Delete(t, g) => deleted(db, t, g),
    }
}

/// Does the change have an effect on the graph?
pub open spec fn takes_effect(db: DbSpec, c: Change) -> bool {
    match c {
        Change::Insert(t, g) => insert_changes(db, t, g),
        Change::Delete(t, g) => present(db, t, g),
    }
}

/// The database after some changes, one after the other.
pub open spec fn changed_by_all(db: DbSpec, cs: Seq<Change>) -> DbSpec
    decreases cs.len(),
{
    if cs.len() == 0 {
        db
    } else {
        changed_by(changed_by_all(db, cs.drop_last()), cs.last())
    }
}

/// How many of the changes take effect.
pub open spec fn effects(db: DbSpec, cs: Seq<Change>) -> nat
    decreases cs.len(),
{
    if cs.len() == 0 {
        0
    } else {
        effects(db, cs.drop_last()) + if takes_effect(changed_by_all(db, cs.drop_last()), cs.last()) { 1nat } else { 0nat }
    }
}

/// The changes that take effect.
pub open spec fn effective(db: DbSpec, cs: Seq<Change>) -> Seq<Change>
    decreases cs.len(),
{
    if cs.len() == 0 {
        Seq::empty()
    } else if takes_effect(changed_by_all(db, cs.drop_last()), cs.last()) {
        effective(db, cs.drop_last()).push(cs.last())
    } else {
        effective(db, cs.drop_last())
    }
}

/// The redo record of a change.
pub open spec fn record_of(c: Change) -> RedoSpec {
    match c {
        Change::Insert(t, g) => redo_of('I', g, t),
        Change::Delete(t, g) => redo_of('D', g, t),
    }
}

/// How many terms `n` changes can add, at most.
pub open spec fn inserts(cs: Seq<Change>) -> nat
    decreases cs.len(),
{
    if cs.len() == 0 {
        0
    } else {
        inserts(cs.drop_last()) + if cs.last() is Insert { 1nat } else { 0nat }
    }
}

/// Every key of `a` has the same id in `b`.
pub open spec fn map_extends(a: Map<Seq<char>, u32>, b: Map<Seq<char>, u32>) -> bool {
    forall|s: Seq<char>| #[trigger] a.contains_key(s) ==> b.contains_key(s) && b[s] == a[s]
}

/// Every id stays what it is.
pub open spec fn dict_extends(a: DictSpec, b: DictSpec) -> bool {
    &&& map_extends(a.entities, b.entities)
    &&& map_extends(a.literals, b.literals)
    &&& map_extends(a.predicates, b.predicates)
}

/// Every id in the graphs belongs to a key.
pub open spec fn grounded(d: DictSpec, quads: Set<Quad>) -> bool {
    forall|q: Quad| #[trigger] quads.contains(q) ==> {
        &&& q.0 matches Some(g) ==> d.entities.contains_value(g)
        &&& d.entities.contains_value(q.1.sub)
        &&& d.predicates.contains_value(q.1.pred)
        &&& d.entities.contains_value(q.1.obj) || d.literals.contains_value(q.1.obj)
    }
}

/// The keys of a triple; literals have a space of their own.
pub open spec fn keys_of(t: Triple) -> (Seq<char>, Seq<char>, bool, Seq<char>) {
    (term_key(t.subject@), term_key(t.predicate@), t.object@ is Literal, term_key(t.object@))
}

/// Interning keeps a space in order, keeps all ids, and gives a new key an id
/// that no other key has.
pub proof fn lemma_intern(m: Map<Seq<char>, u32>, freed: Seq<u32>, first: int, key: Seq<char>)
    requires
        space_ok(m, freed, first),
        first >= 0,
        m.contains_key(key) || freed.len() > 0 || first + m.dom().len() < u32::MAX,
    ensures
        ({
            let id = id_for(m, freed, first, key);
            let m1 = m.insert(key, id);
            let f1 = freed_after(m, freed, key);
            &&& space_ok(m1, f1, first)
            &&& map_extends(m, m1)
            &&& !m.contains_key(key) ==> !m.contains_value(id)
            &&& m1.dom().len() <= m.dom().len() + 1
            &&& m1.dom().len() + f1.len() <= (if freed.len() > 0 || m.contains_key(key) { m.dom().len() + freed.len() } else { m.dom().len() + 1 })
            &&& m.contains_key(key) ==> m1 == m && f1 == freed
        }),
{
    let id = id_for(m, freed, first, key);
    let m1 = m.insert(key, id);
    let f1 = freed_after(m, freed, key);
    if m.contains_key(key) {
        assert(m1 =~= m);
    } else {
        assert(m1.dom() =~= m.dom().insert(key));
        if freed.len() > 0 {
            let last = freed.len() - 1;
            assert(freed[last] == freed.last());
            assert forall|k: int| 0 <= k < f1.len() implies #[trigger] f1[k] < m1.dom().len() + f1.len() && !m1.contains_value((first + f1[k]) as u32) by {
                assert(f1[k] == freed[k]);
                assert(freed[k] != freed[last]);
                if m1.contains_value((first + f1[k]) as u32) {
                    let s = choose|s: Seq<char>| #[trigger] m1.contains_key(s) && m1[s] == (first + f1[k]) as u32;
                    if s != key {
                        assert(m.contains_key(s) && m[s] == (first + freed[k]) as u32);
                        assert(m.contains_value((first + freed[k]) as u32));
                    }
                }
            }
            assert(!m.contains_value(id));
        } else {
            if m.contains_value(id) {
                let s = choose|s: Seq<char>| #[trigger] m.contains_key(s) && m[s] == id;
                assert(m[s] < first + m.dom().len());
            }
        }
        assert forall|a: Seq<char>, b: Seq<char>| m1.contains_key(a) && m1.contains_key(b) && #[trigger] m1[a] == #[trigger] m1[b] implies a == b by {
            if a != key && b == key {
                assert(m.contains_key(a) && m[a] == id);
                assert(m.contains_value(id));
            }
            if b != key && a == key {
                assert(m.contains_key(b) && m[b] == id);
                assert(m.contains_value(id));
            }
            if a != key && b != key {
                assert(m[a] == m[b]);
            }
        }
        assert forall|s: Seq<char>| #[trigger] m1.contains_key(s) implies first <= m1[s] < first + m1.dom().len() + f1.len() by {
            if s != key {
                assert(m.contains_key(s));
            }
        }
    }
}

/// What interning the terms of a triple does to the dictionary.
pub open spec fn grown(a: DictSpec, b: DictSpec, entities: nat, others: nat) -> bool {
    &&& dict_ok(b)
    &&& dict_extends(a, b)
    &&& b.entities.dom().len() <= a.entities.dom().len() + entities
    &&& b.literals.dom().len() <= a.literals.dom().len() + others
    &&& b.predicates.dom().len() <= a.predicates.dom().len() + others
}

pub proof fn lemma_with_entity(d: DictSpec, key: Seq<char>)
    requires
        dict_ok(d),
        with_entity(d, key).entities.dom().len() <= LITERAL_FIRST_ID,
    ensures
        grown(d, with_entity(d, key), 1, 0),
        d.entities.contains_key(key) || d.entities.dom().len() < LITERAL_FIRST_ID,
        with_entity(d, key).entities.contains_key(key),
        d.entities.contains_key(key) ==> with_entity(d, key) == d,
        !d.entities.contains_key(key) ==> !d.entities.contains_value(with_entity(d, key).entities[key]),
{
    if !d.entities.contains_key(key) {
        assert(with_entity(d, key).entities.dom() =~= d.entities.dom().insert(key));
    }
    lemma_intern(d.entities, d.freed_entities, 0, key);
    if d.entities.contains_key(key) {
        assert(with_entity(d, key) =~= d);
    }
}

pub proof fn lemma_with_literal(d: DictSpec, key: Seq<char>)
    requires
        dict_ok(d),
        with_literal(d, key).literals.dom().len() <= MAX_LITERALS,
    ensures
        grown(d, with_literal(d, key), 0, 1),
        d.literals.contains_key(key) || d.literals.dom().len() < MAX_LITERALS,
        with_literal(d, key).literals.contains_key(key),
        d.literals.contains_key(key) ==> with_literal(d, key) == d,
        !d.literals.contains_key(key) ==> !d.literals.contains_value(with_literal(d, key).literals[key]),
{
    if !d.literals.contains_key(key) {
        assert(with_literal(d, key).literals.dom() =~= d.literals.dom().insert(key));
    }
    lemma_intern(d.literals, d.freed_literals, LITERAL_FIRST_ID as int, key);
    if d.literals.contains_key(key) {
        assert(with_literal(d, key) =~= d);
    }
}

pub proof fn lemma_with_predicate(d: DictSpec, key: Seq<char>)
    requires
        dict_ok(d),
        with_predicate(d, key).predicates.dom().len() <= INVALID_PRED_ID,
    ensures
        grown(d, with_predicate(d, key), 0, 1),
        d.predicates.contains_key(key) || d.predicates.dom().len() < INVALID_PRED_ID,
        with_predicate(d, key).entities == d.entities,
        with_predicate(d, key).literals == d.literals,
        with_predicate(d, key).predicates.contains_key(key),
        d.predicates.contains_key(key) ==> with_predicate(d, key) == d,
        !d.predicates.contains_key(key) ==> !d.predicates.contains_value(with_predicate(d, key).predicates[key]),
{
    if !d.predicates.contains_key(key) {
        assert(with_predicate(d, key).predicates.dom() =~= d.predicates.dom().insert(key));
    }
    lemma_intern(d.predicates, d.freed_predicates, 0, key);
    if d.predicates.contains_key(key) {
        assert(with_predicate(d, key) =~= d);
    }
}

/// The sizes of the id spaces.
pub open spec fn sizes_within(a: DictSpec, b: DictSpec, entities: nat, others: nat) -> bool {
    &&& a.entities.dom().len() <= b.entities.dom().len() <= a.entities.dom().len() + entities
    &&& a.literals.dom().len() <= b.literals.dom().len() <= a.literals.dom().len() + others
    &&& a.predicates.dom().len() <= b.predicates.dom().len() <= a.predicates.dom().len() + others
    &&& dict_finite(b)
}

/// The id spaces are finite.
pub open spec fn dict_finite(d: DictSpec) -> bool {
    d.entities.dom().finite() && d.literals.dom().finite() && d.predicates.dom().finite()
}

/// One key more.
proof fn lemma_map_sizes(m: Map<Seq<char>, u32>, key: Seq<char>)
    requires
        m.dom().finite(),
    ensures
        forall|v: u32| {
            let n = (#[trigger] m.insert(key, v)).dom();
            n.finite() && m.dom().len() <= n.len() <= m.dom().len() + 1
        },
{
    assert forall|v: u32| {
        let n = (#[trigger] m.insert(key, v)).dom();
        n.finite() && m.dom().len() <= n.len() <= m.dom().len() + 1
    } by {
        assert(m.insert(key, v).dom() =~= m.dom().insert(key));
    }
}

/// Interning a triple adds three entities, a literal and a predicate at most, and takes
/// nothing away.
pub proof fn lemma_encoded_sizes(d: DictSpec, t: Triple, g: Option<Seq<char>>)
    requires
        dict_finite(d),
    ensures
        sizes_within(d, encoded_in(d, t, g), 3, 1),
        sizes_within(d, encoded(d, t), 2, 1),
        g matches Some(n) ==> sizes_within(d, with_entity(d, graph_key(n)), 1, 0) && sizes_within(with_entity(d, graph_key(n)), encoded_in(d, t, g), 2, 1),
{
    lemma_triple_sizes(d, t);
    if g is Some {
        lemma_map_sizes(d.entities, graph_key(g->0));
        lemma_triple_sizes(with_entity(d, graph_key(g->0)), t);
    }
}

proof fn lemma_triple_sizes(d: DictSpec, t: Triple)
    requires
        dict_finite(d),
    ensures
        sizes_within(d, encoded(d, t), 2, 1),
{
    let d1 = with_entity(d, term_key(t.subject@));
    let d2 = with_predicate(d1, term_key(t.predicate@));
    lemma_map_sizes(d.entities, term_key(t.subject@));
    lemma_map_sizes(d1.predicates, term_key(t.predicate@));
    lemma_map_sizes(d2.entities, term_key(t.object@));
    lemma_map_sizes(d2.literals, term_key(t.object@));
}

/// Changes only add keys.
pub proof fn lemma_sizes_grow(db: DbSpec, cs: Seq<Change>, n: int)
    requires
        dict_finite(db.dict),
        0 <= n <= cs.len(),
    ensures
        sizes_within(changed_by_all(db, cs.take(n)).dict, changed_by_all(db, cs).dict, 3 * inserts(cs), inserts(cs)),
        dict_finite(changed_by_all(db, cs.take(n)).dict),
        dict_fits(changed_by_all(db, cs).dict) ==> dict_fits(changed_by_all(db, cs.take(n)).dict),
    decreases cs.len(),
{
    if n == cs.len() {
        assert(cs.take(n) =~= cs);
        if cs.len() > 0 {
            lemma_sizes_grow(db, cs.drop_last(), 0);
            lemma_step_sizes(db, cs);
        }
    } else {
        assert(cs.drop_last().take(n) =~= cs.take(n));
        lemma_sizes_grow(db, cs.drop_last(), n);
        lemma_step_sizes(db, cs);
    }
}

proof fn lemma_step_sizes(db: DbSpec, cs: Seq<Change>)
    requires
        cs.len() > 0,
        dict_finite(changed_by_all(db, cs.drop_last()).dict),
    ensures
        sizes_within(changed_by_all(db, cs.drop_last()).dict, changed_by_all(db, cs).dict, if cs.last() is Insert { 3 } else { 0 }, if cs.last() is Insert { 1 } else { 0 }),
{
    match cs.last() {
        Change::Insert(t, g) => {
            lemma_encoded_sizes(changed_by_all(db, cs.drop_last()).dict, t, g);
        },
        Change::Delete(t, g) => {},
    }
}

/// Where there is room for the terms of the insertions, all of them find ids.
pub proof fn law_room_suffices(db: DbSpec, cs: Seq<Change>)
    requires
        dict_finite(db.dict),
        room_for(db.dict, inserts(cs)),
    ensures
        dict_fits(changed_by_all(db, cs).dict),
{
    lemma_sizes_grow(db, cs, 0);
    assert(cs.take(0) =~= Seq::<Change>::empty());
}

/// Interning a triple: the dictionary only grows, the triple is known then, and
/// if it was known before nothing changes.
pub proof fn lemma_encoded(d: DictSpec, t: Triple)
    requires
        dict_ok(d),
        dict_fits(encoded(d, t)),
    ensures
        grown(d, encoded(d, t), 2, 1),
        known(encoded(d, t), t),
        known(d, t) ==> encoded(d, t) == d,
{
    let d1 = with_entity(d, term_key(t.subject@));
    let d2 = with_predicate(d1, term_key(t.predicate@));
    lemma_map_sizes(d.entities, term_key(t.subject@));
    lemma_map_sizes(d1.predicates, term_key(t.predicate@));
    lemma_map_sizes(d2.entities, term_key(t.object@));
    lemma_map_sizes(d2.literals, term_key(t.object@));
    lemma_with_entity(d, term_key(t.subject@));
    lemma_with_predicate(d1, term_key(t.predicate@));
    if t.object@ is Literal {
        lemma_with_literal(d2, term_key(t.object@));
    } else {
        lemma_with_entity(d2, term_key(t.object@));
    }
}

/// Each term of a triple that can be interned finds an id in its turn.
pub proof fn lemma_interning_room(d: DictSpec, t: Triple)
    requires
        dict_ok(d),
        dict_fits(encoded(d, t)),
    ensures
        ({
            let d1 = with_entity(d, term_key(t.subject@));
            let d2 = with_predicate(d1, term_key(t.predicate@));
            let o = term_key(t.object@);
            &&& d.entities.contains_key(term_key(t.subject@)) || d.entities.dom().len() < LITERAL_FIRST_ID
            &&& d1.predicates.contains_key(term_key(t.predicate@)) || d1.predicates.dom().len() < INVALID_PRED_ID
            &&& t.object@ is Literal ==> d2.literals.contains_key(o) || d2.literals.dom().len() < MAX_LITERALS
            &&& !(t.object@ is Literal) ==> d2.entities.contains_key(o) || d2.entities.dom().len() < LITERAL_FIRST_ID
        }),
{
    let d1 = with_entity(d, term_key(t.subject@));
    let d2 = with_predicate(d1, term_key(t.predicate@));
    lemma_map_sizes(d.entities, term_key(t.subject@));
    lemma_map_sizes(d1.predicates, term_key(t.predicate@));
    lemma_map_sizes(d2.entities, term_key(t.object@));
    lemma_map_sizes(d2.literals, term_key(t.object@));
    lemma_with_entity(d, term_key(t.subject@));
    lemma_with_predicate(d1, term_key(t.predicate@));
    if t.object@ is Literal {
        lemma_with_literal(d2, term_key(t.object@));
    } else {
        lemma_with_entity(d2, term_key(t.object@));
    }
}

/// As [`lemma_encoded`], with the graph.
pub proof fn lemma_encoded_in(d: DictSpec, t: Triple, g: Option<Seq<char>>)
    requires
        dict_ok(d),
        dict_fits(encoded_in(d, t, g)),
    ensures
        grown(d, encoded_in(d, t, g), 3, 1),
        known(encoded_in(d, t, g), t),
        graph_known(encoded_in(d, t, g), g),
        known(d, t) && graph_known(d, g) ==> encoded_in(d, t, g) == d,
{
    lemma_encoded_sizes(d, t, g);
    match g {
        Some(n) => {
            lemma_with_entity(d, graph_key(n));
            lemma_encoded(with_entity(d, graph_key(n)), t);
        },
        None => {
            lemma_encoded(d, t);
        },
    }
}

/// Ids that belong to keys keep belonging to them.
pub proof fn lemma_grounded_extends(a: DictSpec, b: DictSpec, quads: Set<Quad>)
    requires
        grounded(a, quads),
        dict_extends(a, b),
    ensures
        grounded(b, quads),
{
    lemma_values_extend(a.entities, b.entities);
    lemma_values_extend(a.literals, b.literals);
    lemma_values_extend(a.predicates, b.predicates);
}

proof fn lemma_values_extend(a: Map<Seq<char>, u32>, b: Map<Seq<char>, u32>)
    requires
        map_extends(a, b),
    ensures
        forall|v: u32| #[trigger] a.contains_value(v) ==> b.contains_value(v),
{
    assert forall|v: u32| #[trigger] a.contains_value(v) implies b.contains_value(v) by {
        let s = choose|s: Seq<char>| #[trigger] a.contains_key(s) && a[s] == v;
        assert(b.contains_key(s) && b[s] == v);
    }
}

/// Whether a triple is in a graph does not depend on what else was interned: if
/// every id in the graphs belongs to a key, a triple with a new term is in none.
pub proof fn lemma_present_extends(a: DictSpec, b: DictSpec, quads: Set<Quad>, t: Triple, g: Option<Seq<char>>)
    requires
        dict_ok(a),
        dict_ok(b),
        dict_extends(a, b),
        grounded(a, quads),
        known(b, t),
        graph_known(b, g),
    ensures
        quads.contains(quad_of(b, t, g)) <==> known(a, t) && graph_known(a, g) && quads.contains(quad_of(a, t, g)),
        known(a, t) && graph_known(a, g) ==> quad_of(a, t, g) == quad_of(b, t, g),
{
    let q = quad_of(b, t, g);
    if quads.contains(q) {
        lemma_value_key(a.entities, b.entities, term_key(t.subject@));
        lemma_value_key(a.predicates, b.predicates, term_key(t.predicate@));
        if t.object@ is Literal {
            assert(b.literals[term_key(t.object@)] == q.1.obj);
            if a.entities.contains_value(q.1.obj) {
                let s = choose|s: Seq<char>| #[trigger] a.entities.contains_key(s) && a.entities[s] == q.1.obj;
                assert(b.entities.contains_key(s) && b.entities[s] < LITERAL_FIRST_ID);
            }
            lemma_value_key(a.literals, b.literals, term_key(t.object@));
        } else {
            assert(b.entities[term_key(t.object@)] == q.1.obj);
            if a.literals.contains_value(q.1.obj) {
                let s = choose|s: Seq<char>| #[trigger] a.literals.contains_key(s) && a.literals[s] == q.1.obj;
                assert(b.literals.contains_key(s) && b.literals[s] >= LITERAL_FIRST_ID);
            }
            lemma_value_key(a.entities, b.entities, term_key(t.object@));
        }
        if g is Some {
            lemma_value_key(a.entities, b.entities, graph_key(g->0));
        }
    }
}

proof fn lemma_value_key(a: Map<Seq<char>, u32>, b: Map<Seq<char>, u32>, key: Seq<char>)
    requires
        map_extends(a, b),
        one_to_one(b),
        b.contains_key(key),
        a.contains_value(b[key]),
    ensures
        a.contains_key(key),
{
    let s = choose|s: Seq<char>| #[trigger] a.contains_key(s) && a[s] == b[key];
    assert(b.contains_key(s) && b[s] == b[key]);
}

/// An insertion changes a graph exactly if the triple was not there.
pub proof fn lemma_insert_changes(db: DbSpec, t: Triple, g: Option<Seq<char>>)
    requires
        dict_ok(db.dict),
        grounded(db.dict, db.quads),
        dict_fits(encoded_in(db.dict, t, g)),
    ensures
        insert_changes(db, t, g) <==> !present(db, t, g),
        !insert_changes(db, t, g) ==> inserted(db, t, g) == db,
        inserted(db, t, g).quads == db.quads.insert(quad_of(inserted(db, t, g).dict, t, g)),
        grounded(inserted(db, t, g).dict, inserted(db, t, g).quads),
{
    let d = encoded_in(db.dict, t, g);
    lemma_encoded_in(db.dict, t, g);
    lemma_present_extends(db.dict, d, db.quads, t, g);
    lemma_grounded_extends(db.dict, d, db.quads);
    let q = quad_of(d, t, g);
    if !insert_changes(db, t, g) {
        assert(db.quads.insert(q) =~= db.quads);
        assert(inserted(db, t, g) =~= db);
    }
    let after = inserted(db, t, g);
    assert(after.quads =~= db.quads.insert(q));
    assert(d.entities.contains_value(q.1.sub)) by {
        assert(d.entities.contains_key(term_key(t.subject@)));
    }
    assert(d.predicates.contains_value(q.1.pred)) by {
        assert(d.predicates.contains_key(term_key(t.predicate@)));
    }
    assert(d.entities.contains_value(q.1.obj) || d.literals.contains_value(q.1.obj)) by {
        assert(Dictionary::space(d, t.object@).contains_key(term_key(t.object@)));
    }
    if g is Some {
        assert(d.entities.contains_key(graph_key(g->0)));
        assert(d.entities.contains_value(q.0->0));
    }
}

/// What every change keeps: the dictionary only grows, and every id in the graphs
/// belongs to a key.
pub proof fn law_changes_keep_order(db: DbSpec, c: Change)
    requires
        dict_ok(db.dict),
        grounded(db.dict, db.quads),
        dict_fits(changed_by(db, c).dict),
    ensures
        ({
            let after = changed_by(db, c);
            &&& grown(db.dict, after.dict, 3, 1)
            &&& c is Delete ==> after.dict == db.dict
            &&& grounded(after.dict, after.quads)
        }),
{
    match c {
        Change::Insert(t, g) => {
            lemma_encoded_in(db.dict, t, g);
            lemma_insert_changes(db, t, g);
        },
        Change::Delete(t, g) => {
        },
    }
}

/// A triple that was inserted is in its graph, and every other triple is where
/// it was.
pub proof fn law_insert_is_read_back(db: DbSpec, t: Triple, g: Option<Seq<char>>, t2: Triple, g2: Option<Seq<char>>)
    requires
        dict_ok(db.dict),
        grounded(db.dict, db.quads),
        dict_fits(encoded_in(db.dict, t, g)),
    ensures
        present(inserted(db, t, g), t2, g2) <==> present(db, t2, g2) || (keys_of(t2) == keys_of(t) && graph_key_of(g2) == graph_key_of(g)),
{
    let d = encoded_in(db.dict, t, g);
    lemma_encoded_in(db.dict, t, g);
    lemma_insert_changes(db, t, g);
    let after = inserted(db, t, g);
    assert(after.dict == d);
    let q = quad_of(d, t, g);
    if known(d, t2) && graph_known(d, g2) {
        lemma_present_extends(db.dict, d, db.quads, t2, g2);
        let q2 = quad_of(d, t2, g2);
        if q2 == q {
            lemma_same_quad(d, t, g, t2, g2);
        }
        if keys_of(t2) == keys_of(t) && graph_key_of(g2) == graph_key_of(g) {
            assert(q2 == q);
        }
    } else {
        if keys_of(t2) == keys_of(t) && graph_key_of(g2) == graph_key_of(g) {
            assert(known(d, t2));
            assert(graph_known(d, g2));
        }
    }
}

/// The key of the graph of a triple.
pub open spec fn graph_key_of(g: Option<Seq<char>>) -> Option<Seq<char>> {
    match g {
        Some(n) => Some(graph_key(n)),
        None => None,
    }
}

/// A quad stands for one triple in one graph.
pub proof fn lemma_same_quad(d: DictSpec, t: Triple, g: Option<Seq<char>>, t2: Triple, g2: Option<Seq<char>>)
    requires
        dict_ok(d),
        known(d, t),
        known(d, t2),
        graph_known(d, g),
        graph_known(d, g2),
        quad_of(d, t, g) == quad_of(d, t2, g2),
    ensures
        keys_of(t2) == keys_of(t),
        graph_key_of(g2) == graph_key_of(g),
{
    let q = quad_of(d, t, g);
    let k = term_key(t.object@);
    let k2 = term_key(t2.object@);
    assert(d.entities[term_key(t.subject@)] == d.entities[term_key(t2.subject@)]);
    assert(d.predicates[term_key(t.predicate@)] == d.predicates[term_key(t2.predicate@)]);
    if t.object@ is Literal {
        assert(d.literals.contains_key(k) && d.literals[k] >= LITERAL_FIRST_ID);
    } else {
        assert(d.entities.contains_key(k) && d.entities[k] < LITERAL_FIRST_ID);
    }
    if t2.object@ is Literal {
        assert(d.literals.contains_key(k2) && d.literals[k2] >= LITERAL_FIRST_ID);
    } else {
        assert(d.entities.contains_key(k2) && d.entities[k2] < LITERAL_FIRST_ID);
    }
    if t.object@ is Literal {
        assert(d.literals[k] == d.literals[k2]);
    } else {
        assert(d.entities[k] == d.entities[k2]);
    }
    if g is Some && g2 is Some {
        assert(d.entities[graph_key(g->0)] == d.entities[graph_key(g2->0)]);
    }
}

/// A triple that was deleted is not in its graph any more, and every other triple
/// is where it was.
pub proof fn law_delete_is_read_back(db: DbSpec, t: Triple, g: Option<Seq<char>>, t2: Triple, g2: Option<Seq<char>>)
    requires
        dict_ok(db.dict),
    ensures
        present(deleted(db, t, g), t2, g2) <==> present(db, t2, g2) && !(keys_of(t2) == keys_of(t) && graph_key_of(g2) == graph_key_of(g)),
{
    if present(db, t, g) {
        if known(db.dict, t2) && graph_known(db.dict, g2) && quad_of(db.dict, t2, g2) == quad_of(db.dict, t, g) {
            lemma_same_quad(db.dict, t, g, t2, g2);
        }
        if keys_of(t2) == keys_of(t) && graph_key_of(g2) == graph_key_of(g) {
            assert(quad_of(db.dict, t2, g2) == quad_of(db.dict, t, g));
        }
    } else if keys_of(t2) == keys_of(t) && graph_key_of(g2) == graph_key_of(g) {
        assert(!present(db, t2, g2)) by {
            if present(db, t2, g2) {
                assert(quad_of(db.dict, t2, g2) == quad_of(db.dict, t, g));
            }
        }
    }
}

/// Inserting a triple a second time changes nothing at all.
pub proof fn law_insert_is_idempotent(db: DbSpec, t: Triple, g: Option<Seq<char>>)
    requires
        dict_ok(db.dict),
        dict_fits(encoded_in(db.dict, t, g)),
    ensures
        inserted(inserted(db, t, g), t, g) == inserted(db, t, g),
        !insert_changes(inserted(db, t, g), t, g),
{
    let d = encoded_in(db.dict, t, g);
    lemma_encoded_in(db.dict, t, g);
    let once = inserted(db, t, g);
    assert(once.quads.contains(quad_of(d, t, g)));
    assert(inserted(once, t, g) =~= once);
}

/// Kept results are those of the graphs as they are: a change that has an effect on a
/// graph drops them, and one that has none leaves graphs and results as they were.
pub proof fn law_changes_drop_results(db: DbSpec, c: Change)
    ensures
        takes_effect(db, c) ==> changed_by(db, c).cache.len() == 0,
        !takes_effect(db, c) ==> changed_by(db, c).cache == db.cache && changed_by(db, c).quads == db.quads,
{
}

/// Deleting a triple that was just added restores the graphs.
pub proof fn law_delete_undoes_insert(db: DbSpec, t: Triple, g: Option<Seq<char>>)
    requires
        dict_ok(db.dict),
        dict_fits(encoded_in(db.dict, t, g)),
        insert_changes(db, t, g),
    ensures
        deleted(inserted(db, t, g), t, g).quads == db.quads,
{
    lemma_encoded_in(db.dict, t, g);
    let once = inserted(db, t, g);
    let q = quad_of(once.dict, t, g);
    assert(once.quads.contains(q));
    assert(db.quads.insert(q).remove(q) =~= db.quads);
}

/// A rolled-back transaction leaves no trace in what the graphs hold, though the
/// terms it met keep their ids: with the quads of the start, the same triples are
/// in the same graphs.
pub proof fn law_rollback_restores(start: DbSpec, after: DbSpec, t: Triple, g: Option<Seq<char>>)
    requires
        dict_ok(start.dict),
        dict_ok(after.dict),
        grounded(start.dict, start.quads),
        dict_extends(start.dict, after.dict),
        after.quads == start.quads,
    ensures
        present(after, t, g) <==> present(start, t, g),
{
    if known(after.dict, t) && graph_known(after.dict, g) {
        lemma_present_extends(start.dict, after.dict, start.quads, t, g);
    }
}

proof fn lemma_bytes_push(rs: Seq<RedoSpec>, r: RedoSpec)
    ensures
        redo_bytes_all(rs.push(r)) == redo_bytes_all(rs) + redo_bytes(r),
{
    assert(rs.push(r).drop_last() =~= rs);
}

/// Replaying the redo log reconstructs the final state. The log of some changes
/// is the log of those that take effect; applied to a database with the dictionary
/// and the graphs that the changes started from, these give the dictionary and the
/// graphs that the changes ended with.
pub proof fn law_redo_replay(db: DbSpec, start: DbSpec, cs: Seq<Change>)
    requires
        dict_ok(db.dict),
        grounded(db.dict, db.quads),
        dict_fits(changed_by_all(db, cs).dict),
        start.dict == db.dict,
        start.quads == db.quads,
        start.graphs == db.graphs,
    ensures
        ({
            let end = changed_by_all(db, cs);
            let replayed = changed_by_all(start, effective(db, cs));
            &&& replayed.dict == end.dict
            &&& replayed.quads == end.quads
            &&& replayed.graphs == end.graphs
            &&& db.redo_log is Some && db.txn is None && db.redo_pending.len() == 0 ==> end.redo_out == db.redo_out + redo_bytes_all(effective(db, cs).map_values(|c: Change| record_of(c)))
        }),
{
    lemma_redo_replay(db, start, cs);
}

proof fn lemma_redo_replay(db: DbSpec, start: DbSpec, cs: Seq<Change>)
    requires
        dict_ok(db.dict),
        grounded(db.dict, db.quads),
        dict_fits(changed_by_all(db, cs).dict),
        start.dict == db.dict,
        start.quads == db.quads,
        start.graphs == db.graphs,
    ensures
        ({
            let end = changed_by_all(db, cs);
            let replayed = changed_by_all(start, effective(db, cs));
            &&& replayed.dict == end.dict
            &&& replayed.quads == end.quads
            &&& replayed.graphs == end.graphs
            &&& dict_ok(end.dict)
            &&& grounded(end.dict, end.quads)
            &&& end.redo_log == db.redo_log
            &&& db.txn is None ==> end.txn is None
            &&& db.redo_log is Some && db.txn is None && db.redo_pending.len() == 0 ==> end.redo_pending.len() == 0 && end.redo_out == db.redo_out + redo_bytes_all(effective(db, cs).map_values(|c: Change| record_of(c)))
        }),
    decreases cs.len(),
{
    let f = |c: Change| record_of(c);
    if cs.len() == 0 {
        assert(effective(db, cs).map_values(f) =~= Seq::<RedoSpec>::empty());
        assert(db.redo_out + redo_bytes_all(Seq::<RedoSpec>::empty()) =~= db.redo_out);
    } else {
        let front = cs.drop_last();
        let c = cs.last();
        lemma_sizes_grow(db, cs, cs.len() - 1);
        assert(cs.take(cs.len() - 1) =~= front);
        lemma_redo_replay(db, start, front);
        let mid = changed_by_all(db, front);
        let rmid = changed_by_all(start, effective(db, front));
        law_changes_keep_order(mid, c);
        let eff = effective(db, front);
        if takes_effect(mid, c) {
            assert(eff.push(c).drop_last() =~= eff);
            assert(changed_by_all(start, eff.push(c)) == changed_by(rmid, c));
            assert(eff.push(c).map_values(f) =~= eff.map_values(f).push(record_of(c)));
            lemma_bytes_push(eff.map_values(f), record_of(c));
            if db.redo_log is Some && db.txn is None && db.redo_pending.len() == 0 {
                assert(mid.redo_pending =~= Seq::<RedoSpec>::empty());
                lemma_bytes_push(mid.redo_pending, record_of(c));
                let end = changed_by(mid, c);
                assert(end.redo_out =~= db.redo_out + redo_bytes_all(eff.push(c).map_values(f)));
            }
        } else {
            match c {
                Change::Insert(t, g) => {
                    lemma_insert_changes(mid, t, g);
                },
                Change::Delete(t, g) => {
                },
            }
        }
    }
}

} // verus!
