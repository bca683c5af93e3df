//! What holds of a database over several calls.

use super::lru::{place_of, stored, touched};
use super::open::{build_fits, built, builds, empty_dict, lemma_encoded_all, lemma_empty_ok};
use super::requests::{derived, update_noted};
use super::results::{facts, graph_names, is_result, lemma_same_or_dropped, law_reads_are_current, results_current, same_or_dropped, states, Fact, Meaning};
use super::state::{begun, changed_by, changed_by_all, committed, dict_fits, encoded, graph_key_of, graph_known, grounded, id_of, insert_changes, inserted, keys_of, known, law_changes_keep_order, law_insert_is_idempotent, law_insert_is_read_back, lemma_grounded_extends, lemma_insert_changes, lemma_same_quad, lemma_sizes_grow, present, quad_of, rolled_back, Change, DbSpec, Quad};
use super::update::{default_inserts, op_after, op_changes};
use super::Database;
use crate::dict::dict_ok;
use crate::error::Result;
use crate::model::term::term_key;
use crate::model::{IdTriple, Triple};
use crate::query::{QueryResult, UpdateOp};
use std::sync::Arc;
use vstd::prelude::*;

verus! {

/// What the graphs of a database hold, by keys.
pub open spec fn content(db: DbSpec) -> Set<Fact> {
    facts(db.dict, db.quads)
}

/// A fact of the content is a triple in a graph.
pub proof fn lemma_content(db: DbSpec, t: Triple, g: Option<Seq<char>>)
    requires
        dict_ok(db.dict),
    ensures
        content(db).contains((keys_of(t), graph_key_of(g))) <==> present(db, t, g),
{
    let f = (keys_of(t), graph_key_of(g));
    if content(db).contains(f) {
        let (u, h) = choose|u: Triple, h: Option<Seq<char>>| #[trigger] states(db.dict, db.quads, u, h) && f == (keys_of(u), graph_key_of(h));
        assert(quad_of(db.dict, u, h) == quad_of(db.dict, t, g));
        assert(known(db.dict, t));
        assert(graph_known(db.dict, g));
    }
    if present(db, t, g) {
        assert(states(db.dict, db.quads, t, g));
    }
}

/// An insertion adds the triple to the content.
pub proof fn lemma_content_inserted(db: DbSpec, t: Triple, g: Option<Seq<char>>)
    requires
        dict_ok(db.dict),
        grounded(db.dict, db.quads),
        dict_fits(inserted(db, t, g).dict),
    ensures
        content(inserted(db, t, g)) == content(db).insert((keys_of(t), graph_key_of(g))),
{
    let after = inserted(db, t, g);
    law_changes_keep_order(db, Change::Insert(t, g));
    assert forall|f: Fact| #[trigger] content(after).contains(f) <==> content(db).insert((keys_of(t), graph_key_of(g))).contains(f) by {
        if content(after).contains(f) {
            let (u, h) = choose|u: Triple, h: Option<Seq<char>>| #[trigger] states(after.dict, after.quads, u, h) && f == (keys_of(u), graph_key_of(h));
            law_insert_is_read_back(db, t, g, u, h);
            lemma_content(db, u, h);
        }
        if content(db).contains(f) {
            let (u, h) = choose|u: Triple, h: Option<Seq<char>>| #[trigger] states(db.dict, db.quads, u, h) && f == (keys_of(u), graph_key_of(h));
            law_insert_is_read_back(db, t, g, u, h);
            lemma_content(after, u, h);
        }
        if f == (keys_of(t), graph_key_of(g)) {
            law_insert_is_read_back(db, t, g, t, g);
            lemma_content(after, t, g);
        }
    }
    assert(content(after) =~= content(db).insert((keys_of(t), graph_key_of(g))));
}

/// An insertion into the default graph takes effect exactly if the triple is not there.
/// The graph then holds the triple besides what it held, and the number of its triples
/// has grown by one if the insertion took effect, else not at all. A second insertion
/// changes nothing. The named graphs are as they were, and a search index in memory that
/// was valid still is.
pub proof fn law_insert_adds_the_triple(before: Database, after: Database, t: Triple)
    requires
        before.wf(),
        after.wf(),
        dict_ok(before@.dict),
        grounded(before@.dict, before@.quads),
        dict_fits(encoded(before@.dict, t)),
        after@ == inserted(before@, t, None),
    ensures
        insert_changes(before@, t, None) <==> !present(before@, t, None),
        content(after@) == content(before@).insert((keys_of(t), None)),
        after.default_graph().len() == before.default_graph().len() + (if insert_changes(before@, t, None) { 1int } else { 0 }),
        inserted(after@, t, None) == after@,
        !insert_changes(after@, t, None),
        after@.graphs == before@.graphs,
        forall|q: Quad| q.0 is Some ==> (#[trigger] after@.quads.contains(q) <==> before@.quads.contains(q)),
        before@.index_valid && !before@.disk_index ==> after@.index_valid,
{
    lemma_insert_changes(before@, t, None);
    lemma_content_inserted(before@, t, None);
    law_insert_is_idempotent(before@, t, None);
    before.lemma_graphs();
    after.lemma_graphs();
    let q = quad_of(after@.dict, t, None);
    assert forall|x: IdTriple| #[trigger] after.default_graph().contains(x) <==> before.default_graph().insert(q.1).contains(x) by {
        let none: Quad = (None, x);
        assert(after@.quads.contains(none) <==> after.default_graph().contains(x));
        assert(before@.quads.contains(none) <==> before.default_graph().contains(x));
    }
    assert(after.default_graph() =~= before.default_graph().insert(q.1));
    assert(before@.quads.contains(q) <==> before.default_graph().contains(q.1));
}

/// The dictionary is in order, and every id in the graphs, and in those that a rollback
/// would bring back, belongs to a key.
pub open spec fn orderly(db: DbSpec) -> bool {
    &&& dict_ok(db.dict)
    &&& grounded(db.dict, db.quads)
    &&& db.txn matches Some(quads) ==> grounded(db.dict, quads)
}

proof fn lemma_orderly_changes(db: DbSpec, cs: Seq<Change>)
    requires
        orderly(db),
        dict_fits(changed_by_all(db, cs).dict),
    ensures
        orderly(changed_by_all(db, cs)),
        same_or_dropped(db, changed_by_all(db, cs)),
        changed_by_all(db, cs).txn == db.txn,
    decreases cs.len(),
{
    if cs.len() > 0 {
        let front = cs.drop_last();
        lemma_sizes_grow(db, cs, cs.len() - 1);
        assert(cs.take(cs.len() - 1) =~= front);
        lemma_orderly_changes(db, front);
        let mid = changed_by_all(db, front);
        law_changes_keep_order(mid, cs.last());
        let after = changed_by(mid, cs.last());
        if db.txn is Some {
            lemma_grounded_extends(mid.dict, after.dict, db.txn->0);
        }
        lemma_same_or_dropped(db, cs);
    } else {
        lemma_same_or_dropped(db, cs);
    }
}

/// What is done with a database.
pub ghost enum Call {
    /// A triple is inserted or removed.
    Change(Change),
    /// An operation of an update request is executed.
    Operation(UpdateOp),
    /// An update request is noted in the update log.
    Note(nat, nat, Seq<char>),
    /// Derived triples are added.
    Derive(Seq<Triple>),
    /// A transaction is opened.
    Begin,
    /// The open transaction is committed.
    Commit,
    /// The open transaction is rolled back.
    Rollback,
    /// The search index is built anew.
    Rebuild,
    /// A query is read: a kept result answers it; else it is evaluated, with this result,
    /// which is kept.
    Read(Seq<char>, Arc<QueryResult>),
}

/// The database after a read.
pub open spec fn read_after(db: DbSpec, sparql: Seq<char>, result: Arc<QueryResult>) -> DbSpec {
    if place_of(db.cache, sparql) is Some {
        DbSpec { cache: touched(db.cache, sparql), ..db }
    } else {
        DbSpec { cache: stored(db.cache, db.cache_cap, sparql, result), ..db }
    }
}

/// What a read answers.
pub open spec fn read_answer(db: DbSpec, sparql: Seq<char>, result: Arc<QueryResult>) -> Arc<QueryResult> {
    match place_of(db.cache, sparql) {
        Some(i) => db.cache[i].1,
        None => result,
    }
}

/// The database after a call.
pub open spec fn call_after(db: DbSpec, c: Call) -> DbSpec {
    match c {
        Call::Change(x) => changed_by(db, x),
        Call::Operation(op) => op_after(db, op),
        Call::Note(millis, changed, sparql) => update_noted(db, millis, changed, sparql),
        Call::Derive(ts) => derived(db, ts),
        Call::Begin => if db.txn is None {
            begun(db)
        } else {
            db
        },
        Call::Commit => if db.txn is Some {
            committed(db)
        } else {
            db
        },
        Call::Rollback => if db.txn is Some {
            rolled_back(db)
        } else {
            db
        },
        Call::Rebuild => DbSpec { index_valid: true, disk_index: false, ..db },
        Call::Read(sparql, result) => read_after(db, sparql, result),
    }
}

/// The terms of the call find ids, and a query is evaluated to what it means.
pub open spec fn call_fits(db: DbSpec, c: Call, meaning: Meaning) -> bool {
    &&& dict_fits(call_after(db, c).dict)
    &&& c matches Call::Read(sparql, result) ==> place_of(db.cache, sparql) is None ==> is_result(db, meaning, sparql, result)
}

/// The database after some calls.
pub open spec fn calls_after(db: DbSpec, calls: Seq<Call>) -> DbSpec
    decreases calls.len(),
{
    if calls.len() == 0 {
        db
    } else {
        call_after(calls_after(db, calls.drop_last()), calls.last())
    }
}

/// The calls can happen one after the other.
pub open spec fn calls_fit(db: DbSpec, calls: Seq<Call>, meaning: Meaning) -> bool {
    forall|k: int| 0 <= k < calls.len() ==> call_fits(calls_after(db, calls.take(k)), #[trigger] calls[k], meaning)
}

proof fn lemma_current(before: DbSpec, after: DbSpec, meaning: Meaning)
    requires
        results_current(before, meaning),
        same_or_dropped(before, after),
    ensures
        results_current(after, meaning),
{
    assert forall|i: int| 0 <= i < after.cache.len() implies is_result(after, meaning, (#[trigger] after.cache[i]).0, after.cache[i].1) by {
        assert(is_result(before, meaning, before.cache[i].0, before.cache[i].1));
    }
}

proof fn lemma_call(db: DbSpec, c: Call, meaning: Meaning)
    requires
        orderly(db),
        results_current(db, meaning),
        call_fits(db, c, meaning),
    ensures
        orderly(call_after(db, c)),
        results_current(call_after(db, c), meaning),
{
    let after = call_after(db, c);
    match c {
        Call::Change(x) => {
            let one = seq![x];
            assert(one.drop_last() =~= Seq::<Change>::empty());
            assert(changed_by_all(db, Seq::<Change>::empty()) == db);
            assert(changed_by_all(db, one) == after);
            lemma_orderly_changes(db, one);
            lemma_current(db, after, meaning);
        },
        Call::Operation(op) => {
            match op {
                UpdateOp::Clear { target } => {},
                UpdateOp::Drop { target } => {},
                _ => {
                    lemma_orderly_changes(db, op_changes(op));
                },
            }
            lemma_current(db, after, meaning);
        },
        Call::Derive(ts) => {
            lemma_orderly_changes(db, default_inserts(ts));
            lemma_current(db, after, meaning);
        },
        Call::Read(sparql, result) => {
            law_reads_are_current(db, sparql, result, meaning);
        },
        _ => {
            lemma_current(db, after, meaning);
        },
    }
}

/// Whatever was done with a database before, a query answers what it means for the graphs
/// as they are: for whatever evaluates queries, the same as on any database with the same
/// content and graph names. Reading leaves the graphs as they are.
pub proof fn law_queries_are_current(db: DbSpec, calls: Seq<Call>, meaning: Meaning, sparql: Seq<char>, result: Arc<QueryResult>, other: DbSpec)
    requires
        orderly(db),
        results_current(db, meaning),
        calls_fit(db, calls, meaning),
        is_result(calls_after(db, calls), meaning, sparql, result),
        content(other) == content(calls_after(db, calls)),
        graph_names(other.dict, other.graphs) == graph_names(calls_after(db, calls).dict, calls_after(db, calls).graphs),
    ensures
        ({
            let end = calls_after(db, calls);
            let answer = read_answer(end, sparql, result);
            &&& is_result(end, meaning, sparql, answer)
            &&& is_result(other, meaning, sparql, answer)
            &&& read_after(end, sparql, result).dict == end.dict
            &&& read_after(end, sparql, result).quads == end.quads
            &&& read_after(end, sparql, result).graphs == end.graphs
            &&& orderly(end)
            &&& results_current(end, meaning)
        }),
{
    lemma_calls(db, calls, meaning);
    let end = calls_after(db, calls);
    law_reads_are_current(end, sparql, result, meaning);
}

proof fn lemma_calls(db: DbSpec, calls: Seq<Call>, meaning: Meaning)
    requires
        orderly(db),
        results_current(db, meaning),
        calls_fit(db, calls, meaning),
    ensures
        orderly(calls_after(db, calls)),
        results_current(calls_after(db, calls), meaning),
    decreases calls.len(),
{
    if calls.len() > 0 {
        let front = calls.drop_last();
        assert forall|k: int| 0 <= k < front.len() implies call_fits(calls_after(db, front.take(k)), #[trigger] front[k], meaning) by {
            assert(front.take(k) =~= calls.take(k));
            assert(front[k] == calls[k]);
        }
        lemma_calls(db, front, meaning);
        assert(calls.take(calls.len() - 1) =~= front);
        assert(call_fits(calls_after(db, calls.take(calls.len() - 1)), calls[calls.len() - 1], meaning));
        lemma_call(calls_after(db, front), calls.last(), meaning);
    }
}

/// The content of a database that is built from triples is those triples.
pub open spec fn listed_content(ts: Seq<Triple>) -> Set<Fact> {
    Set::new(|f: Fact| f.1 is None && exists|k: int| 0 <= k < ts.len() && f.0 == keys_of(#[trigger] ts[k]))
}

pub proof fn lemma_built_content(name: Seq<char>, ts: Seq<Triple>)
    requires
        build_fits(ts),
    ensures
        content(built(name, ts)) == listed_content(ts),
        orderly(built(name, ts)),
{
    let db = built(name, ts);
    lemma_empty_ok();
    lemma_encoded_all(empty_dict(), ts);
    let d = db.dict;
    assert forall|f: Fact| #[trigger] content(db).contains(f) <==> listed_content(ts).contains(f) by {
        if content(db).contains(f) {
            let (u, h) = choose|u: Triple, h: Option<Seq<char>>| #[trigger] states(d, db.quads, u, h) && f == (keys_of(u), graph_key_of(h));
            let q = quad_of(d, u, h);
            let k = choose|k: int| 0 <= k < ts.len() && q.1 == id_of(d, #[trigger] ts[k]);
            assert(known(d, ts[k]));
            lemma_same_quad(d, ts[k], None, u, h);
        }
        if listed_content(ts).contains(f) {
            let k = choose|k: int| 0 <= k < ts.len() && f.0 == keys_of(#[trigger] ts[k]);
            assert(known(d, ts[k]));
            assert(db.quads.contains(quad_of(d, ts[k], None)));
            assert(states(d, db.quads, ts[k], None));
            assert(graph_key_of(None) == None::<Seq<char>>);
        }
    }
    assert(content(db) =~= listed_content(ts));
    assert forall|q: Quad| #[trigger] db.quads.contains(q) implies {
        &&& q.0 matches Some(g) ==> d.entities.contains_value(g)
        &&& d.entities.contains_value(q.1.sub)
        &&& d.predicates.contains_value(q.1.pred)
        &&& d.entities.contains_value(q.1.obj) || d.literals.contains_value(q.1.obj)
    } by {
        let k = choose|k: int| 0 <= k < ts.len() && q.1 == id_of(d, #[trigger] ts[k]);
        assert(known(d, ts[k]));
        assert(d.entities.contains_key(term_key(ts[k].subject@)));
    }
}

/// A query after any calls answers as it does on a database that is built anew from the
/// triples that the default graph holds by then, if there is no named graph.
pub proof fn law_queries_match_a_new_build(db: DbSpec, calls: Seq<Call>, meaning: Meaning, sparql: Seq<char>, result: Arc<QueryResult>, name: Seq<char>, ts: Seq<Triple>)
    requires
        orderly(db),
        results_current(db, meaning),
        calls_fit(db, calls, meaning),
        is_result(calls_after(db, calls), meaning, sparql, result),
        graph_names(calls_after(db, calls).dict, calls_after(db, calls).graphs).is_empty(),
        build_fits(ts),
        content(calls_after(db, calls)) == listed_content(ts),
    ensures
        is_result(built(name, ts), meaning, sparql, read_answer(calls_after(db, calls), sparql, result)),
{
    let new = built(name, ts);
    lemma_built_content(name, ts);
    assert(graph_names(new.dict, new.graphs) =~= Set::<Seq<char>>::empty());
    law_queries_are_current(db, calls, meaning, sparql, result, new);
}

/// Batches of any two sizes, zero included, build the same database, which is the one
/// that is built at once; a document that does not parse gives the same error.
pub proof fn law_batch_sizes_agree(name: Seq<char>, parsed: Result<Vec<Triple>>, a: Result<Database>, b: Result<Database>)
    requires
        builds(name, parsed, a),
        builds(name, parsed, b),
    ensures
        a is Ok <==> b is Ok,
        a matches Ok(x) ==> (b matches Ok(y) && x@ == y@ && x.default_graph() == y.default_graph()),
        a is Err ==> a == b,
{
    if a is Ok {
        let x = a->Ok_0;
        let y = b->Ok_0;
        x.lemma_graphs();
        y.lemma_graphs();
        assert forall|t: IdTriple| #[trigger] x.default_graph().contains(t) <==> y.default_graph().contains(t) by {
            let q: Quad = (None, t);
            assert(x@.quads.contains(q) <==> x.default_graph().contains(t));
            assert(y@.quads.contains(q) <==> y.default_graph().contains(t));
        }
        assert(x.default_graph() =~= y.default_graph());
    }
}

} // verus!
