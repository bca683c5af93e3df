//! What holds of transactions over all that happens in them, and of building.

use super::laws::{content, lemma_content, listed_content, lemma_built_content};
use super::logs::{redo_bytes_all, RedoSpec};
use super::open::{all_triples, build_fits, built, first_error};
use super::requests::ops_after;
use super::results::{states, Fact};
use super::state::{begun, changed_by, changed_by_all, committed, deleted, dict_extends, dict_fits, graph_key_of, grounded, keys_of, law_delete_is_read_back, law_rollback_restores, lemma_bytes_join, noted, present, quad_of, rolled_back, takes_effect, Change, DbSpec, Quad};
use super::update::{lemma_changes_grow, op_after, op_changes};
use super::clear::{cleared, quads_in, target_selects};
use super::Database;
use crate::dict::dict_ok;
use crate::error::Result;
use crate::model::{IdTriple, Triple};
use crate::query::UpdateOp;
use vstd::prelude::*;

verus! {

/// The same graphs, by the same ids.
pub open spec fn same_graphs(a: DbSpec, b: DbSpec) -> bool {
    &&& a.dict == b.dict
    &&& a.quads == b.quads
    &&& a.graphs == b.graphs
}

/// In an open transaction `a`, what has been done without one in `b`: the records that
/// wait in `a` are those that `b` has written.
spec fn in_step(a: DbSpec, b: DbSpec, written: Seq<u8>) -> bool {
    &&& same_graphs(a, b)
    &&& a.redo_log == b.redo_log
    &&& a.txn is Some
    &&& b.txn is None
    &&& b.redo_pending.len() == 0
    &&& a.redo_out == written
    &&& b.redo_log is Some ==> b.redo_out == written + redo_bytes_all(a.redo_pending)
    &&& b.redo_log is None ==> b.redo_out == written && a.redo_pending.len() == 0
}

proof fn lemma_step_noted(a: DbSpec, b: DbSpec, written: Seq<u8>, rec: RedoSpec)
    requires
        in_step(a, b, written),
    ensures
        in_step(noted(a, rec), noted(b, rec), written),
{
    if a.redo_log is Some {
        let one = seq![rec];
        assert(b.redo_pending =~= Seq::<RedoSpec>::empty());
        assert(b.redo_pending.push(rec) =~= one);
        assert(a.redo_pending.push(rec) =~= a.redo_pending + one);
        lemma_bytes_join(a.redo_pending, one);
        assert(noted(b, rec).redo_out =~= written + redo_bytes_all(a.redo_pending + one));
    }
}

proof fn lemma_step_changes(a: DbSpec, b: DbSpec, written: Seq<u8>, cs: Seq<Change>)
    requires
        in_step(a, b, written),
    ensures
        in_step(changed_by_all(a, cs), changed_by_all(b, cs), written),
        changed_by_all(a, cs).txn == a.txn,
    decreases cs.len(),
{
    if cs.len() > 0 {
        let front = cs.drop_last();
        lemma_step_changes(a, b, written, front);
        let (x, y) = (changed_by_all(a, front), changed_by_all(b, front));
        let c = cs.last();
        if takes_effect(x, c) {
            match c {
                Change::Insert(t, g) => {
                    let d = super::state::encoded_in(x.dict, t, g);
                    let q = quad_of(d, t, g);
                    let rec = super::state::redo_of('I', g, t);
                    let u = DbSpec { dict: d, quads: x.quads.insert(q), graphs: super::state::with_graph(x.graphs, q.0), index_valid: x.index_valid && (q.0 is Some || !x.disk_index), cache: Seq::empty(), ..x };
                    let v = DbSpec { dict: d, quads: y.quads.insert(q), graphs: super::state::with_graph(y.graphs, q.0), index_valid: y.index_valid && (q.0 is Some || !y.disk_index), cache: Seq::empty(), ..y };
                    lemma_step_noted(u, v, written, rec);
                    assert(changed_by(x, c) == noted(u, rec));
                    assert(changed_by(y, c) == noted(v, rec));
                },
                Change::Delete(t, g) => {
                    let q = quad_of(x.dict, t, g);
                    let rec = super::state::redo_of('D', g, t);
                    let u = DbSpec { quads: x.quads.remove(q), txn_graphs: super::state::with_graph(x.txn_graphs, q.0), index_valid: x.index_valid && q.0 is Some, cache: Seq::empty(), ..x };
                    let v = DbSpec { quads: y.quads.remove(q), index_valid: y.index_valid && q.0 is Some, cache: Seq::empty(), ..y };
                    lemma_step_noted(u, v, written, rec);
                    assert(changed_by(x, c) == noted(u, rec));
                    assert(changed_by(y, c) == noted(v, rec));
                },
            }
        }
    }
}

proof fn lemma_step_cleared(a: DbSpec, b: DbSpec, written: Seq<u8>, sel: spec_fn(Option<u32>) -> bool)
    requires
        in_step(a, b, written),
    ensures
        in_step(cleared(a, sel), cleared(b, sel), written),
        cleared(a, sel).txn == a.txn,
{
    let gone = quads_in(a.quads, sel);
    if gone.len() != 0 {
        let recs = super::state::quad_records(a.dict, 'D', super::clear::quad_list(gone));
        assert(b.redo_pending =~= Seq::<RedoSpec>::empty());
        assert(b.redo_pending + recs =~= recs);
        assert(a.redo_pending + recs.take(0) =~= a.redo_pending);
        lemma_bytes_join(a.redo_pending, recs);
        if a.redo_log is Some && recs.len() > 0 {
            assert(cleared(b, sel).redo_out =~= written + redo_bytes_all(a.redo_pending + recs));
        }
    }
}

/// What operations do does not depend on whether they are in a transaction: the graphs are
/// the same, and the redo log has the same bytes once the transaction is committed.
pub proof fn law_commit_makes_it_last(db: DbSpec, ops: Seq<UpdateOp>)
    requires
        db.txn is None,
        db.redo_pending.len() == 0,
    ensures
        ({
            let inside = ops_after(begun(db), ops);
            let done = committed(inside);
            let plain = ops_after(db, ops);
            &&& done.quads == plain.quads
            &&& done.dict == plain.dict
            &&& done.graphs == plain.graphs
            &&& done.redo_out == plain.redo_out
            &&& done.redo_pending.len() == 0
            &&& done.txn is None
            &&& inside.redo_out == db.redo_out
            &&& inside.txn == Some(db.quads)
        }),
{
    lemma_step_ops(db, ops);
    let inside = ops_after(begun(db), ops);
    if inside.redo_log is None {
        assert(inside.redo_pending =~= Seq::<RedoSpec>::empty());
    }
}

proof fn lemma_step_ops(db: DbSpec, ops: Seq<UpdateOp>)
    requires
        db.txn is None,
        db.redo_pending.len() == 0,
    ensures
        in_step(ops_after(begun(db), ops), ops_after(db, ops), db.redo_out),
        ops_after(begun(db), ops).txn == Some(db.quads),
    decreases ops.len(),
{
    if ops.len() == 0 {
        assert(db.redo_pending =~= Seq::<RedoSpec>::empty());
        assert(db.redo_out =~= db.redo_out + redo_bytes_all(Seq::<RedoSpec>::empty()));
    } else {
        let front = ops.drop_last();
        lemma_step_ops(db, front);
        let (a, b) = (ops_after(begun(db), front), ops_after(db, front));
        match ops.last() {
            UpdateOp::Clear { target } => {
                lemma_step_cleared(a, b, db.redo_out, target_selects(a.dict, target));
            },
            UpdateOp::Drop { target } => {
                lemma_step_cleared(a, b, db.redo_out, target_selects(a.dict, target));
            },
            _ => {
                lemma_step_changes(a, b, db.redo_out, op_changes(ops.last()));
            },
        }
    }
}

/// The terms of the operations find ids, one after the other.
pub open spec fn ops_fit(db: DbSpec, ops: Seq<UpdateOp>) -> bool {
    forall|k: int| 0 <= k < ops.len() ==> dict_fits(op_after(ops_after(db, ops.take(k)), #[trigger] ops[k]).dict)
}

proof fn lemma_ops_extend(db: DbSpec, ops: Seq<UpdateOp>)
    requires
        dict_ok(db.dict),
        ops_fit(db, ops),
    ensures
        dict_ok(ops_after(db, ops).dict),
        dict_extends(db.dict, ops_after(db, ops).dict),
    decreases ops.len(),
{
    if ops.len() > 0 {
        let front = ops.drop_last();
        assert forall|k: int| 0 <= k < front.len() implies dict_fits(op_after(ops_after(db, front.take(k)), #[trigger] front[k]).dict) by {
            assert(front.take(k) =~= ops.take(k));
            assert(front[k] == ops[k]);
        }
        lemma_ops_extend(db, front);
        let mid = ops_after(db, front);
        assert(ops.take(ops.len() - 1) =~= front);
        assert(dict_fits(op_after(ops_after(db, ops.take(ops.len() - 1)), ops[ops.len() - 1]).dict));
        match ops.last() {
            UpdateOp::Clear { target } => {},
            UpdateOp::Drop { target } => {},
            _ => {
                lemma_changes_grow(mid, op_changes(ops.last()));
            },
        }
    }
}

/// Whatever operations a transaction has, after its rollback the graphs hold the same facts
/// as when it began, nothing has gone to the redo log, and no transaction is open. No query
/// result is kept, and the search index counts as out of date.
pub proof fn law_rollback_is_as_before(db: DbSpec, ops: Seq<UpdateOp>)
    requires
        dict_ok(db.dict),
        grounded(db.dict, db.quads),
        db.txn is None,
        db.redo_pending.len() == 0,
        ops_fit(begun(db), ops),
    ensures
        ({
            let back = rolled_back(ops_after(begun(db), ops));
            &&& content(back) == content(db)
            &&& back.quads == db.quads
            &&& back.txn is None
            &&& back.redo_out == db.redo_out
            &&& back.redo_pending.len() == 0
            &&& back.cache.len() == 0
            &&& !back.index_valid
        }),
{
    let inside = ops_after(begun(db), ops);
    let back = rolled_back(inside);
    lemma_step_ops(db, ops);
    lemma_ops_extend(begun(db), ops);
    assert forall|f: Fact| content(back).contains(f) <==> content(db).contains(f) by {
        if content(back).contains(f) {
            let (u, h) = choose|u: Triple, h: Option<Seq<char>>| #[trigger] states(back.dict, back.quads, u, h) && f == (keys_of(u), graph_key_of(h));
            law_rollback_restores(db, back, u, h);
            lemma_content(db, u, h);
        }
        if content(db).contains(f) {
            let (u, h) = choose|u: Triple, h: Option<Seq<char>>| #[trigger] states(db.dict, db.quads, u, h) && f == (keys_of(u), graph_key_of(h));
            law_rollback_restores(db, back, u, h);
            lemma_content(back, u, h);
        }
    }
    assert(content(back) =~= content(db));
}

/// Opening and committing a transaction change no fact and no setting.
pub proof fn law_begin_and_commit_change_no_facts(db: DbSpec)
    ensures
        content(begun(db)) == content(db),
        begun(db).graphs == db.graphs,
        begun(db).cache == db.cache,
        begun(db).index_valid == db.index_valid,
        begun(db).redo_out == db.redo_out,
        begun(db).txn == Some(db.quads),
        content(committed(db)) == content(db),
        committed(db).graphs == db.graphs,
        committed(db).cache == db.cache,
        committed(db).index_valid == db.index_valid,
        committed(db).txn is None,
        committed(db).rules == db.rules,
        begun(db).rules == db.rules,
        rolled_back(db).rules == db.rules,
        rolled_back(db).functions == db.functions,
        rolled_back(db).name == db.name,
{
}

/// A removal from the default graph takes effect exactly if the triple is there. The graph
/// then holds what it held without the triple, and one triple fewer if the removal took
/// effect. The named graphs are as they were.
pub proof fn law_removal_takes_the_triple(before: Database, after: Database, t: Triple)
    requires
        before.wf(),
        after.wf(),
        dict_ok(before@.dict),
        grounded(before@.dict, before@.quads),
        after@ == deleted(before@, t, None),
    ensures
        !present(after@, t, None),
        forall|f: Fact| #[trigger] content(after@).contains(f) <==> content(before@).contains(f) && f != (keys_of(t), None::<Seq<char>>),
        after.default_graph().len() + (if present(before@, t, None) { 1int } else { 0 }) == before.default_graph().len(),
        !present(before@, t, None) ==> after@ == before@,
        after@.graphs == before@.graphs,
        forall|q: Quad| q.0 is Some ==> (#[trigger] after@.quads.contains(q) <==> before@.quads.contains(q)),
{
    law_delete_is_read_back(before@, t, None, t, None);
    before.lemma_graphs();
    after.lemma_graphs();
    assert forall|f: Fact| #[trigger] content(after@).contains(f) <==> content(before@).contains(f) && f != (keys_of(t), None::<Seq<char>>) by {
        if content(after@).contains(f) {
            let (u, h) = choose|u: Triple, h: Option<Seq<char>>| #[trigger] states(after@.dict, after@.quads, u, h) && f == (keys_of(u), graph_key_of(h));
            law_delete_is_read_back(before@, t, None, u, h);
            lemma_content(before@, u, h);
        }
        if content(before@).contains(f) && f != (keys_of(t), None::<Seq<char>>) {
            let (u, h) = choose|u: Triple, h: Option<Seq<char>>| #[trigger] states(before@.dict, before@.quads, u, h) && f == (keys_of(u), graph_key_of(h));
            law_delete_is_read_back(before@, t, None, u, h);
            lemma_content(after@, u, h);
        }
    }
    let q = quad_of(before@.dict, t, None);
    assert forall|x: IdTriple| #[trigger] after.default_graph().contains(x) <==> before.default_graph().contains(x) && !(present(before@, t, None) && x == q.1) by {
        let none: Quad = (None, x);
        assert(after@.quads.contains(none) <==> after.default_graph().contains(x));
        assert(before@.quads.contains(none) <==> before.default_graph().contains(x));
    }
    if present(before@, t, None) {
        assert(before@.quads.contains(q) <==> before.default_graph().contains(q.1));
        assert(after.default_graph() =~= before.default_graph().remove(q.1));
    } else {
        assert(after.default_graph() =~= before.default_graph());
    }
}

/// A database that is built from triples has the name, holds these triples in its default
/// graph and no others, has no named graph, and its search index is valid.
pub proof fn law_built_holds_the_triples(name: Seq<char>, ts: Seq<Triple>)
    requires
        build_fits(ts),
    ensures
        built(name, ts).name == name,
        forall|k: int| 0 <= k < ts.len() ==> content(built(name, ts)).contains((keys_of(#[trigger] ts[k]), None)),
        forall|f: Fact| #[trigger] content(built(name, ts)).contains(f) ==> f.1 is None && exists|k: int| 0 <= k < ts.len() && f.0 == keys_of(#[trigger] ts[k]),
        forall|q: Quad| #[trigger] built(name, ts).quads.contains(q) ==> q.0 is None,
        built(name, ts).graphs == Set::<u32>::empty(),
        built(name, ts).index_valid,
        built(name, ts).txn is None,
        built(name, ts).redo_log is None,
        built(name, ts).update_log is None,
{
    lemma_built_content(name, ts);
    let db = built(name, ts);
    assert forall|k: int| 0 <= k < ts.len() implies content(db).contains((keys_of(#[trigger] ts[k]), None)) by {
        assert(listed_content(ts).contains((keys_of(ts[k]), None)));
    }
    assert forall|f: Fact| #[trigger] content(db).contains(f) implies f.1 is None && exists|k: int| 0 <= k < ts.len() && f.0 == keys_of(#[trigger] ts[k]) by {
        assert(listed_content(ts).contains(f));
    }
}

/// Files are read in order: all triples of each are there, those of a file behind those of
/// the files before it, and no others. If one does not parse, the first such is reported.
pub proof fn law_files_are_read_in_order(files: Seq<Result<Vec<Triple>>>, last: Result<Vec<Triple>>)
    ensures
        last matches Ok(ts) ==> all_triples(files.push(last)) == all_triples(files) + ts@,
        all_triples(Seq::<Result<Vec<Triple>>>::empty()) == Seq::<Triple>::empty(),
        first_error(files) is None <==> forall|k: int| 0 <= k < files.len() ==> #[trigger] files[k] is Ok,
        first_error(files) matches Some(k) ==> 0 <= k < files.len() && files[k] is Err && forall|j: int| 0 <= j < k ==> #[trigger] files[j] is Ok,
    decreases files.len(),
{
    assert(files.push(last).drop_last() =~= files);
    assert(files.push(last).last() == last);
    if files.len() > 0 {
        let front = files.drop_last();
        law_files_are_read_in_order(front, last);
        assert(files[files.len() - 1] == files.last());
        assert forall|k: int| 0 <= k < front.len() implies #[trigger] files[k] == front[k] by {
        }
        match first_error(front) {
            Some(k) => {
                assert(files[k] is Err);
                assert forall|j: int| 0 <= j < k implies #[trigger] files[j] is Ok by {
                    assert(front[j] is Ok);
                }
            },
            None => {
                assert forall|j: int| 0 <= j < front.len() implies #[trigger] files[j] is Ok by {
                    assert(front[j] is Ok);
                }
            },
        }
    }
}

} // verus!
