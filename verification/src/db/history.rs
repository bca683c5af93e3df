//! What a database goes through, and what its redo log gives back of it.

use super::clear::{cleared, lemma_listed, quads_in, without};
use super::logs::{law_redo_log_roundtrip, lemma_redo_front, redo_bytes_all, redo_read_all, redo_valid, RedoSpec};
use super::replay::{first_bad, lemma_log_stays, lemma_recs_changes, parses_back, recs_changes, replayed};
use super::requests::derived;
use super::state::{begun, changed_by, changed_by_all, committed, dict_finite, dict_fits, effective, encoded_in, graph_known, grounded, known, law_changes_keep_order, law_delete_is_read_back, law_insert_is_read_back, law_rollback_restores, lemma_bytes_join, lemma_grounded_extends, lemma_insert_changes, lemma_quad_record, lemma_sizes_grow, present, quad_of, quad_records, record_of, redo_of, rolled_back, takes_effect, dict_extends, Change, DbSpec, Quad};
use super::update::{default_inserts, lemma_two_parts};
use crate::dict::{dict_ok, DictSpec};
use crate::error::Result;
use crate::model::Triple;
use crate::order::{lists, Ranked};
use vstd::prelude::*;

verus! {

/// What happens to a database.
pub ghost enum Act {
    /// Triples are inserted and deleted, one after the other.
    Make(Seq<Change>),
    /// The selected graphs are cleared of these triples.
    Clear(spec_fn(Option<u32>) -> bool, Seq<(Triple, Option<Seq<char>>)>),
    /// Derived triples are added.
    Derive(Seq<Triple>),
    /// A transaction is opened, if none is open.
    Begin,
    /// The open transaction is committed.
    Commit,
    /// The open transaction is rolled back.
    Rollback,
}

/// The database after an act.
pub open spec fn act_after(db: DbSpec, a: Act) -> DbSpec {
    match a {
        Act::Make(cs) => changed_by_all(db, cs),
        Act::Clear(selected, ts) => cleared(db, selected),
        Act::Derive(ts) => derived(db, ts),
        Act::Begin => if db.txn is None {
            begun(db)
        } else {
            db
        },
        Act::Commit => if db.txn is Some {
            committed(db)
        } else {
            db
        },
        Act::Rollback => if db.txn is Some {
            rolled_back(db)
        } else {
            db
        },
    }
}

/// The database after some acts.
pub open spec fn after_all(db: DbSpec, acts: Seq<Act>) -> DbSpec
    decreases acts.len(),
{
    if acts.len() == 0 {
        db
    } else {
        act_after(after_all(db, acts.drop_last()), acts.last())
    }
}

/// The quads of some triples.
pub open spec fn quads_named(d: DictSpec, ts: Seq<(Triple, Option<Seq<char>>)>) -> Seq<Quad> {
    ts.map_values(|x: (Triple, Option<Seq<char>>)| quad_of(d, x.0, x.1))
}

/// The act can happen: its terms find ids, and what a clearing takes away are the
/// triples of the selected graphs, in the order of their quads.
pub open spec fn act_fits(db: DbSpec, a: Act) -> bool {
    &&& dict_fits(act_after(db, a).dict)
    &&& a matches Act::Clear(selected, ts) ==> {
        &&& lists(quads_named(db.dict, ts), quads_in(db.quads, selected))
        &&& forall|k: int| 0 <= k < ts.len() ==> known(db.dict, (#[trigger] ts[k]).0) && graph_known(db.dict, ts[k].1)
    }
}

/// The acts can happen one after the other.
pub open spec fn acts_fit(db: DbSpec, acts: Seq<Act>) -> bool {
    forall|k: int| 0 <= k < acts.len() ==> act_fits(after_all(db, acts.take(k)), #[trigger] acts[k])
}

/// The deletions of some triples.
pub open spec fn deletions(ts: Seq<(Triple, Option<Seq<char>>)>) -> Seq<Change> {
    ts.map_values(|x: (Triple, Option<Seq<char>>)| Change::Delete(x.0, x.1))
}

/// The changes of the graphs that an act makes.
pub open spec fn act_changes(db: DbSpec, a: Act) -> Seq<Change> {
    match a {
        Act::Make(cs) => effective(db, cs),
        Act::Clear(selected, ts) => deletions(ts),
        Act::Derive(ts) => effective(db, default_inserts(ts)),
        _ => Seq::empty(),
    }
}

/// The changes that are done for good and those of the open transaction, after one
/// more act.
pub open spec fn made_after(mid: DbSpec, done: Seq<Change>, open: Seq<Change>, a: Act) -> (Seq<Change>, Seq<Change>) {
    match a {
        Act::Begin => (done, open),
        Act::Commit => (done + open, Seq::empty()),
        Act::Rollback => (done, Seq::empty()),
        a => if mid.txn is Some {
            (done, open + act_changes(mid, a))
        } else {
            (done + act_changes(mid, a), open)
        },
    }
}

/// The changes that are done for good, and those of the open transaction.
pub open spec fn made(db: DbSpec, acts: Seq<Act>) -> (Seq<Change>, Seq<Change>)
    decreases acts.len(),
{
    if acts.len() == 0 {
        (Seq::empty(), Seq::empty())
    } else {
        let (done, open) = made(db, acts.drop_last());
        made_after(after_all(db, acts.drop_last()), done, open, acts.last())
    }
}

/// The same triples are in the same graphs.
pub open spec fn agree(a: DbSpec, b: DbSpec) -> bool {
    forall|t: Triple, g: Option<Seq<char>>|
        #![trigger present(a, t, g)]
        #![trigger present(b, t, g)]
        present(a, t, g) <==> present(b, t, g)
}

/// The graphs without what the open transaction did.
pub open spec fn settled(db: DbSpec) -> DbSpec {
    match db.txn {
        Some(quads) => DbSpec { quads, ..db },
        None => db,
    }
}

/// Every key of `a` is one of `b`.
spec fn within(a: DictSpec, b: DictSpec) -> bool {
    &&& a.entities.dom().subset_of(b.entities.dom())
    &&& a.literals.dom().subset_of(b.literals.dom())
    &&& a.predicates.dom().subset_of(b.predicates.dom())
}

/// `r` follows `db`: it holds the same triples and knows no terms that `db` does not.
#[verifier::opaque]
spec fn follows(r: DbSpec, db: DbSpec) -> bool {
    &&& dict_ok(r.dict)
    &&& grounded(r.dict, r.quads)
    &&& dict_ok(db.dict)
    &&& grounded(db.dict, db.quads)
    &&& within(r.dict, db.dict)
    &&& agree(db, r)
}

proof fn lemma_within_fits(a: DictSpec, b: DictSpec)
    requires
        within(a, b),
        b.entities.dom().finite(),
        b.literals.dom().finite(),
        b.predicates.dom().finite(),
        dict_fits(b),
    ensures
        dict_fits(a),
{
    vstd::set_lib::lemma_len_subset(a.entities.dom(), b.entities.dom());
    vstd::set_lib::lemma_len_subset(a.literals.dom(), b.literals.dom());
    vstd::set_lib::lemma_len_subset(a.predicates.dom(), b.predicates.dom());
}

/// A change that takes effect is followed, and one that does not needs not be.
proof fn lemma_follow(db: DbSpec, r: DbSpec, c: Change)
    requires
        follows(r, db),
        dict_fits(changed_by(db, c).dict),
    ensures
        takes_effect(db, c) ==> follows(changed_by(r, c), changed_by(db, c)),
        !takes_effect(db, c) ==> follows(r, changed_by(db, c)),
        dict_extends(db.dict, changed_by(db, c).dict),
{
    reveal(follows);
    let after = changed_by(db, c);
    law_changes_keep_order(db, c);
    match c {
        Change::Insert(t, g) => {
            lemma_insert_changes(db, t, g);
            if takes_effect(db, c) {
                assert(within(encoded_in(r.dict, t, g), encoded_in(db.dict, t, g)));
                lemma_within_fits(encoded_in(r.dict, t, g), encoded_in(db.dict, t, g));
                law_changes_keep_order(r, c);
                assert forall|t2: Triple, g2: Option<Seq<char>>| present(after, t2, g2) <==> #[trigger] present(changed_by(r, c), t2, g2) by {
                    law_insert_is_read_back(db, t, g, t2, g2);
                    law_insert_is_read_back(r, t, g, t2, g2);
                }
            }
        },
        Change::Delete(t, g) => {
            law_changes_keep_order(r, c);
            assert forall|t2: Triple, g2: Option<Seq<char>>| present(after, t2, g2) <==> #[trigger] present(changed_by(r, c), t2, g2) by {
                law_delete_is_read_back(db, t, g, t2, g2);
                law_delete_is_read_back(r, t, g, t2, g2);
            }
        },
    }
}

proof fn lemma_extends(a: DictSpec, b: DictSpec, c: DictSpec)
    requires
        dict_extends(a, b),
        dict_extends(b, c),
    ensures
        dict_extends(a, c),
{
    assert forall|s: Seq<char>| #[trigger] a.entities.contains_key(s) implies c.entities.contains_key(s) && c.entities[s] == a.entities[s] by {
        assert(b.entities.contains_key(s));
    }
    assert forall|s: Seq<char>| #[trigger] a.literals.contains_key(s) implies c.literals.contains_key(s) && c.literals[s] == a.literals[s] by {
        assert(b.literals.contains_key(s));
    }
    assert forall|s: Seq<char>| #[trigger] a.predicates.contains_key(s) implies c.predicates.contains_key(s) && c.predicates[s] == a.predicates[s] by {
        assert(b.predicates.contains_key(s));
    }
}

/// Some changes are followed by those of them that take effect.
proof fn lemma_follow_all(db: DbSpec, r: DbSpec, cs: Seq<Change>)
    requires
        follows(r, db),
        dict_fits(changed_by_all(db, cs).dict),
    ensures
        follows(changed_by_all(r, effective(db, cs)), changed_by_all(db, cs)),
        dict_extends(db.dict, changed_by_all(db, cs).dict),
    decreases cs.len(),
{
    if cs.len() > 0 {
        let front = cs.drop_last();
        let c = cs.last();
        assert(dict_finite(db.dict)) by {
            reveal(follows);
        }
        lemma_sizes_grow(db, cs, cs.len() - 1);
        assert(cs.take(cs.len() - 1) =~= front);
        lemma_follow_all(db, r, front);
        let mid = changed_by_all(db, front);
        let eff = effective(db, front);
        lemma_follow(mid, changed_by_all(r, eff), c);
        lemma_extends(db.dict, mid.dict, changed_by(mid, c).dict);
        assert(eff.push(c).drop_last() =~= eff);
    }
}

/// The records of some changes.
pub open spec fn records_of(cs: Seq<Change>) -> Seq<RedoSpec> {
    cs.map_values(|c: Change| record_of(c))
}

/// What some changes that took effect leave in the redo log.
spec fn logged(db: DbSpec, after: DbSpec, cs: Seq<Change>) -> bool {
    &&& after.redo_log == db.redo_log
    &&& after.txn == db.txn
    &&& db.txn is Some ==> after.redo_pending == db.redo_pending + records_of(cs) && after.redo_out == db.redo_out
    &&& db.txn is None ==> after.redo_pending.len() == 0 && after.redo_out == db.redo_out + redo_bytes_all(records_of(cs))
}

proof fn lemma_records_join(a: Seq<Change>, b: Seq<Change>)
    ensures
        records_of(a + b) == records_of(a) + records_of(b),
        redo_bytes_all(records_of(a + b)) == redo_bytes_all(records_of(a)) + redo_bytes_all(records_of(b)),
{
    assert(records_of(a + b) =~= records_of(a) + records_of(b));
    lemma_bytes_join(records_of(a), records_of(b));
}

proof fn lemma_logged(db: DbSpec, cs: Seq<Change>)
    requires
        db.redo_log is Some,
        db.txn is None ==> db.redo_pending.len() == 0,
    ensures
        logged(db, changed_by_all(db, cs), effective(db, cs)),
    decreases cs.len(),
{
    if cs.len() == 0 {
        assert(records_of(effective(db, cs)) =~= Seq::<RedoSpec>::empty());
        assert(db.redo_pending + records_of(effective(db, cs)) =~= db.redo_pending);
        assert(db.redo_out + redo_bytes_all(records_of(effective(db, cs))) =~= db.redo_out);
    } else {
        let front = cs.drop_last();
        let c = cs.last();
        lemma_logged(db, front);
        let mid = changed_by_all(db, front);
        let eff = effective(db, front);
        if takes_effect(mid, c) {
            let one = seq![record_of(c)];
            assert(records_of(eff.push(c)) =~= records_of(eff) + one);
            lemma_bytes_join(records_of(eff), one);
            assert(mid.redo_pending.push(record_of(c)) =~= mid.redo_pending + one);
            if db.txn is Some {
                assert(db.redo_pending + records_of(eff) + one =~= db.redo_pending + (records_of(eff) + one));
            } else {
                assert(mid.redo_pending + one =~= one);
                assert(db.redo_out + redo_bytes_all(records_of(eff)) + redo_bytes_all(one) =~= db.redo_out + (redo_bytes_all(records_of(eff)) + redo_bytes_all(one)));
            }
        }
    }
}

/// Deleting triples that are there, each once: all deletions take effect, and exactly
/// the quads of the triples go.
proof fn lemma_deletions(db: DbSpec, ts: Seq<(Triple, Option<Seq<char>>)>, n: int)
    requires
        0 <= n <= ts.len(),
        forall|k: int| 0 <= k < ts.len() ==> known(db.dict, (#[trigger] ts[k]).0) && graph_known(db.dict, ts[k].1),
        forall|k: int| 0 <= k < ts.len() ==> db.quads.contains(#[trigger] quads_named(db.dict, ts)[k]),
        forall|i: int, j: int| 0 <= i < j < ts.len() ==> #[trigger] quads_named(db.dict, ts)[i] != #[trigger] quads_named(db.dict, ts)[j],
    ensures
        effective(db, deletions(ts).take(n)) == deletions(ts).take(n),
        changed_by_all(db, deletions(ts).take(n)).dict == db.dict,
        changed_by_all(db, deletions(ts).take(n)).quads == db.quads.difference(quads_named(db.dict, ts).take(n).to_set()),
    decreases n,
{
    let qs = quads_named(db.dict, ts);
    let cs = deletions(ts);
    if n == 0 {
        assert(cs.take(0) =~= Seq::<Change>::empty());
        assert(db.quads.difference(qs.take(0).to_set()) =~= db.quads);
    } else {
        lemma_deletions(db, ts, n - 1);
        assert(cs.take(n).drop_last() =~= cs.take(n - 1));
        let mid = changed_by_all(db, cs.take(n - 1));
        let q = qs[n - 1];
        assert(q == quad_of(db.dict, ts[n - 1].0, ts[n - 1].1));
        let before = qs.take(n - 1);
        let upto = qs.take(n);
        assert(mid.quads.contains(q)) by {
            if before.contains(q) {
                let i = choose|i: int| 0 <= i < before.len() && #[trigger] before[i] == q;
                assert(qs[i] == q && qs[n - 1] == q);
            }
            assert(db.quads.contains(qs[n - 1]));
        }
        assert(present(mid, ts[n - 1].0, ts[n - 1].1));
        assert forall|x: Quad| #[trigger] upto.to_set().contains(x) <==> before.to_set().insert(q).contains(x) by {
            if before.contains(x) {
                let i = choose|i: int| 0 <= i < before.len() && #[trigger] before[i] == x;
                assert(upto[i] == x);
            }
            if upto.contains(x) {
                let i = choose|i: int| 0 <= i < upto.len() && #[trigger] upto[i] == x;
                if i < n - 1 {
                    assert(before[i] == x);
                }
            }
            assert(upto[n - 1] == q);
        }
        assert(upto.to_set() =~= before.to_set().insert(q));
        assert(mid.quads.remove(q) =~= db.quads.difference(qs.take(n).to_set()));
        assert(cs.take(n - 1).push(cs[n - 1]) =~= cs.take(n));
    }
}

/// The records of the quads are those of the deletions.
proof fn lemma_deletion_records(d: DictSpec, ts: Seq<(Triple, Option<Seq<char>>)>)
    requires
        dict_ok(d),
        forall|k: int| 0 <= k < ts.len() ==> known(d, (#[trigger] ts[k]).0) && graph_known(d, ts[k].1),
    ensures
        quad_records(d, 'D', quads_named(d, ts)) == records_of(deletions(ts)),
    decreases ts.len(),
{
    let qs = quads_named(d, ts);
    if ts.len() > 0 {
        let front = ts.drop_last();
        assert forall|k: int| 0 <= k < front.len() implies known(d, (#[trigger] front[k]).0) && graph_known(d, front[k].1) by {
            assert(front[k] == ts[k]);
        }
        lemma_deletion_records(d, front);
        assert(qs.drop_last() =~= quads_named(d, front));
        let x = ts[ts.len() - 1];
        lemma_quad_record(d, 'D', x.0, x.1);
        assert(records_of(deletions(ts)) =~= records_of(deletions(front)).push(redo_of('D', x.1, x.0)));
    } else {
        assert(records_of(deletions(ts)) =~= Seq::<RedoSpec>::empty());
    }
}

/// A clearing is followed by its deletions, and logged as they are.
proof fn lemma_clear(db: DbSpec, r: DbSpec, a: Act)
    requires
        a is Clear,
        act_fits(db, a),
        follows(r, db),
        db.redo_log is Some,
        db.txn is None ==> db.redo_pending.len() == 0,
    ensures
        follows(changed_by_all(r, act_changes(db, a)), act_after(db, a)),
        logged(db, act_after(db, a), act_changes(db, a)),
        act_after(db, a).dict == db.dict,
{
    reveal(follows);
    let selected = a->Clear_0;
    let ts = a->Clear_1;
    let qs = quads_named(db.dict, ts);
    let gone = quads_in(db.quads, selected);
    let cs = deletions(ts);
    let after = cleared(db, selected);
    lemma_listed(qs, gone);
    assert forall|k: int| 0 <= k < ts.len() implies db.quads.contains(#[trigger] qs[k]) by {
        assert(qs.to_set().contains(qs[k]));
        assert(gone.contains(qs[k]));
    }
    assert forall|i: int, j: int| 0 <= i < j < ts.len() implies #[trigger] qs[i] != #[trigger] qs[j] by {
        assert(qs[i].rank() < qs[j].rank());
    }
    lemma_deletions(db, ts, ts.len() as int);
    assert(cs.take(ts.len() as int) =~= cs);
    assert(qs.take(ts.len() as int) =~= qs);
    lemma_deletion_records(db.dict, ts);
    let plain = changed_by_all(db, cs);
    lemma_follow_all(db, r, cs);
    if gone.len() == 0 {
        assert(ts.len() == 0);
        assert(cs =~= Seq::<Change>::empty());
        assert(records_of(cs) =~= Seq::<RedoSpec>::empty());
        assert(db.redo_pending + records_of(cs) =~= db.redo_pending);
        assert(db.redo_out + redo_bytes_all(records_of(cs)) =~= db.redo_out);
    } else {
        assert(records_of(cs).len() == ts.len());
        let left = without(db, gone, selected);
        assert(after.quads == left.quads && after.dict == db.dict);
        if db.txn is None {
            assert(db.redo_pending + records_of(cs) =~= records_of(cs));
        }
    }
    assert(after.quads =~= plain.quads);
    assert forall|t: Triple, g: Option<Seq<char>>| present(after, t, g) <==> #[trigger] present(changed_by_all(r, cs), t, g) by {
        assert(present(after, t, g) <==> present(plain, t, g));
    }
}

/// What holds after some acts: the log has what is done for good, the open transaction
/// has the rest, and both are followed.
spec fn kept_up(end: DbSpec, start: DbSpec, done: Seq<Change>, open: Seq<Change>) -> bool {
    &&& end.redo_log is Some
    &&& end.redo_out == redo_bytes_all(records_of(done))
    &&& end.redo_pending == records_of(open)
    &&& end.txn is None ==> open.len() == 0
    &&& follows(changed_by_all(start, done + open), end)
    &&& follows(changed_by_all(start, done), settled(end))
}

/// The graphs of the start of the transaction stay what they are while terms are added.
proof fn lemma_settled(db: DbSpec, after: DbSpec, r: DbSpec)
    requires
        follows(r, settled(db)),
        db.txn is Some,
        after.txn == db.txn,
        dict_ok(after.dict),
        dict_extends(db.dict, after.dict),
    ensures
        follows(r, settled(after)),
{
    reveal(follows);
    let a = settled(db);
    let b = settled(after);
    lemma_grounded_extends(a.dict, b.dict, a.quads);
    assert forall|t: Triple, g: Option<Seq<char>>| present(b, t, g) <==> #[trigger] present(r, t, g) by {
        law_rollback_restores(a, b, t, g);
        assert(present(a, t, g) <==> present(r, t, g));
    }
    assert(within(r.dict, b.dict)) by {
        assert forall|s: Seq<char>| r.dict.entities.dom().contains(s) implies #[trigger] b.dict.entities.dom().contains(s) by {
            assert(a.dict.entities.contains_key(s));
        }
        assert forall|s: Seq<char>| r.dict.literals.dom().contains(s) implies #[trigger] b.dict.literals.dom().contains(s) by {
            assert(a.dict.literals.contains_key(s));
        }
        assert forall|s: Seq<char>| r.dict.predicates.dom().contains(s) implies #[trigger] b.dict.predicates.dom().contains(s) by {
            assert(a.dict.predicates.contains_key(s));
        }
    }
}

/// Triples are in a database by its dictionary and its quads alone.
proof fn lemma_same_triples(r: DbSpec, a: DbSpec, b: DbSpec)
    requires
        follows(r, a),
        b.dict == a.dict,
        b.quads == a.quads,
    ensures
        follows(r, b),
{
    reveal(follows);
    assert forall|t: Triple, g: Option<Seq<char>>| present(b, t, g) <==> #[trigger] present(r, t, g) by {
        assert(present(a, t, g) <==> present(r, t, g));
    }
}

/// One act that changes graphs.
proof fn lemma_act(db: DbSpec, r: DbSpec, a: Act)
    requires
        a is Make || a is Clear || a is Derive,
        act_fits(db, a),
        follows(r, db),
        db.redo_log is Some,
        db.txn is None ==> db.redo_pending.len() == 0,
    ensures
        follows(changed_by_all(r, act_changes(db, a)), act_after(db, a)),
        logged(db, act_after(db, a), act_changes(db, a)),
        dict_extends(db.dict, act_after(db, a).dict),
{
    match a {
        Act::Make(cs) => {
            lemma_follow_all(db, r, cs);
            lemma_logged(db, cs);
        },
        Act::Clear(selected, ts) => {
            lemma_clear(db, r, a);
        },
        Act::Derive(ts) => {
            let cs = default_inserts(ts);
            lemma_follow_all(db, r, cs);
            lemma_logged(db, cs);
            lemma_same_triples(changed_by_all(r, effective(db, cs)), changed_by_all(db, cs), derived(db, ts));
        },
        _ => {},
    }
}

/// Opening, committing or rolling back a transaction keeps up.
proof fn lemma_step_txn(mid: DbSpec, start: DbSpec, done: Seq<Change>, open: Seq<Change>, a: Act)
    requires
        kept_up(mid, start, done, open),
        a is Begin || a is Commit || a is Rollback,
    ensures
        ({
            let (done1, open1) = made_after(mid, done, open, a);
            kept_up(act_after(mid, a), start, done1, open1)
        }),
{
    let end = act_after(mid, a);
    let none = Seq::<Change>::empty();
    assert(records_of(none) =~= Seq::<RedoSpec>::empty());
    assert((done + open) + none =~= done + open);
    assert(done + none =~= done);
    if mid.txn is None {
        assert(open =~= none);
    }
    match a {
        Act::Begin => {
            if mid.txn is None {
                lemma_same_triples(changed_by_all(start, done), mid, end);
                lemma_same_triples(changed_by_all(start, done), mid, settled(end));
            }
        },
        Act::Commit => {
            lemma_records_join(done, open);
            if mid.txn is Some {
                assert(end.redo_pending =~= records_of(none));
                lemma_same_triples(changed_by_all(start, done + open), mid, end);
            }
        },
        _ => {
            if mid.txn is Some {
                assert(end.redo_pending =~= records_of(none));
                lemma_same_triples(changed_by_all(start, done), settled(mid), end);
            }
        },
    }
}

/// Changing graphs keeps up.
proof fn lemma_step_act(mid: DbSpec, start: DbSpec, done: Seq<Change>, open: Seq<Change>, a: Act)
    requires
        kept_up(mid, start, done, open),
        act_fits(mid, a),
        a is Make || a is Clear || a is Derive,
    ensures
        ({
            let (done1, open1) = made_after(mid, done, open, a);
            kept_up(act_after(mid, a), start, done1, open1)
        }),
{
    let end = act_after(mid, a);
    let more = act_changes(mid, a);
    lemma_act(mid, changed_by_all(start, done + open), a);
    lemma_two_parts(start, done + open, more);
    if mid.txn is Some {
        assert((done + open) + more =~= done + (open + more));
        lemma_records_join(open, more);
        assert(dict_ok(end.dict)) by {
            reveal(follows);
        }
        lemma_settled(mid, end, changed_by_all(start, done));
    } else {
        assert(open =~= Seq::<Change>::empty());
        assert((done + open) + more =~= done + more);
        assert((done + more) + open =~= done + more);
        lemma_records_join(done, more);
        assert(end.redo_pending =~= records_of(open));
    }
}

proof fn lemma_kept_up(db: DbSpec, start: DbSpec, acts: Seq<Act>)
    requires
        dict_ok(db.dict),
        grounded(db.dict, db.quads),
        db.redo_log is Some,
        db.txn is None,
        db.redo_pending.len() == 0,
        db.redo_out.len() == 0,
        start.dict == db.dict,
        start.quads == db.quads,
        acts_fit(db, acts),
    ensures
        kept_up(after_all(db, acts), start, made(db, acts).0, made(db, acts).1),
    decreases acts.len(),
{
    if acts.len() == 0 {
        let none = Seq::<Change>::empty();
        assert(none + none =~= none);
        assert(records_of(none) =~= Seq::<RedoSpec>::empty());
        assert(db.redo_out =~= redo_bytes_all(records_of(none)));
        assert(db.redo_pending =~= records_of(none));
        lemma_same_triples_self(db, start);
    } else {
        let front = acts.drop_last();
        let a = acts.last();
        assert forall|k: int| 0 <= k < front.len() implies act_fits(after_all(db, front.take(k)), #[trigger] front[k]) by {
            assert(front.take(k) =~= acts.take(k));
            assert(front[k] == acts[k]);
        }
        lemma_kept_up(db, start, front);
        assert(acts.take(acts.len() - 1) =~= front);
        assert(act_fits(after_all(db, acts.take(acts.len() - 1)), acts[acts.len() - 1]));
        let mid = after_all(db, front);
        let (done, open) = made(db, front);
        if a is Begin || a is Commit || a is Rollback {
            lemma_step_txn(mid, start, done, open, a);
        } else {
            lemma_step_act(mid, start, done, open, a);
        }
    }
}

proof fn lemma_same_triples_self(db: DbSpec, start: DbSpec)
    requires
        dict_ok(db.dict),
        grounded(db.dict, db.quads),
        start.dict == db.dict,
        start.quads == db.quads,
    ensures
        follows(start, db),
{
    reveal(follows);
}

/// Recovery: a database with a redo log goes through changes, clearings, derivations
/// and transactions. Its log is then read by a database in the state it started from.
/// All records are intact. Applying them gives the triples, in the graphs, that were
/// made for good: those of a transaction that was committed, and none of one that was
/// rolled back or is still open; with no transaction open, that is all it holds. Nothing
/// goes to a log of the database that reads, and that log is on or off as it was. This
/// holds where the text of each triple parses back to the triple and every named graph
/// has a name that is not empty.
pub proof fn law_history_is_recovered(db: DbSpec, start: DbSpec, acts: Seq<Act>, parsed: Seq<Result<Vec<Triple>>>)
    requires
        dict_ok(db.dict),
        grounded(db.dict, db.quads),
        db.redo_log is Some,
        db.txn is None,
        db.redo_pending.len() == 0,
        db.redo_out.len() == 0,
        start.dict == db.dict,
        start.quads == db.quads,
        acts_fit(db, acts),
        forall|i: int| 0 <= i < made(db, acts).0.len() ==> redo_valid(record_of(#[trigger] made(db, acts).0[i])),
        parses_back(made(db, acts).0, parsed),
    ensures
        ({
            let end = after_all(db, acts);
            let (rs, tail) = redo_read_all(end.redo_out, 0);
            let back = replayed(start, recs_changes(rs, parsed));
            &&& tail is None
            &&& rs.len() == parsed.len()
            &&& first_bad(rs, parsed) is None
            &&& agree(settled(end), back)
            &&& end.txn is None ==> agree(end, back)
            &&& back.redo_log == start.redo_log
            &&& back.redo_out == start.redo_out
            &&& back.redo_pending == start.redo_pending
        }),
{
    reveal(follows);
    lemma_kept_up(db, start, acts);
    let end = after_all(db, acts);
    let done = made(db, acts).0;
    let recs = records_of(done);
    assert forall|i: int| 0 <= i < recs.len() implies redo_valid(#[trigger] recs[i]) by {
        assert(redo_valid(record_of(done[i])));
    }
    lemma_redo_front(recs);
    law_redo_log_roundtrip(Seq::empty(), recs);
    assert(Seq::<u8>::empty() + redo_bytes_all(recs) =~= redo_bytes_all(recs));
    lemma_recs_changes(done, parsed);
    let rs = redo_read_all(end.redo_out, 0).0;
    let back = replayed(start, recs_changes(rs, parsed));
    let plain = changed_by_all(start, done);
    lemma_log_stays(DbSpec { redo_log: None, ..start }, recs_changes(rs, parsed));
    super::replay::lemma_same_dict(start, DbSpec { redo_log: None, ..start }, done);
    assert forall|t: Triple, g: Option<Seq<char>>| present(settled(end), t, g) <==> #[trigger] present(back, t, g) by {
        assert(present(back, t, g) <==> present(plain, t, g));
    }
}

} // verus!
