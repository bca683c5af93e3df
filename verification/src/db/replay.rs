//! Recovery from the redo log.

use super::logs::{is_database_error, lemma_redo_front, law_redo_log_roundtrip, redo_bytes_all, redo_read_all, redo_records, redo_valid, redo_views, RedoRec, RedoSpec};
use super::state::{changed_by_all, dict_finite, dict_fits, effective, grounded, law_redo_replay, lemma_sizes_grow, record_of, Change, DbSpec};
use super::update::{lemma_change_fits, lemma_one_more, lemma_two_parts};
use super::{opt_view, Database};
use crate::dict::dict_ok;
use crate::error::{join3, GStoreError, Result};
use crate::model::Triple;
use vstd::prelude::*;
use vstd::string::*;

verus! {

/// The changes of a redo record, given the triples that its text holds.
pub open spec fn rec_changes(r: RedoSpec, ts: Seq<Triple>) -> Seq<Change> {
    if r.op == 'I' {
        ts.map_values(|t: Triple| Change::Insert(t, r.graph))
    } else {
        ts.map_values(|t: Triple| Change::Delete(t, r.graph))
    }
}

/// A record that cannot be applied: its text does not parse, or it holds triples
/// and its operation is neither an insertion nor a deletion.
pub open spec fn rec_fails(r: RedoSpec, parsed: Result<Vec<Triple>>) -> bool {
    match parsed {
        Err(e) => true,
        Ok(ts) => ts@.len() > 0 && r.op != 'I' && r.op != 'D',
    }
}

/// The error of a record that cannot be applied.
pub open spec fn is_rec_error(r: RedoSpec, parsed: Result<Vec<Triple>>, e: GStoreError) -> bool {
    match parsed {
        Err(p) => e == p,
        Ok(ts) => is_database_error(e, "unknown redo.log op '"@ + seq![r.op] + "'"@),
    }
}

/// The changes of some records.
pub open spec fn recs_changes(rs: Seq<RedoSpec>, parsed: Seq<Result<Vec<Triple>>>) -> Seq<Change>
    decreases rs.len(),
{
    if rs.len() == 0 || parsed.len() != rs.len() {
        Seq::empty()
    } else {
        recs_changes(rs.drop_last(), parsed.drop_last()) + match parsed.last() {
            Ok(ts) => rec_changes(rs.last(), ts@),
            Err(e) => Seq::empty(),
        }
    }
}

/// The first record that cannot be applied.
pub open spec fn first_bad(rs: Seq<RedoSpec>, parsed: Seq<Result<Vec<Triple>>>) -> Option<int>
    decreases rs.len(),
{
    if rs.len() == 0 || parsed.len() != rs.len() {
        None
    } else {
        match first_bad(rs.drop_last(), parsed.drop_last()) {
            Some(k) => Some(k),
            None => if rec_fails(rs.last(), parsed.last()) {
                Some(rs.len() - 1)
            } else {
                None
            },
        }
    }
}

/// The database after some changes that do not go to the redo log.
pub open spec fn replayed(db: DbSpec, cs: Seq<Change>) -> DbSpec {
    DbSpec { redo_log: db.redo_log, ..changed_by_all(DbSpec { redo_log: None, ..db }, cs) }
}

proof fn lemma_bad_prefix(rs: Seq<RedoSpec>, parsed: Seq<Result<Vec<Triple>>>, n: int)
    requires
        0 <= n <= rs.len(),
        rs.len() == parsed.len(),
    ensures
        first_bad(rs.take(n), parsed.take(n)) matches Some(k) ==> first_bad(rs, parsed) == Some(k),
    decreases rs.len(),
{
    if n < rs.len() {
        assert(rs.drop_last().take(n) =~= rs.take(n));
        assert(parsed.drop_last().take(n) =~= parsed.take(n));
        lemma_bad_prefix(rs.drop_last(), parsed.drop_last(), n);
    } else {
        assert(rs.take(n) =~= rs);
        assert(parsed.take(n) =~= parsed);
    }
}

impl Database {
    /// Apply one redo record to the graphs.
    fn apply_redo(&mut self, r: &RedoRec, ts: &Vec<Triple>) -> (e: Option<GStoreError>)
        requires
            old(self).wf(),
            r.op == 'I' ==> dict_fits(changed_by_all(old(self)@, rec_changes(r@, ts@)).dict),
        ensures
            final(self).wf(),
            e is Some <==> rec_fails(r@, Ok(*ts)),
            e matches Some(x) ==> is_rec_error(r@, Ok(*ts), x) && final(self)@ == old(self)@,
            e is None ==> final(self)@ == changed_by_all(old(self)@, rec_changes(r@, ts@)),
    {
        let graph: Option<&str> = match &r.graph {
            Some(g) => Some(g.as_str()),
            None => None,
        };
        let ghost before = self@;
        let ghost cs = rec_changes(r@, ts@);
        let mut i: usize = 0;
        proof {
            self.lemma_finite();
        }
        assert(cs.take(0) =~= Seq::<Change>::empty());
        while i < ts.len()
            invariant
                i <= ts.len(),
                i > 0 ==> r.op == 'I' || r.op == 'D',
                cs == rec_changes(r@, ts@),
                super::str_view(graph) == r@.graph,
                self.wf(),
                before == old(self)@,
                self@ == changed_by_all(before, cs.take(i as int)),
                dict_ok(before.dict),
                r.op == 'I' ==> dict_fits(changed_by_all(before, cs).dict),
            decreases ts.len() - i,
        {
            proof {
                lemma_one_more(before, cs, i as int);
                if r.op == 'I' {
                    lemma_change_fits(before, cs, i as int);
                }
            }
            if r.op == 'I' {
                self.insert_quad(&ts[i], graph);
            } else if r.op == 'D' {
                self.delete_quad(&ts[i], graph);
            } else {
                let mut op: String = "".to_owned();
                proof {
                    reveal_strlit("");
                }
                op.push(r.op);
                assert(op@ =~= seq![r.op]);
                return Some(GStoreError::Database(join3("unknown redo.log op '", op.as_str(), "'")));
            }
            i = i + 1;
        }
        assert(cs.take(cs.len() as int) =~= cs);
        None
    }

    /// Apply the records of a redo log, in order; `parsed` holds, for each intact
    /// record, what parsing its triple gave. Stops at the first record that is
    /// malformed or cannot be applied. Gives the number of records. Nothing of this
    /// goes to the redo log again.
    #[verifier::spinoff_prover]
    pub fn apply_redo_records(&mut self, bytes: &[u8], parsed: Vec<Result<Vec<Triple>>>) -> (r: Result<usize>)
        requires
            old(self).wf(),
            parsed@.len() == redo_read_all(bytes@, 0).0.len(),
            replay_fits(old(self)@, redo_read_all(bytes@, 0).0, parsed@),
        ensures
            final(self).wf(),
            ({
                let (rs, tail) = redo_read_all(bytes@, 0);
                match first_bad(rs, parsed@) {
                    Some(k) => {
                        &&& final(self)@ == replayed(old(self)@, recs_changes(rs.take(k), parsed@.take(k)))
                        &&& r matches Err(e) && is_rec_error(rs[k], parsed@[k], e)
                    },
                    None => {
                        &&& final(self)@ == replayed(old(self)@, recs_changes(rs, parsed@))
                        &&& match tail {
                            Some(m) => r matches Err(e) && is_database_error(e, m),
                            None => r == Ok::<usize, GStoreError>(rs.len() as usize),
                        }
                    },
                }
            }),
    {
        let (recs, tail) = redo_records(bytes);
        let ghost rs = redo_views(recs@);
        let ghost all = parsed@;
        let ghost before = self@;
        let saved: Option<String> = self.redo_log.take();
        let ghost start = DbSpec { redo_log: None, ..before };
        proof {
            assert(self@ =~= start);
            self.lemma_finite();
            lemma_replay_fits(before, start, rs, all);
            assert(rs.take(0) =~= Seq::<RedoSpec>::empty());
        }
        let mut i: usize = 0;
        for p in it: parsed
            invariant
                it.seq() == all,
                all.len() == rs.len(),
                rs == redo_views(recs@),
                i == it.index(),
                self.wf(),
                before == old(self)@,
                rs == redo_read_all(bytes@, 0).0,
                opt_view(saved) == before.redo_log,
                start == (DbSpec { redo_log: None, ..before }),
                self@ == changed_by_all(start, recs_changes(rs.take(i as int), all.take(i as int))),
                self@.redo_log is None,
                first_bad(rs.take(i as int), all.take(i as int)) is None,
                dict_ok(before.dict),
                replay_fits(start, rs, all),
        {
            let ghost k = i as int;
            let ghost cs = recs_changes(rs.take(k), all.take(k));
            proof {
                assert(p == all[k]);
                lemma_replay_step(start, rs, all, k);
                assert(recs@[k]@ == rs[k]);
            }
            let failed: Option<GStoreError> = match p {
                Err(e) => Some(e),
                Ok(ts) => self.apply_redo(&recs[i], &ts),
            };
            match failed {
                Some(e) => {
                    self.redo_log = saved;
                    assert(self@ =~= replayed(before, cs));
                    return Err(e);
                },
                None => {},
            }
            i = i + 1;
        }
        proof {
            assert(rs.take(rs.len() as int) =~= rs);
            assert(all.take(all.len() as int) =~= all);
        }
        self.redo_log = saved;
        assert(self@ =~= replayed(before, recs_changes(rs, all)));
        match tail {
            Some(e) => Err(e),
            None => Ok(recs.len()),
        }
    }
}

/// One record more.
proof fn lemma_replay_step(start: DbSpec, rs: Seq<RedoSpec>, all: Seq<Result<Vec<Triple>>>, k: int)
    requires
        0 <= k < rs.len(),
        rs.len() == all.len(),
        dict_ok(start.dict),
        replay_fits(start, rs, all),
        first_bad(rs.take(k), all.take(k)) is None,
    ensures
        ({
            let cs = recs_changes(rs.take(k), all.take(k));
            let mid = changed_by_all(start, cs);
            &&& changed_by_all(start, recs_changes(rs.take(k + 1), all.take(k + 1))) == changed_by_all(
                mid,
                (match all[k] {
                    Ok(ts) => rec_changes(rs[k], ts@),
                    Err(e) => Seq::empty(),
                }),
            )
            &&& changed_by_all(start, recs_changes(rs.take(k + 1), all.take(k + 1))).redo_log == start.redo_log
            &&& all[k] matches Ok(ts) ==> rs[k].op == 'I' ==> dict_fits(changed_by_all(mid, rec_changes(rs[k], ts@)).dict)
            &&& first_bad(rs.take(k + 1), all.take(k + 1)) == (if rec_fails(rs[k], all[k]) { Some(k) } else { None::<int> })
            &&& first_bad(rs.take(k + 1), all.take(k + 1)) matches Some(j) ==> first_bad(rs, all) == Some(j)
        }),
{
    let cs = recs_changes(rs.take(k), all.take(k));
    assert(rs.take(k + 1).drop_last() =~= rs.take(k));
    assert(all.take(k + 1).drop_last() =~= all.take(k));
    assert(rs.take(k + 1).last() == rs[k]);
    assert(all.take(k + 1).last() == all[k]);
    lemma_bad_prefix(rs, all, k + 1);
    let more = match all[k] {
        Ok(ts) => rec_changes(rs[k], ts@),
        Err(e) => Seq::empty(),
    };
    lemma_two_parts(start, cs, more);
    lemma_log_stays(start, cs + more);
    if !rec_fails(rs[k], all[k]) {
        lemma_prefix_fits(start, rs, all, k + 1);
    } else if all[k] is Ok {
        assert(rs[k].op != 'I');
    }
}

/// The records that are applied.
pub open spec fn applied(rs: Seq<RedoSpec>, parsed: Seq<Result<Vec<Triple>>>) -> Seq<Change> {
    match first_bad(rs, parsed) {
        Some(k) => recs_changes(rs.take(k), parsed.take(k)),
        None => recs_changes(rs, parsed),
    }
}

/// The terms of the records that are applied find ids.
pub open spec fn replay_fits(db: DbSpec, rs: Seq<RedoSpec>, parsed: Seq<Result<Vec<Triple>>>) -> bool {
    dict_fits(changed_by_all(db, applied(rs, parsed)).dict)
}

/// What ids terms get does not depend on the redo log.
proof fn lemma_replay_fits(a: DbSpec, b: DbSpec, rs: Seq<RedoSpec>, parsed: Seq<Result<Vec<Triple>>>)
    requires
        a.dict == b.dict,
        a.quads == b.quads,
    ensures
        replay_fits(a, rs, parsed) == replay_fits(b, rs, parsed),
{
    lemma_same_dict(a, b, applied(rs, parsed));
}

pub proof fn lemma_same_dict(a: DbSpec, b: DbSpec, cs: Seq<Change>)
    requires
        a.dict == b.dict,
        a.quads == b.quads,
    ensures
        changed_by_all(a, cs).dict == changed_by_all(b, cs).dict,
        changed_by_all(a, cs).quads == changed_by_all(b, cs).quads,
    decreases cs.len(),
{
    if cs.len() > 0 {
        lemma_same_dict(a, b, cs.drop_last());
    }
}

/// The changes of the first records are the first changes.
proof fn lemma_changes_front(rs: Seq<RedoSpec>, parsed: Seq<Result<Vec<Triple>>>, n: int)
    requires
        rs.len() == parsed.len(),
        0 <= n <= rs.len(),
    ensures
        recs_changes(rs.take(n), parsed.take(n)).len() <= recs_changes(rs, parsed).len(),
        recs_changes(rs, parsed).take(recs_changes(rs.take(n), parsed.take(n)).len() as int) == recs_changes(rs.take(n), parsed.take(n)),
    decreases rs.len(),
{
    let a = recs_changes(rs.take(n), parsed.take(n));
    let all = recs_changes(rs, parsed);
    if n == rs.len() {
        assert(rs.take(n) =~= rs);
        assert(parsed.take(n) =~= parsed);
        assert(all.take(a.len() as int) =~= a);
    } else {
        assert(rs.drop_last().take(n) =~= rs.take(n));
        assert(parsed.drop_last().take(n) =~= parsed.take(n));
        lemma_changes_front(rs.drop_last(), parsed.drop_last(), n);
        let mid = recs_changes(rs.drop_last(), parsed.drop_last());
        assert(all.take(a.len() as int) =~= mid.take(a.len() as int));
    }
}

/// The records before the first bad one find room.
proof fn lemma_prefix_fits(db: DbSpec, rs: Seq<RedoSpec>, parsed: Seq<Result<Vec<Triple>>>, n: int)
    requires
        rs.len() == parsed.len(),
        0 <= n <= rs.len(),
        dict_finite(db.dict),
        replay_fits(db, rs, parsed),
        first_bad(rs.take(n), parsed.take(n)) is None,
    ensures
        dict_fits(changed_by_all(db, recs_changes(rs.take(n), parsed.take(n))).dict),
{
    lemma_bad_behind(rs, parsed, n);
    let (r, p) = match first_bad(rs, parsed) {
        Some(k) => (rs.take(k), parsed.take(k)),
        None => (rs, parsed),
    };
    assert(r.take(n) =~= rs.take(n));
    assert(p.take(n) =~= parsed.take(n));
    lemma_changes_front(r, p, n);
    lemma_sizes_grow(db, recs_changes(r, p), recs_changes(r.take(n), p.take(n)).len() as int);
}

/// The first bad record lies behind good ones.
proof fn lemma_bad_behind(rs: Seq<RedoSpec>, parsed: Seq<Result<Vec<Triple>>>, n: int)
    requires
        rs.len() == parsed.len(),
        0 <= n <= rs.len(),
        first_bad(rs.take(n), parsed.take(n)) is None,
    ensures
        first_bad(rs, parsed) matches Some(k) ==> n <= k < rs.len(),
    decreases rs.len(),
{
    if n < rs.len() {
        assert(rs.drop_last().take(n) =~= rs.take(n));
        assert(parsed.drop_last().take(n) =~= parsed.take(n));
        lemma_bad_behind(rs.drop_last(), parsed.drop_last(), n);
    } else {
        assert(rs.take(n) =~= rs);
        assert(parsed.take(n) =~= parsed);
    }
}

/// Changes leave a log on or off, and write nothing to one that is off.
pub proof fn lemma_log_stays(db: DbSpec, cs: Seq<Change>)
    ensures
        changed_by_all(db, cs).redo_log == db.redo_log,
        db.redo_log is None ==> changed_by_all(db, cs).redo_out == db.redo_out && changed_by_all(db, cs).redo_pending == db.redo_pending,
    decreases cs.len(),
{
    if cs.len() > 0 {
        lemma_log_stays(db, cs.drop_last());
    }
}

/// Each text parses to the triple that it was written from.
pub open spec fn parses_back(cs: Seq<Change>, parsed: Seq<Result<Vec<Triple>>>) -> bool {
    &&& parsed.len() == cs.len()
    &&& forall|i: int| 0 <= i < cs.len() ==> ((#[trigger] parsed[i]) matches Ok(ts) && ts@ == seq![(match cs[i] {
        Change::Insert(t, g) => t,
        Change::Delete(t, g) => t,
    })])
}

pub proof fn lemma_recs_changes(cs: Seq<Change>, parsed: Seq<Result<Vec<Triple>>>)
    requires
        parses_back(cs, parsed),
    ensures
        recs_changes(cs.map_values(|c: Change| record_of(c)), parsed) == cs,
        first_bad(cs.map_values(|c: Change| record_of(c)), parsed) is None,
    decreases cs.len(),
{
    let f = |c: Change| record_of(c);
    let rs = cs.map_values(f);
    if cs.len() == 0 {
        assert(recs_changes(rs, parsed) =~= cs);
    } else {
        let n = cs.len() - 1;
        assert(rs.drop_last() =~= cs.drop_last().map_values(f));
        assert(parsed[n as int] is Ok);
        assert forall|i: int| 0 <= i < cs.drop_last().len() implies ((#[trigger] parsed.drop_last()[i]) matches Ok(ts) && ts@ == seq![(match cs.drop_last()[i] {
            Change::Insert(t, g) => t,
            Change::Delete(t, g) => t,
        })]) by {
            assert(parsed[i] is Ok);
        }
        lemma_recs_changes(cs.drop_last(), parsed.drop_last());
        assert(rec_changes(rs.last(), parsed.last()->Ok_0@) =~= seq![cs.last()]);
        assert(cs.drop_last() + seq![cs.last()] =~= cs);
    }
}

/// Recovery: a database runs with a redo log and makes some changes. Its log is
/// then read by a database in the state that the changes started from. All records
/// are intact, and applying them gives the same dictionary and the same graphs,
/// provided that the text of each triple parses back to the triple and that every
/// named graph has a name that is not empty.
pub proof fn law_recovery(db: DbSpec, start: DbSpec, cs: Seq<Change>, parsed: Seq<Result<Vec<Triple>>>)
    requires
        dict_ok(db.dict),
        grounded(db.dict, db.quads),
        dict_fits(changed_by_all(db, cs).dict),
        db.redo_log is Some,
        db.txn is None,
        db.redo_pending.len() == 0,
        db.redo_out.len() == 0,
        start.dict == db.dict,
        start.quads == db.quads,
        start.graphs == db.graphs,
        forall|i: int| 0 <= i < cs.len() ==> redo_valid(record_of(#[trigger] cs[i])),
        parses_back(effective(db, cs), parsed),
    ensures
        ({
            let end = changed_by_all(db, cs);
            let (rs, tail) = redo_read_all(end.redo_out, 0);
            let back = replayed(start, recs_changes(rs, parsed));
            &&& tail is None
            &&& rs.len() == parsed.len()
            &&& first_bad(rs, parsed) is None
            &&& back.dict == end.dict
            &&& back.quads == end.quads
            &&& back.graphs == end.graphs
        }),
{
    let eff = effective(db, cs);
    let f = |c: Change| record_of(c);
    let recs = eff.map_values(f);
    law_redo_replay(db, DbSpec { redo_log: None, ..start }, cs);
    lemma_effective_valid(db, cs);
    assert forall|i: int| 0 <= i < recs.len() implies redo_valid(#[trigger] recs[i]) by {
        assert(redo_valid(record_of(eff[i])));
    }
    assert(db.redo_out + redo_bytes_all(recs) =~= redo_bytes_all(recs));
    lemma_redo_front(recs);
    law_redo_log_roundtrip(Seq::empty(), recs);
    assert(Seq::<u8>::empty() + redo_bytes_all(recs) =~= redo_bytes_all(recs));
    lemma_recs_changes(eff, parsed);
}

proof fn lemma_effective_valid(db: DbSpec, cs: Seq<Change>)
    requires
        forall|i: int| 0 <= i < cs.len() ==> redo_valid(record_of(#[trigger] cs[i])),
    ensures
        forall|i: int| 0 <= i < effective(db, cs).len() ==> redo_valid(record_of(#[trigger] effective(db, cs)[i])),
    decreases cs.len(),
{
    if cs.len() > 0 {
        let front = cs.drop_last();
        assert forall|i: int| 0 <= i < front.len() implies redo_valid(record_of(#[trigger] front[i])) by {
            assert(redo_valid(record_of(cs[i])));
        }
        lemma_effective_valid(db, front);
        let e0 = effective(db, front);
        let e1 = effective(db, cs);
        assert(redo_valid(record_of(cs[cs.len() - 1])));
        assert forall|i: int| 0 <= i < e1.len() implies redo_valid(record_of(#[trigger] e1[i])) by {
            if i < e0.len() {
                assert(e1[i] == e0[i]);
            }
        }
    }
}

} // verus!
