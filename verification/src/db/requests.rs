//! Answering requests: the result cache in front of the evaluator, the execution
//! of update requests, and the logs for replay.

use super::logs::{law_update_roundtrip, push_update, update_bytes, update_read};
use super::lru::{place_of, stored, touched};
use super::clear::{cleared, quads_in, target_selects};
use super::state::{changed_by_all, dict_finite, dict_fits, effects, lemma_sizes_grow, Change, DbSpec, Quad};
use super::update::{default_inserts, is_op_error, is_query_error, lemma_changes_grow, lemma_effects_bound, op_after, op_changes, op_count, op_fails, op_listed};
use super::Database;
use crate::dict::dict_ok;
use crate::error::{join2, GStoreError, Result};
use crate::model::Triple;
use crate::query::{cells, debug_result, result_debug, QueryResult, RequestOp, ResultSet, UpdateOp};
use std::sync::Arc;
use vstd::prelude::*;
use vstd::string::*;
use vstd::utf8::encode_utf8;

verus! {

/// The operations of an update request that are still to be executed, and how many
/// triples those before them changed.
#[derive(Debug)]
pub struct UpdateRun {
    rest: Vec<RequestOp>,
    changed: usize,
}

/// What is left of an update request.
pub ghost struct RunSpec {
    pub rest: Seq<RequestOp>,
    pub changed: nat,
}

impl View for UpdateRun {
    type V = RunSpec;

    closed spec fn view(&self) -> RunSpec {
        RunSpec { rest: self.rest@, changed: self.changed as nat }
    }
}

impl UpdateRun {
    /// A request of which nothing was executed yet.
    pub fn new(ops: Vec<RequestOp>) -> (r: UpdateRun)
        ensures
            r@ == (RunSpec { rest: ops@, changed: 0 }),
    {
        UpdateRun { rest: ops, changed: 0 }
    }

    /// Give a pattern update, which is first in turn, the triples that its pattern matched.
    pub fn fill(&mut self, delete: Vec<Triple>, insert: Vec<Triple>)
        requires
            old(self)@.rest.len() > 0,
        ensures
            final(self)@ == (RunSpec { rest: old(self)@.rest.update(0, RequestOp::Ready(UpdateOp::Modify { delete, insert })), ..old(self)@ }),
    {
        self.rest.set(0, RequestOp::Ready(UpdateOp::Modify { delete, insert }));
    }

    /// How many operations are left.
    pub fn remaining(&self) -> (n: usize)
        ensures
            n == self@.rest.len(),
    {
        self.rest.len()
    }
}

/// The operations before the first that waits for its triples.
pub open spec fn ready_ops(ops: Seq<RequestOp>) -> Seq<UpdateOp>
    decreases ops.len(),
{
    if ops.len() == 0 {
        Seq::empty()
    } else {
        match ops[0] {
            RequestOp::Ready(op) => seq![op] + ready_ops(ops.drop_first()),
            RequestOp::Pattern => Seq::empty(),
        }
    }
}

/// The operations up to the first that fails.
pub open spec fn executed(ops: Seq<UpdateOp>) -> Seq<UpdateOp> {
    match first_failure(ops) {
        Some(k) => ops.take(k),
        None => ops,
    }
}

/// A request after parsing: a read query, or the rest of an update.
#[derive(Debug)]
pub enum Request {
    Read,
    Update(UpdateRun),
}

/// What a request gives: a result; the demand to evaluate a read query, with the search
/// index if it matches the data; or the demand to match the pattern that is first in
/// turn against the data as it is, and to go on from there.
#[derive(Debug)]
pub enum Answer {
    Ready(Arc<QueryResult>),
    Evaluate { use_index: bool },
    Match(UpdateRun),
}

/// The first operation that fails.
pub open spec fn first_failure(ops: Seq<UpdateOp>) -> Option<int>
    decreases ops.len(),
{
    if ops.len() == 0 {
        None
    } else {
        match first_failure(ops.drop_last()) {
            Some(k) => Some(k),
            None => if op_fails(ops.last()) {
                Some(ops.len() - 1)
            } else {
                None
            },
        }
    }
}

/// The database after some operations.
pub open spec fn ops_after(db: DbSpec, ops: Seq<UpdateOp>) -> DbSpec
    decreases ops.len(),
{
    if ops.len() == 0 {
        db
    } else {
        op_after(ops_after(db, ops.drop_last()), ops.last())
    }
}

/// How many triples some operations change.
pub open spec fn ops_count(db: DbSpec, ops: Seq<UpdateOp>) -> nat
    decreases ops.len(),
{
    if ops.len() == 0 {
        0
    } else {
        ops_count(db, ops.drop_last()) + op_count(ops_after(db, ops.drop_last()), ops.last())
    }
}

/// How many triples some operations list.
pub open spec fn ops_listed(ops: Seq<UpdateOp>) -> nat
    decreases ops.len(),
{
    if ops.len() == 0 {
        0
    } else {
        ops_listed(ops.drop_last()) + op_listed(ops.last())
    }
}

/// The database after an update request was executed: the request is noted in the
/// update log, if there is one.
pub open spec fn update_noted(db: DbSpec, millis: nat, changed: nat, sparql: Seq<char>) -> DbSpec {
    if db.update_log is Some {
        DbSpec { update_out: db.update_out + update_bytes(millis, changed, sparql), ..db }
    } else {
        db
    }
}

proof fn lemma_ops_prefix(ops: Seq<UpdateOp>, n: int)
    requires
        0 <= n <= ops.len(),
    ensures
        ops_listed(ops.take(n)) <= ops_listed(ops),
        first_failure(ops.take(n)) matches Some(k) ==> first_failure(ops) == Some(k) && 0 <= k < n,
        first_failure(ops) matches Some(k) ==> 0 <= k < ops.len(),
    decreases ops.len(),
{
    if n < ops.len() {
        assert(ops.drop_last().take(n) =~= ops.take(n));
        lemma_ops_prefix(ops.drop_last(), n);
    } else {
        assert(ops.take(n) =~= ops);
        if ops.len() > 0 {
            assert(ops.drop_last() =~= ops.take(n - 1));
            lemma_ops_prefix(ops.drop_last(), n - 1);
            assert(ops.drop_last().take(n - 1) =~= ops.drop_last());
        }
    }
}

proof fn lemma_ops_one_more(db: DbSpec, ops: Seq<UpdateOp>, n: int)
    requires
        0 <= n < ops.len(),
    ensures
        ops_after(db, ops.take(n + 1)) == op_after(ops_after(db, ops.take(n)), ops[n]),
        ops_count(db, ops.take(n + 1)) == ops_count(db, ops.take(n)) + op_count(ops_after(db, ops.take(n)), ops[n]),
        ops_listed(ops.take(n + 1)) == ops_listed(ops.take(n)) + op_listed(ops[n]),
        first_failure(ops.take(n)) is None ==> first_failure(ops.take(n + 1)) == (if op_fails(ops[n]) { Some(n) } else { None::<int> }),
{
    assert(ops.take(n + 1).drop_last() =~= ops.take(n));
}

/// Executing operations in two parts is executing all of them: what the second part finds
/// is what the first part left.
pub proof fn law_parts_are_whole(db: DbSpec, a: Seq<UpdateOp>, b: Seq<UpdateOp>)
    ensures
        ops_after(db, a + b) == ops_after(ops_after(db, a), b),
        ops_count(db, a + b) == ops_count(db, a) + ops_count(ops_after(db, a), b),
        first_failure(a) is None && first_failure(b) is None ==> first_failure(a + b) is None,
    decreases b.len(),
{
    if b.len() == 0 {
        assert(a + b =~= a);
    } else {
        assert((a + b).drop_last() =~= a + b.drop_last());
        law_parts_are_whole(db, a, b.drop_last());
    }
}

/// A request of one operation does what the operation does, and fails if it fails; a request
/// of none changes nothing.
pub proof fn law_single_operation(db: DbSpec, op: UpdateOp)
    ensures
        ops_after(db, seq![op]) == op_after(db, op),
        ops_count(db, seq![op]) == op_count(db, op),
        first_failure(seq![op]) is Some <==> op_fails(op),
        ops_after(db, Seq::empty()) == db,
        ops_count(db, Seq::empty()) == 0,
        first_failure(Seq::empty()) is None,
{
    let one = seq![op];
    let none = Seq::<UpdateOp>::empty();
    assert(one.drop_last() =~= none);
    assert(ops_after(db, none) == db);
    assert(ops_count(db, none) == 0);
    assert(first_failure(none) is None);
}

/// The first operation that fails is one that fails with none before it that does.
pub proof fn law_first_failure_is_first(ops: Seq<UpdateOp>)
    ensures
        first_failure(ops) is None <==> forall|k: int| 0 <= k < ops.len() ==> !op_fails(#[trigger] ops[k]),
        first_failure(ops) matches Some(k) ==> 0 <= k < ops.len() && op_fails(ops[k]) && forall|j: int| 0 <= j < k ==> !op_fails(#[trigger] ops[j]),
    decreases ops.len(),
{
    if ops.len() > 0 {
        let front = ops.drop_last();
        law_first_failure_is_first(front);
        assert forall|k: int| 0 <= k < front.len() implies #[trigger] ops[k] == front[k] by {
        }
        assert(ops[ops.len() - 1] == ops.last());
        match first_failure(front) {
            Some(k) => {
                assert(op_fails(ops[k]));
                assert forall|j: int| 0 <= j < k implies !op_fails(#[trigger] ops[j]) by {
                    assert(!op_fails(front[j]));
                }
            },
            None => {
                assert forall|j: int| 0 <= j < front.len() implies !op_fails(#[trigger] ops[j]) by {
                    assert(!op_fails(front[j]));
                }
            },
        }
    }
}

/// The operations that can be executed are all those before the first pattern, in order.
pub proof fn law_ready_operations(ops: Seq<RequestOp>)
    ensures
        ready_ops(ops).len() <= ops.len(),
        forall|k: int| 0 <= k < ready_ops(ops).len() ==> ops[k] == RequestOp::Ready(#[trigger] ready_ops(ops)[k]),
        ready_ops(ops).len() < ops.len() ==> ops[ready_ops(ops).len() as int] is Pattern,
    decreases ops.len(),
{
    if ops.len() > 0 {
        match ops[0] {
            RequestOp::Ready(op) => {
                let rest = ops.drop_first();
                law_ready_operations(rest);
                assert forall|k: int| 0 <= k < ready_ops(ops).len() implies ops[k] == RequestOp::Ready(#[trigger] ready_ops(ops)[k]) by {
                    if k > 0 {
                        assert(ready_ops(ops)[k] == ready_ops(rest)[k - 1]);
                        assert(rest[k - 1] == ops[k]);
                    }
                }
            },
            RequestOp::Pattern => {},
        }
    }
}

/// Operations only add keys to the dictionary.
proof fn lemma_ops_sizes(db: DbSpec, ops: Seq<UpdateOp>, n: int)
    requires
        dict_finite(db.dict),
        0 <= n <= ops.len(),
    ensures
        dict_finite(ops_after(db, ops).dict),
        dict_finite(ops_after(db, ops.take(n)).dict),
        dict_fits(ops_after(db, ops).dict) ==> dict_fits(ops_after(db, ops.take(n)).dict),
    decreases ops.len(),
{
    if n == ops.len() {
        assert(ops.take(n) =~= ops);
        if ops.len() > 0 {
            lemma_ops_sizes(db, ops.drop_last(), ops.len() - 1);
            lemma_op_grows(ops_after(db, ops.drop_last()), ops.last());
        }
    } else {
        assert(ops.drop_last().take(n) =~= ops.take(n));
        lemma_ops_sizes(db, ops.drop_last(), n);
        lemma_op_grows(ops_after(db, ops.drop_last()), ops.last());
    }
}

proof fn lemma_op_grows(db: DbSpec, op: UpdateOp)
    requires
        dict_finite(db.dict),
    ensures
        dict_finite(op_after(db, op).dict),
        dict_fits(op_after(db, op).dict) ==> dict_fits(db.dict),
{
    match op {
        UpdateOp::Clear { target } => {},
        UpdateOp::Drop { target } => {},
        _ => {
            lemma_sizes_grow(db, op_changes(op), 0);
            assert(op_changes(op).take(0) =~= Seq::<Change>::empty());
        },
    }
}

/// What one operation does to the sizes.
proof fn lemma_op_sizes(db: DbSpec, op: UpdateOp)
    requires
        db.quads.finite(),
        dict_ok(db.dict),
        dict_fits(op_after(db, op).dict),
    ensures
        ({
            let after = op_after(db, op);
            &&& after.quads.finite()
            &&& after.quads.len() + op_count(db, op) <= db.quads.len() + 2 * op_listed(op)
            &&& dict_ok(after.dict)
        }),
{
    match op {
        UpdateOp::Clear { target } => {
            lemma_cleared_sizes(db, target_selects(db.dict, target));
        },
        UpdateOp::Drop { target } => {
            lemma_cleared_sizes(db, target_selects(db.dict, target));
        },
        _ => {
            let cs = op_changes(op);
            lemma_changes_grow(db, cs);
            lemma_effects_bound(db, cs);
        },
    }
}

proof fn lemma_cleared_sizes(db: DbSpec, selected: spec_fn(Option<u32>) -> bool)
    requires
        db.quads.finite(),
    ensures
        cleared(db, selected).quads.finite(),
        cleared(db, selected).quads.len() + quads_in(db.quads, selected).len() == db.quads.len(),
        cleared(db, selected).dict == db.dict,
{
    let gone = quads_in(db.quads, selected);
    db.quads.lemma_len_filter(|q: Quad| selected(q.0));
    let left = db.quads.difference(gone);
    assert(left.union(gone) =~= db.quads);
    assert(left.disjoint(gone));
    vstd::set_lib::lemma_len_difference(db.quads, gone);
    vstd::set_lib::lemma_set_disjoint_lens(left, gone);
}

/// What is required of the next part of an update request: the terms of its operations
/// find ids, and the number of changed triples can be counted.
pub open spec fn run_fits(db: DbSpec, run: RunSpec) -> bool {
    let ops = ready_ops(run.rest);
    &&& dict_fits(ops_after(db, executed(ops)).dict)
    &&& run.changed + db.quads.len() + 2 * ops_listed(ops) <= usize::MAX
}

/// How the next part of an update request ends: with the first operation that fails, with
/// the result of the whole request, or with a pattern that is to be matched.
pub open spec fn runs_on(before: DbSpec, after: DbSpec, run: RunSpec, sparql: Seq<char>, millis: nat, r: Result<Answer>) -> bool {
    let ops = ready_ops(run.rest);
    let n = run.changed + ops_count(before, ops);
    match first_failure(ops) {
        Some(k) => {
            &&& after == ops_after(before, ops.take(k))
            &&& r matches Err(e) && is_op_error(ops[k], e)
        },
        None => if ops.len() == run.rest.len() {
            &&& after == update_noted(ops_after(before, ops), millis, n, sparql)
            &&& r matches Ok(Answer::Ready(q)) && (*q matches QueryResult::Update { changed } && changed == n)
        } else {
            &&& after == ops_after(before, ops)
            &&& r matches Ok(Answer::Match(next)) && next@ == (RunSpec { rest: run.rest.skip(ops.len() as int), changed: n })
        },
    }
}

/// The operations that are ready, and those behind them.
proof fn lemma_ready(ops: Seq<RequestOp>)
    ensures
        ready_ops(ops).len() <= ops.len(),
        forall|k: int| 0 <= k < ready_ops(ops).len() ==> #[trigger] ops[k] == RequestOp::Ready(ready_ops(ops)[k]),
        ready_ops(ops).len() < ops.len() ==> ops[ready_ops(ops).len() as int] is Pattern,
    decreases ops.len(),
{
    if ops.len() > 0 && ops[0] is Ready {
        let rest = ops.drop_first();
        lemma_ready(rest);
        assert forall|k: int| 0 <= k < ready_ops(ops).len() implies #[trigger] ops[k] == RequestOp::Ready(ready_ops(ops)[k]) by {
            if k > 0 {
                assert(rest[k - 1] == ops[k]);
            }
        }
        let n = ready_ops(rest).len() as int;
        if n < rest.len() {
            assert(rest[n] == ops[n + 1]);
        }
    }
}

/// Where an update request is after `k` of its operations that are ready.
#[verifier::opaque]
spec fn reached(before: DbSpec, all: Seq<UpdateOp>, done: nat, k: int, now: DbSpec, changed: nat) -> bool {
    &&& now == ops_after(before, all.take(k))
    &&& first_failure(all.take(k)) is None
    &&& changed == done + ops_count(before, all.take(k))
    &&& now.quads.finite()
    &&& dict_ok(now.dict)
    &&& dict_finite(before.dict)
    &&& now.quads.len() + changed <= done + before.quads.len() + 2 * ops_listed(all.take(k))
    &&& done + before.quads.len() + 2 * ops_listed(all) <= usize::MAX
    &&& dict_fits(ops_after(before, executed(all)).dict)
}

proof fn lemma_reached_start(before: DbSpec, all: Seq<UpdateOp>, done: nat)
    requires
        before.quads.finite(),
        dict_ok(before.dict),
        done + before.quads.len() + 2 * ops_listed(all) <= usize::MAX,
        dict_fits(ops_after(before, executed(all)).dict),
    ensures
        reached(before, all, done, 0, before, done),
{
    reveal(reached);
    assert(all.take(0) =~= Seq::<UpdateOp>::empty());
}

/// What one more operation needs and does.
#[verifier::spinoff_prover]
proof fn lemma_run_step(before: DbSpec, all: Seq<UpdateOp>, k: int)
    requires
        0 <= k < all.len(),
        dict_finite(before.dict),
        dict_fits(ops_after(before, executed(all)).dict),
        first_failure(all.take(k)) is None,
        ops_after(before, all.take(k)).quads.finite(),
        dict_ok(ops_after(before, all.take(k)).dict),
    ensures
        ({
            let mid = ops_after(before, all.take(k));
            let end = ops_after(before, all.take(k + 1));
            &&& end == op_after(mid, all[k])
            &&& dict_fits(end.dict)
            &&& end.quads.finite()
            &&& dict_ok(end.dict)
            &&& end.quads.len() + op_count(mid, all[k]) <= mid.quads.len() + 2 * op_listed(all[k])
            &&& ops_count(before, all.take(k + 1)) == ops_count(before, all.take(k)) + op_count(mid, all[k])
            &&& ops_listed(all.take(k + 1)) == ops_listed(all.take(k)) + op_listed(all[k])
            &&& ops_listed(all.take(k + 1)) <= ops_listed(all)
            &&& op_fails(all[k]) ==> first_failure(all) == Some(k) && end == mid
            &&& !op_fails(all[k]) ==> first_failure(all.take(k + 1)) is None
        }),
{
    let mid = ops_after(before, all.take(k));
    lemma_ops_one_more(before, all, k);
    lemma_ops_prefix(all, k + 1);
    lemma_ops_prefix(all, all.len() as int);
    if op_fails(all[k]) {
        assert(first_failure(all) == Some(k));
        lemma_fail_unchanged(mid, all[k]);
    } else {
        lemma_failure_at(all, k + 1);
        match first_failure(all) {
            Some(j) => {
                assert(all.take(j).take(k + 1) =~= all.take(k + 1));
                lemma_ops_sizes(before, all.take(j), k + 1);
            },
            None => {
                lemma_ops_sizes(before, all, k + 1);
            },
        }
    }
    lemma_op_sizes(mid, all[k]);
}

impl Database {
    /// Take a request. A read query is answered from the cache if it was answered
    /// before and nothing was written since; else it is to be evaluated, and the
    /// result handed to [`Self::remember`]. An update is executed, operation by
    /// operation, up to the first that fails. Where a pattern update is in turn, its
    /// pattern is to be matched against the data as it is then; the rest of the request,
    /// filled with what matched, is the next request. Once all operations are executed
    /// the request goes to the update log, with the given time.
    pub fn query(&mut self, sparql: &str, request: Result<Request>, millis: u64) -> (r: Result<Answer>)
        requires
            old(self).wf(),
            request matches Ok(Request::Update(run)) ==> run_fits(old(self)@, run@),
        ensures
            final(self).wf(),
            match request {
                Err(e) => r == Err::<Answer, GStoreError>(e) && final(self)@ == old(self)@,
                Ok(Request::Read) => {
                    &&& final(self)@ == (DbSpec { cache: touched(old(self)@.cache, sparql@), ..old(self)@ })
                    &&& r == Ok::<Answer, GStoreError>(
                        match place_of(old(self)@.cache, sparql@) {
                            Some(i) => Answer::Ready(old(self)@.cache[i].1),
                            None => Answer::Evaluate { use_index: old(self)@.index_valid },
                        },
                    )
                },
                Ok(Request::Update(run)) => runs_on(old(self)@, final(self)@, run@, sparql@, millis as nat, r),
            },
    {
        match request {
            Err(e) => Err(e),
            Ok(Request::Read) => {
                match self.query_cache.get(sparql) {
                    Some(hit) => {
                        assert(self@ =~= (DbSpec { cache: touched(old(self)@.cache, sparql@), ..old(self)@ }));
                        Ok(Answer::Ready(hit))
                    },
                    None => {
                        assert(self@ =~= (DbSpec { cache: touched(old(self)@.cache, sparql@), ..old(self)@ }));
                        Ok(Answer::Evaluate { use_index: self.index_valid })
                    },
                }
            },
            Ok(Request::Update(run)) => self.run_update(sparql, run, millis),
        }
    }

    /// Execute the next part of an update request.
    #[verifier::spinoff_prover]
    fn run_update(&mut self, sparql: &str, run: UpdateRun, millis: u64) -> (r: Result<Answer>)
        requires
            old(self).wf(),
            run_fits(old(self)@, run@),
        ensures
            final(self).wf(),
            runs_on(old(self)@, final(self)@, run@, sparql@, millis as nat, r),
    {
        proof {
            lemma_ready(run@.rest);
        }
        match self.exec_update(run) {
            Err(e) => Err(e),
            Ok(next) => {
                if next.rest.len() > 0 {
                    return Ok(Answer::Match(next));
                }
                let changed: usize = next.changed;
                self.finish_update(sparql, changed, millis);
                Ok(Answer::Ready(Arc::new(QueryResult::Update { changed })))
            },
        }
    }

    /// Execute the operations of an update request that are ready, up to the first that
    /// fails. Gives what is left of the request.
    #[verifier::spinoff_prover]
    fn exec_update(&mut self, run: UpdateRun) -> (r: Result<UpdateRun>)
        requires
            old(self).wf(),
            run_fits(old(self)@, run@),
        ensures
            final(self).wf(),
            ({
                let ops = ready_ops(run@.rest);
                match first_failure(ops) {
                    Some(k) => {
                        &&& final(self)@ == ops_after(old(self)@, ops.take(k))
                        &&& r matches Err(e) && is_op_error(ops[k], e)
                    },
                    None => {
                        &&& final(self)@ == ops_after(old(self)@, ops)
                        &&& r matches Ok(next) && next@ == (RunSpec { rest: run@.rest.skip(ops.len() as int), changed: run@.changed + ops_count(old(self)@, ops) })
                    },
                }
            }),
    {
        let ghost before = self@;
        let ghost all = ready_ops(run@.rest);
        let ghost whole = run@.rest;
        let ghost done = run@.changed;
        let mut rest: Vec<RequestOp> = run.rest;
        let mut changed: usize = run.changed;
        let ghost mut k: int = 0;
        proof {
            self.lemma_finite();
            lemma_ready(whole);
            lemma_ops_prefix(all, all.len() as int);
            lemma_reached_start(before, all, done);
            assert(whole.skip(0) =~= whole);
        }
        loop
            invariant
                0 <= k <= all.len(),
                before == old(self)@,
                whole == run@.rest,
                all == ready_ops(whole),
                all.len() <= whole.len(),
                forall|j: int| 0 <= j < all.len() ==> #[trigger] whole[j] == RequestOp::Ready(all[j]),
                all.len() < whole.len() ==> whole[all.len() as int] is Pattern,
                rest@ == whole.skip(k),
                self.wf(),
                reached(before, all, done, k, self@, changed as nat),
            ensures
                k == all.len(),
            decreases rest.len(),
        {
            if rest.len() == 0 {
                break;
            }
            assert(rest@[0] == whole[k]);
            let ready: bool = match &rest[0] {
                RequestOp::Ready(op) => true,
                RequestOp::Pattern => false,
            };
            if !ready {
                break;
            }
            let op: UpdateOp = match rest.remove(0) {
                RequestOp::Ready(op) => op,
                RequestOp::Pattern => {
                    break;
                },
            };
            proof {
                assert(k < all.len());
                assert(op == all[k]);
                assert(rest@ =~= whole.skip(k + 1));
            }
            match self.exec_next(op, changed, Ghost(before), Ghost(all), Ghost(done), Ghost(k)) {
                Ok(n) => {
                    changed = n;
                },
                Err(e) => {
                    return Err(e);
                },
            };
            proof {
                k = k + 1;
            }
        }
        proof {
            reveal(reached);
            assert(all.take(all.len() as int) =~= all);
        }
        Ok(UpdateRun { rest, changed })
    }

    /// Execute the next operation. Gives the number of triples changed so far.
    #[verifier::spinoff_prover]
    fn exec_next(&mut self, op: UpdateOp, changed: usize, Ghost(before): Ghost<DbSpec>, Ghost(all): Ghost<Seq<UpdateOp>>, Ghost(done): Ghost<nat>, Ghost(k): Ghost<int>) -> (r: Result<usize>)
        requires
            old(self).wf(),
            0 <= k < all.len(),
            op == all[k],
            reached(before, all, done, k, old(self)@, changed as nat),
        ensures
            final(self).wf(),
            r matches Ok(n) ==> reached(before, all, done, k + 1, final(self)@, n as nat),
            r matches Err(e) ==> first_failure(all) == Some(k) && final(self)@ == ops_after(before, all.take(k)) && is_op_error(all[k], e),
    {
        proof {
            reveal(reached);
            lemma_run_step(before, all, k);
        }
        match self.exec_update_op(op) {
            Ok(n) => Ok(changed + n),
            Err(e) => Err(e),
        }
    }

    /// Note an executed update request in the update log, if there is one.
    pub fn finish_update(&mut self, sparql: &str, changed: usize, millis: u64)
        requires
            old(self).wf(),
        ensures
            final(self).wf(),
            final(self)@ == update_noted(old(self)@, millis as nat, changed as nat, sparql@),
    {
        if self.update_log.is_some() {
            push_update(&mut self.update_out, millis, changed, sparql);
        }
        assert(self@ =~= update_noted(old(self)@, millis as nat, changed as nat, sparql@));
    }

    /// Keep the result of a read query for the next time.
    pub fn remember(&mut self, sparql: &str, result: Arc<QueryResult>)
        requires
            old(self).wf(),
        ensures
            final(self).wf(),
            final(self)@ == (DbSpec { cache: stored(old(self)@.cache, old(self)@.cache_cap, sparql@, result), ..old(self)@ }),
    {
        self.query_cache.put(sparql.to_owned(), result);
        assert(self@ =~= (DbSpec { cache: stored(old(self)@.cache, old(self)@.cache_cap, sparql@, result), ..old(self)@ }));
    }
}

/// The database after triples that a reasoner derived were added to the default graph.
pub open spec fn derived(db: DbSpec, ts: Seq<Triple>) -> DbSpec {
    DbSpec { index_valid: db.index_valid && effects(db, default_inserts(ts)) == 0, ..changed_by_all(db, default_inserts(ts)) }
}

/// How many derived triples were new.
pub open spec fn derived_count(db: DbSpec, ts: Seq<Triple>) -> nat {
    effects(db, default_inserts(ts))
}

/// Changes without effect leave the search index as it was.
pub proof fn lemma_no_effect_keeps_index(db: DbSpec, cs: Seq<Change>)
    ensures
        effects(db, cs) == 0 ==> changed_by_all(db, cs).index_valid == db.index_valid,
    decreases cs.len(),
{
    if cs.len() > 0 {
        lemma_no_effect_keeps_index(db, cs.drop_last());
    }
}

impl Database {
    /// The table of a SELECT query.
    pub fn select(answer: &QueryResult) -> (r: Result<ResultSet>)
        ensures
            match *answer {
                QueryResult::Select(rs) => r matches Ok(t) && t.vars@ == rs.vars@ && cells(t.rows@) == cells(rs.rows@),
                _ => r matches Err(e) && is_query_error(e, "expected a SELECT query, got "@ + result_debug(*answer)),
            },
    {
        match answer {
            QueryResult::Select(rs) => Ok(rs.duplicate()),
            _ => Err(GStoreError::Query(join2("expected a SELECT query, got ", debug_result(answer).as_str()))),
        }
    }

    /// Add the triples that a reasoner derived. Gives the number that were new; if
    /// there were any, the search index is stale.
    fn add_derived(&mut self, triples: &Vec<Triple>) -> (n: usize)
        requires
            old(self).wf(),
            dict_fits(changed_by_all(old(self)@, default_inserts(triples@)).dict),
        ensures
            final(self).wf(),
            final(self)@ == derived(old(self)@, triples@),
            n == derived_count(old(self)@, triples@),
    {
        let ghost before = self@;
        let n: usize = self.insert_all(triples);
        proof {
            lemma_no_effect_keeps_index(before, default_inserts(triples@));
        }
        if n > 0 {
            self.index_valid = false;
        }
        assert(self@ =~= derived(before, triples@));
        n
    }

    /// Add the triples of the RDFS closure. Gives the number that were new.
    pub fn materialize_rdfs(&mut self, inferred: &Vec<Triple>) -> (n: usize)
        requires
            old(self).wf(),
            dict_fits(changed_by_all(old(self)@, default_inserts(inferred@)).dict),
        ensures
            final(self).wf(),
            final(self)@ == derived(old(self)@, inferred@),
            n == derived_count(old(self)@, inferred@),
    {
        self.add_derived(inferred)
    }
}

/// The first failure lies behind operations that do not fail.
proof fn lemma_failure_at(ops: Seq<UpdateOp>, n: int)
    requires
        0 <= n <= ops.len(),
        first_failure(ops.take(n)) is None,
    ensures
        first_failure(ops) matches Some(j) ==> j >= n,
    decreases ops.len(),
{
    if n < ops.len() {
        assert(ops.drop_last().take(n) =~= ops.take(n));
        lemma_failure_at(ops.drop_last(), n);
    } else {
        assert(ops.take(n) =~= ops);
    }
}

proof fn lemma_fail_unchanged(db: DbSpec, op: UpdateOp)
    requires
        op_fails(op),
    ensures
        op_after(db, op) == db,
{
}

/// A request that fails has executed the operations before the one that failed, and no
/// other. One that is answered has executed all of them, and one that waits all those
/// before the pattern; the count is of all that were executed.
pub proof fn law_requests_stop_where_they_must(before: DbSpec, after: DbSpec, run: RunSpec, sparql: Seq<char>, millis: nat, r: Result<Answer>)
    requires
        runs_on(before, after, run, sparql, millis, r),
    ensures
        r is Err ==> exists|k: int| 0 <= k < ready_ops(run.rest).len() && op_fails(#[trigger] ready_ops(run.rest)[k]) && after == ops_after(before, ready_ops(run.rest).take(k)),
        r matches Ok(Answer::Ready(q)) ==> {
            &&& ready_ops(run.rest).len() == run.rest.len()
            &&& after.quads == ops_after(before, ready_ops(run.rest)).quads
            &&& after.dict == ops_after(before, ready_ops(run.rest)).dict
            &&& *q matches QueryResult::Update { changed } && changed == run.changed + ops_count(before, ready_ops(run.rest))
        },
        r matches Ok(Answer::Match(next)) ==> {
            &&& after == ops_after(before, ready_ops(run.rest))
            &&& next@.rest == run.rest.skip(ready_ops(run.rest).len() as int)
            &&& next@.rest.len() > 0 && next@.rest[0] is Pattern
            &&& next@.changed == run.changed + ops_count(before, ready_ops(run.rest))
        },
        r is Err <==> exists|k: int| 0 <= k < ready_ops(run.rest).len() && op_fails(#[trigger] ready_ops(run.rest)[k]),
{
    let ops = ready_ops(run.rest);
    law_ready_operations(run.rest);
    law_first_failure_is_first(ops);
    match first_failure(ops) {
        Some(k) => {
            assert(op_fails(ops[k]));
        },
        None => {},
    }
}

/// An update that is done is noted in the update log, if there is one, behind what stood
/// there, so that its text is read back; the data is as the update left it.
pub proof fn law_update_is_noted(db: DbSpec, millis: nat, changed: nat, sparql: Seq<char>)
    requires
        encode_utf8(sparql).len() <= usize::MAX,
    ensures
        db.update_log is None ==> update_noted(db, millis, changed, sparql) == db,
        db.update_log is Some ==> {
            let after = update_noted(db, millis, changed, sparql);
            &&& db.update_out.is_prefix_of(after.update_out)
            &&& update_read(after.update_out, db.update_out.len() as int) == Ok::<(Seq<char>, int), Seq<char>>((sparql, after.update_out.len() as int))
            &&& after.quads == db.quads && after.dict == db.dict && after.graphs == db.graphs
            &&& after == (DbSpec { update_out: after.update_out, ..db })
        },
{
    let none = Seq::<u8>::empty();
    let all = db.update_out + update_bytes(millis, changed, sparql);
    law_update_roundtrip(db.update_out, millis, changed, sparql, none);
    assert(all + none =~= all);
    assert(db.update_out =~= all.subrange(0, db.update_out.len() as int));
}

/// A load fails for a source that is not local, with an error that names it, and else with
/// the error of what was read; nothing else fails, and no silent load.
pub proof fn law_failed_load_tells_why(op: UpdateOp, e: GStoreError)
    ensures
        op_fails(op) ==> op is Load,
        op matches UpdateOp::Load { source, silent, parsed } ==> {
            &&& op_fails(op) <==> !silent && (("http://"@.is_prefix_of(source@) || "https://"@.is_prefix_of(source@)) || parsed is Err)
            &&& op_fails(op) && is_op_error(op, e) && ("http://"@.is_prefix_of(source@) || "https://"@.is_prefix_of(source@)) ==> (e matches GStoreError::Query(m) && m@ == "LOAD of remote source '"@ + source@ + "' is not supported (no network); use a local file path or file:// IRI"@)
            &&& op_fails(op) && is_op_error(op, e) && !("http://"@.is_prefix_of(source@) || "https://"@.is_prefix_of(source@)) ==> parsed == Err::<Vec<Triple>, GStoreError>(e)
        },
{
}

} // verus!
