//! Snapshots: readers keep an immutable view of one committed version while the
//! writer goes on.
//!
//! Who may write and when is up to the host, which locks the [`ConcurrentDb`]; a
//! snapshot needs no lock.

use crate::db::requests::{first_failure, law_first_failure_is_first, law_ready_operations, law_single_operation, ops_after, ops_count, ready_ops, run_fits, update_noted, Answer, Request, RunSpec, UpdateRun};
use crate::db::state::DbSpec;
use crate::db::update::{is_op_error, is_query_error, op_after, op_count, op_fails};
use crate::db::{copy_graphs, graph_ids, graphs_wf, quads_of, Database, NamedGraph};
use crate::db::open::{build_fits, built};
use crate::db::state::Quad;
use crate::dict::{DictSpec, Dictionary};
use crate::error::{GStoreError, Result};
use crate::model::{IdTriple, Triple};
use crate::query::{QueryResult, RequestOp, UpdateOp};
use crate::store::TripleStore;
use std::sync::Arc;
use vstd::prelude::*;
use vstd::string::*;

verus! {

/// An immutable view of the data at one committed version.
pub struct Snapshot {
    dict: Dictionary,
    store: TripleStore,
    named: Vec<NamedGraph>,
    version: u64,
}

/// A snapshot as a mathematical value.
#[verifier::ext_equal]
pub ghost struct SnapshotSpec {
    pub dict: DictSpec,
    pub quads: Set<Quad>,
    pub graphs: Set<u32>,
    pub version: u64,
}

impl View for Snapshot {
    type V = SnapshotSpec;

    closed spec fn view(&self) -> SnapshotSpec {
        SnapshotSpec { dict: self.dict@, quads: quads_of(self.store@, self.named@), graphs: graph_ids(self.named@), version: self.version }
    }
}

impl Snapshot {
    pub closed spec fn wf(&self) -> bool {
        &&& self.dict.wf()
        &&& self.store.wf()
        &&& graphs_wf(self.named@)
    }

    /// The triples of the default graph.
    pub closed spec fn default_graph(&self) -> Set<IdTriple> {
        self.store@
    }

    /// A copy of the data of a database.
    fn from_db(db: &Database, version: u64) -> (r: Snapshot)
        requires
            db.wf(),
        ensures
            r.wf(),
            r@ == (SnapshotSpec { dict: db@.dict, quads: db@.quads, graphs: db@.graphs, version }),
            r.default_graph() == db.default_graph(),
    {
        let r = Snapshot { dict: db.dict().duplicate(), store: db.store().duplicate(), named: copy_graphs(db.named_graphs()), version };
        proof {
            db.lemma_graphs();
            assert(r@ =~= (SnapshotSpec { dict: db@.dict, quads: db@.quads, graphs: db@.graphs, version }));
        }
        r
    }

    /// The version number, which grows with every commit.
    pub fn version(&self) -> (v: u64)
        ensures
            v == self@.version,
    {
        self.version
    }

    /// The dictionary, for evaluating a read query.
    pub fn dict(&self) -> (r: &Dictionary)
        requires
            self.wf(),
        ensures
            r.wf(),
            r@ == self@.dict,
    {
        &self.dict
    }

    /// The default graph, for evaluating a read query.
    pub fn store(&self) -> (r: &TripleStore)
        requires
            self.wf(),
        ensures
            r.wf(),
            r@ == self.default_graph(),
    {
        &self.store
    }

    /// The named graphs, for evaluating a read query.
    pub fn named_graphs(&self) -> (r: &Vec<NamedGraph>)
        requires
            self.wf(),
        ensures
            graphs_wf(r@),
            self@.quads == quads_of(self.default_graph(), r@),
            self@.graphs == graph_ids(r@),
    {
        &self.named
    }
}

/// A database with the snapshot of its last committed version.
pub struct ConcurrentDb {
    writer: Database,
    current: Arc<Snapshot>,
}

/// The published version and the state of the writer.
#[verifier::ext_equal]
pub ghost struct ConcurrentSpec {
    pub writer: DbSpec,
    pub current: Arc<Snapshot>,
}

impl View for ConcurrentDb {
    type V = ConcurrentSpec;

    closed spec fn view(&self) -> ConcurrentSpec {
        ConcurrentSpec { writer: self.writer@, current: self.current }
    }
}

/// An update that waits for its next pattern to be matched: a copy of the writer, with
/// what the operations before it did, and the rest of the request.
pub struct Draft {
    db: Database,
    run: UpdateRun,
    base: u64,
}

impl Draft {
    pub closed spec fn wf(&self) -> bool {
        self.db.wf()
    }

    /// The copy of the writer.
    pub closed spec fn state(&self) -> DbSpec {
        self.db@
    }

    /// The rest of the request.
    pub closed spec fn left(&self) -> RunSpec {
        self.run@
    }

    /// The version that the update began with.
    pub closed spec fn base_version(&self) -> u64 {
        self.base
    }

    /// The data to match the pattern against.
    pub fn db(&self) -> (r: &Database)
        requires
            self.wf(),
        ensures
            r.wf(),
            r@ == self.state(),
    {
        &self.db
    }

    /// The version that the update began with.
    pub fn version(&self) -> (v: u64)
        ensures
            v == self.base_version(),
    {
        self.base
    }

    /// How many operations are left.
    pub fn remaining(&self) -> (n: usize)
        ensures
            n == self.left().rest.len(),
    {
        self.run.remaining()
    }

    /// Give the pattern update the triples that its pattern matched.
    pub fn fill(&mut self, delete: Vec<Triple>, insert: Vec<Triple>)
        requires
            old(self).wf(),
            old(self).left().rest.len() > 0,
        ensures
            final(self).wf(),
            final(self).state() == old(self).state(),
            final(self).base_version() == old(self).base_version(),
            final(self).left() == (RunSpec { rest: old(self).left().rest.update(0, RequestOp::Ready(UpdateOp::Modify { delete, insert })), ..old(self).left() }),
    {
        self.run.fill(delete, insert);
    }
}

/// What an update gives: the number of triples it changed, or a draft that waits for a
/// pattern to be matched.
pub enum Outcome {
    Done(usize),
    Match(Draft),
}

/// How an update goes on from a state of the writer: if an operation fails nothing has
/// happened; if all are executed the result is published; else the writer is as it was,
/// and the draft holds what was done so far.
pub open spec fn goes_on(before: ConcurrentSpec, after: ConcurrentSpec, state: DbSpec, run: RunSpec, sparql: Seq<char>, millis: nat, r: Result<Outcome>) -> bool {
    let ops = ready_ops(run.rest);
    let n = run.changed + ops_count(state, ops);
    match first_failure(ops) {
        Some(k) => {
            &&& after == before
            &&& r matches Err(e) && is_op_error(ops[k], e)
        },
        None => if ops.len() == run.rest.len() {
            &&& after.writer == update_noted(ops_after(state, ops), millis, n, sparql)
            &&& publishes(after.writer, before.current@.version + 1, *after.current)
            &&& r matches Ok(Outcome::Done(c)) && c == n
        } else {
            &&& after == before
            &&& r matches Ok(Outcome::Match(d))
            &&& d.wf()
            &&& d.state() == ops_after(state, ops)
            &&& d.left() == (RunSpec { rest: run.rest.skip(ops.len() as int), changed: n })
            &&& d.base_version() == before.current@.version
        },
    }
}

/// The snapshot that is published for a state of the writer.
pub open spec fn publishes(db: DbSpec, version: int, s: Snapshot) -> bool {
    &&& s.wf()
    &&& s@.dict == db.dict
    &&& s@.quads == db.quads
    &&& s@.graphs == db.graphs
    &&& s@.version == version
}

/// What a call of `update`, `resume` or `write` does to the published version: it publishes
/// the state of the writer as the next one, or nothing has happened.
pub open spec fn moves_on(before: ConcurrentSpec, after: ConcurrentSpec, published: bool) -> bool {
    if published {
        publishes(after.writer, before.current@.version + 1, *after.current)
    } else {
        after == before
    }
}

/// How many of the first `k` calls published.
pub open spec fn publications(published: Seq<bool>, k: int) -> nat
    decreases k,
{
    if k <= 0 {
        0
    } else {
        publications(published, k - 1) + if published[k - 1] { 1nat } else { 0nat }
    }
}

/// Over any number of calls, a snapshot that was taken before stays as it was, with its
/// version: what is published later is another snapshot. Each update or write that
/// succeeds raises the version by exactly one, and each that fails leaves the database and
/// its version as they were.
pub proof fn law_snapshots_stay(states: Seq<ConcurrentSpec>, published: Seq<bool>, taken: Arc<Snapshot>, i: int, j: int)
    requires
        states.len() == published.len() + 1,
        forall|k: int| 0 <= k < published.len() ==> moves_on(states[k], #[trigger] states[k + 1], published[k]),
        0 <= i <= j < states.len(),
        taken == states[i].current,
        publishes(states[i].writer, states[i].current@.version as int, *states[i].current),
    ensures
        publishes(states[i].writer, states[i].current@.version as int, *taken),
        states[j].current@.version == taken@.version + publications(published, j) - publications(published, i),
        publications(published, j) >= publications(published, i),
        publications(published, j) == publications(published, i) ==> states[j] == states[i],
        publications(published, j) > publications(published, i) ==> states[j].current@ != taken@,
        publishes(states[j].writer, states[j].current@.version as int, *states[j].current),
    decreases j - i,
{
    if i < j {
        law_snapshots_stay(states, published, taken, i, j - 1);
        assert(moves_on(states[j - 1], states[j - 1 + 1], published[j - 1]));
    }
}

impl ConcurrentDb {
    pub closed spec fn wf(&self) -> bool {
        &&& self.writer.wf()
        &&& self.current.wf()
    }

    /// Put a database behind snapshots. Its version is one.
    pub fn new(db: Database) -> (r: ConcurrentDb)
        requires
            db.wf(),
        ensures
            r.wf(),
            r@.writer == db@,
            publishes(db@, 1, *r@.current),
    {
        let current: Arc<Snapshot> = Arc::new(Snapshot::from_db(&db, 1));
        ConcurrentDb { writer: db, current }
    }

    /// Build from a parsed document.
    pub fn build_from_str(name: &str, parsed: Result<Vec<Triple>>) -> (r: Result<ConcurrentDb>)
        requires
            parsed matches Ok(ts) ==> build_fits(ts@),
        ensures
            match parsed {
                Ok(ts) => r matches Ok(c) && c.wf() && c@.writer == built(name@, ts@) && publishes(built(name@, ts@), 1, *c@.current),
                Err(e) => r == Err::<ConcurrentDb, GStoreError>(e),
            },
    {
        match Database::build_from_str(name, parsed) {
            Ok(db) => Ok(ConcurrentDb::new(db)),
            Err(e) => Err(e),
        }
    }

    /// The current version.
    pub fn version(&self) -> (v: u64)
        ensures
            v == self@.current@.version,
    {
        self.current.version
    }

    /// The current snapshot. Later commits do not change it.
    pub fn snapshot(&self) -> (r: Arc<Snapshot>)
        requires
            self.wf(),
        ensures
            r == self@.current,
            r.wf(),
    {
        self.current.clone()
    }

    /// Execute an update request on a copy of the writer, and publish the result as the
    /// next version. If an operation fails nothing has happened. Where the pattern of an
    /// update is to be matched first, the copy and the rest of the request are handed out
    /// as a draft, for [`Self::resume`]. A request that is no update is refused.
    pub fn update(&mut self, sparql: &str, request: Result<Request>, millis: u64) -> (r: Result<Outcome>)
        requires
            old(self).wf(),
            old(self)@.current@.version < u64::MAX,
            request matches Ok(Request::Update(run)) ==> run_fits(old(self)@.writer, run@),
        ensures
            final(self).wf(),
            moves_on(old(self)@, final(self)@, r matches Ok(Outcome::Done(n))),
            match request {
                Err(e) => r == Err::<Outcome, GStoreError>(e),
                Ok(Request::Read) => r matches Err(e) && is_query_error(e, "ConcurrentDb::update expects a SPARQL UPDATE request"@),
                Ok(Request::Update(run)) => goes_on(old(self)@, final(self)@, old(self)@.writer, run@, sparql@, millis as nat, r),
            },
    {
        match request {
            Err(e) => Err(e),
            Ok(Request::Read) => Err(GStoreError::Query("ConcurrentDb::update expects a SPARQL UPDATE request".to_owned())),
            Ok(Request::Update(run)) => {
                let db: Database = self.writer.duplicate();
                let base: u64 = self.current.version;
                self.resume(sparql, Draft { db, run, base }, millis)
            },
        }
    }

    /// Go on with an update whose next pattern was matched. Nothing may have been
    /// published since the update began.
    pub fn resume(&mut self, sparql: &str, draft: Draft, millis: u64) -> (r: Result<Outcome>)
        requires
            old(self).wf(),
            draft.wf(),
            draft.base_version() == old(self)@.current@.version,
            old(self)@.current@.version < u64::MAX,
            run_fits(draft.state(), draft.left()),
        ensures
            final(self).wf(),
            moves_on(old(self)@, final(self)@, r matches Ok(Outcome::Done(n))),
            goes_on(old(self)@, final(self)@, draft.state(), draft.left(), sparql@, millis as nat, r),
    {
        let mut db: Database = draft.db;
        let base: u64 = draft.base;
        match db.query(sparql, Ok(Request::Update(draft.run)), millis) {
            Err(e) => Err(e),
            Ok(Answer::Match(run)) => Ok(Outcome::Match(Draft { db, run, base })),
            Ok(Answer::Ready(q)) => match &*q {
                QueryResult::Update { changed } => {
                    let n: usize = *changed;
                    self.writer = db;
                    self.publish();
                    Ok(Outcome::Done(n))
                },
                _ => Err(GStoreError::Query("ConcurrentDb::update expects a SPARQL UPDATE request".to_owned())),
            },
            Ok(Answer::Evaluate { use_index }) => Err(GStoreError::Query("ConcurrentDb::update expects a SPARQL UPDATE request".to_owned())),
        }
    }

    /// Let `f` change the writer's database, and publish the result as the next
    /// version.
    pub fn write<F, T>(&mut self, f: F) -> (out: T) where F: FnOnce(&mut Database) -> T
        requires
            old(self).wf(),
            old(self)@.current@.version < u64::MAX,
            forall|d: &mut Database| (*d).wf() ==> call_requires(f, (d,)),
            forall|d: &mut Database, o: T| (*d).wf() && #[trigger] call_ensures(f, (d,), o) ==> (*final(d)).wf(),
        ensures
            final(self).wf(),
            moves_on(old(self)@, final(self)@, true),
            exists|d: &mut Database| (*d)@ == old(self)@.writer && (*final(d))@ == final(self)@.writer && #[trigger] call_ensures(f, (d,), out),
    {
        let out: T = f(&mut self.writer);
        self.publish();
        out
    }

    /// Publish the state of the writer as the next version.
    fn publish(&mut self)
        requires
            old(self).wf(),
            old(self)@.current@.version < u64::MAX,
        ensures
            final(self).wf(),
            final(self)@.writer == old(self)@.writer,
            publishes(old(self)@.writer, old(self)@.current@.version + 1, *final(self)@.current),
    {
        let next: u64 = self.current.version + 1;
        self.current = Arc::new(Snapshot::from_db(&self.writer, next));
    }
}

/// An update that fails leaves the database and its version as they were. One that is
/// done has executed every operation, and what readers see from then on is the data of
/// the writer, in the next version. One that waits has executed none for the readers: the
/// draft goes on from the pattern, with the count so far, on what the operations before
/// the pattern made.
pub proof fn law_updates_publish_all_or_nothing(before: ConcurrentSpec, after: ConcurrentSpec, state: DbSpec, run: RunSpec, sparql: Seq<char>, millis: nat, r: Result<Outcome>)
    requires
        goes_on(before, after, state, run, sparql, millis, r),
    ensures
        r is Err ==> after == before && exists|k: int| 0 <= k < run.rest.len() && (#[trigger] run.rest[k] matches RequestOp::Ready(op) && op_fails(op)),
        r matches Ok(Outcome::Done(n)) ==> {
            &&& after.current@.version == before.current@.version + 1
            &&& after.current@.quads == after.writer.quads
            &&& after.current@.dict == after.writer.dict
            &&& after.current@.graphs == after.writer.graphs
            &&& forall|k: int| 0 <= k < run.rest.len() ==> (#[trigger] run.rest[k] matches RequestOp::Ready(op) && !op_fails(op))
        },
        r matches Ok(Outcome::Match(d)) ==> {
            &&& after == before
            &&& d.wf()
            &&& d.base_version() == before.current@.version
            &&& 0 < d.left().rest.len() <= run.rest.len()
            &&& d.left().rest[0] is Pattern
            &&& d.left().rest == run.rest.skip(run.rest.len() - d.left().rest.len())
            &&& forall|k: int| 0 <= k < run.rest.len() - d.left().rest.len() ==> (#[trigger] run.rest[k] matches RequestOp::Ready(op) && !op_fails(op))
        },
        (forall|k: int| 0 <= k < run.rest.len() ==> (#[trigger] run.rest[k] matches RequestOp::Ready(op) && !op_fails(op))) ==> (r matches Ok(Outcome::Done(_))),
{
    let ops = ready_ops(run.rest);
    law_ready_operations(run.rest);
    law_first_failure_is_first(ops);
    assert forall|k: int| 0 <= k < ops.len() implies #[trigger] run.rest[k] == RequestOp::Ready(ops[k]) by {
        assert(ops[k] == ops[k]);
    }
    match first_failure(ops) {
        Some(k) => {
            assert(run.rest[k] == RequestOp::Ready(ops[k]));
        },
        None => {
            assert forall|k: int| 0 <= k < ops.len() implies (#[trigger] run.rest[k] matches RequestOp::Ready(op) && !op_fails(op)) by {
                assert(!op_fails(ops[k]));
            }
        },
    }
}

/// An update of one operation that lists its triples does to the writer what the operation
/// does, and tells its count.
pub proof fn law_one_operation_is_executed(before: ConcurrentSpec, after: ConcurrentSpec, state: DbSpec, op: UpdateOp, sparql: Seq<char>, millis: nat, r: Result<Outcome>)
    requires
        goes_on(before, after, state, (RunSpec { rest: seq![RequestOp::Ready(op)], changed: 0 }), sparql, millis, r),
        !op_fails(op),
    ensures
        r matches Ok(Outcome::Done(n)) && n == op_count(state, op),
        after.writer.quads == op_after(state, op).quads,
        after.writer.dict == op_after(state, op).dict,
{
    let rest = seq![RequestOp::Ready(op)];
    let ops = ready_ops(rest);
    assert(rest.drop_first() =~= Seq::empty());
    assert(ready_ops(rest.drop_first()) =~= Seq::empty());
    assert(ops =~= seq![op]);
    law_single_operation(state, op);
}

} // verus!
