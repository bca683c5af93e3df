//! The counters of a triple store in a key-value database. They let the optimizer
//! read every statistic at once, and they move with each triple.

use crate::codec::{be32_bytes, push_be32};
use crate::model::{EntityLiteralId, IdTriple, PredId};
use crate::store::{all_objects, all_predicates, all_subjects, objects_with, spo_triple, subjects_with};
use vstd::prelude::*;

verus! {

/// A counter of the database.
#[derive(Debug, Clone, Copy, PartialEq, Eq, Structural)]
pub enum Stat {
    /// All triples.
    Triples,
    /// Predicates in use.
    Preds,
    /// Subjects in use.
    Subjects,
    /// Objects in use.
    Objects,
    /// The triples of a predicate.
    Card(PredId),
    /// The subjects of a predicate.
    PredSubjects(PredId),
    /// The objects of a predicate.
    PredObjects(PredId),
    /// The triples of a subject.
    Subject(EntityLiteralId),
    /// The triples of an object.
    Object(EntityLiteralId),
    /// The triples of a predicate and a subject.
    PredSubject(PredId, EntityLiteralId),
    /// The triples of a predicate and an object.
    PredObject(PredId, EntityLiteralId),
}

/// The key of a counter.
pub open spec fn stat_bytes(s: Stat) -> Seq<u8> {
    match s {
        Stat::Triples => seq![84u8],
        Stat::Preds => seq![80u8],
        Stat::Subjects => seq![83u8],
        Stat::Objects => seq![79u8],
        Stat::Card(p) => seq![99u8] + be32_bytes(p),
        Stat::PredSubjects(p) => seq![117u8] + be32_bytes(p),
        Stat::PredObjects(p) => seq![118u8] + be32_bytes(p),
        Stat::Subject(s) => seq![115u8] + be32_bytes(s),
        Stat::Object(o) => seq![111u8] + be32_bytes(o),
        Stat::PredSubject(p, s) => seq![120u8] + be32_bytes(p) + be32_bytes(s),
        Stat::PredObject(p, o) => seq![121u8] + be32_bytes(p) + be32_bytes(o),
    }
}

/// A tag and an id.
fn tag1(tag: u8, id: u32) -> (r: Vec<u8>)
    ensures
        r@ == seq![tag] + be32_bytes(id),
{
    let mut r: Vec<u8> = Vec::new();
    r.push(tag);
    push_be32(&mut r, id);
    assert(r@ =~= seq![tag] + be32_bytes(id));
    r
}

/// A tag and two ids.
fn tag2(tag: u8, a: u32, b: u32) -> (r: Vec<u8>)
    ensures
        r@ == seq![tag] + be32_bytes(a) + be32_bytes(b),
{
    let mut r: Vec<u8> = tag1(tag, a);
    push_be32(&mut r, b);
    assert(r@ =~= seq![tag] + be32_bytes(a) + be32_bytes(b));
    r
}

/// The key of a counter.
pub fn stat_key(s: Stat) -> (r: Vec<u8>)
    ensures
        r@ == stat_bytes(s),
{
    let mut r: Vec<u8> = Vec::new();
    match s {
        Stat::Triples => {
            r.push(84);
            assert(r@ =~= stat_bytes(s));
        },
        Stat::Preds => {
            r.push(80);
            assert(r@ =~= stat_bytes(s));
        },
        Stat::Subjects => {
            r.push(83);
            assert(r@ =~= stat_bytes(s));
        },
        Stat::Objects => {
            r.push(79);
            assert(r@ =~= stat_bytes(s));
        },
        Stat::Card(p) => {
            r = tag1(99, p);
        },
        Stat::PredSubjects(p) => {
            r = tag1(117, p);
        },
        Stat::PredObjects(p) => {
            r = tag1(118, p);
        },
        Stat::Subject(x) => {
            r = tag1(115, x);
        },
        Stat::Object(o) => {
            r = tag1(111, o);
        },
        Stat::PredSubject(p, x) => {
            r = tag2(120, p, x);
        },
        Stat::PredObject(p, o) => {
            r = tag2(121, p, o);
        },
    }
    r
}

proof fn lemma_tagged(tag: u8, a: u32, b: u32, t: Seq<u8>, u: Seq<u8>)
    requires
        seq![tag] + be32_bytes(a) + t == seq![tag] + be32_bytes(b) + u,
    ensures
        a == b,
        t == u,
{
    let (x, y) = (seq![tag] + be32_bytes(a) + t, seq![tag] + be32_bytes(b) + u);
    assert(x.subrange(1, 5) =~= be32_bytes(a));
    assert(y.subrange(1, 5) =~= be32_bytes(b));
    crate::kvstore::bptree::law_be32_roundtrip(a);
    crate::kvstore::bptree::law_be32_roundtrip(b);
    assert(x.skip(5) =~= t);
    assert(y.skip(5) =~= u);
}

/// Different counters have different keys.
#[verifier::spinoff_prover]
pub proof fn law_counters_have_own_keys(a: Stat, b: Stat)
    requires
        stat_bytes(a) == stat_bytes(b),
    ensures
        a == b,
{
    let (x, y) = (stat_bytes(a), stat_bytes(b));
    assert(x[0] == y[0]);
    let none = Seq::<u8>::empty();
    match (a, b) {
        (Stat::Card(p), Stat::Card(q)) => {
            assert(x =~= seq![99u8] + be32_bytes(p) + none);
            assert(y =~= seq![99u8] + be32_bytes(q) + none);
            lemma_tagged(99, p, q, none, none);
        },
        (Stat::PredSubjects(p), Stat::PredSubjects(q)) => {
            assert(x =~= seq![117u8] + be32_bytes(p) + none);
            assert(y =~= seq![117u8] + be32_bytes(q) + none);
            lemma_tagged(117, p, q, none, none);
        },
        (Stat::PredObjects(p), Stat::PredObjects(q)) => {
            assert(x =~= seq![118u8] + be32_bytes(p) + none);
            assert(y =~= seq![118u8] + be32_bytes(q) + none);
            lemma_tagged(118, p, q, none, none);
        },
        (Stat::Subject(p), Stat::Subject(q)) => {
            assert(x =~= seq![115u8] + be32_bytes(p) + none);
            assert(y =~= seq![115u8] + be32_bytes(q) + none);
            lemma_tagged(115, p, q, none, none);
        },
        (Stat::Object(p), Stat::Object(q)) => {
            assert(x =~= seq![111u8] + be32_bytes(p) + none);
            assert(y =~= seq![111u8] + be32_bytes(q) + none);
            lemma_tagged(111, p, q, none, none);
        },
        (Stat::PredSubject(p, s), Stat::PredSubject(q, t)) => {
            lemma_tagged(120, p, q, be32_bytes(s), be32_bytes(t));
            crate::kvstore::bptree::law_be32_roundtrip(s);
            crate::kvstore::bptree::law_be32_roundtrip(t);
        },
        (Stat::PredObject(p, s), Stat::PredObject(q, t)) => {
            lemma_tagged(121, p, q, be32_bytes(s), be32_bytes(t));
            crate::kvstore::bptree::law_be32_roundtrip(s);
            crate::kvstore::bptree::law_be32_roundtrip(t);
        },
        _ => {},
    }
}

/// A write to the counters: a new value, or the removal of the key.
#[derive(Debug, Clone, Copy)]
pub struct Change {
    pub stat: Stat,
    pub value: Option<u64>,
}

/// The counters of the database. One that is missing stands at 0.
pub type Counters = Map<Stat, u64>;

/// The value of a counter.
pub open spec fn counter(m: Counters, s: Stat) -> u64 {
    if m.contains_key(s) {
        m[s]
    } else {
        0
    }
}

/// The counters after some writes.
pub open spec fn applied(m: Counters, cs: Seq<Change>) -> Counters
    decreases cs.len(),
{
    if cs.len() == 0 {
        m
    } else {
        let before = applied(m, cs.drop_last());
        match cs.last().value {
            Some(v) => before.insert(cs.last().stat, v),
            None => before.remove(cs.last().stat),
        }
    }
}

/// The triples with a property.
pub open spec fn those(ts: Set<IdTriple>, f: spec_fn(IdTriple) -> bool) -> nat {
    ts.filter(f).len()
}

/// The statistics of a set of triples.
pub open spec fn stat_value(ts: Set<IdTriple>, s: Stat) -> nat {
    match s {
        Stat::Triples => ts.len(),
        Stat::Preds => all_predicates(ts).len(),
        Stat::Subjects => all_subjects(ts).len(),
        Stat::Objects => all_objects(ts).len(),
        Stat::Card(p) => those(ts, |t: IdTriple| t.pred == p),
        Stat::PredSubjects(p) => subjects_with(ts, p).len(),
        Stat::PredObjects(p) => objects_with(ts, p).len(),
        Stat::Subject(x) => those(ts, |t: IdTriple| t.sub == x),
        Stat::Object(o) => those(ts, |t: IdTriple| t.obj == o),
        Stat::PredSubject(p, x) => those(ts, |t: IdTriple| t.pred == p && t.sub == x),
        Stat::PredObject(p, o) => those(ts, |t: IdTriple| t.pred == p && t.obj == o),
    }
}

/// The counters are the statistics of the triples.
pub open spec fn stats_ok(m: Counters, ts: Set<IdTriple>) -> bool {
    forall|s: Stat| #[trigger] counter(m, s) == stat_value(ts, s)
}

/// The counters that a triple moves.
#[derive(Debug, Clone, Copy)]
pub struct Counts {
    pub card: u64,
    pub subject: u64,
    pub object: u64,
    pub pred_subject: u64,
    pub pred_object: u64,
    pub pred_subjects: u64,
    pub pred_objects: u64,
}

/// What the database says of the counters that a triple moves.
pub open spec fn counts_of(m: Counters, t: IdTriple) -> Counts {
    Counts {
        card: counter(m, Stat::Card(t.pred)),
        subject: counter(m, Stat::Subject(t.sub)),
        object: counter(m, Stat::Object(t.obj)),
        pred_subject: counter(m, Stat::PredSubject(t.pred, t.sub)),
        pred_object: counter(m, Stat::PredObject(t.pred, t.obj)),
        pred_subjects: counter(m, Stat::PredSubjects(t.pred)),
        pred_objects: counter(m, Stat::PredObjects(t.pred)),
    }
}

/// The counters to read before a triple is added or removed.
pub fn counters_of(t: IdTriple) -> (r: Vec<Stat>)
    ensures
        r@ == seq![Stat::Card(t.pred), Stat::Subject(t.sub), Stat::Object(t.obj), Stat::PredSubject(t.pred, t.sub), Stat::PredObject(t.pred, t.obj), Stat::PredSubjects(t.pred), Stat::PredObjects(t.pred)],
{
    let mut r: Vec<Stat> = Vec::new();
    r.push(Stat::Card(t.pred));
    r.push(Stat::Subject(t.sub));
    r.push(Stat::Object(t.obj));
    r.push(Stat::PredSubject(t.pred, t.sub));
    r.push(Stat::PredObject(t.pred, t.obj));
    r.push(Stat::PredSubjects(t.pred));
    r.push(Stat::PredObjects(t.pred));
    assert(r@ =~= seq![Stat::Card(t.pred), Stat::Subject(t.sub), Stat::Object(t.obj), Stat::PredSubject(t.pred, t.sub), Stat::PredObject(t.pred, t.obj), Stat::PredSubjects(t.pred), Stat::PredObjects(t.pred)]);
    r
}

/// The four counters for the whole store, which stay in memory.
#[derive(Debug, Clone, Copy, PartialEq, Eq, Structural)]
pub struct RocksStore {
    pub triple_count: u64,
    pub num_predicates: u64,
    pub distinct_subjects: u64,
    pub distinct_objects: u64,
}

/// What the database says of the counters for the whole store.
pub open spec fn globals_of(m: Counters) -> RocksStore {
    RocksStore {
        triple_count: counter(m, Stat::Triples),
        num_predicates: counter(m, Stat::Preds),
        distinct_subjects: counter(m, Stat::Subjects),
        distinct_objects: counter(m, Stat::Objects),
    }
}

/// A new value of a counter, or its removal at 0.
pub open spec fn moved_to(s: Stat, v: int) -> Change {
    Change {
        stat: s,
        value: if v == 0 {
            None
        } else {
            Some(v as u64)
        },
    }
}

/// A new value of a counter for the whole store.
pub open spec fn set_to(s: Stat, v: int) -> Change {
    Change { stat: s, value: Some(v as u64) }
}

/// The write, if there is reason for it.
pub open spec fn only(b: bool, c: Change) -> Seq<Change> {
    if b {
        seq![c]
    } else {
        Seq::empty()
    }
}

/// The writes for a triple that is added (`by` is 1) or removed (`by` is -1). A
/// count of distinct things moves when the count below it leaves or reaches 0, which
/// is when it stands at `edge`.
pub open spec fn changes(g: RocksStore, c: Counts, t: IdTriple, by: int, edge: int) -> Seq<Change> {
    seq![set_to(Stat::Triples, g.triple_count + by), moved_to(Stat::Card(t.pred), c.card + by)]
        + only(c.card == edge, set_to(Stat::Preds, g.num_predicates + by))
        + seq![moved_to(Stat::Subject(t.sub), c.subject + by)]
        + only(c.subject == edge, set_to(Stat::Subjects, g.distinct_subjects + by))
        + seq![moved_to(Stat::Object(t.obj), c.object + by)]
        + only(c.object == edge, set_to(Stat::Objects, g.distinct_objects + by))
        + seq![moved_to(Stat::PredSubject(t.pred, t.sub), c.pred_subject + by)]
        + only(c.pred_subject == edge, moved_to(Stat::PredSubjects(t.pred), c.pred_subjects + by))
        + seq![moved_to(Stat::PredObject(t.pred, t.obj), c.pred_object + by)]
        + only(c.pred_object == edge, moved_to(Stat::PredObjects(t.pred), c.pred_objects + by))
}

/// The counters for the whole store afterwards.
pub open spec fn globals_moved(g: RocksStore, c: Counts, by: int, edge: int) -> RocksStore {
    RocksStore {
        triple_count: (g.triple_count + by) as u64,
        num_predicates: (g.num_predicates + (if c.card == edge { by } else { 0 })) as u64,
        distinct_subjects: (g.distinct_subjects + (if c.subject == edge { by } else { 0 })) as u64,
        distinct_objects: (g.distinct_objects + (if c.object == edge { by } else { 0 })) as u64,
    }
}

/// No counter is at its end.
pub open spec fn can_grow(g: RocksStore, c: Counts) -> bool {
    &&& g.triple_count < u64::MAX
    &&& g.num_predicates < u64::MAX
    &&& g.distinct_subjects < u64::MAX
    &&& g.distinct_objects < u64::MAX
    &&& c.card < u64::MAX
    &&& c.subject < u64::MAX
    &&& c.object < u64::MAX
    &&& c.pred_subject < u64::MAX
    &&& c.pred_object < u64::MAX
    &&& c.pred_subjects < u64::MAX
    &&& c.pred_objects < u64::MAX
}

/// The counters have counted the triple.
pub open spec fn can_shrink(g: RocksStore, c: Counts) -> bool {
    &&& g.triple_count > 0
    &&& c.card > 0
    &&& c.subject > 0
    &&& c.object > 0
    &&& c.pred_subject > 0
    &&& c.pred_object > 0
    &&& c.card == 1 ==> g.num_predicates > 0
    &&& c.subject == 1 ==> g.distinct_subjects > 0
    &&& c.object == 1 ==> g.distinct_objects > 0
    &&& c.pred_subject == 1 ==> c.pred_subjects > 0
    &&& c.pred_object == 1 ==> c.pred_objects > 0
}

fn change(stat: Stat, v: u64) -> (r: Change)
    ensures
        r == moved_to(stat, v as int),
{
    if v == 0 {
        Change { stat, value: None }
    } else {
        Change { stat, value: Some(v) }
    }
}

fn fixed(stat: Stat, v: u64) -> (r: Change)
    ensures
        r == set_to(stat, v as int),
{
    Change { stat, value: Some(v) }
}

/// Add a write to a list, if there is reason for it.
fn note(out: &mut Vec<Change>, b: bool, c: Change)
    ensures
        final(out)@ == old(out)@ + only(b, c),
{
    if b {
        out.push(c);
    }
    assert(out@ =~= old(out)@ + only(b, c));
}

impl RocksStore {
    /// Count a triple that was not in the store: the writes for the database, or none
    /// if it was.
    pub fn insert_ids(&mut self, t: IdTriple, present: bool, c: Counts) -> (r: Option<Vec<Change>>)
        requires
            !present ==> can_grow(*old(self), c),
        ensures
            present ==> r is None && *final(self) == *old(self),
            !present ==> (r matches Some(v) && v@ == changes(*old(self), c, t, 1, 0)) && *final(self) == globals_moved(*old(self), c, 1, 0),
    {
        if present {
            return None;
        }
        let ghost g = *self;
        let mut out: Vec<Change> = Vec::new();
        self.triple_count = self.triple_count + 1;
        if c.card == 0 {
            self.num_predicates = self.num_predicates + 1;
        }
        if c.subject == 0 {
            self.distinct_subjects = self.distinct_subjects + 1;
        }
        if c.object == 0 {
            self.distinct_objects = self.distinct_objects + 1;
        }
        out.push(fixed(Stat::Triples, self.triple_count));
        out.push(change(Stat::Card(t.pred), c.card + 1));
        assert(out@ =~= seq![set_to(Stat::Triples, g.triple_count + 1), moved_to(Stat::Card(t.pred), c.card + 1)]);
        note(&mut out, c.card == 0, fixed(Stat::Preds, self.num_predicates));
        note(&mut out, true, change(Stat::Subject(t.sub), c.subject + 1));
        note(&mut out, c.subject == 0, fixed(Stat::Subjects, self.distinct_subjects));
        note(&mut out, true, change(Stat::Object(t.obj), c.object + 1));
        note(&mut out, c.object == 0, fixed(Stat::Objects, self.distinct_objects));
        note(&mut out, true, change(Stat::PredSubject(t.pred, t.sub), c.pred_subject + 1));
        if c.pred_subject == 0 {
            note(&mut out, true, change(Stat::PredSubjects(t.pred), c.pred_subjects + 1));
        } else {
            note(&mut out, false, change(Stat::PredSubjects(t.pred), c.pred_subjects));
        }
        note(&mut out, true, change(Stat::PredObject(t.pred, t.obj), c.pred_object + 1));
        if c.pred_object == 0 {
            note(&mut out, true, change(Stat::PredObjects(t.pred), c.pred_objects + 1));
        } else {
            note(&mut out, false, change(Stat::PredObjects(t.pred), c.pred_objects));
        }
        Some(out)
    }

    /// Count a triple that was in the store as removed: the writes for the database,
    /// or none if it was not there.
    pub fn remove_ids(&mut self, t: IdTriple, present: bool, c: Counts) -> (r: Option<Vec<Change>>)
        requires
            present ==> can_shrink(*old(self), c),
        ensures
            !present ==> r is None && *final(self) == *old(self),
            present ==> (r matches Some(v) && v@ == changes(*old(self), c, t, -1, 1)) && *final(self) == globals_moved(*old(self), c, -1, 1),
    {
        if !present {
            return None;
        }
        let ghost g = *self;
        let mut out: Vec<Change> = Vec::new();
        self.triple_count = self.triple_count - 1;
        if c.card == 1 {
            self.num_predicates = self.num_predicates - 1;
        }
        if c.subject == 1 {
            self.distinct_subjects = self.distinct_subjects - 1;
        }
        if c.object == 1 {
            self.distinct_objects = self.distinct_objects - 1;
        }
        out.push(fixed(Stat::Triples, self.triple_count));
        out.push(change(Stat::Card(t.pred), c.card - 1));
        assert(out@ =~= seq![set_to(Stat::Triples, g.triple_count - 1), moved_to(Stat::Card(t.pred), c.card - 1)]);
        note(&mut out, c.card == 1, fixed(Stat::Preds, self.num_predicates));
        note(&mut out, true, change(Stat::Subject(t.sub), c.subject - 1));
        note(&mut out, c.subject == 1, fixed(Stat::Subjects, self.distinct_subjects));
        note(&mut out, true, change(Stat::Object(t.obj), c.object - 1));
        note(&mut out, c.object == 1, fixed(Stat::Objects, self.distinct_objects));
        note(&mut out, true, change(Stat::PredSubject(t.pred, t.sub), c.pred_subject - 1));
        if c.pred_subject == 1 {
            note(&mut out, true, change(Stat::PredSubjects(t.pred), c.pred_subjects - 1));
        } else {
            note(&mut out, false, change(Stat::PredSubjects(t.pred), c.pred_subjects));
        }
        note(&mut out, true, change(Stat::PredObject(t.pred, t.obj), c.pred_object - 1));
        if c.pred_object == 1 {
            note(&mut out, true, change(Stat::PredObjects(t.pred), c.pred_objects - 1));
        } else {
            note(&mut out, false, change(Stat::PredObjects(t.pred), c.pred_objects));
        }
        Some(out)
    }
}

proof fn lemma_applied_join(m: Counters, a: Seq<Change>, b: Seq<Change>)
    ensures
        applied(m, a + b) == applied(applied(m, a), b),
    decreases b.len(),
{
    if b.len() == 0 {
        assert(a + b =~= a);
    } else {
        assert((a + b).drop_last() =~= a + b.drop_last());
        lemma_applied_join(m, a, b.drop_last());
    }
}

proof fn lemma_applied_one(m: Counters, c: Change)
    ensures
        applied(m, seq![c]) == (match c.value {
            Some(v) => m.insert(c.stat, v),
            None => m.remove(c.stat),
        }),
{
    assert(seq![c].drop_last() =~= Seq::<Change>::empty());
    assert(applied(m, Seq::<Change>::empty()) == m);
}

/// The write sets the counter to a value.
spec fn writes(c: Change, v: int) -> bool {
    0 <= v <= u64::MAX && (c == set_to(c.stat, v) || c == moved_to(c.stat, v))
}

/// The value of a counter after one write.
proof fn lemma_one_write(m: Counters, c: Change, v: int)
    requires
        writes(c, v),
    ensures
        forall|x: Stat| #[trigger] counter(applied(m, seq![c]), x) == (if x == c.stat { v } else { counter(m, x) as int }),
{
    lemma_applied_one(m, c);
}

proof fn lemma_some_write(m: Counters, b: bool, c: Change, v: int)
    requires
        b ==> writes(c, v),
    ensures
        forall|x: Stat| #[trigger] counter(applied(m, only(b, c)), x) == (if b && x == c.stat { v } else { counter(m, x) as int }),
{
    if b {
        lemma_one_write(m, c, v);
    }
}

/// Where a counter stands after the writes for a triple.
pub open spec fn stepped(m: Counters, t: IdTriple, by: int, edge: int, s: Stat) -> int {
    let v = counter(m, s);
    let moves = match s {
        Stat::Triples => true,
        Stat::Preds => counter(m, Stat::Card(t.pred)) == edge,
        Stat::Subjects => counter(m, Stat::Subject(t.sub)) == edge,
        Stat::Objects => counter(m, Stat::Object(t.obj)) == edge,
        Stat::Card(p) => p == t.pred,
        Stat::PredSubjects(p) => p == t.pred && counter(m, Stat::PredSubject(t.pred, t.sub)) == edge,
        Stat::PredObjects(p) => p == t.pred && counter(m, Stat::PredObject(t.pred, t.obj)) == edge,
        Stat::Subject(x) => x == t.sub,
        Stat::Object(o) => o == t.obj,
        Stat::PredSubject(p, x) => p == t.pred && x == t.sub,
        Stat::PredObject(p, o) => p == t.pred && o == t.obj,
    };
    if moves {
        v + by
    } else {
        v as int
    }
}

/// The writes move the counters as they should.
#[verifier::spinoff_prover]
#[verifier::rlimit(40)]
proof fn lemma_changes(m: Counters, t: IdTriple, by: int, edge: int)
    requires
        forall|s: Stat| 0 <= #[trigger] stepped(m, t, by, edge, s) <= u64::MAX,
    ensures
        forall|s: Stat| #[trigger] counter(applied(m, changes(globals_of(m), counts_of(m, t), t, by, edge)), s) == stepped(m, t, by, edge, s),
{
    let g = globals_of(m);
    let c = counts_of(m, t);
    let a1 = seq![set_to(Stat::Triples, g.triple_count + by)];
    let a2 = seq![moved_to(Stat::Card(t.pred), c.card + by)];
    let a3 = only(c.card == edge, set_to(Stat::Preds, g.num_predicates + by));
    let a4 = seq![moved_to(Stat::Subject(t.sub), c.subject + by)];
    let a5 = only(c.subject == edge, set_to(Stat::Subjects, g.distinct_subjects + by));
    let a6 = seq![moved_to(Stat::Object(t.obj), c.object + by)];
    let a7 = only(c.object == edge, set_to(Stat::Objects, g.distinct_objects + by));
    let a8 = seq![moved_to(Stat::PredSubject(t.pred, t.sub), c.pred_subject + by)];
    let a9 = only(c.pred_subject == edge, moved_to(Stat::PredSubjects(t.pred), c.pred_subjects + by));
    let b1 = seq![moved_to(Stat::PredObject(t.pred, t.obj), c.pred_object + by)];
    let b2 = only(c.pred_object == edge, moved_to(Stat::PredObjects(t.pred), c.pred_objects + by));
    let all = changes(g, c, t, by, edge);
    let m1 = applied(m, a1);
    let m2 = applied(m1, a2);
    let m3 = applied(m2, a3);
    let m4 = applied(m3, a4);
    let m5 = applied(m4, a5);
    let m6 = applied(m5, a6);
    let m7 = applied(m6, a7);
    let m8 = applied(m7, a8);
    let m9 = applied(m8, a9);
    let n1 = applied(m9, b1);
    let n2 = applied(n1, b2);
    assert(all =~= a1 + a2 + a3 + a4 + a5 + a6 + a7 + a8 + a9 + b1 + b2);
    lemma_applied_join(m, a1, a2);
    lemma_applied_join(m, a1 + a2, a3);
    lemma_applied_join(m, a1 + a2 + a3, a4);
    lemma_applied_join(m, a1 + a2 + a3 + a4, a5);
    lemma_applied_join(m, a1 + a2 + a3 + a4 + a5, a6);
    lemma_applied_join(m, a1 + a2 + a3 + a4 + a5 + a6, a7);
    lemma_applied_join(m, a1 + a2 + a3 + a4 + a5 + a6 + a7, a8);
    lemma_applied_join(m, a1 + a2 + a3 + a4 + a5 + a6 + a7 + a8, a9);
    lemma_applied_join(m, a1 + a2 + a3 + a4 + a5 + a6 + a7 + a8 + a9, b1);
    lemma_applied_join(m, a1 + a2 + a3 + a4 + a5 + a6 + a7 + a8 + a9 + b1, b2);
    assert(applied(m, all) == n2);
    assert(stepped(m, t, by, edge, Stat::Triples) == g.triple_count + by);
    assert(stepped(m, t, by, edge, Stat::Card(t.pred)) == c.card + by);
    assert(stepped(m, t, by, edge, Stat::Subject(t.sub)) == c.subject + by);
    assert(stepped(m, t, by, edge, Stat::Object(t.obj)) == c.object + by);
    assert(stepped(m, t, by, edge, Stat::PredSubject(t.pred, t.sub)) == c.pred_subject + by);
    assert(stepped(m, t, by, edge, Stat::PredObject(t.pred, t.obj)) == c.pred_object + by);
    assert(c.card == edge ==> stepped(m, t, by, edge, Stat::Preds) == g.num_predicates + by);
    assert(c.subject == edge ==> stepped(m, t, by, edge, Stat::Subjects) == g.distinct_subjects + by);
    assert(c.object == edge ==> stepped(m, t, by, edge, Stat::Objects) == g.distinct_objects + by);
    assert(c.pred_subject == edge ==> stepped(m, t, by, edge, Stat::PredSubjects(t.pred)) == c.pred_subjects + by);
    assert(c.pred_object == edge ==> stepped(m, t, by, edge, Stat::PredObjects(t.pred)) == c.pred_objects + by);
    lemma_one_write(m, set_to(Stat::Triples, g.triple_count + by), g.triple_count + by);
    lemma_one_write(m1, moved_to(Stat::Card(t.pred), c.card + by), c.card + by);
    lemma_some_write(m2, c.card == edge, set_to(Stat::Preds, g.num_predicates + by), g.num_predicates + by);
    lemma_one_write(m3, moved_to(Stat::Subject(t.sub), c.subject + by), c.subject + by);
    lemma_some_write(m4, c.subject == edge, set_to(Stat::Subjects, g.distinct_subjects + by), g.distinct_subjects + by);
    lemma_one_write(m5, moved_to(Stat::Object(t.obj), c.object + by), c.object + by);
    lemma_some_write(m6, c.object == edge, set_to(Stat::Objects, g.distinct_objects + by), g.distinct_objects + by);
    lemma_one_write(m7, moved_to(Stat::PredSubject(t.pred, t.sub), c.pred_subject + by), c.pred_subject + by);
    lemma_some_write(m8, c.pred_subject == edge, moved_to(Stat::PredSubjects(t.pred), c.pred_subjects + by), c.pred_subjects + by);
    lemma_one_write(m9, moved_to(Stat::PredObject(t.pred, t.obj), c.pred_object + by), c.pred_object + by);
    lemma_some_write(n1, c.pred_object == edge, moved_to(Stat::PredObjects(t.pred), c.pred_objects + by), c.pred_objects + by);
    assert forall|s: Stat| #[trigger] counter(applied(m, all), s) == stepped(m, t, by, edge, s) by {
        assert(counter(n2, s) == (if c.pred_object == edge && s == Stat::PredObjects(t.pred) { c.pred_objects + by } else { counter(n1, s) as int }));
        assert(counter(n1, s) == (if s == Stat::PredObject(t.pred, t.obj) { c.pred_object + by } else { counter(m9, s) as int }));
        assert(counter(m9, s) == (if c.pred_subject == edge && s == Stat::PredSubjects(t.pred) { c.pred_subjects + by } else { counter(m8, s) as int }));
        assert(counter(m8, s) == (if s == Stat::PredSubject(t.pred, t.sub) { c.pred_subject + by } else { counter(m7, s) as int }));
        assert(counter(m7, s) == (if c.object == edge && s == Stat::Objects { g.distinct_objects + by } else { counter(m6, s) as int }));
        assert(counter(m6, s) == (if s == Stat::Object(t.obj) { c.object + by } else { counter(m5, s) as int }));
        assert(counter(m5, s) == (if c.subject == edge && s == Stat::Subjects { g.distinct_subjects + by } else { counter(m4, s) as int }));
        assert(counter(m4, s) == (if s == Stat::Subject(t.sub) { c.subject + by } else { counter(m3, s) as int }));
        assert(counter(m3, s) == (if c.card == edge && s == Stat::Preds { g.num_predicates + by } else { counter(m2, s) as int }));
        assert(counter(m2, s) == (if s == Stat::Card(t.pred) { c.card + by } else { counter(m1, s) as int }));
        assert(counter(m1, s) == (if s == Stat::Triples { g.triple_count + by } else { counter(m, s) as int }));
    }
}

/// Whether one more triple moves a statistic.
pub open spec fn moves_with(ts: Set<IdTriple>, t: IdTriple, s: Stat) -> bool {
    match s {
        Stat::Triples => true,
        Stat::Preds => stat_value(ts, Stat::Card(t.pred)) == 0,
        Stat::Subjects => stat_value(ts, Stat::Subject(t.sub)) == 0,
        Stat::Objects => stat_value(ts, Stat::Object(t.obj)) == 0,
        Stat::Card(p) => p == t.pred,
        Stat::PredSubjects(p) => p == t.pred && stat_value(ts, Stat::PredSubject(t.pred, t.sub)) == 0,
        Stat::PredObjects(p) => p == t.pred && stat_value(ts, Stat::PredObject(t.pred, t.obj)) == 0,
        Stat::Subject(x) => x == t.sub,
        Stat::Object(o) => o == t.obj,
        Stat::PredSubject(p, x) => p == t.pred && x == t.sub,
        Stat::PredObject(p, o) => p == t.pred && o == t.obj,
    }
}

proof fn lemma_those_insert(ts: Set<IdTriple>, t: IdTriple, f: spec_fn(IdTriple) -> bool)
    requires
        ts.finite(),
        !ts.contains(t),
    ensures
        those(ts.insert(t), f) == those(ts, f) + (if f(t) { 1nat } else { 0nat }),
        those(ts, f) <= ts.len(),
{
    if f(t) {
        assert(ts.insert(t).filter(f) =~= ts.filter(f).insert(t));
    } else {
        assert(ts.insert(t).filter(f) =~= ts.filter(f));
    }
    vstd::set_lib::lemma_len_subset(ts.filter(f), ts);
}

proof fn lemma_those_empty(ts: Set<IdTriple>, f: spec_fn(IdTriple) -> bool)
    requires
        ts.finite(),
    ensures
        those(ts, f) == 0 <==> (forall|t: IdTriple| #[trigger] ts.contains(t) ==> !f(t)),
{
    let s = ts.filter(f);
    if those(ts, f) == 0 {
        assert forall|t: IdTriple| #[trigger] ts.contains(t) implies !f(t) by {
            if f(t) {
                assert(s.contains(t));
                assert(s.len() > 0) by {
                    vstd::set_lib::lemma_len_subset(set![t], s);
                }
            }
        }
    } else {
        if forall|t: IdTriple| #[trigger] ts.contains(t) ==> !f(t) {
            assert(s =~= Set::empty());
        }
    }
}

/// The things in use after one more triple.
proof fn lemma_images_insert(ts: Set<IdTriple>, t: IdTriple, p: u32)
    ensures
        all_predicates(ts.insert(t)) == all_predicates(ts).insert(t.pred),
        all_subjects(ts.insert(t)) == all_subjects(ts).insert(t.sub),
        all_objects(ts.insert(t)) == all_objects(ts).insert(t.obj),
        subjects_with(ts.insert(t), p) == (if p == t.pred { subjects_with(ts, p).insert(t.sub) } else { subjects_with(ts, p) }),
        objects_with(ts.insert(t), p) == (if p == t.pred { objects_with(ts, p).insert(t.obj) } else { objects_with(ts, p) }),
{
    let us = ts.insert(t);
    assert(us.contains(spo_triple(t.sub, t.pred, t.obj)));
    assert forall|x: u32| #[trigger] all_predicates(us).contains(x) <==> all_predicates(ts).insert(t.pred).contains(x) by {
        if all_predicates(us).contains(x) && x != t.pred {
            let (s, o) = choose|s: u32, o: u32| us.contains(#[trigger] spo_triple(s, x, o));
            assert(ts.contains(spo_triple(s, x, o)));
        }
        if all_predicates(ts).contains(x) {
            let (s, o) = choose|s: u32, o: u32| ts.contains(#[trigger] spo_triple(s, x, o));
            assert(us.contains(spo_triple(s, x, o)));
        }
    }
    assert forall|x: u32| #[trigger] all_subjects(us).contains(x) <==> all_subjects(ts).insert(t.sub).contains(x) by {
        if all_subjects(us).contains(x) && x != t.sub {
            let (q, o) = choose|q: u32, o: u32| us.contains(#[trigger] spo_triple(x, q, o));
            assert(ts.contains(spo_triple(x, q, o)));
        }
        if all_subjects(ts).contains(x) {
            let (q, o) = choose|q: u32, o: u32| ts.contains(#[trigger] spo_triple(x, q, o));
            assert(us.contains(spo_triple(x, q, o)));
        }
    }
    assert forall|x: u32| #[trigger] all_objects(us).contains(x) <==> all_objects(ts).insert(t.obj).contains(x) by {
        if all_objects(us).contains(x) && x != t.obj {
            let (s, q) = choose|s: u32, q: u32| us.contains(#[trigger] spo_triple(s, q, x));
            assert(ts.contains(spo_triple(s, q, x)));
        }
        if all_objects(ts).contains(x) {
            let (s, q) = choose|s: u32, q: u32| ts.contains(#[trigger] spo_triple(s, q, x));
            assert(us.contains(spo_triple(s, q, x)));
        }
    }
    let sw = if p == t.pred { subjects_with(ts, p).insert(t.sub) } else { subjects_with(ts, p) };
    assert forall|x: u32| #[trigger] subjects_with(us, p).contains(x) <==> sw.contains(x) by {
        if subjects_with(us, p).contains(x) {
            let o = choose|o: u32| us.contains(#[trigger] spo_triple(x, p, o));
            assert(ts.contains(spo_triple(x, p, o)) || spo_triple(x, p, o) == t);
        }
        if subjects_with(ts, p).contains(x) {
            let o = choose|o: u32| ts.contains(#[trigger] spo_triple(x, p, o));
            assert(us.contains(spo_triple(x, p, o)));
        }
    }
    let ow = if p == t.pred { objects_with(ts, p).insert(t.obj) } else { objects_with(ts, p) };
    assert forall|x: u32| #[trigger] objects_with(us, p).contains(x) <==> ow.contains(x) by {
        if objects_with(us, p).contains(x) {
            let s = choose|s: u32| us.contains(#[trigger] spo_triple(s, p, x));
            assert(ts.contains(spo_triple(s, p, x)) || spo_triple(s, p, x) == t);
        }
        if objects_with(ts, p).contains(x) {
            let s = choose|s: u32| ts.contains(#[trigger] spo_triple(s, p, x));
            assert(us.contains(spo_triple(s, p, x)));
        }
    }
    assert(all_predicates(us) =~= all_predicates(ts).insert(t.pred));
    assert(all_subjects(us) =~= all_subjects(ts).insert(t.sub));
    assert(all_objects(us) =~= all_objects(ts).insert(t.obj));
    assert(subjects_with(us, p) =~= sw);
    assert(objects_with(us, p) =~= ow);
}

/// There are not more things in use than triples.
proof fn lemma_images_finite(ts: Set<IdTriple>, p: u32)
    requires
        ts.finite(),
    ensures
        all_predicates(ts).finite() && all_predicates(ts).len() <= ts.len(),
        all_subjects(ts).finite() && all_subjects(ts).len() <= ts.len(),
        all_objects(ts).finite() && all_objects(ts).len() <= ts.len(),
        subjects_with(ts, p).finite() && subjects_with(ts, p).len() <= ts.len(),
        objects_with(ts, p).finite() && objects_with(ts, p).len() <= ts.len(),
    decreases ts.len(),
{
    if ts.len() == 0 {
        assert(all_predicates(ts) =~= Set::empty());
        assert(all_subjects(ts) =~= Set::empty());
        assert(all_objects(ts) =~= Set::empty());
        assert(subjects_with(ts, p) =~= Set::empty());
        assert(objects_with(ts, p) =~= Set::empty());
    } else {
        let t = ts.choose();
        let us = ts.remove(t);
        lemma_images_finite(us, p);
        lemma_images_insert(us, t, p);
        assert(us.insert(t) =~= ts);
    }
}

/// One more triple moves the statistics by one, where it moves them.
#[verifier::spinoff_prover]
#[verifier::rlimit(30)]
pub proof fn lemma_stat_insert(ts: Set<IdTriple>, t: IdTriple, s: Stat)
    requires
        ts.finite(),
        !ts.contains(t),
    ensures
        stat_value(ts.insert(t), s) == stat_value(ts, s) + (if moves_with(ts, t, s) { 1nat } else { 0nat }),
        stat_value(ts, s) <= ts.len(),
{
    match s {
        Stat::Triples => {},
        Stat::Preds => {
            lemma_images_finite(ts, 0);
            lemma_images_insert(ts, t, 0);
            lemma_those_empty(ts, |u: IdTriple| u.pred == t.pred);
            if all_predicates(ts).contains(t.pred) {
                let (a, b) = choose|a: u32, b: u32| ts.contains(#[trigger] spo_triple(a, t.pred, b));
                assert(ts.contains(spo_triple(a, t.pred, b)));
            } else {
                assert forall|u: IdTriple| #[trigger] ts.contains(u) implies u.pred != t.pred by {
                    assert(u == spo_triple(u.sub, u.pred, u.obj));
                }
            }
        },
        Stat::Subjects => {
            lemma_images_finite(ts, 0);
            lemma_images_insert(ts, t, 0);
            lemma_those_empty(ts, |u: IdTriple| u.sub == t.sub);
            if all_subjects(ts).contains(t.sub) {
                let (a, b) = choose|a: u32, b: u32| ts.contains(#[trigger] spo_triple(t.sub, a, b));
                assert(ts.contains(spo_triple(t.sub, a, b)));
            } else {
                assert forall|u: IdTriple| #[trigger] ts.contains(u) implies u.sub != t.sub by {
                    assert(u == spo_triple(u.sub, u.pred, u.obj));
                }
            }
        },
        Stat::Objects => {
            lemma_images_finite(ts, 0);
            lemma_images_insert(ts, t, 0);
            lemma_those_empty(ts, |u: IdTriple| u.obj == t.obj);
            if all_objects(ts).contains(t.obj) {
                let (a, b) = choose|a: u32, b: u32| ts.contains(#[trigger] spo_triple(a, b, t.obj));
                assert(ts.contains(spo_triple(a, b, t.obj)));
            } else {
                assert forall|u: IdTriple| #[trigger] ts.contains(u) implies u.obj != t.obj by {
                    assert(u == spo_triple(u.sub, u.pred, u.obj));
                }
            }
        },
        Stat::PredSubjects(p) => {
            lemma_images_finite(ts, p);
            lemma_images_insert(ts, t, p);
            lemma_those_empty(ts, |u: IdTriple| u.pred == t.pred && u.sub == t.sub);
            if p == t.pred {
                if subjects_with(ts, p).contains(t.sub) {
                    let o = choose|o: u32| ts.contains(#[trigger] spo_triple(t.sub, p, o));
                    assert(ts.contains(spo_triple(t.sub, p, o)));
                } else {
                    assert forall|u: IdTriple| #[trigger] ts.contains(u) implies !(u.pred == t.pred && u.sub == t.sub) by {
                        assert(u == spo_triple(u.sub, u.pred, u.obj));
                    }
                }
            }
        },
        Stat::PredObjects(p) => {
            lemma_images_finite(ts, p);
            lemma_images_insert(ts, t, p);
            lemma_those_empty(ts, |u: IdTriple| u.pred == t.pred && u.obj == t.obj);
            if p == t.pred {
                if objects_with(ts, p).contains(t.obj) {
                    let x = choose|x: u32| ts.contains(#[trigger] spo_triple(x, p, t.obj));
                    assert(ts.contains(spo_triple(x, p, t.obj)));
                } else {
                    assert forall|u: IdTriple| #[trigger] ts.contains(u) implies !(u.pred == t.pred && u.obj == t.obj) by {
                        assert(u == spo_triple(u.sub, u.pred, u.obj));
                    }
                }
            }
        },
        Stat::Card(p) => {
            lemma_those_insert(ts, t, |u: IdTriple| u.pred == p);
        },
        Stat::Subject(x) => {
            lemma_those_insert(ts, t, |u: IdTriple| u.sub == x);
        },
        Stat::Object(o) => {
            lemma_those_insert(ts, t, |u: IdTriple| u.obj == o);
        },
        Stat::PredSubject(p, x) => {
            lemma_those_insert(ts, t, |u: IdTriple| u.pred == p && u.sub == x);
        },
        Stat::PredObject(p, o) => {
            lemma_those_insert(ts, t, |u: IdTriple| u.pred == p && u.obj == o);
        },
    }
}

/// If the counters are right before a new triple is counted, they can count it, and
/// are right afterwards, in the database and in memory.
pub proof fn law_insert_keeps_statistics(m: Counters, ts: Set<IdTriple>, t: IdTriple)
    requires
        ts.finite(),
        ts.len() < u64::MAX,
        !ts.contains(t),
        stats_ok(m, ts),
    ensures
        can_grow(globals_of(m), counts_of(m, t)),
        stats_ok(applied(m, changes(globals_of(m), counts_of(m, t), t, 1, 0)), ts.insert(t)),
        globals_of(applied(m, changes(globals_of(m), counts_of(m, t), t, 1, 0))) == globals_moved(globals_of(m), counts_of(m, t), 1, 0),
{
    assert forall|s: Stat| #[trigger] stepped(m, t, 1, 0, s) == stat_value(ts.insert(t), s) && 0 <= stepped(m, t, 1, 0, s) <= u64::MAX && counter(m, s) < u64::MAX by {
        lemma_stat_insert(ts, t, s);
        assert(counter(m, s) == stat_value(ts, s));
        assert(counter(m, Stat::Card(t.pred)) == stat_value(ts, Stat::Card(t.pred)));
        assert(counter(m, Stat::Subject(t.sub)) == stat_value(ts, Stat::Subject(t.sub)));
        assert(counter(m, Stat::Object(t.obj)) == stat_value(ts, Stat::Object(t.obj)));
        assert(counter(m, Stat::PredSubject(t.pred, t.sub)) == stat_value(ts, Stat::PredSubject(t.pred, t.sub)));
        assert(counter(m, Stat::PredObject(t.pred, t.obj)) == stat_value(ts, Stat::PredObject(t.pred, t.obj)));
    }
    lemma_changes(m, t, 1, 0);
    assert forall|s: Stat| counter(m, s) < u64::MAX by {
        assert(stepped(m, t, 1, 0, s) >= 0);
    }
    let n = applied(m, changes(globals_of(m), counts_of(m, t), t, 1, 0));
    assert forall|s: Stat| #[trigger] counter(n, s) == stat_value(ts.insert(t), s) by {
        assert(stepped(m, t, 1, 0, s) == stat_value(ts.insert(t), s));
    }
    assert(stepped(m, t, 1, 0, Stat::Triples) >= 0 && stepped(m, t, 1, 0, Stat::Preds) >= 0 && stepped(m, t, 1, 0, Stat::Subjects) >= 0 && stepped(m, t, 1, 0, Stat::Objects) >= 0);
}

/// If the counters are right before a triple is removed, they have counted it, and
/// are right afterwards, in the database and in memory.
pub proof fn law_remove_keeps_statistics(m: Counters, ts: Set<IdTriple>, t: IdTriple)
    requires
        ts.finite(),
        ts.contains(t),
        stats_ok(m, ts),
    ensures
        can_shrink(globals_of(m), counts_of(m, t)),
        stats_ok(applied(m, changes(globals_of(m), counts_of(m, t), t, -1, 1)), ts.remove(t)),
        globals_of(applied(m, changes(globals_of(m), counts_of(m, t), t, -1, 1))) == globals_moved(globals_of(m), counts_of(m, t), -1, 1),
{
    let us = ts.remove(t);
    assert(us.insert(t) =~= ts);
    assert forall|s: Stat| #[trigger] stepped(m, t, -1, 1, s) == stat_value(us, s) && counter(m, s) == stat_value(us, s) + (if moves_with(us, t, s) { 1nat } else { 0nat }) by {
        lemma_stat_insert(us, t, s);
        lemma_stat_insert(us, t, Stat::Card(t.pred));
        lemma_stat_insert(us, t, Stat::Subject(t.sub));
        lemma_stat_insert(us, t, Stat::Object(t.obj));
        lemma_stat_insert(us, t, Stat::PredSubject(t.pred, t.sub));
        lemma_stat_insert(us, t, Stat::PredObject(t.pred, t.obj));
        assert(counter(m, s) == stat_value(ts, s));
        assert(counter(m, Stat::Card(t.pred)) == stat_value(ts, Stat::Card(t.pred)));
        assert(counter(m, Stat::Subject(t.sub)) == stat_value(ts, Stat::Subject(t.sub)));
        assert(counter(m, Stat::Object(t.obj)) == stat_value(ts, Stat::Object(t.obj)));
        assert(counter(m, Stat::PredSubject(t.pred, t.sub)) == stat_value(ts, Stat::PredSubject(t.pred, t.sub)));
        assert(counter(m, Stat::PredObject(t.pred, t.obj)) == stat_value(ts, Stat::PredObject(t.pred, t.obj)));
    }
    assert forall|s: Stat| 0 <= #[trigger] stepped(m, t, -1, 1, s) <= u64::MAX by {
        assert(stepped(m, t, -1, 1, s) == stat_value(us, s));
    }
    lemma_changes(m, t, -1, 1);
    let n = applied(m, changes(globals_of(m), counts_of(m, t), t, -1, 1));
    assert forall|s: Stat| #[trigger] counter(n, s) == stat_value(us, s) by {
        assert(stepped(m, t, -1, 1, s) == stat_value(us, s));
    }
    assert(stepped(m, t, -1, 1, Stat::Triples) >= 0);
    assert(stepped(m, t, -1, 1, Stat::Preds) >= 0);
    assert(stepped(m, t, -1, 1, Stat::Subjects) >= 0);
    assert(stepped(m, t, -1, 1, Stat::Objects) >= 0);
    assert(stepped(m, t, -1, 1, Stat::Card(t.pred)) >= 0);
    assert(stepped(m, t, -1, 1, Stat::Subject(t.sub)) >= 0);
    assert(stepped(m, t, -1, 1, Stat::Object(t.obj)) >= 0);
    assert(stepped(m, t, -1, 1, Stat::PredSubject(t.pred, t.sub)) >= 0);
    assert(stepped(m, t, -1, 1, Stat::PredObject(t.pred, t.obj)) >= 0);
    assert(stepped(m, t, -1, 1, Stat::PredSubjects(t.pred)) >= 0);
    assert(stepped(m, t, -1, 1, Stat::PredObjects(t.pred)) >= 0);
}

/// A database without counters counts no triple.
pub proof fn law_no_counters_no_triples()
    ensures
        stats_ok(Map::empty(), Set::empty()),
{
    let ts = Set::<IdTriple>::empty();
    assert forall|s: Stat| #[trigger] counter(Map::empty(), s) == stat_value(ts, s) by {
        lemma_images_finite(ts, 0);
        match s {
            Stat::PredSubjects(p) => {
                lemma_images_finite(ts, p);
            },
            Stat::PredObjects(p) => {
                lemma_images_finite(ts, p);
            },
            Stat::Card(p) => {
                lemma_those_empty(ts, |u: IdTriple| u.pred == p);
            },
            Stat::Subject(x) => {
                lemma_those_empty(ts, |u: IdTriple| u.sub == x);
            },
            Stat::Object(o) => {
                lemma_those_empty(ts, |u: IdTriple| u.obj == o);
            },
            Stat::PredSubject(p, x) => {
                lemma_those_empty(ts, |u: IdTriple| u.pred == p && u.sub == x);
            },
            Stat::PredObject(p, o) => {
                lemma_those_empty(ts, |u: IdTriple| u.pred == p && u.obj == o);
            },
            _ => {},
        }
    }
}

} // verus!
