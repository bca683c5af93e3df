//! Clearing graphs: every triple that goes can be put back by the open transaction, and
//! is noted for the redo log.

use super::state::{noted_all, quad_record, quad_records, lemma_noted_push, lemma_refilled, refilled, undone_all, DbSpec, Quad, UndoOp};
use super::state::graph_key;
use super::{graph_place, graphs_wf, quads_of, Database, NamedGraph};
use crate::dict::{dict_ok, DictSpec};
use crate::model::{IdTriple, Term};
use crate::order::{lemma_ascending_unique, lemma_lists_len, lists, Ranked};
use crate::query::GraphTarget;
use crate::store::{scan_key, scans, TripleStore};
use crate::text::chars_of;
use vstd::prelude::*;
use vstd::string::*;

verus! {

/// The quads of the graphs that are selected.
pub open spec fn quads_in(quads: Set<Quad>, selected: spec_fn(Option<u32>) -> bool) -> Set<Quad> {
    quads.filter(|q: Quad| selected(q.0))
}

/// The default graph, all named graphs, or both.
pub open spec fn both(default: bool, named: bool) -> spec_fn(Option<u32>) -> bool {
    |g: Option<u32>|
        match g {
            None => default,
            Some(id) => named,
        }
}

/// The default graph before the named graphs, by ascending id.
pub open spec fn graph_rank(g: Option<u32>) -> int {
    match g {
        None => 0,
        Some(id) => id + 1,
    }
}

/// Quads are ordered by graph, and within a graph as in a full scan.
impl Ranked for (Option<u32>, IdTriple) {
    open spec fn rank(self) -> int {
        graph_rank(self.0) * 0x1_0000_0000_0000_0000_0000_0000 + scan_key(self.1).rank()
    }

    proof fn rank_is_injective(a: Self, b: Self) {
        <(u32, u32, u32) as Ranked>::rank_is_injective(scan_key(a.1), scan_key(b.1));
    }

    fn before(&self, other: &Self) -> (b: bool) {
        let g: u64 = match self.0 {
            None => 0,
            Some(id) => id as u64 + 1,
        };
        let h: u64 = match other.0 {
            None => 0,
            Some(id) => id as u64 + 1,
        };
        let x: (u32, u32, u32) = (self.1.pred, self.1.sub, self.1.obj);
        let y: (u32, u32, u32) = (other.1.pred, other.1.sub, other.1.obj);
        g < h || (g == h && x.before(&y))
    }
}

/// The quads in order.
pub open spec fn quad_list(qs: Set<Quad>) -> Seq<Quad> {
    choose|s: Seq<Quad>| lists(s, qs)
}

/// The named graphs that have some of the quads.
pub open spec fn graphs_with(qs: Set<Quad>) -> Set<u32> {
    Set::new(|g: u32| exists|t: IdTriple| #[trigger] qs.contains((Some(g), t)))
}

/// The graphs without some quads. A named graph that is selected goes with them, if any
/// of them is in a named graph; those of the default graph leave the search index stale.
pub open spec fn without(db: DbSpec, gone: Set<Quad>, selected: spec_fn(Option<u32>) -> bool) -> DbSpec {
    DbSpec {
        quads: db.quads.difference(gone),
        graphs: (if quads_in(gone, both(false, true)).len() == 0 {
            db.graphs
        } else {
            db.graphs.filter(|g: u32| !selected(Some(g)))
        }),
        index_valid: db.index_valid && quads_in(gone, both(true, false)).len() == 0,
        txn_graphs: (if db.txn is Some { db.txn_graphs.union(graphs_with(gone)) } else { db.txn_graphs }),
        cache: Seq::empty(),
        ..db
    }
}

/// The database after the selected graphs were cleared. Clearing nothing changes
/// nothing. Each triple that goes is noted for the redo log, in the order of the quads.
pub open spec fn cleared(db: DbSpec, selected: spec_fn(Option<u32>) -> bool) -> DbSpec {
    let gone = quads_in(db.quads, selected);
    if gone.len() == 0 {
        db
    } else {
        noted_all(without(db, gone, selected), quad_records(db.dict, 'D', quad_list(gone)))
    }
}

/// The list of a set of quads is determined by the set.
pub proof fn lemma_listed(s: Seq<Quad>, qs: Set<Quad>)
    requires
        lists(s, qs),
    ensures
        quad_list(qs) == s,
        s.to_set() == qs,
        qs.finite(),
        qs.len() == s.len(),
{
    let c = quad_list(qs);
    assert(lists(c, qs));
    assert forall|x: Quad| #[trigger] c.contains(x) <==> s.contains(x) by {
        assert(qs.contains(x) <==> c.contains(x));
        assert(qs.contains(x) <==> s.contains(x));
    }
    lemma_ascending_unique(c, s);
    assert(s.to_set() =~= qs);
    lemma_lists_len(s, qs);
}

/// Two lists one after the other.
proof fn lemma_lists_join(a: Seq<Quad>, b: Seq<Quad>, x: Set<Quad>, y: Set<Quad>)
    requires
        lists(a, x),
        lists(b, y),
        forall|p: Quad, q: Quad| #[trigger] x.contains(p) && #[trigger] y.contains(q) ==> p.rank() < q.rank(),
    ensures
        lists(a + b, x.union(y)),
{
    let s = a + b;
    assert forall|i: int, j: int| 0 <= i < j < s.len() implies (#[trigger] s[i]).rank() < (#[trigger] s[j]).rank() by {
        if j < a.len() {
            assert(a[i].rank() < a[j].rank());
        } else if i >= a.len() {
            assert(b[i - a.len()].rank() < b[j - a.len()].rank());
        } else {
            assert(a.contains(a[i]) && b.contains(b[j - a.len()]));
            assert(x.contains(s[i]) && y.contains(s[j]));
        }
    }
    assert forall|q: Quad| #[trigger] x.union(y).contains(q) <==> s.contains(q) by {
        if a.contains(q) {
            let k = choose|k: int| 0 <= k < a.len() && a[k] == q;
            assert(s[k] == q);
        }
        if b.contains(q) {
            let k = choose|k: int| 0 <= k < b.len() && b[k] == q;
            assert(s[a.len() + k] == q);
        }
        if s.contains(q) {
            let k = choose|k: int| 0 <= k < s.len() && s[k] == q;
            if k < a.len() {
                assert(a[k] == q);
            } else {
                assert(b[k - a.len()] == q);
            }
        }
        assert(x.contains(q) <==> a.contains(q));
        assert(y.contains(q) <==> b.contains(q));
    }
}

/// The triples of one graph as quads.
pub open spec fn tagged(ts: Set<IdTriple>, g: Option<u32>) -> Set<Quad> {
    ts.map(|t: IdTriple| (g, t))
}

proof fn lemma_tagged(ts: Set<IdTriple>, g: Option<u32>)
    requires
        ts.finite(),
    ensures
        tagged(ts, g).finite(),
        tagged(ts, g).len() == ts.len(),
        forall|q: Quad| #[trigger] tagged(ts, g).contains(q) <==> q.0 == g && ts.contains(q.1),
{
    let f = |t: IdTriple| (g, t);
    vstd::set_lib::lemma_map_size(ts, tagged(ts, g), f);
    assert forall|q: Quad| #[trigger] tagged(ts, g).contains(q) <==> q.0 == g && ts.contains(q.1) by {
        if q.0 == g && ts.contains(q.1) {
            assert(f(q.1) == q);
        }
    }
}

/// The number of triples in some named graphs.
pub open spec fn named_total(named: Seq<NamedGraph>) -> nat
    decreases named.len(),
{
    if named.len() == 0 {
        0
    } else {
        named_total(named.drop_last()) + named.last().store@.len()
    }
}

/// The quads of some named graphs.
pub open spec fn named_quads(named: Seq<NamedGraph>) -> Set<Quad> {
    quads_of(Set::<IdTriple>::empty(), named)
}

proof fn lemma_named_total(named: Seq<NamedGraph>)
    requires
        graphs_wf(named),
    ensures
        named_quads(named).finite(),
        named_quads(named).len() == named_total(named),
    decreases named.len(),
{
    if named.len() == 0 {
        assert(named_quads(named) =~= Set::<Quad>::empty());
    } else {
        let front = named.drop_last();
        let last = named.last();
        assert(graphs_wf(front)) by {
            assert forall|i: int, j: int| 0 <= i < j < front.len() implies (#[trigger] front[i]).id < (#[trigger] front[j]).id by {
                assert(named[i].id < named[j].id);
            }
            assert forall|k: int| 0 <= k < front.len() implies (#[trigger] front[k]).store.wf() by {
                assert(named[k].store.wf());
            }
        }
        lemma_named_total(front);
        assert(named[named.len() - 1].store.wf());
        last.store.lemma_finite();
        lemma_tagged(last.store@, Some(last.id));
        let a = named_quads(front);
        let b = tagged(last.store@, Some(last.id));
        lemma_quads_last(Set::<IdTriple>::empty(), named);
        assert(a.disjoint(b)) by {
            assert forall|q: Quad| a.contains(q) implies !b.contains(q) by {
                if b.contains(q) {
                    let k = choose|k: int| 0 <= k < front.len() && (#[trigger] front[k]).id == q.0->0 && front[k].store@.contains(q.1);
                    assert(named[k].id < named[named.len() - 1].id);
                }
            }
        }
        vstd::set_lib::lemma_set_disjoint_lens(a, b);
    }
}

/// The quads of some graphs are those of all but the last, and those of the last.
proof fn lemma_quads_last(default: Set<IdTriple>, named: Seq<NamedGraph>)
    requires
        graphs_wf(named),
        named.len() > 0,
    ensures
        quads_of(default, named) == quads_of(default, named.drop_last()).union(tagged(named.last().store@, Some(named.last().id))),
{
    let front = named.drop_last();
    let last = named.last();
    assert(named[named.len() - 1].store.wf());
    last.store.lemma_finite();
    lemma_tagged(last.store@, Some(last.id));
    let a = quads_of(default, front);
    let b = tagged(last.store@, Some(last.id));
    let all = quads_of(default, named);
    assert forall|q: Quad| #[trigger] all.contains(q) <==> a.union(b).contains(q) by {
        if q.0 is Some {
            if all.contains(q) {
                let k = choose|k: int| 0 <= k < named.len() && (#[trigger] named[k]).id == q.0->0 && named[k].store@.contains(q.1);
                if k < front.len() {
                    assert(front[k] == named[k]);
                }
            }
            if a.contains(q) {
                let k = choose|k: int| 0 <= k < front.len() && (#[trigger] front[k]).id == q.0->0 && front[k].store@.contains(q.1);
                assert(named[k] == front[k]);
            }
            if b.contains(q) {
                assert(named[named.len() - 1].id == q.0->0);
            }
        }
    }
    assert(all =~= a.union(b));
}

/// The quads are those of the default graph and those of the named graphs.
proof fn lemma_quads_split(default: Set<IdTriple>, named: Seq<NamedGraph>)
    requires
        default.finite(),
        graphs_wf(named),
    ensures
        ({
            let all = quads_of(default, named);
            &&& all.finite()
            &&& all.len() == default.len() + named_total(named)
            &&& quads_in(all, both(true, false)) == tagged(default, None)
            &&& quads_in(all, both(true, false)).len() == default.len()
            &&& quads_in(all, both(false, true)) == named_quads(named)
            &&& quads_in(all, both(false, true)).len() == named_total(named)
        }),
{
    let all = quads_of(default, named);
    lemma_tagged(default, None);
    lemma_named_total(named);
    let a = tagged(default, None);
    let b = named_quads(named);
    assert(quads_in(all, both(true, false)) =~= a);
    assert(quads_in(all, both(false, true)) =~= b);
    assert(all =~= a.union(b)) by {
        assert forall|q: Quad| #[trigger] all.contains(q) <==> a.union(b).contains(q) by {
            if q.0 is None {
                assert(a.contains(q) <==> default.contains(q.1));
            }
        }
    }
    assert(a.disjoint(b));
    vstd::set_lib::lemma_set_disjoint_lens(a, b);
}

/// Some triples as quads of a graph.
pub open spec fn tagged_seq(ts: Seq<IdTriple>, g: Option<u32>) -> Seq<Quad> {
    ts.map_values(|t: IdTriple| (g, t))
}

/// A full scan of a graph lists its quads.
proof fn lemma_tagged_lists(ts: Seq<IdTriple>, set: Set<IdTriple>, g: Option<u32>)
    requires
        scans(ts, set),
        set.finite(),
    ensures
        lists(tagged_seq(ts, g), tagged(set, g)),
{
    let s = tagged_seq(ts, g);
    lemma_tagged(set, g);
    assert forall|i: int, j: int| 0 <= i < j < s.len() implies (#[trigger] s[i]).rank() < (#[trigger] s[j]).rank() by {
        assert(scan_key(ts[i]).rank() < scan_key(ts[j]).rank());
    }
    assert forall|q: Quad| #[trigger] tagged(set, g).contains(q) <==> s.contains(q) by {
        if tagged(set, g).contains(q) {
            assert(ts.contains(q.1));
            let k = choose|k: int| 0 <= k < ts.len() && ts[k] == q.1;
            assert(s[k] == q);
        }
        if s.contains(q) {
            let k = choose|k: int| 0 <= k < s.len() && s[k] == q;
            assert(ts.contains(ts[k]));
            assert(set.contains(ts[k]));
        }
    }
}

/// Add the triples of a graph to a list of quads.
fn tag(g: Option<u32>, ts: &Vec<IdTriple>, out: &mut Vec<Quad>)
    ensures
        final(out)@ == old(out)@ + tagged_seq(ts@, g),
{
    let mut i: usize = 0;
    let ghost before = out@;
    assert(out@ =~= before + tagged_seq(ts@.take(0), g));
    while i < ts.len()
        invariant
            i <= ts@.len(),
            out@ == before + tagged_seq(ts@.take(i as int), g),
        decreases ts.len() - i,
    {
        out.push((g, ts[i]));
        i = i + 1;
        assert(out@ =~= before + tagged_seq(ts@.take(i as int), g));
    }
    assert(ts@.take(ts@.len() as int) =~= ts@);
}

/// The quads of some named graphs, in order.
fn named_list(named: &Vec<NamedGraph>) -> (r: Vec<Quad>)
    requires
        graphs_wf(named@),
    ensures
        lists(r@, named_quads(named@)),
{
    let mut r: Vec<Quad> = Vec::new();
    let mut i: usize = 0;
    let ghost n0 = named@;
    assert(named_quads(n0.take(0)) =~= Set::<Quad>::empty());
    while i < named.len()
        invariant
            n0 == named@,
            graphs_wf(n0),
            i <= named@.len(),
            lists(r@, named_quads(n0.take(i as int))),
        decreases named.len() - i,
    {
        let ghost part = n0.take(i as int);
        let ghost next = n0.take(i + 1);
        let ghost r0 = r@;
        assert(n0[i as int].store.wf());
        let ts: Vec<IdTriple> = named[i].store.iter_all();
        let g: u32 = named[i].id;
        tag(Some(g), &ts, &mut r);
        proof {
            assert(next.drop_last() =~= part);
            assert(next.last() == n0[i as int]);
            assert(graphs_wf(next)) by {
                assert forall|a: int, b: int| 0 <= a < b < next.len() implies (#[trigger] next[a]).id < (#[trigger] next[b]).id by {
                    assert(n0[a].id < n0[b].id);
                }
                assert forall|k: int| 0 <= k < next.len() implies (#[trigger] next[k]).store.wf() by {
                    assert(n0[k].store.wf());
                }
            }
            lemma_quads_last(Set::<IdTriple>::empty(), next);
            let st = n0[i as int].store@;
            n0[i as int].store.lemma_finite();
            lemma_tagged(st, Some(g));
            lemma_tagged_lists(ts@, st, Some(g));
            let x = named_quads(part);
            let y = tagged(st, Some(g));
            assert forall|p: Quad, q: Quad| #[trigger] x.contains(p) && #[trigger] y.contains(q) implies p.rank() < q.rank() by {
                let k = choose|k: int| 0 <= k < part.len() && (#[trigger] part[k]).id == p.0->0 && part[k].store@.contains(p.1);
                assert(n0[k].id < n0[i as int].id);
            }
            lemma_lists_join(r0, tagged_seq(ts@, Some(g)), x, y);
        }
        i = i + 1;
    }
    assert(n0.take(n0.len() as int) =~= n0);
    r
}

/// Undo entries that put some quads back.
pub open spec fn put_back(qs: Seq<Quad>) -> Seq<UndoOp> {
    qs.map_values(|q: Quad| UndoOp::Add(q.0, q.1))
}

proof fn lemma_put_back(log: Seq<UndoOp>, qs: Seq<Quad>, quads: Set<Quad>)
    ensures
        undone_all(log + put_back(qs), quads) == undone_all(log, quads.union(qs.to_set())),
    decreases qs.len(),
{
    let u = quads.union(qs.to_set());
    if qs.len() == 0 {
        assert(log + put_back(qs) =~= log);
        assert(u =~= quads);
    } else {
        let front = qs.drop_last();
        let q = qs.last();
        assert((log + put_back(qs)).drop_last() =~= log + put_back(front));
        assert((log + put_back(qs)).last() == UndoOp::Add(q.0, q.1));
        lemma_put_back(log, front, quads.insert(q));
        assert forall|x: Quad| #[trigger] u.contains(x) <==> quads.insert(q).union(front.to_set()).contains(x) by {
            if qs.contains(x) {
                let k = choose|k: int| 0 <= k < qs.len() && qs[k] == x;
                if k < front.len() {
                    assert(front[k] == x);
                }
            }
            if front.contains(x) {
                let k = choose|k: int| 0 <= k < front.len() && front[k] == x;
                assert(qs[k] == x);
            }
            assert(qs[qs.len() - 1] == q);
        }
        assert(u =~= quads.insert(q).union(front.to_set()));
    }
}

proof fn lemma_refilled_back(log: Seq<UndoOp>, qs: Seq<Quad>)
    ensures
        refilled(log + put_back(qs)) == refilled(log).union(graphs_with(qs.to_set())),
    decreases qs.len(),
{
    let a = refilled(log + put_back(qs));
    let b = refilled(log).union(graphs_with(qs.to_set()));
    if qs.len() == 0 {
        assert(log + put_back(qs) =~= log);
        assert(graphs_with(qs.to_set()) =~= Set::<u32>::empty());
        assert(a =~= b);
    } else {
        let front = qs.drop_last();
        let q = qs.last();
        lemma_refilled_back(log, front);
        assert(log + put_back(qs) =~= (log + put_back(front)).push(UndoOp::Add(q.0, q.1)));
        lemma_refilled(log + put_back(front), UndoOp::Add(q.0, q.1));
        let x = graphs_with(front.to_set());
        assert forall|g: u32| #[trigger] graphs_with(qs.to_set()).contains(g) <==> x.contains(g) || q.0 == Some(g) by {
            if graphs_with(qs.to_set()).contains(g) {
                let t = choose|t: IdTriple| #[trigger] qs.to_set().contains((Some(g), t));
                assert(qs.contains((Some(g), t)));
                let k = choose|k: int| 0 <= k < qs.len() && qs[k] == (Some(g), t);
                if k < front.len() {
                    assert(front[k] == (Some(g), t));
                    assert(front.to_set().contains((Some(g), t)));
                }
            }
            if x.contains(g) {
                let t = choose|t: IdTriple| #[trigger] front.to_set().contains((Some(g), t));
                assert(front.contains((Some(g), t)));
                let k = choose|k: int| 0 <= k < front.len() && front[k] == (Some(g), t);
                assert(qs[k] == (Some(g), t));
                assert(qs.to_set().contains((Some(g), t)));
            }
            if q.0 == Some(g) {
                assert(qs[qs.len() - 1] == (Some(g), q.1));
                assert(qs.to_set().contains((Some(g), q.1)));
            }
        }
        assert(a =~= b);
    }
}

/// The graphs that a request is for.
pub open spec fn target_selects(d: DictSpec, target: GraphTarget) -> spec_fn(Option<u32>) -> bool {
    match target {
        GraphTarget::Default => both(true, false),
        GraphTarget::All => both(true, true),
        GraphTarget::Named(n) => if n@.len() == 0 {
            both(false, true)
        } else {
            named_selects(d, n@)
        },
    }
}

/// The graph with the given name.
pub open spec fn named_selects(d: DictSpec, n: Seq<char>) -> spec_fn(Option<u32>) -> bool {
    |g: Option<u32>| d.entities.contains_key(graph_key(n)) && g == Some(d.entities[graph_key(n)])
}

impl Database {
    /// The quads are finitely many.
    pub proof fn lemma_finite(&self)
        requires
            self.wf(),
        ensures
            self@.quads.finite(),
            dict_ok(self@.dict),
    {
        self.dict.lemma_ok();
        self.store.lemma_finite();
        lemma_quads_split(self.store@, self.named@);
    }

    /// Note in the undo log that some quads were taken out.
    fn log_gone(&mut self, gone: &Vec<Quad>)
        ensures
            final(self)@ == (DbSpec {
                txn_graphs: (if old(self)@.txn is Some { old(self)@.txn_graphs.union(graphs_with(gone@.to_set())) } else { old(self)@.txn_graphs }),
                ..old(self)@
            }),
            old(self).txn matches Some(log) ==> final(self).txn is Some && final(self).txn->0@ == log@ + put_back(gone@),
            old(self).txn is None ==> final(self).txn is None,
            final(self).dict == old(self).dict,
            final(self).store == old(self).store,
            final(self).named == old(self).named,
            final(self).query_cache == old(self).query_cache,
            final(self).base == old(self).base,
    {
        match self.txn.take() {
            None => {},
            Some(log) => {
                let ghost l0 = log@;
                let mut l: Vec<UndoOp> = log;
                let mut i: usize = 0;
                assert(l@ =~= l0 + put_back(gone@.take(0)));
                while i < gone.len()
                    invariant
                        i <= gone@.len(),
                        l@ == l0 + put_back(gone@.take(i as int)),
                    decreases gone.len() - i,
                {
                    l.push(UndoOp::Add(gone[i].0, gone[i].1));
                    i = i + 1;
                    assert(l@ =~= l0 + put_back(gone@.take(i as int)));
                }
                proof {
                    assert(gone@.take(gone@.len() as int) =~= gone@);
                    lemma_refilled_back(l0, gone@);
                }
                self.txn = Some(l);
            },
        }
    }

    /// Keep for the redo log that some quads were taken out.
    fn record_gone(&mut self, gone: &Vec<Quad>)
        requires
            old(self).wf(),
        ensures
            final(self).wf(),
            final(self)@ == noted_all(old(self)@, quad_records(old(self)@.dict, 'D', gone@)),
    {
        let mut i: usize = 0;
        let ghost before = self@;
        let ghost d = before.dict;
        while i < gone.len()
            invariant
                i <= gone@.len(),
                self.wf(),
                d == before.dict,
                self@ == noted_all(before, quad_records(d, 'D', gone@.take(i as int))),
            decreases gone.len() - i,
        {
            let q: Quad = gone[i];
            proof {
                let next = gone@.take(i + 1);
                assert(next.drop_last() =~= gone@.take(i as int));
                assert(next.last() == q);
                assert(q == (q.0, q.1));
                match quad_record(d, 'D', q) {
                    Some(r) => {
                        lemma_noted_push(before, quad_records(d, 'D', gone@.take(i as int)), r);
                    },
                    None => {},
                }
            }
            self.record_redo('D', q.0, q.1);
            i = i + 1;
        }
        assert(gone@.take(gone@.len() as int) =~= gone@);
    }

    /// Clear the default graph, all named graphs, or both. Gives the number of triples
    /// cleared.
    #[verifier::spinoff_prover]
    fn clear_graphs(&mut self, default: bool, named: bool) -> (n: usize)
        requires
            old(self).wf(),
        ensures
            final(self).wf(),
            final(self)@ == cleared(old(self)@, both(default, named)),
            n == quads_in(old(self)@.quads, both(default, named)).len(),
    {
        let ghost before = self@;
        let ghost s0 = self.store@;
        let ghost n0 = self.named@;
        let ghost sel = both(default, named);
        let ghost gone = quads_in(before.quads, sel);
        let ghost a = if default { tagged(s0, None) } else { Set::<Quad>::empty() };
        let ghost b = if named { named_quads(n0) } else { Set::<Quad>::empty() };
        proof {
            self.store.lemma_finite();
            lemma_quads_split(s0, n0);
            lemma_tagged(s0, None);
        }
        let mut qs: Vec<Quad> = Vec::new();
        if default {
            let ts: Vec<IdTriple> = self.store.iter_all();
            tag(None, &ts, &mut qs);
            proof {
                lemma_tagged_lists(ts@, s0, None);
                assert(qs@ =~= tagged_seq(ts@, None));
            }
        }
        let d: usize = qs.len();
        let ghost q0 = qs@;
        if named {
            let mut more: Vec<Quad> = named_list(&self.named);
            proof {
                assert forall|p: Quad, q: Quad| #[trigger] a.contains(p) && #[trigger] b.contains(q) implies p.rank() < q.rank() by {
                }
                lemma_lists_join(q0, more@, a, b);
            }
            qs.append(&mut more);
        } else {
            assert(a.union(b) =~= a);
        }
        proof {
            assert(lists(qs@, a.union(b)));
            assert(gone =~= a.union(b)) by {
                assert forall|q: Quad| #[trigger] gone.contains(q) <==> a.union(b).contains(q) by {
                    if q.0 is None {
                        assert(tagged(s0, None).contains(q) <==> s0.contains(q.1));
                    }
                }
            }
            lemma_listed(qs@, gone);
            lemma_listed(q0, a);
            assert(quads_in(gone, both(true, false)) =~= a);
            assert(quads_in(gone, both(false, true)) =~= b);
            assert(a.disjoint(b));
            lemma_named_total(n0);
            vstd::set_lib::lemma_set_disjoint_lens(a, b);
        }
        let n: usize = qs.len();
        if n > 0 {
            let ghost log0 = self.txn;
            self.log_gone(&qs);
            if d > 0 {
                self.store = TripleStore::new();
                self.index_valid = false;
            }
            if n > d {
                self.named = Vec::new();
            }
            self.query_cache.clear();
            proof {
                let s1 = self.store@;
                let n1 = self.named@;
                if d == 0 {
                    assert(a =~= Set::<Quad>::empty());
                }
                if n == d {
                    assert(b =~= Set::<Quad>::empty());
                }
                assert forall|q: Quad| #[trigger] self@.quads.contains(q) <==> before.quads.difference(gone).contains(q) by {
                    if q.0 is None {
                        assert(tagged(s0, None).contains(q) <==> s0.contains(q.1));
                    } else {
                        assert(named_quads(n0).contains(q) <==> before.quads.contains(q));
                    }
                }
                assert(self@.quads =~= before.quads.difference(gone));
                if n > d {
                    assert(self@.graphs =~= before.graphs.filter(|g: u32| !sel(Some(g))));
                }
                if log0 is Some {
                    lemma_put_back(log0->0@, qs@, self@.quads);
                    assert(self@.quads.union(qs@.to_set()) =~= before.quads);
                }
                assert(self@ =~= without(before, gone, sel));
            }
            self.record_gone(&qs);
        }
        n
    }

    /// Clear one named graph. Gives the number of triples cleared.
    fn clear_named(&mut self, graph: &str) -> (n: usize)
        requires
            old(self).wf(),
        ensures
            final(self).wf(),
            final(self)@ == cleared(old(self)@, named_selects(old(self)@.dict, graph@)),
            n == quads_in(old(self)@.quads, named_selects(old(self)@.dict, graph@)).len(),
    {
        let ghost before = self@;
        let ghost sel = named_selects(before.dict, graph@);
        let ghost gone = quads_in(before.quads, sel);
        let gid: u32 = match self.dict.entity_id(Term::iri(graph).dict_key().as_str()) {
            Some(i) => i,
            None => {
                assert(gone =~= Set::<Quad>::empty());
                return 0;
            },
        };
        let i: usize = graph_place(&self.named, gid);
        let ghost n0 = self.named@;
        if i >= self.named.len() || self.named[i].id != gid {
            proof {
                assert forall|q: Quad| !gone.contains(q) by {
                    if gone.contains(q) {
                        let k = choose|k: int| 0 <= k < n0.len() && (#[trigger] n0[k]).id == gid && n0[k].store@.contains(q.1);
                        if k > i {
                            assert(n0[i as int].id < n0[k].id);
                        }
                    }
                }
                assert(gone =~= Set::<Quad>::empty());
            }
            return 0;
        }
        let removed: Vec<IdTriple> = self.named[i].store.iter_all();
        let n: usize = removed.len();
        let ghost ts = n0[i as int].store@;
        proof {
            assert(n0[i as int].store.wf());
            n0[i as int].store.lemma_finite();
            lemma_tagged(ts, Some(gid));
            assert forall|q: Quad| #[trigger] gone.contains(q) <==> tagged(ts, Some(gid)).contains(q) by {
                if gone.contains(q) {
                    let k = choose|k: int| 0 <= k < n0.len() && (#[trigger] n0[k]).id == gid && n0[k].store@.contains(q.1);
                    if k > i {
                        assert(n0[i as int].id < n0[k].id);
                    } else if k < i {
                        assert(n0[k].id < n0[i as int].id);
                    }
                }
                if tagged(ts, Some(gid)).contains(q) {
                    assert(n0[i as int].id == gid && n0[i as int].store@.contains(q.1));
                }
            }
            assert(gone =~= tagged(ts, Some(gid)));
        }
        if n > 0 {
            let ghost log0 = self.txn;
            let mut qs: Vec<Quad> = Vec::new();
            tag(Some(gid), &removed, &mut qs);
            proof {
                lemma_tagged_lists(removed@, ts, Some(gid));
                assert(qs@ =~= tagged_seq(removed@, Some(gid)));
                lemma_listed(qs@, gone);
            }
            self.log_gone(&qs);
            let ghost logged = self@;
            self.named.remove(i);
            self.query_cache.clear();
            proof {
                let n1 = self.named@;
                assert forall|k: int| 0 <= k < n1.len() implies #[trigger] n1[k] == n0[if k < i { k } else { k + 1 }] by {
                }
                assert(graphs_wf(n1)) by {
                    assert forall|a: int, b: int| 0 <= a < b < n1.len() implies (#[trigger] n1[a]).id < (#[trigger] n1[b]).id by {
                        assert(n0[if a < i { a } else { a + 1 }].id < n0[if b < i { b } else { b + 1 }].id);
                    }
                    assert forall|k: int| 0 <= k < n1.len() implies (#[trigger] n1[k]).store.wf() by {
                        assert(n0[if k < i { k } else { k + 1 }].store.wf());
                    }
                }
                assert forall|q: Quad| #[trigger] self@.quads.contains(q) <==> before.quads.difference(gone).contains(q) by {
                    if q.0 is Some {
                        let g = q.0->0;
                        if self@.quads.contains(q) {
                            let k = choose|k: int| 0 <= k < n1.len() && (#[trigger] n1[k]).id == g && n1[k].store@.contains(q.1);
                            let o = if k < i { k } else { k + 1 };
                            assert(n0[o].id == g && n0[o].store@.contains(q.1));
                            if o < i {
                                assert(n0[o].id < n0[i as int].id);
                            } else {
                                assert(n0[i as int].id < n0[o].id);
                            }
                        }
                        if before.quads.contains(q) && !gone.contains(q) {
                            let o = choose|o: int| 0 <= o < n0.len() && (#[trigger] n0[o]).id == g && n0[o].store@.contains(q.1);
                            assert(o != i);
                            let k = if o < i { o } else { o - 1 };
                            assert(n1[k] == n0[o]);
                        }
                    }
                }
                assert(self@.quads =~= before.quads.difference(gone));
                assert(quads_in(gone, both(true, false)) =~= Set::<Quad>::empty());
                assert(quads_in(gone, both(false, true)) =~= gone);
                if log0 is Some {
                    lemma_put_back(log0->0@, qs@, self@.quads);
                    assert(self@.quads.union(qs@.to_set()) =~= before.quads);
                }
                assert forall|g: u32| #[trigger] self@.graphs.contains(g) <==> before.graphs.contains(g) && !sel(Some(g)) by {
                    if self@.graphs.contains(g) {
                        let k = choose|k: int| 0 <= k < n1.len() && (#[trigger] n1[k]).id == g;
                        let o = if k < i { k } else { k + 1 };
                        assert(n0[o].id == g);
                        if o < i {
                            assert(n0[o].id < n0[i as int].id);
                        } else {
                            assert(n0[i as int].id < n0[o].id);
                        }
                    }
                    if before.graphs.contains(g) && g != gid {
                        let o = choose|o: int| 0 <= o < n0.len() && (#[trigger] n0[o]).id == g;
                        let k = if o < i { o } else { o - 1 };
                        assert(n1[k] == n0[o]);
                    }
                }
                assert(self@.graphs =~= before.graphs.filter(|g: u32| !sel(Some(g))));
                assert(self@ =~= without(before, gone, sel));
            }
            self.record_gone(&qs);
        }
        n
    }

    /// Clear the graphs of a CLEAR or DROP request.
    pub(super) fn clear_target(&mut self, target: &GraphTarget) -> (n: usize)
        requires
            old(self).wf(),
        ensures
            final(self).wf(),
            final(self)@ == cleared(old(self)@, target_selects(old(self)@.dict, *target)),
            n == quads_in(old(self)@.quads, target_selects(old(self)@.dict, *target)).len(),
    {
        match target {
            GraphTarget::Default => self.clear_graphs(true, false),
            GraphTarget::All => self.clear_graphs(true, true),
            GraphTarget::Named(g) => if chars_of(g.as_str()).len() == 0 {
                self.clear_graphs(false, true)
            } else {
                self.clear_named(g.as_str())
            },
        }
    }
}

} // verus!
