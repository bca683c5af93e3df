//! The triple index: a set of id triples kept in three sort orders, so that
//! every access path with a bound subject, predicate or object reads one
//! contiguous range.

use crate::model::{EntityLiteralId, IdTriple, PredId};
use crate::order::{ascending, copied, holds, insert_sorted, lists, lower_bound, remove_sorted, sort_dedup};
use crate::order::{lemma_lists_len, Ranked};
use vstd::prelude::*;

verus! {

/// Three ids in the order of one of the indexes.
type Key = (u32, u32, u32);

/// The (predicate, object) pairs of a subject.
pub open spec fn pairs_of_subject(ts: Set<IdTriple>, s: u32) -> Set<(u32, u32)> {
    Set::new(|q: (u32, u32)| ts.contains(IdTriple { sub: s, pred: q.0, obj: q.1 }))
}

/// The (predicate, subject) pairs of an object.
pub open spec fn pairs_of_object(ts: Set<IdTriple>, o: u32) -> Set<(u32, u32)> {
    Set::new(|q: (u32, u32)| ts.contains(IdTriple { sub: q.1, pred: q.0, obj: o }))
}

/// The (subject, object) pairs of a predicate.
pub open spec fn pairs_of_predicate(ts: Set<IdTriple>, p: u32) -> Set<(u32, u32)> {
    Set::new(|q: (u32, u32)| ts.contains(IdTriple { sub: q.0, pred: p, obj: q.1 }))
}

/// The objects of a (subject, predicate) pair.
pub open spec fn objects_of(ts: Set<IdTriple>, s: u32, p: u32) -> Set<u32> {
    Set::new(|o: u32| ts.contains(IdTriple { sub: s, pred: p, obj: o }))
}

/// The subjects of a (predicate, object) pair.
pub open spec fn subjects_of(ts: Set<IdTriple>, p: u32, o: u32) -> Set<u32> {
    Set::new(|s: u32| ts.contains(IdTriple { sub: s, pred: p, obj: o }))
}

/// The predicates that join a subject to an object.
pub open spec fn predicates_between(ts: Set<IdTriple>, s: u32, o: u32) -> Set<u32> {
    Set::new(|p: u32| ts.contains(IdTriple { sub: s, pred: p, obj: o }))
}

/// The subjects that a predicate has.
pub open spec fn subjects_with(ts: Set<IdTriple>, p: u32) -> Set<u32> {
    Set::new(|s: u32| exists|o: u32| ts.contains(#[trigger] spo_triple(s, p, o)))
}

/// The objects that a predicate has.
pub open spec fn objects_with(ts: Set<IdTriple>, p: u32) -> Set<u32> {
    Set::new(|o: u32| exists|s: u32| ts.contains(#[trigger] spo_triple(s, p, o)))
}

/// All subjects.
pub open spec fn all_subjects(ts: Set<IdTriple>) -> Set<u32> {
    Set::new(|s: u32| exists|p: u32, o: u32| ts.contains(#[trigger] spo_triple(s, p, o)))
}

/// All predicates.
pub open spec fn all_predicates(ts: Set<IdTriple>) -> Set<u32> {
    Set::new(|p: u32| exists|s: u32, o: u32| ts.contains(#[trigger] spo_triple(s, p, o)))
}

/// All objects.
pub open spec fn all_objects(ts: Set<IdTriple>) -> Set<u32> {
    Set::new(|o: u32| exists|s: u32, p: u32| ts.contains(#[trigger] spo_triple(s, p, o)))
}

/// The triple with the given parts.
pub open spec fn spo_triple(s: u32, p: u32, o: u32) -> IdTriple {
    IdTriple { sub: s, pred: p, obj: o }
}

/// A triple as (predicate, subject, object), the order of a full scan.
pub open spec fn scan_key(t: IdTriple) -> (u32, u32, u32) {
    (t.pred, t.sub, t.obj)
}

/// A full scan: every triple of the set once, ordered by predicate, then by
/// subject, then by object.
pub open spec fn scans(s: Seq<IdTriple>, ts: Set<IdTriple>) -> bool {
    &&& forall|i: int, j: int|
        0 <= i < j < s.len() ==> scan_key(#[trigger] s[i]).rank() < scan_key(#[trigger] s[j]).rank()
    &&& forall|t: IdTriple| #[trigger] ts.contains(t) <==> s.contains(t)
}

/// Every read by one or two parts of a triple finds exactly the triples that are there.
pub proof fn law_reads_find_the_triples(ts: Set<IdTriple>, s: u32, p: u32, o: u32)
    ensures
        pairs_of_subject(ts, s).contains((p, o)) <==> ts.contains(IdTriple { sub: s, pred: p, obj: o }),
        pairs_of_object(ts, o).contains((p, s)) <==> ts.contains(IdTriple { sub: s, pred: p, obj: o }),
        pairs_of_predicate(ts, p).contains((s, o)) <==> ts.contains(IdTriple { sub: s, pred: p, obj: o }),
        objects_of(ts, s, p).contains(o) <==> ts.contains(IdTriple { sub: s, pred: p, obj: o }),
        subjects_of(ts, p, o).contains(s) <==> ts.contains(IdTriple { sub: s, pred: p, obj: o }),
        predicates_between(ts, s, o).contains(p) <==> ts.contains(IdTriple { sub: s, pred: p, obj: o }),
        subjects_with(ts, p).contains(s) <==> exists|t: IdTriple| #[trigger] ts.contains(t) && t.sub == s && t.pred == p,
        objects_with(ts, p).contains(o) <==> exists|t: IdTriple| #[trigger] ts.contains(t) && t.obj == o && t.pred == p,
        all_subjects(ts).contains(s) <==> exists|t: IdTriple| #[trigger] ts.contains(t) && t.sub == s,
        all_predicates(ts).contains(p) <==> exists|t: IdTriple| #[trigger] ts.contains(t) && t.pred == p,
        all_objects(ts).contains(o) <==> exists|t: IdTriple| #[trigger] ts.contains(t) && t.obj == o,
{
    assert forall|t: IdTriple| #[trigger] ts.contains(t) implies t == spo_triple(t.sub, t.pred, t.obj) by {
    }
    if subjects_with(ts, p).contains(s) {
        let y = choose|y: u32| ts.contains(#[trigger] spo_triple(s, p, y));
        assert(ts.contains(spo_triple(s, p, y)));
    }
    if exists|t: IdTriple| #[trigger] ts.contains(t) && t.sub == s && t.pred == p {
        let t = choose|t: IdTriple| #[trigger] ts.contains(t) && t.sub == s && t.pred == p;
        assert(ts.contains(spo_triple(s, p, t.obj)));
    }
    if exists|t: IdTriple| #[trigger] ts.contains(t) && t.obj == o && t.pred == p {
        let t = choose|t: IdTriple| #[trigger] ts.contains(t) && t.obj == o && t.pred == p;
        assert(ts.contains(spo_triple(t.sub, p, o)));
    }
    if exists|t: IdTriple| #[trigger] ts.contains(t) && t.sub == s {
        let t = choose|t: IdTriple| #[trigger] ts.contains(t) && t.sub == s;
        assert(ts.contains(spo_triple(s, t.pred, t.obj)));
    }
    if exists|t: IdTriple| #[trigger] ts.contains(t) && t.pred == p {
        let t = choose|t: IdTriple| #[trigger] ts.contains(t) && t.pred == p;
        assert(ts.contains(spo_triple(t.sub, p, t.obj)));
    }
    if exists|t: IdTriple| #[trigger] ts.contains(t) && t.obj == o {
        let t = choose|t: IdTriple| #[trigger] ts.contains(t) && t.obj == o;
        assert(ts.contains(spo_triple(t.sub, t.pred, o)));
    }
}

/// A full scan has every triple once, by predicate, then by subject, then by object.
pub proof fn law_scan_is_in_order(s: Seq<IdTriple>, ts: Set<IdTriple>)
    requires
        scans(s, ts),
    ensures
        forall|t: IdTriple| #[trigger] ts.contains(t) <==> s.contains(t),
        forall|i: int, j: int| 0 <= i < j < s.len() ==> {
            let (a, b) = (#[trigger] s[i], #[trigger] s[j]);
            a.pred < b.pred || (a.pred == b.pred && (a.sub < b.sub || (a.sub == b.sub && a.obj < b.obj)))
        },
{
    assert forall|i: int, j: int| 0 <= i < j < s.len() implies {
        let (a, b) = (#[trigger] s[i], #[trigger] s[j]);
        a.pred < b.pred || (a.pred == b.pred && (a.sub < b.sub || (a.sub == b.sub && a.obj < b.obj)))
    } by {
        assert(scan_key(s[i]).rank() < scan_key(s[j]).rank());
    }
}

/// A full scan is determined by the set of triples.
pub proof fn lemma_scan_unique(a: Seq<IdTriple>, b: Seq<IdTriple>, ts: Set<IdTriple>)
    requires
        scans(a, ts),
        scans(b, ts),
    ensures
        a == b,
{
    let ka = a.map_values(|t: IdTriple| scan_key(t));
    let kb = b.map_values(|t: IdTriple| scan_key(t));
    assert(ascending(ka));
    assert(ascending(kb));
    assert forall|k: Key| #[trigger] ka.contains(k) <==> kb.contains(k) by {
        let t = spo_triple(k.1, k.0, k.2);
        if ka.contains(k) {
            let i = choose|i: int| 0 <= i < ka.len() && ka[i] == k;
            assert(a[i] == t);
            assert(a.contains(t));
            assert(ts.contains(t));
            let j = choose|j: int| 0 <= j < b.len() && b[j] == t;
            assert(kb[j] == k);
        }
        if kb.contains(k) {
            let i = choose|i: int| 0 <= i < kb.len() && kb[i] == k;
            assert(b[i] == t);
            assert(b.contains(t));
            assert(ts.contains(t));
            let j = choose|j: int| 0 <= j < a.len() && a[j] == t;
            assert(ka[j] == k);
        }
    }
    crate::order::lemma_ascending_unique(ka, kb);
    assert(a.len() == ka.len() && b.len() == kb.len());
    assert forall|i: int| 0 <= i < a.len() implies a[i] == b[i] by {
        assert(ka[i] == scan_key(a[i]) && kb[i] == scan_key(b[i]));
    }
    assert(a =~= b);
}

/// The last two ids of every entry that starts with `a`.
fn tails_after_one(v: &Vec<Key>, a: u32) -> (r: Vec<(u32, u32)>)
    requires
        ascending(v@),
    ensures
        ascending(r@),
        forall|x: (u32, u32)| #[trigger] r@.contains(x) <==> v@.contains((a, x.0, x.1)),
{
    let start: usize = lower_bound(v, &(a, 0u32, 0u32));
    let mut r: Vec<(u32, u32)> = Vec::new();
    let mut i: usize = start;
    while i < v.len() && v[i].0 == a
        invariant
            start <= i <= v.len(),
            ascending(v@),
            r.len() == i - start,
            forall|k: int| 0 <= k < r.len() ==> v@[start + k] == (a, (#[trigger] r@[k]).0, r@[k].1),
        decreases v.len() - i,
    {
        r.push((v[i].1, v[i].2));
        i = i + 1;
    }
    proof {
        assert forall|j: int, k: int| 0 <= j < k < r.len() implies (#[trigger] r@[j]).rank() < (
        #[trigger] r@[k]).rank() by {
            assert(v@[start + j].rank() < v@[start + k].rank());
        }
        assert forall|x: (u32, u32)| #[trigger] r@.contains(x) <==> v@.contains((a, x.0, x.1)) by {
            if r@.contains(x) {
                let k = choose|k: int| 0 <= k < r.len() && r@[k] == x;
                assert(v@[start + k] == (a, x.0, x.1));
            }
            if v@.contains((a, x.0, x.1)) {
                let k = choose|k: int| 0 <= k < v@.len() && v@[k] == (a, x.0, x.1);
                assert(k >= start) by {
                    if k < start {
                        assert(v@[k].rank() < (a, 0u32, 0u32).rank());
                    }
                }
                assert(k < i) by {
                    if k >= i {
                        assert(v@[i as int].rank() <= v@[k].rank());
                        assert(v@[i as int].rank() >= (a, 0u32, 0u32).rank());
                    }
                }
                assert(r@[k - start] == x);
            }
        }
    }
    r
}

/// The last id of every entry that starts with `a`, `b`.
fn tails_after_two(v: &Vec<Key>, a: u32, b: u32) -> (r: Vec<u32>)
    requires
        ascending(v@),
    ensures
        ascending(r@),
        forall|x: u32| #[trigger] r@.contains(x) <==> v@.contains((a, b, x)),
{
    let start: usize = lower_bound(v, &(a, b, 0u32));
    let mut r: Vec<u32> = Vec::new();
    let mut i: usize = start;
    while i < v.len() && v[i].0 == a && v[i].1 == b
        invariant
            start <= i <= v.len(),
            ascending(v@),
            r.len() == i - start,
            forall|k: int| 0 <= k < r.len() ==> v@[start + k] == (a, b, #[trigger] r@[k]),
        decreases v.len() - i,
    {
        r.push(v[i].2);
        i = i + 1;
    }
    proof {
        assert forall|j: int, k: int| 0 <= j < k < r.len() implies (#[trigger] r@[j]).rank() < (
        #[trigger] r@[k]).rank() by {
            assert(v@[start + j].rank() < v@[start + k].rank());
        }
        assert forall|x: u32| #[trigger] r@.contains(x) <==> v@.contains((a, b, x)) by {
            if r@.contains(x) {
                let k = choose|k: int| 0 <= k < r.len() && r@[k] == x;
                assert(v@[start + k] == (a, b, x));
            }
            if v@.contains((a, b, x)) {
                let k = choose|k: int| 0 <= k < v@.len() && v@[k] == (a, b, x);
                assert(k >= start) by {
                    if k < start {
                        assert(v@[k].rank() < (a, b, 0u32).rank());
                    }
                }
                assert(k < i) by {
                    if k >= i {
                        assert(v@[i as int].rank() <= v@[k].rank());
                        assert(v@[i as int].rank() >= (a, b, 0u32).rank());
                    }
                }
                assert(r@[k - start] == x);
            }
        }
    }
    r
}

/// The distinct first ids of an index.
fn distinct_heads(v: &Vec<Key>) -> (r: Vec<u32>)
    ensures
        ascending(r@),
        forall|x: u32| #[trigger] r@.contains(x) <==> exists|b: u32, c: u32| v@.contains(#[trigger] key3(x, b, c)),
{
    let mut heads: Vec<u32> = Vec::new();
    let mut i: usize = 0;
    while i < v.len()
        invariant
            i <= v.len(),
            heads.len() == i,
            forall|k: int| 0 <= k < i ==> heads@[k] == (#[trigger] v@[k]).0,
        decreases v.len() - i,
    {
        heads.push(v[i].0);
        i = i + 1;
    }
    let r: Vec<u32> = sort_dedup(&heads);
    proof {
        assert forall|x: u32| #[trigger] r@.contains(x) <==> exists|b: u32, c: u32|
            v@.contains(#[trigger] key3(x, b, c)) by {
            if r@.contains(x) {
                assert(heads@.contains(x));
                let k = choose|k: int| 0 <= k < heads.len() && heads@[k] == x;
                assert(v@[k] == key3(x, v@[k].1, v@[k].2));
                assert(v@.contains(key3(x, v@[k].1, v@[k].2)));
            }
            if exists|b: u32, c: u32| v@.contains(#[trigger] key3(x, b, c)) {
                let (b, c) = choose|b: u32, c: u32| v@.contains(#[trigger] key3(x, b, c));
                let k = choose|k: int| 0 <= k < v@.len() && v@[k] == key3(x, b, c);
                assert(heads@[k] == x);
                assert(heads@.contains(x));
            }
        }
    }
    r
}

spec fn key3(a: u32, b: u32, c: u32) -> Key {
    (a, b, c)
}

/// An in-memory triple store: a finite set of [`IdTriple`]s.
pub struct TripleStore {
    /// (subject, predicate, object)
    spo: Vec<Key>,
    /// (predicate, subject, object)
    pso: Vec<Key>,
    /// (object, predicate, subject)
    ops: Vec<Key>,
}

impl View for TripleStore {
    type V = Set<IdTriple>;

    closed spec fn view(&self) -> Set<IdTriple> {
        Set::new(|t: IdTriple| self.spo@.contains((t.sub, t.pred, t.obj)))
    }
}

impl TripleStore {
    /// The three orders are ascending and hold the same triples.
    pub closed spec fn wf(&self) -> bool {
        &&& ascending(self.spo@)
        &&& ascending(self.pso@)
        &&& ascending(self.ops@)
        &&& forall|s: u32, p: u32, o: u32| #[trigger]
            self.pso@.contains((p, s, o)) <==> self.spo@.contains((s, p, o))
        &&& forall|s: u32, p: u32, o: u32| #[trigger]
            self.ops@.contains((o, p, s)) <==> self.spo@.contains((s, p, o))
    }

    /// A well-formed store holds finitely many triples.
    pub proof fn lemma_finite(&self)
        requires
            self.wf(),
        ensures
            self@.finite(),
            self@.len() == self.count_spec(),
    {
        let f = |k: Key| spo_triple(k.0, k.1, k.2);
        let keys = self.spo@.to_set();
        lemma_lists_len(self.spo@, keys);
        assert(self@ =~= keys.map(f)) by {
            assert forall|t: IdTriple| #[trigger] self@.contains(t) <==> keys.map(f).contains(t) by {
                if self@.contains(t) {
                    assert(keys.contains((t.sub, t.pred, t.obj)));
                    assert(f((t.sub, t.pred, t.obj)) == t);
                }
                if keys.map(f).contains(t) {
                    let k = choose|k: Key| keys.contains(k) && f(k) == t;
                    assert(k == (t.sub, t.pred, t.obj));
                }
            }
        }
        keys.lemma_map_finite(f);
        vstd::set_lib::lemma_map_size(keys, self@, f);
    }

    /// The length of each index.
    pub closed spec fn count_spec(&self) -> nat {
        self.spo@.len()
    }

    /// An empty store.
    pub fn new() -> (r: TripleStore)
        ensures
            r.wf(),
            r@ == Set::<IdTriple>::empty(),
    {
        let r = TripleStore { spo: Vec::new(), pso: Vec::new(), ops: Vec::new() };
        assert(r@ =~= Set::<IdTriple>::empty());
        r
    }

    /// An independent copy.
    pub fn duplicate(&self) -> (r: TripleStore)
        requires
            self.wf(),
        ensures
            r.wf(),
            r@ == self@,
    {
        let r = TripleStore { spo: copied(&self.spo), pso: copied(&self.pso), ops: copied(&self.ops) };
        assert(r@ =~= self@);
        r
    }

    /// Add a triple. Returns whether the store changed.
    pub fn insert(&mut self, t: IdTriple) -> (changed: bool)
        requires
            old(self).wf(),
        ensures
            final(self).wf(),
            final(self)@ == old(self)@.insert(t),
            changed == !old(self)@.contains(t),
    {
        let changed: bool = insert_sorted(&mut self.spo, (t.sub, t.pred, t.obj));
        insert_sorted(&mut self.pso, (t.pred, t.sub, t.obj));
        insert_sorted(&mut self.ops, (t.obj, t.pred, t.sub));
        assert(self@ =~= old(self)@.insert(t));
        changed
    }

    /// Remove a triple. Returns whether the store changed.
    pub fn remove(&mut self, t: IdTriple) -> (changed: bool)
        requires
            old(self).wf(),
        ensures
            final(self).wf(),
            final(self)@ == old(self)@.remove(t),
            changed == old(self)@.contains(t),
    {
        let changed: bool = remove_sorted(&mut self.spo, (t.sub, t.pred, t.obj));
        remove_sorted(&mut self.pso, (t.pred, t.sub, t.obj));
        remove_sorted(&mut self.ops, (t.obj, t.pred, t.sub));
        assert(self@ =~= old(self)@.remove(t));
        changed
    }

    /// Is the triple in the store?
    pub fn contains(&self, t: IdTriple) -> (b: bool)
        requires
            self.wf(),
        ensures
            b == self@.contains(t),
    {
        holds(&self.spo, &(t.sub, t.pred, t.obj))
    }

    /// Build a store from a list of triples, in which duplicates count once.
    pub fn from_triples(triples: &Vec<IdTriple>) -> (r: TripleStore)
        ensures
            r.wf(),
            r@ == triples@.to_set(),
    {
        let mut spo: Vec<Key> = Vec::new();
        let mut pso: Vec<Key> = Vec::new();
        let mut ops: Vec<Key> = Vec::new();
        let mut i: usize = 0;
        while i < triples.len()
            invariant
                i <= triples.len(),
                spo.len() == i,
                pso.len() == i,
                ops.len() == i,
                forall|k: int|
                    0 <= k < i ==> {
                        let t = #[trigger] triples@[k];
                        &&& spo@[k] == (t.sub, t.pred, t.obj)
                        &&& pso@[k] == (t.pred, t.sub, t.obj)
                        &&& ops@[k] == (t.obj, t.pred, t.sub)
                    },
            decreases triples.len() - i,
        {
            let t = triples[i];
            spo.push((t.sub, t.pred, t.obj));
            pso.push((t.pred, t.sub, t.obj));
            ops.push((t.obj, t.pred, t.sub));
            i = i + 1;
        }
        let r = TripleStore { spo: sort_dedup(&spo), pso: sort_dedup(&pso), ops: sort_dedup(&ops) };
        proof {
            assert forall|s: u32, p: u32, o: u32|
                triples@.contains(spo_triple(s, p, o)) implies spo@.contains((s, p, o))
                && pso@.contains((p, s, o)) && ops@.contains((o, p, s)) by {
                let k = choose|k: int| 0 <= k < triples@.len() && triples@[k] == spo_triple(s, p, o);
                assert(spo@[k] == (s, p, o));
                assert(pso@[k] == (p, s, o));
                assert(ops@[k] == (o, p, s));
            }
            assert forall|s: u32, p: u32, o: u32|
                (spo@.contains((s, p, o)) || pso@.contains((p, s, o)) || ops@.contains((o, p, s)))
                    implies triples@.contains(spo_triple(s, p, o)) by {
                let k = if spo@.contains((s, p, o)) {
                    choose|k: int| 0 <= k < spo@.len() && spo@[k] == (s, p, o)
                } else if pso@.contains((p, s, o)) {
                    choose|k: int| 0 <= k < pso@.len() && pso@[k] == (p, s, o)
                } else {
                    choose|k: int| 0 <= k < ops@.len() && ops@[k] == (o, p, s)
                };
                assert(triples@[k] == spo_triple(s, p, o));
            }
            assert forall|s: u32, p: u32, o: u32| #[trigger]
                r.pso@.contains((p, s, o)) <==> r.spo@.contains((s, p, o)) by {
                assert(triples@.contains(spo_triple(s, p, o)) <==> spo@.contains((s, p, o)));
            }
            assert forall|s: u32, p: u32, o: u32| #[trigger]
                r.ops@.contains((o, p, s)) <==> r.spo@.contains((s, p, o)) by {
                assert(triples@.contains(spo_triple(s, p, o)) <==> spo@.contains((s, p, o)));
            }
            assert forall|t: IdTriple| #[trigger] r@.contains(t) <==> triples@.to_set().contains(
                t,
            ) by {
                assert(spo_triple(t.sub, t.pred, t.obj) == t);
            }
            assert(r@ =~= triples@.to_set());
        }
        r
    }

    /// Number of triples.
    pub fn triple_count(&self) -> (n: u64)
        requires
            self.wf(),
        ensures
            n == self@.len(),
    {
        proof {
            self.lemma_finite();
        }
        self.spo.len() as u64
    }

    /// The (predicate, object) pairs of `s`, ascending.
    pub fn po_by_s(&self, s: EntityLiteralId) -> (r: Vec<(PredId, EntityLiteralId)>)
        requires
            self.wf(),
        ensures
            lists(r@, pairs_of_subject(self@, s)),
    {
        tails_after_one(&self.spo, s)
    }

    /// The (predicate, subject) pairs of `o`, ascending.
    pub fn ps_by_o(&self, o: EntityLiteralId) -> (r: Vec<(PredId, EntityLiteralId)>)
        requires
            self.wf(),
        ensures
            lists(r@, pairs_of_object(self@, o)),
    {
        tails_after_one(&self.ops, o)
    }

    /// The (subject, object) pairs of `p`, ascending.
    pub fn so_by_p(&self, p: PredId) -> (r: Vec<(EntityLiteralId, EntityLiteralId)>)
        requires
            self.wf(),
        ensures
            lists(r@, pairs_of_predicate(self@, p)),
    {
        tails_after_one(&self.pso, p)
    }

    /// The objects of (`s`, `p`), ascending.
    pub fn o_by_sp(&self, s: EntityLiteralId, p: PredId) -> (r: Vec<EntityLiteralId>)
        requires
            self.wf(),
        ensures
            lists(r@, objects_of(self@, s, p)),
    {
        tails_after_two(&self.spo, s, p)
    }

    /// The subjects of (`p`, `o`), ascending.
    pub fn s_by_po(&self, p: PredId, o: EntityLiteralId) -> (r: Vec<EntityLiteralId>)
        requires
            self.wf(),
        ensures
            lists(r@, subjects_of(self@, p, o)),
    {
        tails_after_two(&self.ops, o, p)
    }

    /// The predicates that join `s` to `o`, ascending.
    pub fn p_by_so(&self, s: EntityLiteralId, o: EntityLiteralId) -> (r: Vec<PredId>)
        requires
            self.wf(),
        ensures
            lists(r@, predicates_between(self@, s, o)),
    {
        let pairs: Vec<(u32, u32)> = tails_after_one(&self.spo, s);
        let mut preds: Vec<u32> = Vec::new();
        let mut i: usize = 0;
        while i < pairs.len()
            invariant
                i <= pairs.len(),
                forall|k: int| 0 <= k < i && (#[trigger] pairs@[k]).1 == o ==> preds@.contains(pairs@[k].0),
                forall|k: int| 0 <= k < preds.len() ==> pairs@.contains((#[trigger] preds@[k], o)),
            decreases pairs.len() - i,
        {
            if pairs[i].1 == o {
                let ghost before = preds@;
                preds.push(pairs[i].0);
                proof {
                    assert(pairs@[i as int] == (pairs@[i as int].0, o));
                    assert(preds@[before.len() as int] == pairs@[i as int].0);
                    assert forall|k: int| 0 <= k < i && (#[trigger] pairs@[k]).1 == o implies preds@.contains(pairs@[k].0) by {
                        let m = choose|m: int| 0 <= m < before.len() && before[m] == pairs@[k].0;
                        assert(preds@[m] == pairs@[k].0);
                    }
                }
            }
            i = i + 1;
        }
        let r: Vec<u32> = sort_dedup(&preds);
        proof {
            assert forall|p: u32| #[trigger] predicates_between(self@, s, o).contains(p) <==> r@.contains(p) by {
                if predicates_between(self@, s, o).contains(p) {
                    assert(pairs@.contains((p, o)));
                    let k = choose|k: int| 0 <= k < pairs@.len() && pairs@[k] == (p, o);
                    assert(pairs@[k].1 == o);
                    assert(preds@.contains(p));
                }
                if r@.contains(p) {
                    assert(preds@.contains(p));
                    assert(pairs@.contains((p, o)));
                }
            }
        }
        r
    }

    /// The distinct subjects of `p`, ascending.
    pub fn subs_by_p(&self, p: PredId) -> (r: Vec<EntityLiteralId>)
        requires
            self.wf(),
        ensures
            lists(r@, subjects_with(self@, p)),
    {
        let pairs: Vec<(u32, u32)> = tails_after_one(&self.pso, p);
        let mut subs: Vec<u32> = Vec::new();
        let mut i: usize = 0;
        while i < pairs.len()
            invariant
                i <= pairs.len(),
                subs.len() == i,
                forall|k: int| 0 <= k < i ==> subs@[k] == (#[trigger] pairs@[k]).0,
            decreases pairs.len() - i,
        {
            subs.push(pairs[i].0);
            i = i + 1;
        }
        let r: Vec<u32> = sort_dedup(&subs);
        proof {
            assert forall|s: u32| #[trigger] subjects_with(self@, p).contains(s) <==> r@.contains(s) by {
                if subjects_with(self@, p).contains(s) {
                    let o = choose|o: u32| self@.contains(#[trigger] spo_triple(s, p, o));
                    assert(pairs@.contains((s, o)));
                    let k = choose|k: int| 0 <= k < pairs@.len() && pairs@[k] == (s, o);
                    assert(subs@[k] == s);
                    assert(subs@.contains(s));
                }
                if r@.contains(s) {
                    assert(subs@.contains(s));
                    let k = choose|k: int| 0 <= k < subs@.len() && subs@[k] == s;
                    assert(pairs@.contains(pairs@[k]));
                    assert(self@.contains(spo_triple(s, p, pairs@[k].1)));
                }
            }
        }
        r
    }

    /// The distinct objects of `p`, ascending.
    pub fn objs_by_p(&self, p: PredId) -> (r: Vec<EntityLiteralId>)
        requires
            self.wf(),
        ensures
            lists(r@, objects_with(self@, p)),
    {
        let pairs: Vec<(u32, u32)> = tails_after_one(&self.pso, p);
        let mut objs: Vec<u32> = Vec::new();
        let mut i: usize = 0;
        while i < pairs.len()
            invariant
                i <= pairs.len(),
                objs.len() == i,
                forall|k: int| 0 <= k < i ==> objs@[k] == (#[trigger] pairs@[k]).1,
            decreases pairs.len() - i,
        {
            objs.push(pairs[i].1);
            i = i + 1;
        }
        let r: Vec<u32> = sort_dedup(&objs);
        proof {
            assert forall|o: u32| #[trigger] objects_with(self@, p).contains(o) <==> r@.contains(o) by {
                if objects_with(self@, p).contains(o) {
                    let s = choose|s: u32| self@.contains(#[trigger] spo_triple(s, p, o));
                    assert(pairs@.contains((s, o)));
                    let k = choose|k: int| 0 <= k < pairs@.len() && pairs@[k] == (s, o);
                    assert(objs@[k] == o);
                    assert(objs@.contains(o));
                }
                if r@.contains(o) {
                    assert(objs@.contains(o));
                    let k = choose|k: int| 0 <= k < objs@.len() && objs@[k] == o;
                    assert(pairs@.contains(pairs@[k]));
                    assert(self@.contains(spo_triple(pairs@[k].0, p, o)));
                }
            }
        }
        r
    }

    /// All subjects, ascending.
    pub fn subject_keys(&self) -> (r: Vec<EntityLiteralId>)
        requires
            self.wf(),
        ensures
            lists(r@, all_subjects(self@)),
    {
        let r: Vec<u32> = distinct_heads(&self.spo);
        proof {
            assert forall|s: u32| #[trigger] all_subjects(self@).contains(s) <==> r@.contains(s) by {
                if all_subjects(self@).contains(s) {
                    let (p, o) = choose|p: u32, o: u32| self@.contains(#[trigger] spo_triple(s, p, o));
                    assert(self.spo@.contains(key3(s, p, o)));
                }
                if r@.contains(s) {
                    let (p, o) = choose|p: u32, o: u32| self.spo@.contains(#[trigger] key3(s, p, o));
                    assert(self@.contains(spo_triple(s, p, o)));
                }
            }
        }
        r
    }

    /// All predicates, ascending.
    pub fn predicates(&self) -> (r: Vec<PredId>)
        requires
            self.wf(),
        ensures
            lists(r@, all_predicates(self@)),
    {
        let r: Vec<u32> = distinct_heads(&self.pso);
        proof {
            assert forall|p: u32| #[trigger] all_predicates(self@).contains(p) <==> r@.contains(p) by {
                if all_predicates(self@).contains(p) {
                    let (s, o) = choose|s: u32, o: u32| self@.contains(#[trigger] spo_triple(s, p, o));
                    assert(self.pso@.contains(key3(p, s, o)));
                }
                if r@.contains(p) {
                    let (s, o) = choose|s: u32, o: u32| self.pso@.contains(#[trigger] key3(p, s, o));
                    assert(self@.contains(spo_triple(s, p, o)));
                }
            }
        }
        r
    }

    /// All objects, ascending.
    pub fn object_keys(&self) -> (r: Vec<EntityLiteralId>)
        requires
            self.wf(),
        ensures
            lists(r@, all_objects(self@)),
    {
        let r: Vec<u32> = distinct_heads(&self.ops);
        proof {
            assert forall|o: u32| #[trigger] all_objects(self@).contains(o) <==> r@.contains(o) by {
                if all_objects(self@).contains(o) {
                    let (s, p) = choose|s: u32, p: u32| self@.contains(#[trigger] spo_triple(s, p, o));
                    assert(self.ops@.contains(key3(o, p, s)));
                }
                if r@.contains(o) {
                    let (p, s) = choose|p: u32, s: u32| self.ops@.contains(#[trigger] key3(o, p, s));
                    assert(self@.contains(spo_triple(s, p, o)));
                }
            }
        }
        r
    }

    /// Every triple once, ordered by predicate, subject, object.
    pub fn iter_all(&self) -> (r: Vec<IdTriple>)
        requires
            self.wf(),
        ensures
            scans(r@, self@),
            r@.len() == self@.len(),
    {
        let mut r: Vec<IdTriple> = Vec::new();
        let mut i: usize = 0;
        while i < self.pso.len()
            invariant
                i <= self.pso.len(),
                r.len() == i,
                forall|k: int| 0 <= k < i ==> scan_key(#[trigger] r@[k]) == self.pso@[k],
            decreases self.pso.len() - i,
        {
            let k = self.pso[i];
            r.push(IdTriple { sub: k.1, pred: k.0, obj: k.2 });
            i = i + 1;
        }
        proof {
            assert forall|t: IdTriple| #[trigger] self@.contains(t) <==> r@.contains(t) by {
                if self@.contains(t) {
                    assert(self.pso@.contains((t.pred, t.sub, t.obj)));
                    let k = choose|k: int| 0 <= k < self.pso@.len() && self.pso@[k] == scan_key(t);
                    assert(scan_key(r@[k]) == scan_key(t));
                    assert(r@[k] == t);
                }
                if r@.contains(t) {
                    let k = choose|k: int| 0 <= k < r@.len() && r@[k] == t;
                    assert(self.pso@[k] == (t.pred, t.sub, t.obj));
                    assert(self.pso@.contains((t.pred, t.sub, t.obj)));
                }
            }
            lemma_scan_len(r@, self@);
        }
        r
    }

    /// Number of distinct subjects.
    pub fn distinct_subjects(&self) -> (n: usize)
        requires
            self.wf(),
        ensures
            n == all_subjects(self@).len(),
    {
        let r: Vec<u32> = self.subject_keys();
        proof {
            lemma_lists_len(r@, all_subjects(self@));
        }
        r.len()
    }

    /// Number of distinct objects.
    pub fn distinct_objects(&self) -> (n: usize)
        requires
            self.wf(),
        ensures
            n == all_objects(self@).len(),
    {
        let r: Vec<u32> = self.object_keys();
        proof {
            lemma_lists_len(r@, all_objects(self@));
        }
        r.len()
    }

    /// Number of distinct predicates.
    pub fn num_predicates(&self) -> (n: usize)
        requires
            self.wf(),
        ensures
            n == all_predicates(self@).len(),
    {
        let r: Vec<u32> = self.predicates();
        proof {
            lemma_lists_len(r@, all_predicates(self@));
        }
        r.len()
    }

    /// Number of triples with predicate `p`.
    pub fn pred_card(&self, p: PredId) -> (n: usize)
        requires
            self.wf(),
        ensures
            n == pairs_of_predicate(self@, p).len(),
    {
        let r: Vec<(u32, u32)> = self.so_by_p(p);
        proof {
            lemma_lists_len(r@, pairs_of_predicate(self@, p));
        }
        r.len()
    }

    /// Number of distinct subjects of `p`.
    pub fn pred_distinct_subj(&self, p: PredId) -> (n: usize)
        requires
            self.wf(),
        ensures
            n == subjects_with(self@, p).len(),
    {
        let r: Vec<u32> = self.subs_by_p(p);
        proof {
            lemma_lists_len(r@, subjects_with(self@, p));
        }
        r.len()
    }

    /// Number of distinct objects of `p`.
    pub fn pred_distinct_obj(&self, p: PredId) -> (n: usize)
        requires
            self.wf(),
        ensures
            n == objects_with(self@, p).len(),
    {
        let r: Vec<u32> = self.objs_by_p(p);
        proof {
            lemma_lists_len(r@, objects_with(self@, p));
        }
        r.len()
    }
}

/// A full scan is as long as the set is large.
pub proof fn lemma_scan_len(s: Seq<IdTriple>, ts: Set<IdTriple>)
    requires
        scans(s, ts),
    ensures
        ts.finite(),
        ts.len() == s.len(),
{
    assert(s.no_duplicates());
    assert(s.to_set() =~= ts);
    s.unique_seq_to_set();
    vstd::seq_lib::seq_to_set_is_finite(s);
}

} // verus!
