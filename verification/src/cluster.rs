//! Sharding: a triple set partitioned by subject, queried by scatter-gather.
//!
//! Every triple of a subject lives on one shard, the one that the hash of the
//! subject selects. A query asks every shard and merges the answers, so that the
//! whole is observationally identical to a single store with the same triples.

use crate::codec::{le32, push_le32};
use crate::model::{EntityLiteralId, IdTriple, PredId};
use crate::order::{ascending, lemma_lists_len, lists, sort_dedup, Ranked};
use crate::store::{all_objects, all_predicates, all_subjects, objects_of, objects_with, pairs_of_object, pairs_of_predicate, pairs_of_subject};
use crate::store::{lemma_scan_unique, predicates_between, scan_key, scans, spo_triple, subjects_of, subjects_with, TripleStore};
use std::collections::hash_map::DefaultHasher;
use std::hash::Hasher;
use vstd::prelude::*;
use vstd::std_specs::hash::DefaultHasherAdditionalSpecFns;

verus! {

/// The shard that a subject lives on.
pub open spec fn shard_for(sub: u32, num_shards: int) -> int {
    DefaultHasher::spec_finish(seq![le32(sub)]) as int % num_shards
}

/// The shard that a subject hashes to.
pub fn shard_of(sub: EntityLiteralId, num_shards: usize) -> (r: usize)
    requires
        num_shards > 0,
    ensures
        r == shard_for(sub, num_shards as int),
        r < num_shards,
{
    let mut bytes: Vec<u8> = Vec::new();
    push_le32(&mut bytes, sub);
    let mut h: DefaultHasher = DefaultHasher::new();
    h.write(bytes.as_slice());
    proof {
        assert(bytes@ =~= le32(sub));
        assert(h@ =~= seq![le32(sub)]);
    }
    (h.finish() % num_shards as u64) as usize
}

/// Merge the answers of the shards into one ascending list.
pub fn gather<T: Ranked + Copy>(lists: &Vec<Vec<T>>) -> (r: Vec<T>)
    ensures
        ascending(r@),
        forall|x: T| #[trigger] r@.contains(x) <==> exists|k: int| 0 <= k < lists@.len() && (#[trigger] lists@[k])@.contains(x),
{
    let mut all: Vec<T> = Vec::new();
    let mut i: usize = 0;
    while i < lists.len()
        invariant
            i <= lists@.len(),
            forall|x: T| #[trigger] all@.contains(x) <==> exists|k: int| 0 <= k < i && (#[trigger] lists@[k])@.contains(x),
        decreases lists.len() - i,
    {
        let ghost before = all@;
        append(&mut all, &lists[i]);
        proof {
            assert forall|x: T| #[trigger] all@.contains(x) <==> exists|k: int| 0 <= k < i + 1 && (#[trigger] lists@[k])@.contains(x) by {
                let last = lists@[i as int]@;
                if all@.contains(x) {
                    let j = choose|j: int| 0 <= j < all@.len() && all@[j] == x;
                    if j < before.len() {
                        assert(before[j] == x);
                        assert(before.contains(x));
                    } else {
                        assert(last[j - before.len()] == x);
                        assert(lists@[i as int]@.contains(x));
                    }
                }
                if exists|k: int| 0 <= k < i + 1 && (#[trigger] lists@[k])@.contains(x) {
                    let k = choose|k: int| 0 <= k < i + 1 && (#[trigger] lists@[k])@.contains(x);
                    if k < i {
                        assert(before.contains(x));
                        let j = choose|j: int| 0 <= j < before.len() && before[j] == x;
                        assert(all@[j] == x);
                    } else {
                        let j = choose|j: int| 0 <= j < last.len() && last[j] == x;
                        assert(all@[j + before.len()] == x);
                    }
                }
            }
        }
        i = i + 1;
    }
    sort_dedup(&all)
}

fn append<T: Copy>(out: &mut Vec<T>, v: &Vec<T>)
    ensures
        final(out)@ == old(out)@ + v@,
{
    let mut i: usize = 0;
    assert(out@ =~= old(out)@ + v@.subrange(0, 0));
    while i < v.len()
        invariant
            i <= v@.len(),
            out@ == old(out)@ + v@.subrange(0, i as int),
        decreases v.len() - i,
    {
        out.push(v[i]);
        i = i + 1;
        assert(out@ =~= old(out)@ + v@.subrange(0, i as int));
    }
    assert(v@.subrange(0, v@.len() as int) =~= v@);
}

/// Some of the first `n` shards holds the triple.
pub open spec fn held(shards: Seq<TripleStore>, n: int, t: IdTriple) -> bool {
    exists|k: int| 0 <= k < n && (#[trigger] shards[k])@.contains(t)
}

/// The triples of the first `n` shards.
pub open spec fn union_of(shards: Seq<TripleStore>, n: int) -> Set<IdTriple> {
    Set::new(|t: IdTriple| held(shards, n, t))
}

/// Shards in their own right, with every triple on the shard of its subject.
pub open spec fn routed(shards: Seq<TripleStore>) -> bool {
    &&& shards.len() > 0
    &&& forall|k: int| 0 <= k < shards.len() ==> (#[trigger] shards[k]).wf()
    &&& forall|k: int, t: IdTriple| 0 <= k < shards.len() && #[trigger] shards[k]@.contains(t) ==> shard_for(t.sub, shards.len() as int) == k
}

/// A triple set partitioned across shards.
pub struct ShardedStore {
    shards: Vec<TripleStore>,
}

impl View for ShardedStore {
    type V = Set<IdTriple>;

    closed spec fn view(&self) -> Set<IdTriple> {
        union_of(self.shards@, self.shards@.len() as int)
    }
}

/// The triples of the next shard are new.
proof fn lemma_union_step(shards: Seq<TripleStore>, i: int)
    requires
        routed(shards),
        0 <= i < shards.len(),
        union_of(shards, i).finite(),
    ensures
        union_of(shards, i + 1).finite(),
        union_of(shards, i + 1).len() == union_of(shards, i).len() + shards[i]@.len(),
{
    shards[i].lemma_finite();
    let a = union_of(shards, i);
    let b = shards[i]@;
    assert(union_of(shards, i + 1) =~= a.union(b)) by {
        assert forall|t: IdTriple| union_of(shards, i + 1).contains(t) <==> a.union(b).contains(t) by {
            if held(shards, i + 1, t) {
                let k = choose|k: int| 0 <= k < i + 1 && (#[trigger] shards[k])@.contains(t);
                if k < i {
                    assert(held(shards, i, t));
                }
            }
            if held(shards, i, t) {
                let k = choose|k: int| 0 <= k < i && (#[trigger] shards[k])@.contains(t);
                assert(shards[k]@.contains(t));
            }
            if b.contains(t) {
                assert(shards[i]@.contains(t));
            }
        }
    }
    assert(a.disjoint(b)) by {
        assert forall|t: IdTriple| a.contains(t) implies !b.contains(t) by {
            let k = choose|k: int| 0 <= k < i && (#[trigger] shards[k])@.contains(t);
            assert(shard_for(t.sub, shards.len() as int) == k);
        }
    }
    vstd::set_lib::lemma_set_disjoint_lens(a, b);
}

proof fn lemma_union_grows(shards: Seq<TripleStore>, i: int)
    requires
        routed(shards),
        0 <= i <= shards.len(),
        union_of(shards, i).finite(),
    ensures
        union_of(shards, shards.len() as int).finite(),
        union_of(shards, i).len() <= union_of(shards, shards.len() as int).len(),
    decreases shards.len() - i,
{
    if i < shards.len() {
        lemma_union_step(shards, i);
        lemma_union_grows(shards, i + 1);
    }
}

impl ShardedStore {
    pub closed spec fn wf(&self) -> bool {
        routed(self.shards@)
    }

    /// The number of shards.
    pub closed spec fn width(&self) -> nat {
        self.shards@.len()
    }

    /// The triples of shard `i`.
    pub closed spec fn part(&self, i: int) -> Set<IdTriple> {
        self.shards@[i]@
    }

    /// Every triple lives on exactly one shard, the one of its subject.
    pub proof fn law_partition(&self)
        requires
            self.wf(),
        ensures
            self.width() > 0,
            forall|i: int, t: IdTriple| 0 <= i < self.width() ==> (#[trigger] self.part(i).contains(t) <==> self@.contains(t) && shard_for(t.sub, self.width() as int) == i),
    {
        assert forall|i: int, t: IdTriple| 0 <= i < self.width() implies (#[trigger] self.part(i).contains(t) <==> self@.contains(t) && shard_for(t.sub, self.width() as int) == i) by {
            if self.part(i).contains(t) {
                assert(self.shards@[i]@.contains(t));
                assert(held(self.shards@, self.shards@.len() as int, t));
            }
            if self@.contains(t) && shard_for(t.sub, self.width() as int) == i {
                let k = choose|k: int| 0 <= k < self.shards@.len() && (#[trigger] self.shards@[k])@.contains(t);
                assert(k == i);
            }
        }
    }

    /// An empty store with `num_shards` shards, at least one.
    pub fn new(num_shards: usize) -> (r: ShardedStore)
        ensures
            r.wf(),
            r@ == Set::<IdTriple>::empty(),
            r.width() == (if num_shards == 0 { 1 } else { num_shards as nat }),
    {
        let n: usize = if num_shards == 0 { 1 } else { num_shards };
        let mut shards: Vec<TripleStore> = Vec::new();
        let mut i: usize = 0;
        while i < n
            invariant
                i <= n,
                shards@.len() == i,
                forall|k: int| 0 <= k < i ==> (#[trigger] shards@[k]).wf() && shards@[k]@ == Set::<IdTriple>::empty(),
            decreases n - i,
        {
            shards.push(TripleStore::new());
            i = i + 1;
        }
        let r = ShardedStore { shards };
        assert(r@ =~= Set::<IdTriple>::empty());
        r
    }

    /// Build from id triples, each routed to the shard of its subject.
    pub fn from_triples(num_shards: usize, triples: &Vec<IdTriple>) -> (r: ShardedStore)
        ensures
            r.wf(),
            r@ == triples@.to_set(),
            r.width() == (if num_shards == 0 { 1 } else { num_shards as nat }),
    {
        let n: usize = if num_shards == 0 { 1 } else { num_shards };
        let mut shards: Vec<TripleStore> = Vec::new();
        let mut i: usize = 0;
        while i < n
            invariant
                n > 0,
                i <= n,
                shards@.len() == i,
                forall|k: int| 0 <= k < i ==> (#[trigger] shards@[k]).wf(),
                forall|k: int, t: IdTriple| 0 <= k < i ==> (#[trigger] shards@[k]@.contains(t) <==> triples@.contains(t) && shard_for(t.sub, n as int) == k),
            decreases n - i,
        {
            let mut bucket: Vec<IdTriple> = Vec::new();
            let mut j: usize = 0;
            while j < triples.len()
                invariant
                    n > 0,
                    j <= triples@.len(),
                    forall|k: int| 0 <= k < bucket@.len() ==> triples@.contains(#[trigger] bucket@[k]) && shard_for(bucket@[k].sub, n as int) == i,
                    forall|k: int| 0 <= k < j && shard_for((#[trigger] triples@[k]).sub, n as int) == i ==> bucket@.contains(triples@[k]),
                decreases triples.len() - j,
            {
                let t: IdTriple = triples[j];
                if shard_of(t.sub, n) == i {
                    let ghost before = bucket@;
                    bucket.push(t);
                    proof {
                        assert(bucket@[before.len() as int] == triples@[j as int]);
                        assert forall|k: int| 0 <= k < j + 1 && shard_for((#[trigger] triples@[k]).sub, n as int) == i implies bucket@.contains(triples@[k]) by {
                            if k < j {
                                let m = choose|m: int| 0 <= m < before.len() && before[m] == triples@[k];
                                assert(bucket@[m] == triples@[k]);
                            }
                        }
                    }
                }
                j = j + 1;
            }
            let ghost shards0 = shards@;
            shards.push(TripleStore::from_triples(&bucket));
            proof {
                assert forall|k: int, t: IdTriple| 0 <= k < i + 1 implies (#[trigger] shards@[k]@.contains(t) <==> triples@.contains(t) && shard_for(t.sub, n as int) == k) by {
                    if k < i {
                        assert(shards@[k] == shards0[k]);
                        assert(shards0[k]@.contains(t) <==> triples@.contains(t) && shard_for(t.sub, n as int) == k);
                    } else {
                        assert(shards@[k]@.contains(t) <==> bucket@.contains(t));
                        if bucket@.contains(t) {
                            let m = choose|m: int| 0 <= m < bucket@.len() && bucket@[m] == t;
                            assert(triples@.contains(bucket@[m]));
                        }
                        if triples@.contains(t) && shard_for(t.sub, n as int) == i {
                            let m = choose|m: int| 0 <= m < triples@.len() && triples@[m] == t;
                            assert(bucket@.contains(triples@[m]));
                        }
                    }
                }
            }
            i = i + 1;
        }
        let r = ShardedStore { shards };
        proof {
            assert forall|t: IdTriple| #[trigger] r@.contains(t) <==> triples@.to_set().contains(t) by {
                if r@.contains(t) {
                    let k = choose|k: int| 0 <= k < shards@.len() && (#[trigger] shards@[k])@.contains(t);
                    assert(shards@[k]@.contains(t));
                }
                if triples@.contains(t) {
                    let k = shard_for(t.sub, n as int);
                    assert(0 <= k < n);
                    assert(shards@[k]@.contains(t));
                }
            }
            assert(r@ =~= triples@.to_set());
        }
        r
    }

    /// Build from a store by partitioning its triples anew.
    pub fn from_store(num_shards: usize, store: &TripleStore) -> (r: ShardedStore)
        requires
            store.wf(),
        ensures
            r.wf(),
            r@ == store@,
            r.width() == (if num_shards == 0 { 1 } else { num_shards as nat }),
    {
        let triples: Vec<IdTriple> = store.iter_all();
        assert(triples@.to_set() =~= store@);
        ShardedStore::from_triples(num_shards, &triples)
    }

    /// Number of shards.
    pub fn num_shards(&self) -> (n: usize)
        requires
            self.wf(),
        ensures
            n == self.width(),
            n > 0,
    {
        self.shards.len()
    }

    /// Borrow shard `i`.
    pub fn shard(&self, i: usize) -> (s: &TripleStore)
        requires
            self.wf(),
            i < self.width(),
        ensures
            s.wf(),
            s@ == self.part(i as int),
    {
        &self.shards[i]
    }

    /// The shard that a subject lives on.
    pub fn shard_index(&self, sub: EntityLiteralId) -> (r: usize)
        requires
            self.wf(),
        ensures
            r == shard_for(sub, self.width() as int),
            r < self.width(),
    {
        shard_of(sub, self.shards.len())
    }

    /// The number of triples on each shard.
    pub fn shard_sizes(&self) -> (r: Vec<u64>)
        requires
            self.wf(),
        ensures
            r@.len() == self.width(),
            forall|i: int| 0 <= i < r@.len() ==> #[trigger] r@[i] == self.part(i).len(),
    {
        let mut r: Vec<u64> = Vec::new();
        let mut i: usize = 0;
        while i < self.shards.len()
            invariant
                self.wf(),
                i <= self.shards@.len(),
                r@.len() == i,
                forall|k: int| 0 <= k < i ==> #[trigger] r@[k] == self.part(k).len(),
            decreases self.shards.len() - i,
        {
            r.push(self.shards[i].triple_count());
            i = i + 1;
        }
        r
    }

    /// Is the triple on some shard?
    pub fn contains(&self, sub: EntityLiteralId, pred: PredId, obj: EntityLiteralId) -> (b: bool)
        requires
            self.wf(),
        ensures
            b == self@.contains(spo_triple(sub, pred, obj)),
    {
        let t: IdTriple = IdTriple::new(sub, pred, obj);
        let mut i: usize = 0;
        while i < self.shards.len()
            invariant
                self.wf(),
                t == spo_triple(sub, pred, obj),
                i <= self.shards@.len(),
                forall|k: int| 0 <= k < i ==> !(#[trigger] self.shards@[k])@.contains(t),
            decreases self.shards.len() - i,
        {
            if self.shards[i].contains(t) {
                assert(self.shards@[i as int]@.contains(t));
                return true;
            }
            i = i + 1;
        }
        false
    }

    /// The (predicate, object) pairs of `sub`, ascending.
    pub fn po_by_s(&self, sub: EntityLiteralId) -> (r: Vec<(u32, u32)>)
        requires
            self.wf(),
        ensures
            lists(r@, pairs_of_subject(self@, sub)),
    {
        let mut answers: Vec<Vec<(u32, u32)>> = Vec::new();
        let mut i: usize = 0;
        while i < self.shards.len()
            invariant
                self.wf(),
                i <= self.shards@.len(),
                answers@.len() == i,
                forall|k: int| 0 <= k < i ==> lists((#[trigger] answers@[k])@, pairs_of_subject(self.shards@[k]@, sub)),
            decreases self.shards.len() - i,
        {
            answers.push(self.shards[i].po_by_s(sub));
            i = i + 1;
        }
        let r: Vec<(u32, u32)> = gather(&answers);
        proof {
            assert forall|x: (u32, u32)| #[trigger] pairs_of_subject(self@, sub).contains(x) <==> r@.contains(x) by {
                if pairs_of_subject(self@, sub).contains(x) {
                    let t = spo_triple(sub, x.0, x.1);
                    assert(self@.contains(t));
                    let k = choose|k: int| 0 <= k < self.shards@.len() && (#[trigger] self.shards@[k])@.contains(t);
                    assert(pairs_of_subject(self.shards@[k]@, sub).contains(x));
                    assert(answers@[k]@.contains(x));
                }
                if r@.contains(x) {
                    let k = choose|k: int| 0 <= k < answers@.len() && (#[trigger] answers@[k])@.contains(x);
                    assert(pairs_of_subject(self.shards@[k]@, sub).contains(x));
                    let t = spo_triple(sub, x.0, x.1);
                    assert(self.shards@[k]@.contains(t));
                    assert(self@.contains(t));
                }
            }
        }
        r
    }

    /// The objects of (`sub`, `pred`), ascending.
    pub fn o_by_sp(&self, sub: EntityLiteralId, pred: PredId) -> (r: Vec<u32>)
        requires
            self.wf(),
        ensures
            lists(r@, objects_of(self@, sub, pred)),
    {
        let mut answers: Vec<Vec<u32>> = Vec::new();
        let mut i: usize = 0;
        while i < self.shards.len()
            invariant
                self.wf(),
                i <= self.shards@.len(),
                answers@.len() == i,
                forall|k: int| 0 <= k < i ==> lists((#[trigger] answers@[k])@, objects_of(self.shards@[k]@, sub, pred)),
            decreases self.shards.len() - i,
        {
            answers.push(self.shards[i].o_by_sp(sub, pred));
            i = i + 1;
        }
        let r: Vec<u32> = gather(&answers);
        proof {
            assert forall|x: u32| #[trigger] objects_of(self@, sub, pred).contains(x) <==> r@.contains(x) by {
                if objects_of(self@, sub, pred).contains(x) {
                    let t = spo_triple(sub, pred, x);
                    assert(self@.contains(t));
                    let k = choose|k: int| 0 <= k < self.shards@.len() && (#[trigger] self.shards@[k])@.contains(t);
                    assert(objects_of(self.shards@[k]@, sub, pred).contains(x));
                    assert(answers@[k]@.contains(x));
                }
                if r@.contains(x) {
                    let k = choose|k: int| 0 <= k < answers@.len() && (#[trigger] answers@[k])@.contains(x);
                    assert(objects_of(self.shards@[k]@, sub, pred).contains(x));
                    let t = spo_triple(sub, pred, x);
                    assert(self.shards@[k]@.contains(t));
                    assert(self@.contains(t));
                }
            }
        }
        r
    }

    /// The predicates that join `sub` to `obj`, ascending.
    pub fn p_by_so(&self, sub: EntityLiteralId, obj: EntityLiteralId) -> (r: Vec<u32>)
        requires
            self.wf(),
        ensures
            lists(r@, predicates_between(self@, sub, obj)),
    {
        let mut answers: Vec<Vec<u32>> = Vec::new();
        let mut i: usize = 0;
        while i < self.shards.len()
            invariant
                self.wf(),
                i <= self.shards@.len(),
                answers@.len() == i,
                forall|k: int| 0 <= k < i ==> lists((#[trigger] answers@[k])@, predicates_between(self.shards@[k]@, sub, obj)),
            decreases self.shards.len() - i,
        {
            answers.push(self.shards[i].p_by_so(sub, obj));
            i = i + 1;
        }
        let r: Vec<u32> = gather(&answers);
        proof {
            assert forall|x: u32| #[trigger] predicates_between(self@, sub, obj).contains(x) <==> r@.contains(x) by {
                if predicates_between(self@, sub, obj).contains(x) {
                    let t = spo_triple(sub, x, obj);
                    assert(self@.contains(t));
                    let k = choose|k: int| 0 <= k < self.shards@.len() && (#[trigger] self.shards@[k])@.contains(t);
                    assert(predicates_between(self.shards@[k]@, sub, obj).contains(x));
                    assert(answers@[k]@.contains(x));
                }
                if r@.contains(x) {
                    let k = choose|k: int| 0 <= k < answers@.len() && (#[trigger] answers@[k])@.contains(x);
                    assert(predicates_between(self.shards@[k]@, sub, obj).contains(x));
                    let t = spo_triple(sub, x, obj);
                    assert(self.shards@[k]@.contains(t));
                    assert(self@.contains(t));
                }
            }
        }
        r
    }

    /// The (predicate, subject) pairs of `obj`, ascending.
    pub fn ps_by_o(&self, obj: EntityLiteralId) -> (r: Vec<(u32, u32)>)
        requires
            self.wf(),
        ensures
            lists(r@, pairs_of_object(self@, obj)),
    {
        let mut answers: Vec<Vec<(u32, u32)>> = Vec::new();
        let mut i: usize = 0;
        while i < self.shards.len()
            invariant
                self.wf(),
                i <= self.shards@.len(),
                answers@.len() == i,
                forall|k: int| 0 <= k < i ==> lists((#[trigger] answers@[k])@, pairs_of_object(self.shards@[k]@, obj)),
            decreases self.shards.len() - i,
        {
            answers.push(self.shards[i].ps_by_o(obj));
            i = i + 1;
        }
        let r: Vec<(u32, u32)> = gather(&answers);
        proof {
            assert forall|x: (u32, u32)| #[trigger] pairs_of_object(self@, obj).contains(x) <==> r@.contains(x) by {
                if pairs_of_object(self@, obj).contains(x) {
                    let t = spo_triple(x.1, x.0, obj);
                    assert(self@.contains(t));
                    let k = choose|k: int| 0 <= k < self.shards@.len() && (#[trigger] self.shards@[k])@.contains(t);
                    assert(pairs_of_object(self.shards@[k]@, obj).contains(x));
                    assert(answers@[k]@.contains(x));
                }
                if r@.contains(x) {
                    let k = choose|k: int| 0 <= k < answers@.len() && (#[trigger] answers@[k])@.contains(x);
                    assert(pairs_of_object(self.shards@[k]@, obj).contains(x));
                    let t = spo_triple(x.1, x.0, obj);
                    assert(self.shards@[k]@.contains(t));
                    assert(self@.contains(t));
                }
            }
        }
        r
    }

    /// The subjects of (`pred`, `obj`), ascending.
    pub fn s_by_po(&self, pred: PredId, obj: EntityLiteralId) -> (r: Vec<u32>)
        requires
            self.wf(),
        ensures
            lists(r@, subjects_of(self@, pred, obj)),
    {
        let mut answers: Vec<Vec<u32>> = Vec::new();
        let mut i: usize = 0;
        while i < self.shards.len()
            invariant
                self.wf(),
                i <= self.shards@.len(),
                answers@.len() == i,
                forall|k: int| 0 <= k < i ==> lists((#[trigger] answers@[k])@, subjects_of(self.shards@[k]@, pred, obj)),
            decreases self.shards.len() - i,
        {
            answers.push(self.shards[i].s_by_po(pred, obj));
            i = i + 1;
        }
        let r: Vec<u32> = gather(&answers);
        proof {
            assert forall|x: u32| #[trigger] subjects_of(self@, pred, obj).contains(x) <==> r@.contains(x) by {
                if subjects_of(self@, pred, obj).contains(x) {
                    let t = spo_triple(x, pred, obj);
                    assert(self@.contains(t));
                    let k = choose|k: int| 0 <= k < self.shards@.len() && (#[trigger] self.shards@[k])@.contains(t);
                    assert(subjects_of(self.shards@[k]@, pred, obj).contains(x));
                    assert(answers@[k]@.contains(x));
                }
                if r@.contains(x) {
                    let k = choose|k: int| 0 <= k < answers@.len() && (#[trigger] answers@[k])@.contains(x);
                    assert(subjects_of(self.shards@[k]@, pred, obj).contains(x));
                    let t = spo_triple(x, pred, obj);
                    assert(self.shards@[k]@.contains(t));
                    assert(self@.contains(t));
                }
            }
        }
        r
    }

    /// The (subject, object) pairs of `pred`, ascending.
    pub fn so_by_p(&self, pred: PredId) -> (r: Vec<(u32, u32)>)
        requires
            self.wf(),
        ensures
            lists(r@, pairs_of_predicate(self@, pred)),
    {
        let mut answers: Vec<Vec<(u32, u32)>> = Vec::new();
        let mut i: usize = 0;
        while i < self.shards.len()
            invariant
                self.wf(),
                i <= self.shards@.len(),
                answers@.len() == i,
                forall|k: int| 0 <= k < i ==> lists((#[trigger] answers@[k])@, pairs_of_predicate(self.shards@[k]@, pred)),
            decreases self.shards.len() - i,
        {
            answers.push(self.shards[i].so_by_p(pred));
            i = i + 1;
        }
        let r: Vec<(u32, u32)> = gather(&answers);
        proof {
            assert forall|x: (u32, u32)| #[trigger] pairs_of_predicate(self@, pred).contains(x) <==> r@.contains(x) by {
                if pairs_of_predicate(self@, pred).contains(x) {
                    let t = spo_triple(x.0, pred, x.1);
                    assert(self@.contains(t));
                    let k = choose|k: int| 0 <= k < self.shards@.len() && (#[trigger] self.shards@[k])@.contains(t);
                    assert(pairs_of_predicate(self.shards@[k]@, pred).contains(x));
                    assert(answers@[k]@.contains(x));
                }
                if r@.contains(x) {
                    let k = choose|k: int| 0 <= k < answers@.len() && (#[trigger] answers@[k])@.contains(x);
                    assert(pairs_of_predicate(self.shards@[k]@, pred).contains(x));
                    let t = spo_triple(x.0, pred, x.1);
                    assert(self.shards@[k]@.contains(t));
                    assert(self@.contains(t));
                }
            }
        }
        r
    }

    /// The distinct subjects of `pred`, ascending.
    pub fn subs_by_p(&self, pred: PredId) -> (r: Vec<u32>)
        requires
            self.wf(),
        ensures
            lists(r@, subjects_with(self@, pred)),
    {
        let mut answers: Vec<Vec<u32>> = Vec::new();
        let mut i: usize = 0;
        while i < self.shards.len()
            invariant
                self.wf(),
                i <= self.shards@.len(),
                answers@.len() == i,
                forall|k: int| 0 <= k < i ==> lists((#[trigger] answers@[k])@, subjects_with(self.shards@[k]@, pred)),
            decreases self.shards.len() - i,
        {
            answers.push(self.shards[i].subs_by_p(pred));
            i = i + 1;
        }
        let r: Vec<u32> = gather(&answers);
        proof {
            assert forall|x: u32| #[trigger] subjects_with(self@, pred).contains(x) <==> r@.contains(x) by {
                if subjects_with(self@, pred).contains(x) {
                    let o = choose|o: u32| self@.contains(#[trigger] spo_triple(x, pred, o));
                    let t = spo_triple(x, pred, o);
                    assert(self@.contains(t));
                    let k = choose|k: int| 0 <= k < self.shards@.len() && (#[trigger] self.shards@[k])@.contains(t);
                    assert(subjects_with(self.shards@[k]@, pred).contains(x));
                    assert(answers@[k]@.contains(x));
                }
                if r@.contains(x) {
                    let k = choose|k: int| 0 <= k < answers@.len() && (#[trigger] answers@[k])@.contains(x);
                    assert(subjects_with(self.shards@[k]@, pred).contains(x));
                    let o = choose|o: u32| self.shards@[k]@.contains(#[trigger] spo_triple(x, pred, o));
                    let t = spo_triple(x, pred, o);
                    assert(self.shards@[k]@.contains(t));
                    assert(self@.contains(t));
                }
            }
        }
        r
    }

    /// The distinct objects of `pred`, ascending.
    pub fn objs_by_p(&self, pred: PredId) -> (r: Vec<u32>)
        requires
            self.wf(),
        ensures
            lists(r@, objects_with(self@, pred)),
    {
        let mut answers: Vec<Vec<u32>> = Vec::new();
        let mut i: usize = 0;
        while i < self.shards.len()
            invariant
                self.wf(),
                i <= self.shards@.len(),
                answers@.len() == i,
                forall|k: int| 0 <= k < i ==> lists((#[trigger] answers@[k])@, objects_with(self.shards@[k]@, pred)),
            decreases self.shards.len() - i,
        {
            answers.push(self.shards[i].objs_by_p(pred));
            i = i + 1;
        }
        let r: Vec<u32> = gather(&answers);
        proof {
            assert forall|x: u32| #[trigger] objects_with(self@, pred).contains(x) <==> r@.contains(x) by {
                if objects_with(self@, pred).contains(x) {
                    let s = choose|s: u32| self@.contains(#[trigger] spo_triple(s, pred, x));
                    let t = spo_triple(s, pred, x);
                    assert(self@.contains(t));
                    let k = choose|k: int| 0 <= k < self.shards@.len() && (#[trigger] self.shards@[k])@.contains(t);
                    assert(objects_with(self.shards@[k]@, pred).contains(x));
                    assert(answers@[k]@.contains(x));
                }
                if r@.contains(x) {
                    let k = choose|k: int| 0 <= k < answers@.len() && (#[trigger] answers@[k])@.contains(x);
                    assert(objects_with(self.shards@[k]@, pred).contains(x));
                    let s = choose|s: u32| self.shards@[k]@.contains(#[trigger] spo_triple(s, pred, x));
                    let t = spo_triple(s, pred, x);
                    assert(self.shards@[k]@.contains(t));
                    assert(self@.contains(t));
                }
            }
        }
        r
    }

    /// All subjects, ascending.
    pub fn subject_keys(&self) -> (r: Vec<u32>)
        requires
            self.wf(),
        ensures
            lists(r@, all_subjects(self@)),
    {
        let mut answers: Vec<Vec<u32>> = Vec::new();
        let mut i: usize = 0;
        while i < self.shards.len()
            invariant
                self.wf(),
                i <= self.shards@.len(),
                answers@.len() == i,
                forall|k: int| 0 <= k < i ==> lists((#[trigger] answers@[k])@, all_subjects(self.shards@[k]@)),
            decreases self.shards.len() - i,
        {
            answers.push(self.shards[i].subject_keys());
            i = i + 1;
        }
        let r: Vec<u32> = gather(&answers);
        proof {
            assert forall|x: u32| #[trigger] all_subjects(self@).contains(x) <==> r@.contains(x) by {
                if all_subjects(self@).contains(x) {
                    let (p, o) = choose|p: u32, o: u32| self@.contains(#[trigger] spo_triple(x, p, o));
                    let t = spo_triple(x, p, o);
                    assert(self@.contains(t));
                    let k = choose|k: int| 0 <= k < self.shards@.len() && (#[trigger] self.shards@[k])@.contains(t);
                    assert(all_subjects(self.shards@[k]@).contains(x));
                    assert(answers@[k]@.contains(x));
                }
                if r@.contains(x) {
                    let k = choose|k: int| 0 <= k < answers@.len() && (#[trigger] answers@[k])@.contains(x);
                    assert(all_subjects(self.shards@[k]@).contains(x));
                    let (p, o) = choose|p: u32, o: u32| self.shards@[k]@.contains(#[trigger] spo_triple(x, p, o));
                    let t = spo_triple(x, p, o);
                    assert(self.shards@[k]@.contains(t));
                    assert(self@.contains(t));
                }
            }
        }
        r
    }

    /// All objects, ascending.
    pub fn object_keys(&self) -> (r: Vec<u32>)
        requires
            self.wf(),
        ensures
            lists(r@, all_objects(self@)),
    {
        let mut answers: Vec<Vec<u32>> = Vec::new();
        let mut i: usize = 0;
        while i < self.shards.len()
            invariant
                self.wf(),
                i <= self.shards@.len(),
                answers@.len() == i,
                forall|k: int| 0 <= k < i ==> lists((#[trigger] answers@[k])@, all_objects(self.shards@[k]@)),
            decreases self.shards.len() - i,
        {
            answers.push(self.shards[i].object_keys());
            i = i + 1;
        }
        let r: Vec<u32> = gather(&answers);
        proof {
            assert forall|x: u32| #[trigger] all_objects(self@).contains(x) <==> r@.contains(x) by {
                if all_objects(self@).contains(x) {
                    let (s, p) = choose|s: u32, p: u32| self@.contains(#[trigger] spo_triple(s, p, x));
                    let t = spo_triple(s, p, x);
                    assert(self@.contains(t));
                    let k = choose|k: int| 0 <= k < self.shards@.len() && (#[trigger] self.shards@[k])@.contains(t);
                    assert(all_objects(self.shards@[k]@).contains(x));
                    assert(answers@[k]@.contains(x));
                }
                if r@.contains(x) {
                    let k = choose|k: int| 0 <= k < answers@.len() && (#[trigger] answers@[k])@.contains(x);
                    assert(all_objects(self.shards@[k]@).contains(x));
                    let (s, p) = choose|s: u32, p: u32| self.shards@[k]@.contains(#[trigger] spo_triple(s, p, x));
                    let t = spo_triple(s, p, x);
                    assert(self.shards@[k]@.contains(t));
                    assert(self@.contains(t));
                }
            }
        }
        r
    }

    /// All predicates, ascending.
    pub fn predicates(&self) -> (r: Vec<u32>)
        requires
            self.wf(),
        ensures
            lists(r@, all_predicates(self@)),
    {
        let mut answers: Vec<Vec<u32>> = Vec::new();
        let mut i: usize = 0;
        while i < self.shards.len()
            invariant
                self.wf(),
                i <= self.shards@.len(),
                answers@.len() == i,
                forall|k: int| 0 <= k < i ==> lists((#[trigger] answers@[k])@, all_predicates(self.shards@[k]@)),
            decreases self.shards.len() - i,
        {
            answers.push(self.shards[i].predicates());
            i = i + 1;
        }
        let r: Vec<u32> = gather(&answers);
        proof {
            assert forall|x: u32| #[trigger] all_predicates(self@).contains(x) <==> r@.contains(x) by {
                if all_predicates(self@).contains(x) {
                    let (s, o) = choose|s: u32, o: u32| self@.contains(#[trigger] spo_triple(s, x, o));
                    let t = spo_triple(s, x, o);
                    assert(self@.contains(t));
                    let k = choose|k: int| 0 <= k < self.shards@.len() && (#[trigger] self.shards@[k])@.contains(t);
                    assert(all_predicates(self.shards@[k]@).contains(x));
                    assert(answers@[k]@.contains(x));
                }
                if r@.contains(x) {
                    let k = choose|k: int| 0 <= k < answers@.len() && (#[trigger] answers@[k])@.contains(x);
                    assert(all_predicates(self.shards@[k]@).contains(x));
                    let (s, o) = choose|s: u32, o: u32| self.shards@[k]@.contains(#[trigger] spo_triple(s, x, o));
                    let t = spo_triple(s, x, o);
                    assert(self.shards@[k]@.contains(t));
                    assert(self@.contains(t));
                }
            }
        }
        r
    }

    /// Number of triples: the sum over the shards, since each triple is on one.
    pub fn triple_count(&self) -> (n: u64)
        requires
            self.wf(),
            self@.len() <= u64::MAX,
        ensures
            n == self@.len(),
    {
        let mut n: u64 = 0;
        let mut i: usize = 0;
        assert(union_of(self.shards@, 0) =~= Set::<IdTriple>::empty());
        while i < self.shards.len()
            invariant
                self.wf(),
                self@.len() <= u64::MAX,
                i <= self.shards@.len(),
                union_of(self.shards@, i as int).finite(),
                n == union_of(self.shards@, i as int).len(),
            decreases self.shards.len() - i,
        {
            proof {
                lemma_union_step(self.shards@, i as int);
                lemma_union_grows(self.shards@, i + 1);
            }
            n = n + self.shards[i].triple_count();
            i = i + 1;
        }
        n
    }

    /// Number of distinct subjects.
    pub fn distinct_subjects(&self) -> (n: usize)
        requires
            self.wf(),
        ensures
            n == all_subjects(self@).len(),
    {
        let r = self.subject_keys();
        proof {
            lemma_lists_len(r@, all_subjects(self@));
        }
        r.len()
    }

    /// Number of distinct objects.
    pub fn distinct_objects(&self) -> (n: usize)
        requires
            self.wf(),
        ensures
            n == all_objects(self@).len(),
    {
        let r = self.object_keys();
        proof {
            lemma_lists_len(r@, all_objects(self@));
        }
        r.len()
    }

    /// Number of distinct predicates.
    pub fn num_predicates(&self) -> (n: usize)
        requires
            self.wf(),
        ensures
            n == all_predicates(self@).len(),
    {
        let r = self.predicates();
        proof {
            lemma_lists_len(r@, all_predicates(self@));
        }
        r.len()
    }

    /// Number of triples with predicate `pred`.
    pub fn pred_card(&self, pred: PredId) -> (n: usize)
        requires
            self.wf(),
        ensures
            n == pairs_of_predicate(self@, pred).len(),
    {
        let r = self.so_by_p(pred);
        proof {
            lemma_lists_len(r@, pairs_of_predicate(self@, pred));
        }
        r.len()
    }

    /// Number of distinct subjects of `pred`.
    pub fn pred_distinct_subj(&self, pred: PredId) -> (n: usize)
        requires
            self.wf(),
        ensures
            n == subjects_with(self@, pred).len(),
    {
        let r = self.subs_by_p(pred);
        proof {
            lemma_lists_len(r@, subjects_with(self@, pred));
        }
        r.len()
    }

    /// Number of distinct objects of `pred`.
    pub fn pred_distinct_obj(&self, pred: PredId) -> (n: usize)
        requires
            self.wf(),
        ensures
            n == objects_with(self@, pred).len(),
    {
        let r = self.objs_by_p(pred);
        proof {
            lemma_lists_len(r@, objects_with(self@, pred));
        }
        r.len()
    }

    /// Every triple once, ordered by predicate, subject, object: for each
    /// predicate in turn, its merged (subject, object) pairs.
    pub fn iter_all(&self) -> (r: Vec<IdTriple>)
        requires
            self.wf(),
        ensures
            scans(r@, self@),
    {
        let preds: Vec<u32> = self.predicates();
        let mut r: Vec<IdTriple> = Vec::new();
        let mut i: usize = 0;
        while i < preds.len()
            invariant
                self.wf(),
                lists(preds@, all_predicates(self@)),
                i <= preds@.len(),
                forall|a: int, b: int| 0 <= a < b < r@.len() ==> scan_key(#[trigger] r@[a]).rank() < scan_key(#[trigger] r@[b]).rank(),
                forall|a: int| 0 <= a < r@.len() ==> self@.contains(#[trigger] r@[a]) && (i < preds@.len() ==> r@[a].pred < preds@[i as int]),
                forall|t: IdTriple, k: int| #[trigger] self@.contains(t) && 0 <= k < i && #[trigger] preds@[k] == t.pred ==> r@.contains(t),
            decreases preds.len() - i,
        {
            let p: u32 = preds[i];
            let pairs: Vec<(u32, u32)> = self.so_by_p(p);
            let ghost r0 = r@;
            let mut j: usize = 0;
            while j < pairs.len()
                invariant
                    i < preds@.len(),
                    p == preds@[i as int],
                    lists(pairs@, pairs_of_predicate(self@, p)),
                    j <= pairs@.len(),
                    r@.len() == r0.len() + j,
                    forall|a: int| 0 <= a < r0.len() ==> #[trigger] r@[a] == r0[a],
                    forall|a: int| 0 <= a < j ==> r@[r0.len() + a] == spo_triple((#[trigger] pairs@[a]).0, p, pairs@[a].1),
                decreases pairs.len() - j,
            {
                r.push(IdTriple { sub: pairs[j].0, pred: p, obj: pairs[j].1 });
                j = j + 1;
            }
            proof {
                assert forall|a: int| r0.len() <= a < r@.len() implies self@.contains(#[trigger] r@[a]) && r@[a].pred == p && r@[a] == spo_triple(pairs@[a - r0.len()].0, p, pairs@[a - r0.len()].1) by {
                    let q = pairs@[a - r0.len()];
                    assert(pairs@.contains(q));
                    assert(pairs_of_predicate(self@, p).contains(q));
                }
                assert forall|a: int, b: int| 0 <= a < b < r@.len() implies scan_key(#[trigger] r@[a]).rank() < scan_key(#[trigger] r@[b]).rank() by {
                    if b < r0.len() {
                        assert(r@[a] == r0[a] && r@[b] == r0[b]);
                    } else if a < r0.len() {
                        assert(r@[a] == r0[a]);
                        assert(r0[a].pred < p);
                    } else {
                        assert(pairs@[a - r0.len()].rank() < pairs@[b - r0.len()].rank());
                    }
                }
                assert forall|a: int| 0 <= a < r@.len() implies self@.contains(#[trigger] r@[a]) && (i + 1 < preds@.len() ==> r@[a].pred < preds@[i + 1]) by {
                    if i + 1 < preds@.len() {
                        assert(preds@[i as int].rank() < preds@[i + 1].rank());
                    }
                    if a < r0.len() {
                        assert(r@[a] == r0[a]);
                        assert(self@.contains(r0[a]));
                    }
                }
                assert forall|t: IdTriple, k: int| #[trigger] self@.contains(t) && 0 <= k < i + 1 && #[trigger] preds@[k] == t.pred implies r@.contains(t) by {
                    if k < i {
                        let m = choose|m: int| 0 <= m < r0.len() && r0[m] == t;
                        assert(r@[m] == t);
                    } else {
                        assert(pairs_of_predicate(self@, p).contains((t.sub, t.obj)));
                        let m = choose|m: int| 0 <= m < pairs@.len() && pairs@[m] == (t.sub, t.obj);
                        assert(pairs@[m].0 == t.sub);
                        assert(r@[r0.len() + m] == t);
                    }
                }
            }
            i = i + 1;
        }
        proof {
            assert forall|t: IdTriple| #[trigger] self@.contains(t) <==> r@.contains(t) by {
                if self@.contains(t) {
                    assert(self@.contains(spo_triple(t.sub, t.pred, t.obj)));
                    assert(all_predicates(self@).contains(t.pred));
                    let k = choose|k: int| 0 <= k < preds@.len() && preds@[k] == t.pred;
                    assert(r@.contains(t));
                }
                if r@.contains(t) {
                    let k = choose|k: int| 0 <= k < r@.len() && r@[k] == t;
                    assert(self@.contains(r@[k]));
                }
            }
        }
        r
    }
}

/// Scatter-gather is invisible: on the same triples, any answer of a sharded
/// store that is the ascending list of a set equals the answer of a single
/// store, whatever the number of shards.
pub proof fn law_answers_match_single_store<T: Ranked>(sharded: Seq<T>, single: Seq<T>, answer: Set<T>)
    requires
        lists(sharded, answer),
        lists(single, answer),
    ensures
        sharded == single,
{
    assert forall|x: T| #[trigger] sharded.contains(x) <==> single.contains(x) by {
        assert(answer.contains(x) <==> sharded.contains(x));
        assert(answer.contains(x) <==> single.contains(x));
    }
    crate::order::lemma_ascending_unique(sharded, single);
}

/// A full scan of a sharded store gives the same sequence as a full scan of a
/// single store with the same triples.
pub proof fn law_scan_matches_single_store(sharded: Seq<IdTriple>, single: Seq<IdTriple>, ts: Set<IdTriple>)
    requires
        scans(sharded, ts),
        scans(single, ts),
    ensures
        sharded == single,
{
    lemma_scan_unique(sharded, single, ts);
}

/// A request to a shard node.
#[derive(Debug, Clone, Copy)]
pub enum ShardRequest {
    Exists { sub: u32, pred: u32, obj: u32 },
    PoByS { sub: u32 },
    OBySp { sub: u32, pred: u32 },
    PBySo { sub: u32, obj: u32 },
    PsByO { obj: u32 },
    SByPo { pred: u32, obj: u32 },
    SoByP { pred: u32 },
    SubsByP { pred: u32 },
    ObjsByP { pred: u32 },
    SubjectKeys,
    ObjectKeys,
    Predicates,
    TripleCount,
    PredCard { pred: u32 },
    Insert { sub: u32, pred: u32, obj: u32 },
}

/// The answer of a shard node.
#[derive(Debug)]
pub enum ShardResponse {
    Bool(bool),
    Pairs(Vec<(u32, u32)>),
    Ids(Vec<u32>),
    Count(u64),
}

/// `resp` answers `req` on the triples `ts`.
pub open spec fn answers(ts: Set<IdTriple>, req: ShardRequest, resp: ShardResponse) -> bool {
    match req {
        ShardRequest::Exists { sub, pred, obj } => resp == ShardResponse::Bool(ts.contains(spo_triple(sub, pred, obj))),
        ShardRequest::PoByS { sub } => resp matches ShardResponse::Pairs(v) && lists(v@, pairs_of_subject(ts, sub)),
        ShardRequest::OBySp { sub, pred } => resp matches ShardResponse::Ids(v) && lists(v@, objects_of(ts, sub, pred)),
        ShardRequest::PBySo { sub, obj } => resp matches ShardResponse::Ids(v) && lists(v@, predicates_between(ts, sub, obj)),
        ShardRequest::PsByO { obj } => resp matches ShardResponse::Pairs(v) && lists(v@, pairs_of_object(ts, obj)),
        ShardRequest::SByPo { pred, obj } => resp matches ShardResponse::Ids(v) && lists(v@, subjects_of(ts, pred, obj)),
        ShardRequest::SoByP { pred } => resp matches ShardResponse::Pairs(v) && lists(v@, pairs_of_predicate(ts, pred)),
        ShardRequest::SubsByP { pred } => resp matches ShardResponse::Ids(v) && lists(v@, subjects_with(ts, pred)),
        ShardRequest::ObjsByP { pred } => resp matches ShardResponse::Ids(v) && lists(v@, objects_with(ts, pred)),
        ShardRequest::SubjectKeys => resp matches ShardResponse::Ids(v) && lists(v@, all_subjects(ts)),
        ShardRequest::ObjectKeys => resp matches ShardResponse::Ids(v) && lists(v@, all_objects(ts)),
        ShardRequest::Predicates => resp matches ShardResponse::Ids(v) && lists(v@, all_predicates(ts)),
        ShardRequest::TripleCount => resp matches ShardResponse::Count(n) && n == ts.len(),
        ShardRequest::PredCard { pred } => resp matches ShardResponse::Count(n) && n == pairs_of_predicate(ts, pred).len(),
        ShardRequest::Insert { sub, pred, obj } => resp == ShardResponse::Bool(!ts.contains(spo_triple(sub, pred, obj))),
    }
}

/// Execute one request against the local store of a shard node. Only an insert
/// changes the store.
pub fn dispatch(store: &mut TripleStore, req: ShardRequest) -> (resp: ShardResponse)
    requires
        old(store).wf(),
    ensures
        final(store).wf(),
        answers(old(store)@, req, resp),
        final(store)@ == (match req {
            ShardRequest::Insert { sub, pred, obj } => old(store)@.insert(spo_triple(sub, pred, obj)),
            _ => old(store)@,
        }),
{
    match req {
        ShardRequest::Exists { sub, pred, obj } => ShardResponse::Bool(store.contains(IdTriple::new(sub, pred, obj))),
        ShardRequest::PoByS { sub } => ShardResponse::Pairs(store.po_by_s(sub)),
        ShardRequest::OBySp { sub, pred } => ShardResponse::Ids(store.o_by_sp(sub, pred)),
        ShardRequest::PBySo { sub, obj } => ShardResponse::Ids(store.p_by_so(sub, obj)),
        ShardRequest::PsByO { obj } => ShardResponse::Pairs(store.ps_by_o(obj)),
        ShardRequest::SByPo { pred, obj } => ShardResponse::Ids(store.s_by_po(pred, obj)),
        ShardRequest::SoByP { pred } => ShardResponse::Pairs(store.so_by_p(pred)),
        ShardRequest::SubsByP { pred } => ShardResponse::Ids(store.subs_by_p(pred)),
        ShardRequest::ObjsByP { pred } => ShardResponse::Ids(store.objs_by_p(pred)),
        ShardRequest::SubjectKeys => ShardResponse::Ids(store.subject_keys()),
        ShardRequest::ObjectKeys => ShardResponse::Ids(store.object_keys()),
        ShardRequest::Predicates => ShardResponse::Ids(store.predicates()),
        ShardRequest::TripleCount => ShardResponse::Count(store.triple_count()),
        ShardRequest::PredCard { pred } => ShardResponse::Count(store.pred_card(pred) as u64),
        ShardRequest::Insert { sub, pred, obj } => ShardResponse::Bool(store.insert(IdTriple::new(sub, pred, obj))),
    }
}

} // verus!
