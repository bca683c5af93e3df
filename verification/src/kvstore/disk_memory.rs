//! A store on disk as the query engine sees it: the lists that it derives from the
//! indexes, the estimates for the optimizer, and the way back into memory.

use super::disk::{disk_ok, flipped, name_id, object_refused, reversed_pairs, triple_fits, with_triple, DiskSpec, DiskStore};
use crate::dict::{DictSpec, Dictionary, MAX_LITERALS};
use crate::error::{GStoreError, Result};
use crate::model::{EntityLiteralId, IdTriple, PredId, Triple, INVALID_PRED_ID, LITERAL_FIRST_ID};
use crate::order::{lists, sort_dedup};
use crate::store::{all_objects, all_subjects, objects_with, spo_triple, subjects_with, TripleStore};
use vstd::prelude::*;
use vstd::string::*;

verus! {

/// The ids of the keys of a space.
pub open spec fn name_map(first: int, names: Seq<Seq<char>>) -> Map<Seq<char>, u32> {
    Map::new(|k: Seq<char>| names.contains(k), |k: Seq<char>| name_id(first, names, k))
}

/// The dictionary of a store.
pub open spec fn dict_of(d: DiskSpec) -> DictSpec {
    DictSpec {
        entities: name_map(0, d.entities),
        literals: name_map(LITERAL_FIRST_ID as int, d.literals),
        predicates: name_map(0, d.predicates),
        freed_entities: Seq::empty(),
        freed_literals: Seq::empty(),
        freed_predicates: Seq::empty(),
    }
}

/// The spaces are small enough for a dictionary in memory.
pub open spec fn fits_memory(d: DiskSpec) -> bool {
    &&& d.entities.len() <= LITERAL_FIRST_ID
    &&& d.literals.len() <= MAX_LITERALS
    &&& d.predicates.len() <= INVALID_PRED_ID
}

/// One more key in a space.
proof fn lemma_name_map(first: int, names: Seq<Seq<char>>, i: int)
    requires
        names.no_duplicates(),
        0 <= i < names.len(),
        0 <= first,
        first + names.len() <= u32::MAX + 1,
    ensures
        !name_map(first, names.take(i)).contains_key(names[i]),
        name_map(first, names.take(i)).dom().finite(),
        name_map(first, names.take(i)).dom().len() == i,
        name_map(first, names.take(i + 1)) == name_map(first, names.take(i)).insert(names[i], (first + i) as u32),
{
    let a = names.take(i);
    let b = names.take(i + 1);
    assert(a.no_duplicates());
    assert(b.no_duplicates());
    if a.contains(names[i]) {
        let k = choose|k: int| 0 <= k < a.len() && a[k] == names[i];
        assert(names[k] == names[i]);
    }
    let ma = name_map(first, a);
    assert(ma.dom() =~= a.to_set());
    a.unique_seq_to_set();
    vstd::seq_lib::seq_to_set_is_finite(a);
    assert(b[i] == names[i]);
    assert forall|k: Seq<char>| b.contains(k) <==> a.contains(k) || k == names[i] by {
        if b.contains(k) {
            let j = choose|j: int| 0 <= j < b.len() && b[j] == k;
            if j < i {
                assert(a[j] == k);
            }
        }
        if a.contains(k) {
            let j = choose|j: int| 0 <= j < a.len() && a[j] == k;
            assert(b[j] == k);
        }
    }
    assert forall|k: Seq<char>| #[trigger] b.contains(k) implies name_id(first, b, k) == (if k == names[i] { (first + i) as u32 } else { name_id(first, a, k) }) by {
        let j = b.index_of(k);
        assert(b[j] == k);
        if k == names[i] {
            assert(j == i);
        } else {
            assert(a.contains(k));
            let q = a.index_of(k);
            assert(a[q] == k);
            assert(b[q] == k);
            assert(q == j);
        }
    }
    assert(name_map(first, b) =~= ma.insert(names[i], (first + i) as u32));
}

impl DiskStore {
    /// The dictionary of the store, in memory.
    #[verifier::spinoff_prover]
    #[verifier::rlimit(40)]
    pub fn dictionary(&mut self) -> (r: Dictionary)
        requires
            old(self).wf(),
            fits_memory(old(self)@),
        ensures
            final(self).wf(),
            final(self)@ == old(self)@,
            r.wf(),
            r@ == dict_of(old(self)@),
    {
        let ghost d = self@;
        proof {
            self.lemma_wf();
        }
        let mut dict: Dictionary = Dictionary::new();
        let n: u32 = self.entity_num() as u32;
        let mut i: u32 = 0;
        proof {
            assert(name_map(0, d.entities.take(0)) =~= Map::<Seq<char>, u32>::empty());
            assert(name_map(LITERAL_FIRST_ID as int, d.literals.take(0)) =~= Map::<Seq<char>, u32>::empty());
            assert(name_map(0, d.predicates.take(0)) =~= Map::<Seq<char>, u32>::empty());
            assert(dict@ =~= part(d, 0, 0, 0));
        }
        while i < n
            invariant
                self.wf(),
                self@ == d,
                disk_ok(d),
                fits_memory(d),
                n == d.entities.len(),
                i <= n,
                dict.wf(),
                dict@ == part(d, i as int, 0, 0),
            decreases n - i,
        {
            proof {
                lemma_name_map(0, d.entities, i as int);
            }
            match self.id_to_string(i) {
                Some(s) => {
                    let id: u32 = dict.intern_entity(&s);
                    assert(dict@ =~= part(d, i + 1, 0, 0));
                },
                None => {},
            }
            i = i + 1;
        }
        let n: u32 = self.literal_num() as u32;
        let mut i: u32 = 0;
        while i < n
            invariant
                self.wf(),
                self@ == d,
                disk_ok(d),
                fits_memory(d),
                n == d.literals.len(),
                i <= n,
                dict.wf(),
                dict@ == part(d, d.entities.len() as int, i as int, 0),
            decreases n - i,
        {
            proof {
                lemma_name_map(LITERAL_FIRST_ID as int, d.literals, i as int);
            }
            match self.id_to_string(LITERAL_FIRST_ID + i) {
                Some(s) => {
                    let id: u32 = dict.intern_literal(&s);
                    assert(dict@ =~= part(d, d.entities.len() as int, i + 1, 0));
                },
                None => {},
            }
            i = i + 1;
        }
        let n: u32 = self.predicate_num() as u32;
        let mut i: u32 = 0;
        while i < n
            invariant
                self.wf(),
                self@ == d,
                disk_ok(d),
                fits_memory(d),
                n == d.predicates.len(),
                i <= n,
                dict.wf(),
                dict@ == part(d, d.entities.len() as int, d.literals.len() as int, i as int),
            decreases n - i,
        {
            proof {
                lemma_name_map(0, d.predicates, i as int);
            }
            match self.predicate_to_string(i) {
                Some(s) => {
                    let id: u32 = dict.intern_predicate(&s);
                    assert(dict@ =~= part(d, d.entities.len() as int, d.literals.len() as int, i + 1));
                },
                None => {},
            }
            i = i + 1;
        }
        proof {
            assert(d.entities.take(d.entities.len() as int) =~= d.entities);
            assert(d.literals.take(d.literals.len() as int) =~= d.literals);
            assert(d.predicates.take(d.predicates.len() as int) =~= d.predicates);
        }
        dict
    }

    /// The dictionary and the triples of the store, in memory.
    pub fn to_memory(&mut self) -> (r: (Dictionary, TripleStore))
        requires
            old(self).wf(),
            fits_memory(old(self)@),
        ensures
            final(self).wf(),
            final(self)@ == old(self)@,
            r.0.wf(),
            r.0@ == dict_of(old(self)@),
            r.1.wf(),
            r.1@ == old(self)@.triples,
    {
        let dict: Dictionary = self.dictionary();
        let all: Vec<IdTriple> = self.iter_all();
        (dict, TripleStore::from_triples(&all))
    }

    /// The subjects of a predicate, ascending.
    pub fn subs_by_p(&mut self, p: PredId) -> (r: Vec<EntityLiteralId>)
        requires
            old(self).wf(),
        ensures
            final(self).wf(),
            final(self)@ == old(self)@,
            lists(r@, subjects_with(old(self)@.triples, p)),
    {
        let ghost ts = self@.triples;
        let pairs: Vec<(u32, u32)> = self.so_by_p(p);
        let v: Vec<u32> = firsts(&pairs);
        let r: Vec<u32> = sort_dedup(&v);
        proof {
            lemma_flipped(pairs@, reversed_pairs(ts, p));
            assert forall|x: u32| #[trigger] subjects_with(ts, p).contains(x) <==> r@.contains(x) by {
                if subjects_with(ts, p).contains(x) {
                    let o = choose|o: u32| ts.contains(#[trigger] spo_triple(x, p, o));
                    assert(reversed_pairs(ts, p).contains((o, x)));
                    assert(pairs@.contains((x, o)));
                    let k = choose|k: int| 0 <= k < pairs@.len() && pairs@[k] == (x, o);
                    assert(v@[k] == x);
                    assert(v@.contains(x));
                }
                if v@.contains(x) {
                    let k = choose|k: int| 0 <= k < v@.len() && v@[k] == x;
                    let q = pairs@[k];
                    assert(pairs@.contains(q));
                    assert(reversed_pairs(ts, p).contains((q.1, q.0)));
                    assert(ts.contains(spo_triple(x, p, q.1)));
                }
            }
        }
        r
    }

    /// The objects of a predicate, ascending.
    pub fn objs_by_p(&mut self, p: PredId) -> (r: Vec<EntityLiteralId>)
        requires
            old(self).wf(),
        ensures
            final(self).wf(),
            final(self)@ == old(self)@,
            lists(r@, objects_with(old(self)@.triples, p)),
    {
        let ghost ts = self@.triples;
        let pairs: Vec<(u32, u32)> = self.so_by_p(p);
        let v: Vec<u32> = seconds(&pairs);
        let r: Vec<u32> = sort_dedup(&v);
        proof {
            lemma_flipped(pairs@, reversed_pairs(ts, p));
            assert forall|x: u32| #[trigger] objects_with(ts, p).contains(x) <==> r@.contains(x) by {
                if objects_with(ts, p).contains(x) {
                    let s = choose|s: u32| ts.contains(#[trigger] spo_triple(s, p, x));
                    assert(reversed_pairs(ts, p).contains((x, s)));
                    assert(pairs@.contains((s, x)));
                    let k = choose|k: int| 0 <= k < pairs@.len() && pairs@[k] == (s, x);
                    assert(v@[k] == x);
                    assert(v@.contains(x));
                }
                if v@.contains(x) {
                    let k = choose|k: int| 0 <= k < v@.len() && v@[k] == x;
                    let q = pairs@[k];
                    assert(pairs@.contains(q));
                    assert(reversed_pairs(ts, p).contains((q.1, q.0)));
                    assert(ts.contains(spo_triple(q.0, p, x)));
                }
            }
        }
        r
    }

    /// All subjects, ascending.
    pub fn subject_keys(&mut self) -> (r: Vec<EntityLiteralId>)
        requires
            old(self).wf(),
        ensures
            final(self).wf(),
            final(self)@ == old(self)@,
            lists(r@, all_subjects(old(self)@.triples)),
    {
        let ghost ts = self@.triples;
        let all: Vec<IdTriple> = self.iter_all();
        let mut v: Vec<u32> = Vec::new();
        let mut i: usize = 0;
        while i < all.len()
            invariant
                i <= all@.len(),
                v@.len() == i,
                forall|k: int| 0 <= k < i ==> #[trigger] v@[k] == all@[k].sub,
            decreases all.len() - i,
        {
            v.push(all[i].sub);
            i = i + 1;
        }
        let r: Vec<u32> = sort_dedup(&v);
        proof {
            assert forall|x: u32| #[trigger] all_subjects(ts).contains(x) <==> r@.contains(x) by {
                if all_subjects(ts).contains(x) {
                    let (p, o) = choose|p: u32, o: u32| ts.contains(#[trigger] spo_triple(x, p, o));
                    assert(all@.to_set().contains(spo_triple(x, p, o)));
                    let k = choose|k: int| 0 <= k < all@.len() && all@[k] == spo_triple(x, p, o);
                    assert(v@[k] == x);
                    assert(v@.contains(x));
                }
                if v@.contains(x) {
                    let k = choose|k: int| 0 <= k < v@.len() && v@[k] == x;
                    assert(all@.to_set().contains(all@[k]));
                    assert(ts.contains(spo_triple(x, all@[k].pred, all@[k].obj)));
                }
            }
        }
        r
    }

    /// All objects, ascending.
    pub fn object_keys(&mut self) -> (r: Vec<EntityLiteralId>)
        requires
            old(self).wf(),
        ensures
            final(self).wf(),
            final(self)@ == old(self)@,
            lists(r@, all_objects(old(self)@.triples)),
    {
        let ghost ts = self@.triples;
        let all: Vec<IdTriple> = self.iter_all();
        let mut v: Vec<u32> = Vec::new();
        let mut i: usize = 0;
        while i < all.len()
            invariant
                i <= all@.len(),
                v@.len() == i,
                forall|k: int| 0 <= k < i ==> #[trigger] v@[k] == all@[k].obj,
            decreases all.len() - i,
        {
            v.push(all[i].obj);
            i = i + 1;
        }
        let r: Vec<u32> = sort_dedup(&v);
        proof {
            assert forall|x: u32| #[trigger] all_objects(ts).contains(x) <==> r@.contains(x) by {
                if all_objects(ts).contains(x) {
                    let (s, p) = choose|s: u32, p: u32| ts.contains(#[trigger] spo_triple(s, p, x));
                    assert(all@.to_set().contains(spo_triple(s, p, x)));
                    let k = choose|k: int| 0 <= k < all@.len() && all@[k] == spo_triple(s, p, x);
                    assert(v@[k] == x);
                    assert(v@.contains(x));
                }
                if v@.contains(x) {
                    let k = choose|k: int| 0 <= k < v@.len() && v@[k] == x;
                    assert(all@.to_set().contains(all@[k]));
                    assert(ts.contains(spo_triple(all@[k].sub, all@[k].pred, x)));
                }
            }
        }
        r
    }

    /// An estimate of the number of subjects: the number of entities, at least one.
    pub fn distinct_subjects(&self) -> (n: usize)
        requires
            self.wf(),
        ensures
            n == (if self@.entities.len() == 0 { 1 } else { self@.entities.len() }),
    {
        let n: usize = self.entity_num();
        if n == 0 {
            1
        } else {
            n
        }
    }

    /// An estimate of the number of objects: the number of entities and literals.
    pub fn distinct_objects(&self) -> (n: usize)
        requires
            self.wf(),
            self@.entities.len() + self@.literals.len() <= usize::MAX,
        ensures
            n == self@.entities.len() + self@.literals.len(),
    {
        self.entity_num() + self.literal_num()
    }

    /// An estimate of the number of predicates in use: the number of predicates.
    pub fn num_predicates(&self) -> (n: usize)
        requires
            self.wf(),
        ensures
            n == self@.predicates.len(),
    {
        self.predicate_num()
    }

    /// Add triples in order, until one fails.
    #[verifier::spinoff_prover]
    #[verifier::rlimit(40)]
    pub fn insert_all(&mut self, triples: &Vec<Triple>) -> (r: Result<()>)
        requires
            old(self).wf(),
            all_fit(old(self)@, triples@),
            old(self)@.triples.len() + triples@.len() <= u64::MAX,
        ensures
            r is Ok <==> built_from(old(self)@, triples@).left >= 0 && !refused_in(old(self)@, triples@),
            r is Ok ==> final(self).wf() && final(self)@ == built_from(old(self)@, triples@),
    {
        let ghost d0 = self@;
        let ghost ts = triples@;
        let mut i: usize = 0;
        proof {
            assert(ts.take(0) =~= Seq::<Triple>::empty());
            self.lemma_left();
        }
        while i < triples.len()
            invariant
                i <= triples@.len(),
                ts == triples@,
                d0 == old(self)@,
                self.wf(),
                self@ == built_from(d0, ts.take(i as int)),
                self@.left >= 0,
                all_fit(d0, ts),
                !refused_in(d0, ts.take(i as int)),
                d0.triples.len() + ts.len() <= u64::MAX,
                self@.triples.len() <= d0.triples.len() + i,
            decreases triples.len() - i,
        {
            let ghost before = self@;
            proof {
                self.lemma_wf();
                lemma_step(d0, ts, i as int, before);
            }
            match self.insert_triple(&triples[i]) {
                Ok(b) => {},
                Err(e) => {
                    return Err(e);
                },
            }
            i = i + 1;
        }
        assert(ts.take(i as int) =~= ts);
        Ok(())
    }

    /// Build a store from the triples of a document, as far as it could be parsed, and
    /// commit it.
    pub fn build_str(file: &[u8], wal: Option<&[u8]>, cache_pages: usize, parsed: Result<Vec<Triple>>) -> (r: Result<DiskStore>)
        requires
            super::disk::pager_for(file@, super::disk::log_bytes(wal), cache_pages as nat) matches Some(p) ==> {
                &&& p == super::pager::new_pager(p.capacity, super::pager::replayed(super::disk::log_bytes(wal))) || super::disk::holds_store(p)
                &&& parsed matches Ok(ts) ==> (forall|d: DiskSpec| #[trigger] super::disk::is_store(p, d) ==> all_fit(d, ts@) && d.triples.len() + ts@.len() <= u64::MAX)
            },
        ensures
            match super::disk::pager_for(file@, super::disk::log_bytes(wal), cache_pages as nat) {
                None => r matches Err(e) && (super::pager::is_eof(e) || crate::db::logs::is_database_error(e, "not a gStore KV file"@)),
                Some(p) => match parsed {
                    Err(e) => r == Err::<DiskStore, GStoreError>(e),
                    Ok(ts) => forall|d: DiskSpec| #[trigger] super::disk::is_store(p, d) ==> {
                        &&& r is Ok <==> built_from(d, ts@).left >= 0 && !refused_in(d, ts@)
                        &&& r matches Ok(s) ==> s.wf() && s@ == built_from(d, ts@)
                    },
                },
            },
    {
        let mut store: DiskStore = match DiskStore::open(file, wal, cache_pages) {
            Ok(s) => s,
            Err(e) => {
                return Err(e);
            },
        };
        let triples: Vec<Triple> = match parsed {
            Ok(ts) => ts,
            Err(e) => {
                return Err(e);
            },
        };
        let ghost p = store.pages();
        let ghost d0 = store@;
        proof {
            assert(super::disk::is_store(p, d0));
            assert forall|d: DiskSpec| #[trigger] super::disk::is_store(p, d) implies d == d0 by {
                super::disk::law_store_is_determined(p, d, d0);
            }
        }
        match store.insert_all(&triples) {
            Ok(u) => {},
            Err(e) => {
                return Err(e);
            },
        }
        store.flush();
        Ok(store)
    }
}

/// The store after some triples were added.
pub open spec fn built_from(d: DiskSpec, ts: Seq<Triple>) -> DiskSpec
    decreases ts.len(),
{
    if ts.len() == 0 {
        d
    } else {
        with_triple(built_from(d, ts.drop_last()), ts.last())
    }
}

/// Each triple fits the store as it is when its turn comes.
pub open spec fn all_fit(d: DiskSpec, ts: Seq<Triple>) -> bool
    decreases ts.len(),
{
    ts.len() == 0 || (all_fit(d, ts.drop_last()) && triple_fits(built_from(d, ts.drop_last()), ts.last()))
}

/// Some triple has a new literal for which no id is left.
pub open spec fn refused_in(d: DiskSpec, ts: Seq<Triple>) -> bool
    decreases ts.len(),
{
    ts.len() > 0 && (refused_in(d, ts.drop_last()) || object_refused(built_from(d, ts.drop_last()), ts.last()))
}

proof fn lemma_all_fit(d: DiskSpec, ts: Seq<Triple>, i: int)
    requires
        all_fit(d, ts),
        0 <= i < ts.len(),
    ensures
        triple_fits(built_from(d, ts.take(i)), ts[i]),
    decreases ts.len(),
{
    if i == ts.len() - 1 {
        assert(ts.take(i) =~= ts.drop_last());
    } else {
        lemma_all_fit(d, ts.drop_last(), i);
        assert(ts.drop_last().take(i) =~= ts.take(i));
    }
}

/// What one more triple does.
pub proof fn lemma_step(d0: DiskSpec, ts: Seq<Triple>, i: int, d: DiskSpec)
    requires
        0 <= i < ts.len(),
        all_fit(d0, ts),
        d == built_from(d0, ts.take(i)),
        d.triples.finite(),
        !refused_in(d0, ts.take(i)),
    ensures
        triple_fits(d, ts[i]),
        built_from(d0, ts.take(i + 1)) == with_triple(d, ts[i]),
        with_triple(d, ts[i]).triples.len() <= d.triples.len() + 1,
        with_triple(d, ts[i]).left < 0 ==> built_from(d0, ts).left < 0,
        refused_in(d0, ts.take(i + 1)) == object_refused(d, ts[i]),
        object_refused(d, ts[i]) ==> refused_in(d0, ts),
{
    lemma_all_fit(d0, ts, i);
    assert(ts.take(i + 1).drop_last() =~= ts.take(i));
    assert(ts.take(i + 1).last() == ts[i]);
    lemma_triple_grows(d, ts[i]);
    lemma_left_falls(d0, ts, i + 1);
    lemma_refused(d0, ts, i + 1);
}

proof fn lemma_triple_grows(d: DiskSpec, t: Triple)
    requires
        d.triples.finite(),
    ensures
        with_triple(d, t).triples.len() <= d.triples.len() + 1,
        with_triple(d, t).left <= d.left,
{
}

proof fn lemma_left_falls(d: DiskSpec, ts: Seq<Triple>, i: int)
    requires
        0 <= i <= ts.len(),
    ensures
        built_from(d, ts).left <= built_from(d, ts.take(i)).left,
    decreases ts.len(),
{
    if i == ts.len() {
        assert(ts.take(i) =~= ts);
    } else {
        lemma_left_falls(d, ts.drop_last(), i);
        assert(ts.drop_last().take(i) =~= ts.take(i));
        lemma_left_of_one(built_from(d, ts.drop_last()), ts.last());
    }
}

proof fn lemma_left_of_one(d: DiskSpec, t: Triple)
    ensures
        with_triple(d, t).left <= d.left,
{
}

proof fn lemma_refused(d: DiskSpec, ts: Seq<Triple>, i: int)
    requires
        0 <= i <= ts.len(),
    ensures
        refused_in(d, ts.take(i)) ==> refused_in(d, ts),
    decreases ts.len(),
{
    if i == ts.len() {
        assert(ts.take(i) =~= ts);
    } else {
        lemma_refused(d, ts.drop_last(), i);
        assert(ts.drop_last().take(i) =~= ts.take(i));
    }
}

/// Some of the keys of each space are in the dictionary already.
spec fn part(d: DiskSpec, e: int, l: int, p: int) -> DictSpec {
    DictSpec {
        entities: name_map(0, d.entities.take(e)),
        literals: name_map(LITERAL_FIRST_ID as int, d.literals.take(l)),
        predicates: name_map(0, d.predicates.take(p)),
        freed_entities: Seq::empty(),
        freed_literals: Seq::empty(),
        freed_predicates: Seq::empty(),
    }
}

/// What a list of turned pairs holds.
proof fn lemma_flipped(s: Seq<(u32, u32)>, set: Set<(u32, u32)>)
    requires
        lists(flipped(s), set),
    ensures
        forall|x: (u32, u32)| #[trigger] s.contains(x) <==> set.contains((x.1, x.0)),
{
    let f = flipped(s);
    assert forall|x: (u32, u32)| #[trigger] s.contains(x) <==> set.contains((x.1, x.0)) by {
        let y = (x.1, x.0);
        if s.contains(x) {
            let k = choose|k: int| 0 <= k < s.len() && s[k] == x;
            assert(f[k] == y);
            assert(f.contains(y));
        }
        if set.contains(y) {
            assert(f.contains(y));
            let k = choose|k: int| 0 <= k < f.len() && f[k] == y;
            assert(s[k] == x);
        }
    }
}

/// The first parts of some pairs.
pub(crate) fn firsts(pairs: &Vec<(u32, u32)>) -> (r: Vec<u32>)
    ensures
        r@.len() == pairs@.len(),
        forall|i: int| 0 <= i < pairs@.len() ==> #[trigger] r@[i] == pairs@[i].0,
{
    let mut r: Vec<u32> = Vec::new();
    let mut i: usize = 0;
    while i < pairs.len()
        invariant
            i <= pairs@.len(),
            r@.len() == i,
            forall|k: int| 0 <= k < i ==> #[trigger] r@[k] == pairs@[k].0,
        decreases pairs.len() - i,
    {
        r.push(pairs[i].0);
        i = i + 1;
    }
    r
}

/// The second parts of some pairs.
pub(crate) fn seconds(pairs: &Vec<(u32, u32)>) -> (r: Vec<u32>)
    ensures
        r@.len() == pairs@.len(),
        forall|i: int| 0 <= i < pairs@.len() ==> #[trigger] r@[i] == pairs@[i].1,
{
    let mut r: Vec<u32> = Vec::new();
    let mut i: usize = 0;
    while i < pairs.len()
        invariant
            i <= pairs@.len(),
            r@.len() == i,
            forall|k: int| 0 <= k < i ==> #[trigger] r@[k] == pairs@[k].1,
        decreases pairs.len() - i,
    {
        r.push(pairs[i].1);
        i = i + 1;
    }
    r
}

/// In memory each key has the id that it has on disk, in the same space, and no other key
/// has one.
pub proof fn law_memory_keeps_the_ids(d: DiskSpec, key: Seq<char>, id: u32)
    requires
        d.entities.no_duplicates(),
        d.literals.no_duplicates(),
        d.predicates.no_duplicates(),
        d.entities.len() <= LITERAL_FIRST_ID,
        LITERAL_FIRST_ID + d.literals.len() <= u32::MAX,
        d.predicates.len() <= u32::MAX,
    ensures
        dict_of(d).entities.contains_key(key) && dict_of(d).entities[key] == id <==> id < d.entities.len() && d.entities[id as int] == key,
        dict_of(d).literals.contains_key(key) && dict_of(d).literals[key] == id <==> LITERAL_FIRST_ID <= id < LITERAL_FIRST_ID + d.literals.len() && d.literals[id - LITERAL_FIRST_ID] == key,
        dict_of(d).predicates.contains_key(key) && dict_of(d).predicates[key] == id <==> id < d.predicates.len() && d.predicates[id as int] == key,
{
    lemma_name_has_id(d.entities, 0, key, id);
    lemma_name_has_id(d.literals, LITERAL_FIRST_ID as int, key, id);
    lemma_name_has_id(d.predicates, 0, key, id);
}

proof fn lemma_name_has_id(names: Seq<Seq<char>>, first: int, key: Seq<char>, id: u32)
    requires
        names.no_duplicates(),
        0 <= first,
        first + names.len() <= u32::MAX,
    ensures
        name_map(first, names).contains_key(key) && name_map(first, names)[key] == id <==> first <= id < first + names.len() && names[id - first] == key,
{
    if names.contains(key) {
        let i = names.index_of(key);
        assert(names[i] == key);
        assert(name_map(first, names)[key] == (first + i) as u32);
        if first <= id < first + names.len() && names[id - first] == key {
            assert(id - first == i);
        }
    } else if first <= id < first + names.len() {
        assert(names.contains(names[id - first]));
    }
}

} // verus!
