//! Building a database from parsed documents, and opening a saved one.

use super::lru::LruCache;
use super::state::{changed_by_all, dict_extends, dict_finite, dict_fits, encoded, id_of, inserted, insert_changes, known, lemma_encoded, lemma_encoded_sizes, name_of, predicate_name, DbSpec, Quad};
use super::update::default_inserts;
use super::{graph_ids, graphs_wf, quads_of, BuildProgress, Database, Meta, NamedGraph, DEFAULT_QUERY_CACHE_CAP};
use super::logs::{is_database_error, RedoSpec};
use crate::dict::{dict_ok, DictSpec, Dictionary};
use crate::error::{join2, GStoreError, Result};
use crate::model::{IdTriple, Triple};
use crate::store::TripleStore;
use crate::text::{decimal, decimal_of};
use vstd::prelude::*;
use vstd::string::*;

verus! {

/// The dictionary after some triples were interned, one after the other.
pub open spec fn encoded_all(d: DictSpec, ts: Seq<Triple>) -> DictSpec
    decreases ts.len(),
{
    if ts.len() == 0 {
        d
    } else {
        encoded(encoded_all(d, ts.drop_last()), ts.last())
    }
}

/// The dictionary of a new database.
pub open spec fn empty_dict() -> DictSpec {
    DictSpec {
        entities: Map::empty(),
        literals: Map::empty(),
        predicates: Map::empty(),
        freed_entities: Seq::empty(),
        freed_literals: Seq::empty(),
        freed_predicates: Seq::empty(),
    }
}

/// A database without logs, cache contents or transaction.
pub open spec fn fresh(name: Seq<char>, dict: DictSpec, quads: Set<Quad>, graphs: Set<u32>, disk_index: bool) -> DbSpec {
    DbSpec {
        name,
        dict,
        quads,
        graphs,
        index_valid: true,
        disk_index,
        txn: None,
        txn_graphs: Set::empty(),
        cache: Seq::empty(),
        cache_cap: DEFAULT_QUERY_CACHE_CAP as nat,
        update_log: None,
        update_out: Seq::empty(),
        redo_log: None,
        redo_pending: Seq::empty(),
        redo_out: Seq::empty(),
        rules: Seq::empty(),
        functions: Seq::empty(),
    }
}

/// The triples in the default graph.
pub open spec fn default_quads(d: DictSpec, ts: Seq<Triple>) -> Set<Quad> {
    Set::new(|q: Quad| q.0 is None && exists|k: int| 0 <= k < ts.len() && q.1 == id_of(d, #[trigger] ts[k]))
}

/// The database that is built from some triples. It has no named graph.
pub open spec fn built(name: Seq<char>, ts: Seq<Triple>) -> DbSpec {
    let d = encoded_all(empty_dict(), ts);
    fresh(name, d, default_quads(d, ts), Set::empty(), false)
}

/// The terms of the triples find ids in a new database.
pub open spec fn build_fits(ts: Seq<Triple>) -> bool {
    dict_fits(encoded_all(empty_dict(), ts))
}

/// Triples only add keys to the dictionary.
proof fn lemma_all_sizes(d: DictSpec, ts: Seq<Triple>, n: int)
    requires
        dict_finite(d),
        0 <= n <= ts.len(),
    ensures
        dict_finite(encoded_all(d, ts)),
        dict_finite(encoded_all(d, ts.take(n))),
        dict_fits(encoded_all(d, ts)) ==> dict_fits(encoded_all(d, ts.take(n))),
    decreases ts.len(),
{
    if n == ts.len() {
        assert(ts.take(n) =~= ts);
        if ts.len() > 0 {
            lemma_all_sizes(d, ts.drop_last(), 0);
            lemma_encoded_sizes(encoded_all(d, ts.drop_last()), ts.last(), None);
        }
    } else {
        assert(ts.drop_last().take(n) =~= ts.take(n));
        lemma_all_sizes(d, ts.drop_last(), n);
        lemma_encoded_sizes(encoded_all(d, ts.drop_last()), ts.last(), None);
    }
}

pub proof fn lemma_empty_ok()
    ensures
        dict_ok(empty_dict()),
{
}

/// Interning triples: the dictionary stays in order, keeps all ids and grows by
/// the new terms at most; all triples are known then.
pub proof fn lemma_encoded_all(d: DictSpec, ts: Seq<Triple>)
    requires
        dict_ok(d),
        dict_fits(encoded_all(d, ts)),
    ensures
        ({
            let e = encoded_all(d, ts);
            &&& dict_ok(e)
            &&& dict_extends(d, e)
            &&& forall|k: int| 0 <= k < ts.len() ==> known(e, #[trigger] ts[k])
        }),
    decreases ts.len(),
{
    if ts.len() > 0 {
        let front = ts.drop_last();
        lemma_all_sizes(d, ts, ts.len() - 1);
        assert(ts.take(ts.len() - 1) =~= front);
        lemma_encoded_all(d, front);
        let e0 = encoded_all(d, front);
        lemma_encoded(e0, ts.last());
        let e = encoded_all(d, ts);
        assert forall|k: int| 0 <= k < ts.len() implies known(e, #[trigger] ts[k]) by {
            if k < front.len() {
                assert(front[k] == ts[k]);
            }
        }
    }
}

/// Building a database gives the dictionary and the graph that inserting the
/// triples one at a time into a new database gives.
pub proof fn law_build_is_insertion(name: Seq<char>, ts: Seq<Triple>)
    requires
        build_fits(ts),
    ensures
        ({
            let one_by_one = changed_by_all(fresh(name, empty_dict(), Set::empty(), Set::empty(), false), default_inserts(ts));
            &&& built(name, ts).dict == one_by_one.dict
            &&& built(name, ts).quads == one_by_one.quads
            &&& built(name, ts).graphs == one_by_one.graphs
            &&& built(name, ts).index_valid == one_by_one.index_valid
            &&& built(name, ts).disk_index == one_by_one.disk_index
        }),
    decreases ts.len(),
{
    let start = fresh(name, empty_dict(), Set::empty(), Set::empty(), false);
    lemma_empty_ok();
    if ts.len() == 0 {
        assert(built(name, ts).quads =~= Set::<Quad>::empty());
    } else {
        let front = ts.drop_last();
        lemma_all_sizes(empty_dict(), ts, ts.len() - 1);
        assert(ts.take(ts.len() - 1) =~= front);
        law_build_is_insertion(name, front);
        assert(default_inserts(ts).drop_last() =~= default_inserts(front));
        let mid = changed_by_all(start, default_inserts(front));
        let d0 = encoded_all(empty_dict(), front);
        let t = ts.last();
        let d = encoded(d0, t);
        lemma_encoded_all(empty_dict(), front);
        lemma_encoded_all(empty_dict(), ts);
        lemma_encoded(d0, t);
        let q: Quad = (None::<u32>, id_of(d, t));
        let a = default_quads(d, ts);
        let b = default_quads(d0, front).insert(q);
        assert forall|x: Quad| #[trigger] a.contains(x) <==> b.contains(x) by {
            if a.contains(x) {
                let k = choose|k: int| 0 <= k < ts.len() && x.1 == id_of(d, #[trigger] ts[k]);
                if k < front.len() {
                    assert(front[k] == ts[k]);
                    assert(known(d0, front[k]));
                    assert(id_of(d0, front[k]) == id_of(d, ts[k]));
                } else {
                    assert(x == q);
                }
            }
            if default_quads(d0, front).contains(x) {
                let k = choose|k: int| 0 <= k < front.len() && x.1 == id_of(d0, #[trigger] front[k]);
                assert(known(d0, front[k]));
                assert(ts[k] == front[k]);
                assert(id_of(d0, front[k]) == id_of(d, ts[k]));
            }
            if x == q {
                assert(ts[ts.len() - 1] == t);
            }
        }
        assert(a =~= b);
        let end = inserted(mid, t, None);
        if !insert_changes(mid, t, None) {
            assert(mid.quads.insert(q) =~= mid.quads);
        }
        assert(end.quads =~= a);
    }
}

/// The ids of the first `n` triples.
spec fn ids_upto(d: DictSpec, ts: Seq<Triple>, n: int) -> Set<IdTriple> {
    Set::new(|x: IdTriple| exists|k: int| 0 <= k < n && x == id_of(d, #[trigger] ts[k]))
}

proof fn lemma_ids_step(d0: DictSpec, d: DictSpec, ts: Seq<Triple>, n: int)
    requires
        0 <= n < ts.len(),
        dict_extends(d0, d),
        forall|k: int| 0 <= k < n ==> known(d0, #[trigger] ts[k]),
    ensures
        ids_upto(d, ts, n + 1) == ids_upto(d0, ts, n).insert(id_of(d, ts[n])),
{
    let a = ids_upto(d, ts, n + 1);
    let b = ids_upto(d0, ts, n).insert(id_of(d, ts[n]));
    assert forall|x: IdTriple| #[trigger] a.contains(x) <==> b.contains(x) by {
        if a.contains(x) {
            let k = choose|k: int| 0 <= k < n + 1 && x == id_of(d, #[trigger] ts[k]);
            if k < n {
                assert(known(d0, ts[k]));
                assert(x == id_of(d0, ts[k]));
            }
        }
        if ids_upto(d0, ts, n).contains(x) {
            let k = choose|k: int| 0 <= k < n && x == id_of(d0, #[trigger] ts[k]);
            assert(known(d0, ts[k]));
            assert(x == id_of(d, ts[k]));
        }
    }
    assert(a =~= b);
}

proof fn lemma_to_set_push(s: Seq<IdTriple>, x: IdTriple)
    ensures
        s.push(x).to_set() == s.to_set().insert(x),
{
    assert forall|y: IdTriple| #[trigger] s.push(x).to_set().contains(y) <==> s.to_set().insert(x).contains(y) by {
        if s.push(x).contains(y) {
            let k = choose|k: int| 0 <= k < s.push(x).len() && s.push(x)[k] == y;
            if k < s.len() {
                assert(s[k] == y);
            }
        }
        if s.contains(y) {
            let k = choose|k: int| 0 <= k < s.len() && s[k] == y;
            assert(s.push(x)[k] == y);
        }
        assert(s.push(x)[s.len() as int] == x);
    }
    assert(s.push(x).to_set() =~= s.to_set().insert(x));
}

impl Database {
    /// Intern some triples and collect their ids.
    fn encode_all(&mut self, triples: &Vec<Triple>, ids: &mut Vec<IdTriple>)
        requires
            old(self).wf(),
            dict_fits(encoded_all(old(self)@.dict, triples@)),
        ensures
            final(self).wf(),
            final(self)@ == (DbSpec { dict: encoded_all(old(self)@.dict, triples@), ..old(self)@ }),
            final(self).store@ == old(self).store@,
            final(self).named@ == old(self).named@,
            final(ids)@.len() == old(ids)@.len() + triples@.len(),
            forall|k: int| 0 <= k < old(ids)@.len() ==> #[trigger] final(ids)@[k] == old(ids)@[k],
            forall|k: int| 0 <= k < triples@.len() ==> final(ids)@[old(ids)@.len() + k] == id_of(final(self)@.dict, #[trigger] triples@[k]),
    {
        let ghost before = self@;
        let ghost n0 = ids@.len() as int;
        let mut i: usize = 0;
        proof {
            self.lemma_finite();
            assert(triples@.take(0) =~= Seq::<Triple>::empty());
        }
        while i < triples.len()
            invariant
                i <= triples.len(),
                self.wf(),
                before == old(self)@,
                n0 == old(ids)@.len(),
                self@ == (DbSpec { dict: encoded_all(before.dict, triples@.take(i as int)), ..before }),
                self.store@ == old(self).store@,
                self.named@ == old(self).named@,
                ids@.len() == n0 + i,
                dict_ok(before.dict),
                dict_fits(encoded_all(before.dict, triples@)),
                forall|k: int| 0 <= k < n0 ==> #[trigger] ids@[k] == old(ids)@[k],
                forall|k: int| 0 <= k < i ==> known(self@.dict, #[trigger] triples@[k]) && ids@[n0 + k] == id_of(self@.dict, triples@[k]),
            decreases triples.len() - i,
        {
            let ghost d0 = self@.dict;
            let ghost ids0 = ids@;
            proof {
                lemma_all_sizes(before.dict, triples@, i as int);
                lemma_all_sizes(before.dict, triples@, i + 1);
                lemma_encoded_all(before.dict, triples@.take(i as int));
                assert(triples@.take(i + 1).drop_last() =~= triples@.take(i as int));
                lemma_encoded(d0, triples@[i as int]);
            }
            let id: IdTriple = self.encode_triple(&triples[i]);
            ids.push(id);
            proof {
                assert forall|k: int| 0 <= k < i + 1 implies known(self@.dict, #[trigger] triples@[k]) && ids@[n0 + k] == id_of(self@.dict, triples@[k]) by {
                    if k < i {
                        assert(known(d0, triples@[k]));
                        assert(ids@[n0 + k] == ids0[n0 + k]);
                    }
                }
            }
            i = i + 1;
        }
        assert(triples@.take(triples@.len() as int) =~= triples@);
    }

    /// Build a database from triples.
    fn build(name: &str, triples: &Vec<Triple>) -> (r: Database)
        requires
            build_fits(triples@),
        ensures
            r.wf(),
            r@ == built(name@, triples@),
    {
        let mut db: Database = Database::new(name);
        let ghost d0 = db@.dict;
        let mut ids: Vec<IdTriple> = Vec::new();
        db.encode_all(triples, &mut ids);
        db.store = TripleStore::from_triples(&ids);
        proof {
            let d = db@.dict;
            assert(d0 =~= empty_dict());
            assert(db.named@.len() == 0);
            assert forall|q: Quad| #[trigger] db@.quads.contains(q) <==> default_quads(d, triples@).contains(q) by {
                if db@.quads.contains(q) && q.0 is None {
                    assert(ids@.contains(q.1));
                    let k = choose|k: int| 0 <= k < ids@.len() && ids@[k] == q.1;
                    assert(ids@[0 + k] == id_of(d, triples@[k]));
                }
                if default_quads(d, triples@).contains(q) {
                    let k = choose|k: int| 0 <= k < triples@.len() && q.1 == id_of(d, #[trigger] triples@[k]);
                    assert(ids@[0 + k] == q.1);
                    assert(ids@.contains(q.1));
                }
            }
            assert(db@.quads =~= default_quads(d, triples@));
            assert(db@.graphs =~= Set::<u32>::empty());
            assert(db@ =~= built(name@, triples@));
        }
        db
    }

    /// Whether the terms of some triples find ids in a new database.
    pub fn build_has_room(triples: &Vec<Triple>) -> (b: bool)
        ensures
            b == build_fits(triples@),
    {
        let mut db: Database = Database::new("");
        let mut i: usize = 0;
        proof {
            lemma_empty_ok();
            assert(triples@.take(0) =~= Seq::<Triple>::empty());
            assert(db@.dict =~= empty_dict());
        }
        while i < triples.len()
            invariant
                i <= triples@.len(),
                db.wf(),
                dict_ok(empty_dict()),
                db@.dict == encoded_all(empty_dict(), triples@.take(i as int)),
                dict_fits(db@.dict),
            decreases triples.len() - i,
        {
            proof {
                assert(triples@.take(i + 1).drop_last() =~= triples@.take(i as int));
                lemma_all_sizes(empty_dict(), triples@, i + 1);
            }
            if !db.fits(&triples[i], None) {
                return false;
            }
            db.encode_triple(&triples[i]);
            i = i + 1;
        }
        assert(triples@.take(triples@.len() as int) =~= triples@);
        true
    }

    /// Build a database from a parsed document.
    pub fn build_from_str(name: &str, parsed: Result<Vec<Triple>>) -> (r: Result<Database>)
        requires
            parsed matches Ok(ts) ==> build_fits(ts@),
        ensures
            builds(name@, parsed, r),
    {
        match parsed {
            Err(e) => Err(e),
            Ok(ts) => Ok(Database::build(name, &ts)),
        }
    }

    /// As [`Self::build_from_str`], for a document that is parsed on the way; each stage
    /// is reported when it begins. Gives the stages too.
    pub fn build_from_str_with_progress<P, F>(name: &str, parse: P, progress: F) -> (r: (Result<Database>, Vec<BuildProgress>)) where
        P: FnOnce() -> Result<Vec<Triple>>,
        F: FnMut(BuildProgress),

        requires
            call_requires(parse, ()),
            forall|ts: Vec<Triple>| #[trigger] call_ensures(parse, (), Ok::<Vec<Triple>, GStoreError>(ts)) ==> build_fits(ts@),
            forall|f: F, s: BuildProgress| #[trigger] call_requires(f, (s,)),
        ensures
            exists|parsed: Result<Vec<Triple>>| #[trigger] call_ensures(parse, (), parsed) && match parsed {
                Ok(ts) => (r.0 matches Ok(db) && db.wf() && db@ == built(name@, ts@)) && r.1@ == seq![BuildProgress::RdfParse, BuildProgress::Dictionary, BuildProgress::Index, BuildProgress::Done],
                Err(e) => r.0 == Err::<Database, GStoreError>(e) && r.1@ == seq![BuildProgress::RdfParse],
            },
    {
        let mut progress: F = progress;
        let mut stages: Vec<BuildProgress> = Vec::new();
        progress(BuildProgress::RdfParse);
        stages.push(BuildProgress::RdfParse);
        let parsed: Result<Vec<Triple>> = parse();
        match parsed {
            Err(e) => {
                assert(stages@ =~= seq![BuildProgress::RdfParse]);
                (Err(e), stages)
            },
            Ok(ts) => {
                progress(BuildProgress::Dictionary);
                stages.push(BuildProgress::Dictionary);
                let db: Database = Database::build(name, &ts);
                progress(BuildProgress::Index);
                stages.push(BuildProgress::Index);
                progress(BuildProgress::Done);
                stages.push(BuildProgress::Done);
                assert(stages@ =~= seq![BuildProgress::RdfParse, BuildProgress::Dictionary, BuildProgress::Index, BuildProgress::Done]);
                (Ok(db), stages)
            },
        }
    }

    /// Build a database from parsed files, up to the first that does not parse.
    pub fn build_from_files(name: &str, files: Vec<Result<Vec<Triple>>>) -> (r: Result<Database>)
        requires
            build_fits(all_triples(files@)),
        ensures
            match first_error(files@) {
                None => r matches Ok(db) && db.wf() && db@ == built(name@, all_triples(files@)),
                Some(k) => files@[k] is Err && r == Err::<Database, GStoreError>(files@[k]->Err_0),
            },
    {
        let mut triples: Vec<Triple> = Vec::new();
        let ghost all = files@;
        assert(all.take(0) =~= Seq::<Result<Vec<Triple>>>::empty());
        for f in it: files
            invariant
                it.seq() == all,
                triples@ == all_triples(all.take(it.index() as int)),
                first_error(all.take(it.index() as int)) is None,
        {
            let ghost k = it.index() as int;
            proof {
                assert(f == all[k]);
                assert(all.take(k + 1).drop_last() =~= all.take(k));
            }
            match f {
                Err(e) => {
                    proof {
                        lemma_first_error(all, k + 1);
                    }
                    return Err(e);
                },
                Ok(ts) => {
                    let mut more: Vec<Triple> = ts;
                    triples.append(&mut more);
                },
            }
        }
        assert(all.take(all.len() as int) =~= all);
        Ok(Database::build(name, &triples))
    }

    /// Build a database from chunks that were parsed side by side, in the order of the
    /// document: the first error wins.
    pub fn build_from_ntriples_str_parallel(name: &str, chunks: Vec<Result<Vec<Triple>>>) -> (r: Result<Database>)
        requires
            build_fits(all_triples(chunks@)),
        ensures
            match first_error(chunks@) {
                None => r matches Ok(db) && db.wf() && db@ == built(name@, all_triples(chunks@)),
                Some(k) => chunks@[k] is Err && r == Err::<Database, GStoreError>(chunks@[k]->Err_0),
            },
    {
        Database::build_from_files(name, chunks)
    }

    /// Build a database for a key-value store: the description is saved beside the
    /// dictionary, and the triples go to the store.
    pub fn build_rocksdb_from_str(name: &str, parsed: Result<Vec<Triple>>) -> (r: Result<(Database, Meta)>)
        requires
            parsed matches Ok(ts) ==> build_fits(ts@),
        ensures
            match parsed {
                Ok(ts) => r matches Ok((db, m)) && db.wf() && db@ == built(name@, ts@) && describes(m, db),
                Err(e) => r == Err::<(Database, Meta), GStoreError>(e),
            },
    {
        match Database::build_from_str(name, parsed) {
            Ok(db) => {
                let m: Meta = db.meta();
                Ok((db, m))
            },
            Err(e) => Err(e),
        }
    }

    /// Build a database in batches, so that at most `batch` ids wait at a time.
    pub fn build_from_ntriples_batched(name: &str, parsed: Result<Vec<Triple>>, batch: usize) -> (r: Result<Database>)
        requires
            parsed matches Ok(ts) ==> build_fits(ts@),
        ensures
            builds(name@, parsed, r),
    {
        let triples: Vec<Triple> = match parsed {
            Err(e) => {
                return Err(e);
            },
            Ok(ts) => ts,
        };
        let mut b: BatchBuild = BatchBuild::new(name, batch);
        let mut i: usize = 0;
        assert(triples@.take(0) =~= Seq::<Triple>::empty());
        while i < triples.len()
            invariant
                i <= triples.len(),
                b.wf(),
                b.name() == name@,
                b.pushed() == triples@.take(i as int),
                build_fits(triples@),
            decreases triples.len() - i,
        {
            proof {
                lemma_empty_ok();
                lemma_all_sizes(empty_dict(), triples@, i + 1);
                assert(triples@.take(i + 1) =~= triples@.take(i as int).push(triples@[i as int]));
            }
            b.push(&triples[i]);
            i = i + 1;
        }
        assert(triples@.take(triples@.len() as int) =~= triples@);
        Ok(b.finish())
    }

    /// Add ids to the default graph, with the search index made anew afterwards.
    fn load_ids(&mut self, ids: &Vec<IdTriple>)
        requires
            old(self).wf(),
            old(self)@.txn is None,
        ensures
            final(self).wf(),
            final(self).named@ == old(self).named@,
            final(self).store@ == old(self).store@.union(ids@.to_set()),
            final(self)@ == (DbSpec { quads: final(self)@.quads, ..old(self)@ }),
    {
        let mut i: usize = 0;
        while i < ids.len()
            invariant
                i <= ids@.len(),
                self.wf(),
                old(self)@.txn is None,
                self.named@ == old(self).named@,
                forall|x: IdTriple| #[trigger] self.store@.contains(x) <==> old(self).store@.contains(x) || ids@.take(i as int).contains(x),
                self@ == (DbSpec { quads: self@.quads, ..old(self)@ }),
            decreases ids.len() - i,
        {
            let ghost s0 = self.store@;
            self.store.insert(ids[i]);
            proof {
                assert(ids@.take(i + 1) =~= ids@.take(i as int).push(ids@[i as int]));
                assert forall|x: IdTriple| #[trigger] self.store@.contains(x) <==> old(self).store@.contains(x) || ids@.take(i + 1).contains(x) by {
                    let a = ids@.take(i as int);
                    let b = ids@.take(i + 1);
                    if a.contains(x) {
                        let k = choose|k: int| 0 <= k < a.len() && a[k] == x;
                        assert(b[k] == x);
                    }
                    if b.contains(x) {
                        let k = choose|k: int| 0 <= k < b.len() && b[k] == x;
                        if k < i {
                            assert(a[k] == x);
                        }
                    }
                    assert(b[i as int] == ids@[i as int]);
                    assert(s0.contains(x) <==> old(self).store@.contains(x) || a.contains(x));
                }
                assert(self@ =~= (DbSpec { quads: self@.quads, ..old(self)@ }));
            }
            i = i + 1;
        }
        assert(ids@.take(ids@.len() as int) =~= ids@);
        assert(self.store@ =~= old(self).store@.union(ids@.to_set()));
    }

    /// Open a saved database from its parts: the counts in its description have to
    /// match. The named graphs are the ones that were saved.
    pub fn load(meta: Meta, dict: Dictionary, store: TripleStore, named: Vec<NamedGraph>) -> (r: Result<Database>)
        requires
            dict.wf(),
            store.wf(),
            graphs_wf(named@),
        ensures
            match meta_mismatch(meta, dict@, store@) {
                Some(m) => r matches Err(e) && is_database_error(e, m),
                None => r matches Ok(db) && db.wf() && db@ == fresh(meta.name@, dict@, quads_of(store@, named@), graph_ids(named@), false),
            },
    {
        let triples: u64 = store.triple_count();
        if triples != meta.triple_num {
            return Err(mismatch_error(meta.triple_num, " triples but store has ", triples));
        }
        let entities: u64 = dict.entity_num() as u64;
        if entities != meta.entity_num {
            return Err(mismatch_error(meta.entity_num, " entities but dict has ", entities));
        }
        let literals: u64 = dict.literal_num() as u64;
        if literals != meta.literal_num {
            return Err(mismatch_error(meta.literal_num, " literals but dict has ", literals));
        }
        let predicates: u64 = dict.predicate_num() as u64;
        if predicates != meta.predicate_num {
            return Err(mismatch_error(meta.predicate_num, " predicates but dict has ", predicates));
        }
        Ok(Database::assemble(meta.name, dict, store, named, false))
    }

    /// Open a database whose triples are in a store of their own: the number of
    /// triples has to match the description.
    pub fn open_rocksdb(meta: Meta, dict: Dictionary, store: TripleStore) -> (r: Result<Database>)
        requires
            dict.wf(),
            store.wf(),
        ensures
            if store@.len() != meta.triple_num {
                r matches Err(e) && is_database_error(e, mismatch(meta.triple_num as nat, " triples but RocksDB has "@, store@.len()))
            } else {
                r matches Ok(db) && db.wf() && db@ == fresh(meta.name@, dict@, quads_of(store@, Seq::empty()), Set::empty(), false)
            },
    {
        let triples: u64 = store.triple_count();
        if triples != meta.triple_num {
            return Err(mismatch_error(meta.triple_num, " triples but RocksDB has ", triples));
        }
        Ok(Database::assemble(meta.name, dict, store, Vec::new(), false))
    }

    /// Open a database that was read from the page store of a directory with the
    /// given name. Its search index stays on disk.
    pub fn load_disk(dir_name: Option<&str>, dict: Dictionary, store: TripleStore) -> (r: Database)
        requires
            dict.wf(),
            store.wf(),
        ensures
            r.wf(),
            r@ == fresh(
                (match dir_name {
                    Some(n) => crate::without_suffixes(n@),
                    None => "disk"@,
                }),
                dict@,
                quads_of(store@, Seq::empty()),
                Set::empty(),
                true,
            ),
    {
        let name: String = match dir_name {
            Some(n) => crate::trim_db_suffix(n),
            None => "disk".to_owned(),
        };
        Database::assemble(name, dict, store, Vec::new(), true)
    }

    fn assemble(name: String, dict: Dictionary, store: TripleStore, named: Vec<NamedGraph>, disk_index: bool) -> (r: Database)
        requires
            dict.wf(),
            store.wf(),
            graphs_wf(named@),
        ensures
            r.wf(),
            r@ == fresh(name@, dict@, quads_of(store@, named@), graph_ids(named@), disk_index),
            named@.len() == 0 ==> graph_ids(named@) == Set::<u32>::empty(),
    {
        let r = Database {
            name,
            dict,
            store,
            named,
            index_valid: true,
            disk_index,
            txn: None,
            query_cache: LruCache::new(DEFAULT_QUERY_CACHE_CAP),
            update_log: None,
            update_out: Vec::new(),
            redo_log: None,
            redo_pending: Vec::new(),
            redo_out: Vec::new(),
            rules: Vec::new(),
            functions: Vec::new(),
            base: Ghost(Set::empty()),
        };
        proof {
            assert(r@.redo_pending =~= Seq::<RedoSpec>::empty());
            assert(r@.rules =~= Seq::empty());
            assert(r@.functions =~= Seq::empty());
            if r.named@.len() == 0 {
                assert(graph_ids(r.named@) =~= Set::<u32>::empty());
            }
            assert(r@ =~= fresh(r.name@, r.dict@, quads_of(r.store@, r.named@), graph_ids(r.named@), disk_index));
        }
        r
    }

    /// What a saved database says of itself.
    pub fn meta(&self) -> (m: Meta)
        requires
            self.wf(),
        ensures
            describes(m, *self),
    {
        Meta {
            name: self.name.clone(),
            triple_num: self.store.triple_count(),
            entity_num: self.dict.entity_num() as u64,
            literal_num: self.dict.literal_num() as u64,
            predicate_num: self.dict.predicate_num() as u64,
        }
    }

    /// The graphs of a database make up its quads.
    pub proof fn lemma_graphs(&self)
        requires
            self.wf(),
        ensures
            self@.quads == quads_of(self.default_graph(), self.graphs()),
            self@.graphs == graph_ids(self.graphs()),
            self@.graphs.finite(),
            self@.graphs.len() == self.graphs().len(),
            graphs_wf(self.graphs()),
            self.default_graph().finite(),
    {
        self.store.lemma_finite();
        lemma_graph_count(self.named@);
    }
}

/// There are as many ids as graphs.
pub proof fn lemma_graph_count(named: Seq<NamedGraph>)
    requires
        graphs_wf(named),
    ensures
        graph_ids(named).finite(),
        graph_ids(named).len() == named.len(),
{
    let ids = named.map_values(|g: NamedGraph| g.id);
    assert forall|i: int, j: int| 0 <= i < ids.len() && 0 <= j < ids.len() && i != j implies ids[i] != ids[j] by {
        if i < j {
            assert(named[i].id < named[j].id);
        } else {
            assert(named[j].id < named[i].id);
        }
    }
    assert forall|g: u32| #[trigger] graph_ids(named).contains(g) <==> ids.to_set().contains(g) by {
        if graph_ids(named).contains(g) {
            let k = choose|k: int| 0 <= k < named.len() && (#[trigger] named[k]).id == g;
            assert(ids[k] == g);
        }
        if ids.to_set().contains(g) {
            let k = choose|k: int| 0 <= k < ids.len() && ids[k] == g;
            assert(named[k].id == g);
        }
    }
    assert(graph_ids(named) =~= ids.to_set());
    ids.unique_seq_to_set();
    vstd::seq_lib::seq_to_set_is_finite(ids);
}

/// A build that takes one triple after the other. No more ids wait for their place in
/// the store than the size of a batch.
pub struct BatchBuild {
    db: Database,
    buf: Vec<IdTriple>,
    size: usize,
    taken: Ghost<Seq<Triple>>,
}

impl BatchBuild {
    /// The name of the database.
    pub closed spec fn name(&self) -> Seq<char> {
        self.db@.name
    }

    /// The triples that were pushed.
    pub closed spec fn pushed(&self) -> Seq<Triple> {
        self.taken@
    }

    /// How many ids wait.
    pub closed spec fn waiting(&self) -> nat {
        self.buf@.len()
    }

    /// How many ids may wait.
    pub closed spec fn limit(&self) -> nat {
        self.size as nat
    }

    pub closed spec fn wf(&self) -> bool {
        let ts = self.taken@;
        &&& self.db.wf()
        &&& self.db.named@.len() == 0
        &&& 0 < self.size
        &&& self.buf@.len() < self.size
        &&& dict_fits(self.db@.dict)
        &&& forall|k: int| 0 <= k < ts.len() ==> known(self.db@.dict, #[trigger] ts[k])
        &&& self.db@ == (DbSpec { quads: self.db@.quads, ..fresh(self.db@.name, encoded_all(empty_dict(), ts), Set::empty(), Set::empty(), false) })
        &&& self.db.store@.union(self.buf@.to_set()) == ids_upto(self.db@.dict, ts, ts.len() as int)
    }

    /// A build with nothing pushed yet. A batch of zero counts as one.
    pub fn new(name: &str, batch: usize) -> (r: BatchBuild)
        ensures
            r.wf(),
            r.name() == name@,
            r.pushed() == Seq::<Triple>::empty(),
            r.limit() == (if batch == 0 { 1 } else { batch as nat }),
            r.waiting() < r.limit(),
    {
        let r = BatchBuild { db: Database::new(name), buf: Vec::new(), size: if batch == 0 { 1 } else { batch }, taken: Ghost(Seq::empty()) };
        proof {
            assert(r.db.store@.union(r.buf@.to_set()) =~= ids_upto(r.db@.dict, r.taken@, 0));
            assert(r.db@ =~= fresh(name@, encoded_all(empty_dict(), r.taken@), Set::empty(), Set::empty(), false));
        }
        r
    }

    /// Whether the terms of one more triple find ids.
    pub fn fits(&self, t: &Triple) -> (b: bool)
        requires
            self.wf(),
        ensures
            b == build_fits(self.pushed().push(*t)),
    {
        proof {
            assert(self.taken@.push(*t).drop_last() =~= self.taken@);
        }
        self.db.fits(t, None)
    }

    /// Take one more triple.
    pub fn push(&mut self, t: &Triple)
        requires
            old(self).wf(),
            build_fits(old(self).pushed().push(*t)),
        ensures
            final(self).wf(),
            final(self).name() == old(self).name(),
            final(self).pushed() == old(self).pushed().push(*t),
            final(self).limit() == old(self).limit(),
            final(self).waiting() < final(self).limit(),
    {
        let ghost ts0 = self.taken@;
        let ghost ts = ts0.push(*t);
        let ghost d0 = self.db@.dict;
        let ghost st0 = self.db.store@;
        let ghost buf0 = self.buf@;
        proof {
            lemma_empty_ok();
            assert(ts.drop_last() =~= ts0);
            lemma_encoded_all(empty_dict(), ts);
            lemma_encoded_all(empty_dict(), ts0);
            lemma_encoded(d0, *t);
        }
        let id: IdTriple = self.db.encode_triple(t);
        self.buf.push(id);
        self.taken = Ghost(ts);
        proof {
            assert forall|k: int| 0 <= k < ts.len() - 1 implies known(d0, #[trigger] ts[k]) by {
                assert(ts0[k] == ts[k]);
            }
            assert(ids_upto(d0, ts, ts.len() - 1) =~= ids_upto(d0, ts0, ts0.len() as int)) by {
                assert forall|x: IdTriple| #[trigger] ids_upto(d0, ts, ts.len() - 1).contains(x) <==> ids_upto(d0, ts0, ts0.len() as int).contains(x) by {
                    if ids_upto(d0, ts, ts.len() - 1).contains(x) {
                        let k = choose|k: int| 0 <= k < ts.len() - 1 && x == id_of(d0, #[trigger] ts[k]);
                        assert(ts0[k] == ts[k]);
                    }
                    if ids_upto(d0, ts0, ts0.len() as int).contains(x) {
                        let k = choose|k: int| 0 <= k < ts0.len() && x == id_of(d0, #[trigger] ts0[k]);
                        assert(ts[k] == ts0[k]);
                    }
                }
            }
            lemma_ids_step(d0, self.db@.dict, ts, ts.len() - 1);
            lemma_to_set_push(buf0, id);
            assert(self.db.store@.union(self.buf@.to_set()) =~= st0.union(buf0.to_set()).insert(id));
        }
        if self.buf.len() >= self.size {
            self.db.load_ids(&self.buf);
            self.buf = Vec::new();
            assert(self.db.store@.union(self.buf@.to_set()) =~= ids_upto(self.db@.dict, ts, ts.len() as int));
        }
    }

    /// The database of all triples that were pushed.
    pub fn finish(self) -> (db: Database)
        requires
            self.wf(),
        ensures
            db.wf(),
            db@ == built(self.name(), self.pushed()),
    {
        let ghost ts = self.taken@;
        let ghost name = self.db@.name;
        let buf: Vec<IdTriple> = self.buf;
        let mut db: Database = self.db;
        db.load_ids(&buf);
        proof {
            let d = db@.dict;
            assert forall|q: Quad| #[trigger] db@.quads.contains(q) <==> default_quads(d, ts).contains(q) by {
                if q.0 is None {
                    assert(db@.quads.contains(q) <==> db.store@.contains(q.1));
                    assert(db.store@ =~= ids_upto(d, ts, ts.len() as int));
                    assert(db.store@.contains(q.1) <==> ids_upto(d, ts, ts.len() as int).contains(q.1));
                }
            }
            assert(db@.quads =~= default_quads(d, ts));
            assert(db@ =~= built(name, ts));
        }
        db
    }
}

/// A database is built from a document, or the document did not parse.
pub open spec fn builds(name: Seq<char>, parsed: Result<Vec<Triple>>, r: Result<Database>) -> bool {
    match parsed {
        Ok(ts) => r matches Ok(db) && db.wf() && db@ == built(name, ts@),
        Err(e) => r == Err::<Database, GStoreError>(e),
    }
}

/// The description of a database holds its name and its counts.
pub open spec fn describes(m: Meta, db: Database) -> bool {
    &&& m.name@ == db@.name
    &&& m.triple_num == db.default_graph().len()
    &&& m.entity_num == db@.dict.entities.dom().len()
    &&& m.literal_num == db@.dict.literals.dom().len()
    &&& m.predicate_num == db@.dict.predicates.dom().len()
}

/// Saving a database and opening it again gives its name, its graphs, the strings of its
/// ids and its counts: the description that goes with them matches. The search index is
/// valid, no transaction is open, no result is kept, and both logs are off.
pub proof fn law_saved_is_opened(db: Database, meta: Meta, opened: Database)
    requires
        db.wf(),
        describes(meta, db),
        opened.wf(),
        opened@ == fresh(meta.name@, db@.dict, quads_of(db.default_graph(), db.graphs()), graph_ids(db.graphs()), false),
    ensures
        meta_mismatch(meta, db@.dict, db.default_graph()) is None,
        opened@.name == db@.name,
        opened@.dict == db@.dict,
        opened@.quads == db@.quads,
        opened@.graphs == db@.graphs,
        opened.default_graph() == db.default_graph(),
        describes(meta, opened),
        forall|id: u32| #[trigger] name_of(opened@.dict, id) == name_of(db@.dict, id),
        forall|id: u32| #[trigger] predicate_name(opened@.dict, id) == predicate_name(db@.dict, id),
        opened@.index_valid,
        opened@.txn is None,
        opened@.cache.len() == 0,
        opened@.update_log is None,
        opened@.redo_log is None,
{
    db.lemma_graphs();
    opened.lemma_graphs();
    assert forall|t: IdTriple| #[trigger] opened.default_graph().contains(t) <==> db.default_graph().contains(t) by {
        let q: Quad = (None, t);
        assert(opened@.quads.contains(q) <==> opened.default_graph().contains(t));
        assert(db@.quads.contains(q) <==> db.default_graph().contains(t));
    }
    assert(opened.default_graph() =~= db.default_graph());
}

/// The message of two counts that differ.
pub open spec fn mismatch(said: nat, what: Seq<char>, found: nat) -> Seq<char> {
    "corrupt database: meta says "@ + decimal(said) + what + decimal(found)
}

fn mismatch_error(said: u64, what: &str, found: u64) -> (e: GStoreError)
    ensures
        is_database_error(e, mismatch(said as nat, what@, found as nat)),
{
    let mut m: String = join2("corrupt database: meta says ", decimal_of(said).as_str());
    m.append(what);
    m.append(decimal_of(found).as_str());
    GStoreError::Database(m)
}

/// What is wrong with the counts in the description of a database, checked in
/// the order triples, entities, literals, predicates.
pub open spec fn meta_mismatch(meta: Meta, d: DictSpec, store: Set<IdTriple>) -> Option<Seq<char>> {
    if store.len() != meta.triple_num {
        Some(mismatch(meta.triple_num as nat, " triples but store has "@, store.len()))
    } else if d.entities.dom().len() != meta.entity_num {
        Some(mismatch(meta.entity_num as nat, " entities but dict has "@, d.entities.dom().len()))
    } else if d.literals.dom().len() != meta.literal_num {
        Some(mismatch(meta.literal_num as nat, " literals but dict has "@, d.literals.dom().len()))
    } else if d.predicates.dom().len() != meta.predicate_num {
        Some(mismatch(meta.predicate_num as nat, " predicates but dict has "@, d.predicates.dom().len()))
    } else {
        None
    }
}

/// The triples of the files that parse, in order.
pub open spec fn all_triples(files: Seq<Result<Vec<Triple>>>) -> Seq<Triple>
    decreases files.len(),
{
    if files.len() == 0 {
        Seq::empty()
    } else {
        all_triples(files.drop_last()) + match files.last() {
            Ok(ts) => ts@,
            Err(e) => Seq::empty(),
        }
    }
}

/// The first file that does not parse.
pub open spec fn first_error(files: Seq<Result<Vec<Triple>>>) -> Option<int>
    decreases files.len(),
{
    if files.len() == 0 {
        None
    } else {
        match first_error(files.drop_last()) {
            Some(k) => Some(k),
            None => if files.last() is Err {
                Some(files.len() - 1)
            } else {
                None
            },
        }
    }
}

proof fn lemma_first_error(files: Seq<Result<Vec<Triple>>>, n: int)
    requires
        0 <= n <= files.len(),
    ensures
        first_error(files.take(n)) matches Some(k) ==> first_error(files) == Some(k),
    decreases files.len(),
{
    if n < files.len() {
        assert(files.drop_last().take(n) =~= files.take(n));
        lemma_first_error(files.drop_last(), n);
    } else {
        assert(files.take(n) =~= files);
    }
}

/// A database is opened just if each of the four counts in its description is that of what was
/// read.
pub proof fn law_counts_must_match(meta: Meta, d: DictSpec, store: Set<IdTriple>)
    ensures
        meta_mismatch(meta, d, store) is None <==> {
            &&& meta.triple_num == store.len()
            &&& meta.entity_num == d.entities.dom().len()
            &&& meta.literal_num == d.literals.dom().len()
            &&& meta.predicate_num == d.predicates.dom().len()
        },
        meta_mismatch(meta, d, store) matches Some(m) ==> "corrupt database: meta says "@.is_prefix_of(m),
{
    let start = "corrupt database: meta says "@;
    match meta_mismatch(meta, d, store) {
        Some(m) => {
            assert(start =~= m.subrange(0, start.len() as int));
        },
        None => {},
    }
}

/// The quads of a database are the triples of its default graph, without a graph, and those of
/// each named graph, with the id of the graph.
pub proof fn law_quads_are_of_the_graphs(default: Set<IdTriple>, named: Seq<NamedGraph>, k: int, t: IdTriple)
    requires
        graphs_wf(named),
        0 <= k < named.len(),
    ensures
        quads_of(default, named).contains((None, t)) <==> default.contains(t),
        quads_of(default, named).contains((Some(named[k].id), t)) <==> named[k].store@.contains(t),
        graph_ids(named).contains(named[k].id),
        forall|g: u32| !graph_ids(named).contains(g) ==> !#[trigger] quads_of(default, named).contains((Some(g), t)),
{
    let g = named[k].id;
    if quads_of(default, named).contains((Some(g), t)) {
        let j = choose|j: int| 0 <= j < named.len() && (#[trigger] named[j]).id == g && named[j].store@.contains(t);
        if j < k {
            assert(named[j].id < named[k].id);
        } else if k < j {
            assert(named[k].id < named[j].id);
        }
    }
}

} // verus!
