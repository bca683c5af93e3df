//! Building a store on disk from any triples, up to one that does not fit. Triples of
//! short terms always fit a store that holds short terms.

use super::disk::{holds_store, ids_of, index_key, is_store, law_store_is_determined, lemma_key3, log_bytes, name_fits, object_refused, pager_for, triple_fits, with_entity, with_fitting_terms, with_item, with_keys, with_name, with_predicate, with_term, with_triple, DiskSpec, DiskStore, ENTITY2ID, ID2ENTITY, ID2LITERAL, ID2PREDICATE, LITERAL2ID, OSP, POS, PREDICATE2ID, SPO, TREES};
use super::disk_memory::{all_fit, built_from, lemma_step, refused_in};
use super::pager::{is_eof, new_pager, replayed};
use super::shape::{lemma_shape_after, lemma_shape_short_fits, shape_ok, shape_short};
use super::small::SHORT;
use super::tree::Tree;
use crate::codec::be32_bytes;
use crate::db::logs::is_database_error;
use crate::error::{GStoreError, Result};
use crate::model::term::term_key;
use crate::model::{IdTriple, Triple, LITERAL_FIRST_ID};
use vstd::prelude::*;
use vstd::utf8::encode_utf8;

verus! {

/// How many triples fit, one after the other, before one does not.
pub open spec fn fit_count(d: DiskSpec, ts: Seq<Triple>) -> nat
    decreases ts.len(),
{
    if ts.len() == 0 {
        0
    } else {
        let front = ts.drop_last();
        let n = fit_count(d, front);
        if n == front.len() && triple_fits(built_from(d, front), ts.last()) {
            ts.len()
        } else {
            n
        }
    }
}

/// How it ends to add triples up to the first that does not fit: with all of them added
/// or not, or with an error.
pub open spec fn attempt(d: DiskSpec, ts: Seq<Triple>) -> Option<bool> {
    let n = fit_count(d, ts) as int;
    let b = built_from(d, ts.take(n));
    if b.left < 0 || refused_in(d, ts.take(n)) {
        None
    } else if n == ts.len() {
        Some(true)
    } else if with_fitting_terms(b, ts[n]).left < 0 {
        None
    } else {
        Some(false)
    }
}

proof fn lemma_fit_count(d: DiskSpec, ts: Seq<Triple>)
    ensures
        fit_count(d, ts) <= ts.len(),
        all_fit(d, ts.take(fit_count(d, ts) as int)),
        fit_count(d, ts) < ts.len() ==> !triple_fits(built_from(d, ts.take(fit_count(d, ts) as int)), ts[fit_count(d, ts) as int]),
        all_fit(d, ts) <==> fit_count(d, ts) == ts.len(),
    decreases ts.len(),
{
    if ts.len() == 0 {
        assert(ts.take(0) =~= ts);
    } else {
        let front = ts.drop_last();
        let n = fit_count(d, front);
        lemma_fit_count(d, front);
        assert(front.take(n as int) =~= ts.take(n as int));
        assert(ts.take(ts.len() as int) =~= ts);
        if n == front.len() {
            assert(ts.take(n as int) =~= front);
        }
    }
}

impl DiskStore {
    /// Add triples in order, up to one that does not fit. Gives whether all were added.
    #[verifier::spinoff_prover]
    #[verifier::rlimit(60)]
    pub fn try_insert_all(&mut self, triples: &Vec<Triple>) -> (r: Result<bool>)
        requires
            old(self).wf(),
            old(self)@.triples.len() + triples@.len() <= u64::MAX,
        ensures
            r is Ok <==> attempt(old(self)@, triples@) is Some,
            r matches Ok(b) ==> {
                &&& attempt(old(self)@, triples@) == Some(b)
                &&& b == all_fit(old(self)@, triples@)
                &&& final(self).wf()
                &&& b ==> final(self)@ == built_from(old(self)@, triples@)
            },
    {
        let ghost d0 = self@;
        let ghost ts = triples@;
        let ghost n = fit_count(d0, ts) as int;
        let mut i: usize = 0;
        proof {
            lemma_fit_count(d0, ts);
            assert(ts.take(0) =~= Seq::<Triple>::empty());
            self.lemma_left();
        }
        while i < triples.len()
            invariant
                i <= n <= triples@.len(),
                ts == triples@,
                d0 == old(self)@,
                n == fit_count(d0, ts),
                all_fit(d0, ts.take(n)),
                n < ts.len() ==> !triple_fits(built_from(d0, ts.take(n)), ts[n]),
                all_fit(d0, ts) <==> n == ts.len(),
                self.wf(),
                self@ == built_from(d0, ts.take(i as int)),
                self@.left >= 0,
                !refused_in(d0, ts.take(i as int)),
                d0.triples.len() + ts.len() <= u64::MAX,
                self@.triples.len() <= d0.triples.len() + i,
            decreases triples.len() - i,
        {
            let ghost before = self@;
            proof {
                self.lemma_wf();
                if i < n {
                    let part = ts.take(n);
                    assert(part.take(i as int) =~= ts.take(i as int));
                    assert(part.take(i + 1) =~= ts.take(i + 1));
                    lemma_step(d0, part, i as int, before);
                }
            }
            match self.try_insert_triple(&triples[i]) {
                Ok(Some(_)) => {},
                Ok(None) => {
                    return Ok(false);
                },
                Err(e) => {
                    return Err(e);
                },
            }
            i = i + 1;
        }
        assert(ts.take(i as int) =~= ts);
        Ok(true)
    }

    /// Build a store from the triples of a document, as far as it could be parsed, and
    /// commit it; or give nothing if a triple does not fit.
    pub fn try_build_str(file: &[u8], wal: Option<&[u8]>, cache_pages: usize, parsed: Result<Vec<Triple>>) -> (r: Result<Option<DiskStore>>)
        requires
            pager_for(file@, log_bytes(wal), cache_pages as nat) matches Some(p) ==> {
                &&& p == new_pager(p.capacity, replayed(log_bytes(wal))) || holds_store(p)
                &&& parsed matches Ok(ts) ==> (forall|d: DiskSpec| #[trigger] is_store(p, d) ==> d.triples.len() + ts@.len() <= u64::MAX)
            },
        ensures
            match pager_for(file@, log_bytes(wal), cache_pages as nat) {
                None => r matches Err(e) && (is_eof(e) || is_database_error(e, "not a gStore KV file"@)),
                Some(p) => match parsed {
                    Err(e) => r == Err::<Option<DiskStore>, GStoreError>(e),
                    Ok(ts) => forall|d: DiskSpec| #[trigger] is_store(p, d) ==> {
                        &&& r is Err <==> attempt(d, ts@) is None
                        &&& r matches Ok(s) ==> (s is Some <==> all_fit(d, ts@))
                        &&& r matches Ok(Some(s)) ==> s.wf() && s@ == built_from(d, ts@)
                    },
                },
            },
    {
        let mut store: DiskStore = match DiskStore::open(file, wal, cache_pages) {
            Ok(s) => s,
            Err(e) => {
                return Err(e);
            },
        };
        let triples: Vec<Triple> = match parsed {
            Ok(ts) => ts,
            Err(e) => {
                return Err(e);
            },
        };
        let ghost p = store.pages();
        let ghost d0 = store@;
        proof {
            assert(is_store(p, d0));
            assert forall|d: DiskSpec| #[trigger] is_store(p, d) implies d == d0 by {
                law_store_is_determined(p, d, d0);
            }
        }
        match store.try_insert_all(&triples) {
            Ok(true) => {
                store.flush();
                Ok(Some(store))
            },
            Ok(false) => Ok(None),
            Err(e) => Err(e),
        }
    }
}

/// Triples that all fit are added as by a store that asks for room beforehand.
pub proof fn law_attempt_adds_all(d: DiskSpec, ts: Seq<Triple>)
    requires
        all_fit(d, ts),
    ensures
        attempt(d, ts) == (if built_from(d, ts).left >= 0 && !refused_in(d, ts) {
            Some(true)
        } else {
            None
        }),
{
    lemma_fit_count(d, ts);
    assert(ts.take(ts.len() as int) =~= ts);
}

/// All trees are in order and hold short entries.
pub open spec fn short_trees(trees: Seq<Option<Tree>>) -> bool {
    &&& trees.len() == TREES
    &&& forall|i: int| 0 <= i < TREES ==> shape_ok(#[trigger] trees[i]) && shape_short(trees[i])
}

/// A key that is a short entry together with an id.
pub open spec fn short_key(key: Seq<char>) -> bool {
    encode_utf8(key).len() + 4 <= SHORT
}

/// A triple of terms with short keys.
pub open spec fn short_triple(t: Triple) -> bool {
    short_key(term_key(t.subject@)) && short_key(term_key(t.predicate@)) && short_key(term_key(t.object@))
}

proof fn lemma_item(trees: Seq<Option<Tree>>, slot: int, key: Seq<u8>, val: Seq<u8>)
    requires
        short_trees(trees),
        0 <= slot < TREES,
        key.len() + val.len() <= SHORT,
    ensures
        super::shape::shape_fits(trees[slot], key, val),
        short_trees(with_item(trees, slot, key, val)),
{
    lemma_shape_short_fits(trees[slot], key, val);
    lemma_shape_after(trees[slot], key, val);
}

proof fn lemma_name(trees: Seq<Option<Tree>>, to_id: int, to_key: int, key: Seq<char>, id: u32)
    requires
        short_trees(trees),
        0 <= to_id < TREES,
        0 <= to_key < TREES,
        to_id != to_key,
        short_key(key),
    ensures
        name_fits(trees, to_id, to_key, key, id),
        short_trees(with_name(trees, to_id, to_key, key, id)),
{
    assert(be32_bytes(id).len() == 4);
    lemma_item(trees, to_id, encode_utf8(key), be32_bytes(id));
    let mid = with_item(trees, to_id, encode_utf8(key), be32_bytes(id));
    lemma_item(mid, to_key, be32_bytes(id), encode_utf8(key));
    assert(mid[to_key] == trees[to_key]);
}

proof fn lemma_keys(trees: Seq<Option<Tree>>, t: IdTriple)
    requires
        short_trees(trees),
    ensures
        short_trees(with_keys(trees, t)),
{
    lemma_key3(t.sub, t.pred, t.obj);
    lemma_key3(t.pred, t.obj, t.sub);
    lemma_key3(t.obj, t.sub, t.pred);
    let a = with_item(trees, SPO as int, index_key(SPO as int, t), Seq::empty());
    let b = with_item(a, POS as int, index_key(POS as int, t), Seq::empty());
    lemma_item(trees, SPO as int, index_key(SPO as int, t), Seq::empty());
    lemma_item(a, POS as int, index_key(POS as int, t), Seq::empty());
    lemma_item(b, OSP as int, index_key(OSP as int, t), Seq::empty());
}

/// Room for the ids of `n` triples more.
pub open spec fn ids_left(d: DiskSpec, n: nat) -> bool {
    &&& d.entities.len() + 2 * n <= u32::MAX
    &&& LITERAL_FIRST_ID + d.literals.len() + n <= u32::MAX
    &&& d.predicates.len() + n <= u32::MAX
}

/// A triple of short terms fits a store of short terms, while there are ids left, and
/// the store stays one of short terms.
#[verifier::spinoff_prover]
pub proof fn law_short_triple_fits(d: DiskSpec, t: Triple)
    requires
        short_trees(d.trees),
        short_triple(t),
        ids_left(d, 1),
    ensures
        triple_fits(d, t),
        !object_refused(d, t),
        short_trees(with_triple(d, t).trees),
        with_triple(d, t).entities.len() <= d.entities.len() + 2,
        with_triple(d, t).literals.len() <= d.literals.len() + 1,
        with_triple(d, t).predicates.len() <= d.predicates.len() + 1,
{
    let (ks, kp, ko) = (term_key(t.subject@), term_key(t.predicate@), term_key(t.object@));
    let d1 = with_entity(d, ks);
    let d2 = with_predicate(d1, kp);
    let d3 = with_term(d2, t.object@);
    lemma_name(d.trees, ENTITY2ID as int, ID2ENTITY as int, ks, d.entities.len() as u32);
    assert(short_trees(d1.trees));
    lemma_name(d1.trees, PREDICATE2ID as int, ID2PREDICATE as int, kp, d1.predicates.len() as u32);
    assert(short_trees(d2.trees));
    if t.object@ is Literal {
        lemma_name(d2.trees, LITERAL2ID as int, ID2LITERAL as int, ko, (LITERAL_FIRST_ID + d2.literals.len()) as u32);
    } else {
        lemma_name(d2.trees, ENTITY2ID as int, ID2ENTITY as int, ko, d2.entities.len() as u32);
    }
    assert(short_trees(d3.trees));
    lemma_keys(d3.trees, ids_of(d, t));
}

/// Triples of short terms fit a store of short terms one after the other, while there
/// are ids left.
pub proof fn law_short_triples_fit(d: DiskSpec, ts: Seq<Triple>)
    requires
        short_trees(d.trees),
        forall|i: int| 0 <= i < ts.len() ==> short_triple(#[trigger] ts[i]),
        ids_left(d, ts.len()),
    ensures
        all_fit(d, ts),
        !refused_in(d, ts),
        short_trees(built_from(d, ts).trees),
        built_from(d, ts).entities.len() <= d.entities.len() + 2 * ts.len(),
        built_from(d, ts).literals.len() <= d.literals.len() + ts.len(),
        built_from(d, ts).predicates.len() <= d.predicates.len() + ts.len(),
    decreases ts.len(),
{
    if ts.len() > 0 {
        let front = ts.drop_last();
        assert forall|i: int| 0 <= i < front.len() implies short_triple(#[trigger] front[i]) by {
            assert(front[i] == ts[i]);
        }
        law_short_triples_fit(d, front);
        assert(short_triple(ts[ts.len() - 1]));
        law_short_triple_fits(built_from(d, front), ts.last());
    }
}

} // verus!
