//! Kept query results: they are always those of the graphs as they are.

use super::history::{act_after, act_fits, Act};
use super::info::{reclaimed, used_predicates, used_terms};
use super::lru::{place_of, stored, touched, CacheSpec};
use super::state::{changed_by_all, dict_fits, graph_key, graph_key_of, graph_known, grounded, keys_of, known, lemma_insert_changes, lemma_sizes_grow, law_changes_keep_order, quad_of, takes_effect, Change, DbSpec, Quad};
use super::update::default_inserts;
use crate::dict::{dict_ok, DictSpec};
use crate::model::term::term_key;
use crate::model::Triple;
use crate::query::QueryResult;
use std::sync::Arc;
use vstd::prelude::*;

verus! {

/// A triple in a graph, by its keys.
pub type Fact = ((Seq<char>, Seq<char>, bool, Seq<char>), Option<Seq<char>>);

/// What the graphs hold, by keys.
pub open spec fn facts(d: DictSpec, quads: Set<Quad>) -> Set<Fact> {
    Set::new(|f: Fact| exists|t: Triple, g: Option<Seq<char>>| #[trigger] states(d, quads, t, g) && f == (keys_of(t), graph_key_of(g)))
}

/// The triple is in the graph.
pub open spec fn states(d: DictSpec, quads: Set<Quad>, t: Triple, g: Option<Seq<char>>) -> bool {
    known(d, t) && graph_known(d, g) && quads.contains(quad_of(d, t, g))
}

/// The keys of the named graphs.
pub open spec fn graph_names(d: DictSpec, graphs: Set<u32>) -> Set<Seq<char>> {
    Set::new(|s: Seq<char>| d.entities.contains_key(s) && graphs.contains(d.entities[s]))
}

/// What queries give: a result for each text, by what the graphs hold and how they are
/// called.
pub type Meaning = spec_fn(Seq<char>, Set<Fact>, Set<Seq<char>>) -> QueryResult;

/// A result of a query over the database.
pub open spec fn is_result(db: DbSpec, meaning: Meaning, sparql: Seq<char>, result: Arc<QueryResult>) -> bool {
    *result == meaning(sparql, facts(db.dict, db.quads), graph_names(db.dict, db.graphs))
}

/// Every result that is kept is the one that the query gives now.
pub open spec fn results_current(db: DbSpec, meaning: Meaning) -> bool {
    forall|i: int| 0 <= i < db.cache.len() ==> is_result(db, meaning, (#[trigger] db.cache[i]).0, db.cache[i].1)
}

/// The graphs are as they were, or no result is kept.
pub open spec fn same_or_dropped(before: DbSpec, after: DbSpec) -> bool {
    ||| after.cache.len() == 0
    ||| after.cache == before.cache && after.dict == before.dict && after.quads == before.quads && after.graphs == before.graphs
}

/// Changes leave the graphs as they were, or drop the results.
pub proof fn lemma_same_or_dropped(db: DbSpec, cs: Seq<Change>)
    requires
        dict_ok(db.dict),
        grounded(db.dict, db.quads),
        dict_fits(changed_by_all(db, cs).dict),
    ensures
        same_or_dropped(db, changed_by_all(db, cs)),
        dict_ok(changed_by_all(db, cs).dict),
        grounded(changed_by_all(db, cs).dict, changed_by_all(db, cs).quads),
    decreases cs.len(),
{
    if cs.len() > 0 {
        let front = cs.drop_last();
        lemma_sizes_grow(db, cs, cs.len() - 1);
        assert(cs.take(cs.len() - 1) =~= front);
        lemma_same_or_dropped(db, front);
        let mid = changed_by_all(db, front);
        law_changes_keep_order(mid, cs.last());
        if !takes_effect(mid, cs.last()) {
            match cs.last() {
                Change::Insert(t, g) => {
                    lemma_insert_changes(mid, t, g);
                },
                Change::Delete(t, g) => {},
            }
        }
    }
}

/// Kept results stay current: whatever happens to the graphs (changes, clearing,
/// derivation, and transactions that are opened, committed or rolled back), each result
/// that is still kept is the one that its query gives then.
pub proof fn law_results_stay_current(db: DbSpec, a: Act, meaning: Meaning)
    requires
        dict_ok(db.dict),
        grounded(db.dict, db.quads),
        act_fits(db, a),
        results_current(db, meaning),
    ensures
        results_current(act_after(db, a), meaning),
{
    let after = act_after(db, a);
    match a {
        Act::Make(cs) => {
            lemma_same_or_dropped(db, cs);
        },
        Act::Derive(ts) => {
            lemma_same_or_dropped(db, default_inserts(ts));
        },
        _ => {},
    }
    assert(same_or_dropped(db, after));
    assert forall|i: int| 0 <= i < after.cache.len() implies is_result(after, meaning, (#[trigger] after.cache[i]).0, after.cache[i].1) by {
        assert(is_result(db, meaning, db.cache[i].0, db.cache[i].1));
    }
}

/// A read answers with a current result: one that is kept already, or one that was
/// evaluated and is kept from then on. Reading and keeping leave all results current.
pub proof fn law_reads_are_current(db: DbSpec, sparql: Seq<char>, result: Arc<QueryResult>, meaning: Meaning)
    requires
        results_current(db, meaning),
    ensures
        place_of(db.cache, sparql) matches Some(i) ==> is_result(db, meaning, sparql, db.cache[i].1),
        results_current(DbSpec { cache: touched(db.cache, sparql), ..db }, meaning),
        is_result(db, meaning, sparql, result) ==> results_current(DbSpec { cache: stored(db.cache, db.cache_cap, sparql, result), ..db }, meaning),
{
    let c = db.cache;
    let looked = DbSpec { cache: touched(c, sparql), ..db };
    let kept = DbSpec { cache: stored(c, db.cache_cap, sparql, result), ..db };
    let place = place_of(c, sparql);
    if place is Some {
        let i = place->0;
        assert(is_result(db, meaning, c[i].0, c[i].1));
    }
    assert forall|k: int| 0 <= k < looked.cache.len() implies is_result(looked, meaning, (#[trigger] looked.cache[k]).0, looked.cache[k].1) by {
        lemma_from(c, place, k);
        assert(forall|j: int| 0 <= j < c.len() ==> is_result(db, meaning, (#[trigger] c[j]).0, c[j].1));
    }
    if is_result(db, meaning, sparql, result) {
        assert forall|k: int| 0 <= k < kept.cache.len() implies is_result(kept, meaning, (#[trigger] kept.cache[k]).0, kept.cache[k].1) by {
            assert(forall|j: int| 0 <= j < c.len() ==> is_result(db, meaning, (#[trigger] c[j]).0, c[j].1));
            if db.cache_cap == 0 {
                assert(kept.cache[k] == c[k]);
            } else if k < kept.cache.len() - 1 {
                assert(exists|j: int| 0 <= j < c.len() && kept.cache[k] == #[trigger] c[j]) by {
                    match place {
                        Some(i) => {
                            assert(kept.cache[k] == c[if k < i { k } else { k + 1 }]);
                        },
                        None => {
                            if c.len() >= db.cache_cap {
                                assert(kept.cache[k] == c[k + 1]);
                            } else {
                                assert(kept.cache[k] == c[k]);
                            }
                        },
                    }
                }
            }
        }
    }
}

/// An entry of a cache that was looked up is one of the cache.
proof fn lemma_from(c: CacheSpec, place: Option<int>, k: int)
    requires
        place matches Some(i) ==> 0 <= i < c.len(),
        0 <= k < c.len(),
    ensures
        ({
            let t = match place {
                Some(i) => c.remove(i).push(c[i]),
                None => c,
            };
            exists|j: int| 0 <= j < c.len() && t[k] == #[trigger] c[j]
        }),
{
    match place {
        Some(i) => {
            let t = c.remove(i).push(c[i]);
            if k == c.len() - 1 {
                assert(t[k] == c[i]);
            } else {
                assert(t[k] == c[if k < i { k } else { k + 1 }]);
            }
        },
        None => {
            assert(c[k] == c[k]);
        },
    }
}

/// Reclaiming unused ids leaves all results current: what the graphs hold and how they
/// are called is by keys what it was.
pub proof fn law_reclaim_keeps_results(db: DbSpec, after: DictSpec, meaning: Meaning)
    requires
        reclaimed(db.dict, after, used_terms(db.quads, db.graphs), used_predicates(db.quads)),
        forall|q: Quad| #[trigger] db.quads.contains(q) ==> (q.0 matches Some(g) ==> db.graphs.contains(g)),
        results_current(db, meaning),
    ensures
        facts(after, db.quads) == facts(db.dict, db.quads),
        graph_names(after, db.graphs) == graph_names(db.dict, db.graphs),
        results_current(DbSpec { dict: after, ..db }, meaning),
{
    let d = db.dict;
    let terms = used_terms(db.quads, db.graphs);
    let preds = used_predicates(db.quads);
    assert forall|t: Triple, g: Option<Seq<char>>| #[trigger] states(after, db.quads, t, g) <==> states(d, db.quads, t, g) by {
        if states(d, db.quads, t, g) {
            let q = quad_of(d, t, g);
            assert(db.quads.contains(q));
            assert(terms.contains(q.1.sub) && terms.contains(q.1.obj) && preds.contains(q.1.pred));
            if g is Some {
                assert(db.graphs.contains(q.0->0));
                assert(terms.contains(q.0->0));
                assert(after.entities.contains_key(graph_key(g->0)));
            }
            assert(after.entities.contains_key(term_key(t.subject@)));
            assert(after.predicates.contains_key(term_key(t.predicate@)));
            if t.object@ is Literal {
                assert(after.literals.contains_key(term_key(t.object@)));
            } else {
                assert(after.entities.contains_key(term_key(t.object@)));
            }
            assert(quad_of(after, t, g) == q);
        }
        if states(after, db.quads, t, g) {
            assert(quad_of(after, t, g) == quad_of(d, t, g));
        }
    }
    assert forall|f: Fact| #[trigger] facts(after, db.quads).contains(f) <==> facts(d, db.quads).contains(f) by {
        if facts(after, db.quads).contains(f) {
            let (t, g) = choose|t: Triple, g: Option<Seq<char>>| #[trigger] states(after, db.quads, t, g) && f == (keys_of(t), graph_key_of(g));
            assert(states(d, db.quads, t, g));
        }
        if facts(d, db.quads).contains(f) {
            let (t, g) = choose|t: Triple, g: Option<Seq<char>>| #[trigger] states(d, db.quads, t, g) && f == (keys_of(t), graph_key_of(g));
            assert(states(after, db.quads, t, g));
        }
    }
    assert(facts(after, db.quads) =~= facts(d, db.quads));
    assert forall|s: Seq<char>| #[trigger] graph_names(after, db.graphs).contains(s) <==> graph_names(d, db.graphs).contains(s) by {
        if graph_names(d, db.graphs).contains(s) {
            assert(terms.contains(d.entities[s]));
        }
    }
    assert(graph_names(after, db.graphs) =~= graph_names(d, db.graphs));
    let b = DbSpec { dict: after, ..db };
    assert forall|i: int| 0 <= i < b.cache.len() implies is_result(b, meaning, (#[trigger] b.cache[i]).0, b.cache[i].1) by {
        assert(is_result(db, meaning, db.cache[i].0, db.cache[i].1));
    }
}

} // verus!
