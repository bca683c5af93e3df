//! What update requests do to the facts of a database.

use super::clear::{both, named_selects, quads_in, target_selects};
use super::laws::{content, lemma_content, lemma_content_inserted};
use super::requests::derived;
use super::results::{states, Fact};
use super::rules::{given, given_triples, law_enabled_rules_give, rule_applies, rules_ran, Inferred};
use super::state::{changed_by_all, dict_fits, effects, graph_key, graph_key_of, grounded, keys_of, law_changes_keep_order, law_delete_is_read_back, lemma_insert_changes, lemma_sizes_grow, deleted, Change, DbSpec, Quad};
use super::update::{as_deletes, as_inserts, default_deletes, default_inserts, is_remote, lemma_two_parts, op_after, op_changes, op_count};
use crate::dict::{dict_ok, DictSpec};
use crate::error::Result;
use crate::model::{IdTriple, Triple};
use crate::query::{GraphTarget, GroundTriple, UpdateOp};
use vstd::prelude::*;
use vstd::string::*;

verus! {

/// The fact that a change is about.
spec fn fact_of(c: Change) -> Fact {
    match c {
        Change::Insert(t, g) => (keys_of(t), graph_key_of(g)),
        Change::Delete(t, g) => (keys_of(t), graph_key_of(g)),
    }
}

/// The facts that some changes are about.
spec fn facts_of(cs: Seq<Change>) -> Set<Fact> {
    Set::new(|f: Fact| exists|k: int| 0 <= k < cs.len() && f == fact_of(#[trigger] cs[k]))
}

proof fn lemma_facts_of(cs: Seq<Change>)
    requires
        cs.len() > 0,
    ensures
        facts_of(cs) == facts_of(cs.drop_last()).insert(fact_of(cs.last())),
{
    let front = cs.drop_last();
    assert forall|f: Fact| facts_of(cs).contains(f) <==> facts_of(front).insert(fact_of(cs.last())).contains(f) by {
        if facts_of(cs).contains(f) {
            let k = choose|k: int| 0 <= k < cs.len() && f == fact_of(#[trigger] cs[k]);
            if k < front.len() {
                assert(front[k] == cs[k]);
            }
        }
        if facts_of(front).contains(f) {
            let k = choose|k: int| 0 <= k < front.len() && f == fact_of(#[trigger] front[k]);
            assert(cs[k] == front[k]);
        }
        assert(cs[cs.len() - 1] == cs.last());
    }
    assert(facts_of(cs) =~= facts_of(front).insert(fact_of(cs.last())));
}

proof fn lemma_facts_finite(cs: Seq<Change>)
    ensures
        facts_of(cs).finite(),
    decreases cs.len(),
{
    if cs.len() == 0 {
        assert(facts_of(cs) =~= Set::<Fact>::empty());
    } else {
        lemma_facts_of(cs);
        lemma_facts_finite(cs.drop_last());
    }
}

proof fn lemma_content_deleted(db: DbSpec, t: Triple, g: Option<Seq<char>>)
    requires
        dict_ok(db.dict),
    ensures
        content(deleted(db, t, g)) == content(db).remove((keys_of(t), graph_key_of(g))),
{
    let after = deleted(db, t, g);
    assert forall|f: Fact| content(after).contains(f) <==> content(db).remove((keys_of(t), graph_key_of(g))).contains(f) by {
        if content(after).contains(f) {
            let (u, h) = choose|u: Triple, h: Option<Seq<char>>| #[trigger] states(after.dict, after.quads, u, h) && f == (keys_of(u), graph_key_of(h));
            law_delete_is_read_back(db, t, g, u, h);
            lemma_content(db, u, h);
        }
        if content(db).contains(f) {
            let (u, h) = choose|u: Triple, h: Option<Seq<char>>| #[trigger] states(db.dict, db.quads, u, h) && f == (keys_of(u), graph_key_of(h));
            law_delete_is_read_back(db, t, g, u, h);
            lemma_content(after, u, h);
        }
    }
    assert(content(after) =~= content(db).remove((keys_of(t), graph_key_of(g))));
}

/// Insertions add their facts, and take effect once for each that is new.
proof fn lemma_inserted_facts(db: DbSpec, cs: Seq<Change>)
    requires
        dict_ok(db.dict),
        grounded(db.dict, db.quads),
        dict_fits(changed_by_all(db, cs).dict),
        forall|k: int| 0 <= k < cs.len() ==> #[trigger] cs[k] is Insert,
    ensures
        dict_ok(changed_by_all(db, cs).dict),
        grounded(changed_by_all(db, cs).dict, changed_by_all(db, cs).quads),
        content(changed_by_all(db, cs)) == content(db).union(facts_of(cs)),
        effects(db, cs) == facts_of(cs).difference(content(db)).len(),
    decreases cs.len(),
{
    lemma_facts_finite(cs);
    if cs.len() == 0 {
        assert(facts_of(cs) =~= Set::<Fact>::empty());
        assert(content(db).union(facts_of(cs)) =~= content(db));
        assert(facts_of(cs).difference(content(db)) =~= Set::<Fact>::empty());
    } else {
        let front = cs.drop_last();
        lemma_sizes_grow(db, cs, cs.len() - 1);
        assert(cs.take(cs.len() - 1) =~= front);
        assert forall|k: int| 0 <= k < front.len() implies #[trigger] front[k] is Insert by {
            assert(front[k] == cs[k]);
        }
        lemma_inserted_facts(db, front);
        lemma_facts_of(cs);
        lemma_facts_finite(front);
        let mid = changed_by_all(db, front);
        let c = cs.last();
        assert(cs[cs.len() - 1] is Insert);
        law_changes_keep_order(mid, c);
        let (t, g) = (c->Insert_0, c->Insert_1);
        lemma_content_inserted(mid, t, g);
        lemma_insert_changes(mid, t, g);
        lemma_content(mid, t, g);
        let f = fact_of(c);
        assert(content(db).union(facts_of(front)).insert(f) =~= content(db).union(facts_of(cs)));
        let a = facts_of(front).difference(content(db));
        let b = facts_of(cs).difference(content(db));
        if content(mid).contains(f) {
            assert(b =~= a);
        } else {
            assert(b =~= a.insert(f));
        }
    }
}

/// Deletions take their facts out, and take effect once for each that was there.
proof fn lemma_deleted_facts(db: DbSpec, cs: Seq<Change>)
    requires
        dict_ok(db.dict),
        grounded(db.dict, db.quads),
        forall|k: int| 0 <= k < cs.len() ==> #[trigger] cs[k] is Delete,
    ensures
        changed_by_all(db, cs).dict == db.dict,
        grounded(db.dict, changed_by_all(db, cs).quads),
        content(changed_by_all(db, cs)) == content(db).difference(facts_of(cs)),
        effects(db, cs) == content(db).intersect(facts_of(cs)).len(),
    decreases cs.len(),
{
    lemma_facts_finite(cs);
    if cs.len() == 0 {
        assert(facts_of(cs) =~= Set::<Fact>::empty());
        assert(content(db).difference(facts_of(cs)) =~= content(db));
        assert(content(db).intersect(facts_of(cs)) =~= Set::<Fact>::empty());
    } else {
        let front = cs.drop_last();
        assert forall|k: int| 0 <= k < front.len() implies #[trigger] front[k] is Delete by {
            assert(front[k] == cs[k]);
        }
        lemma_deleted_facts(db, front);
        lemma_facts_of(cs);
        lemma_facts_finite(front);
        let mid = changed_by_all(db, front);
        let c = cs.last();
        assert(cs[cs.len() - 1] is Delete);
        let (t, g) = (c->Delete_0, c->Delete_1);
        lemma_content_deleted(mid, t, g);
        lemma_content(mid, t, g);
        let f = fact_of(c);
        assert(content(db).difference(facts_of(front)).remove(f) =~= content(db).difference(facts_of(cs)));
        let a = content(db).intersect(facts_of(front));
        let b = content(db).intersect(facts_of(cs));
        assert(a.finite()) by {
            vstd::set_lib::lemma_len_intersect(facts_of(front), content(db));
            assert(a =~= facts_of(front).intersect(content(db)));
        }
        if content(mid).contains(f) {
            assert(b =~= a.insert(f));
        } else {
            assert(b =~= a);
        }
    }
}

/// The fact that a triple of a request states: its keys, and that of its graph.
pub open spec fn stated(g: GroundTriple) -> Fact {
    (
        keys_of(Triple { subject: g.subject, predicate: g.predicate, object: g.object }),
        match g.graph {
            Some(n) => Some(graph_key(n@)),
            None => None,
        },
    )
}

/// INSERT DATA: the facts afterwards are those before and those that are listed, each in
/// the graph that is named for it. The count is that of the listed facts that were new.
pub proof fn law_insert_data_adds_the_listed(db: DbSpec, ts: Vec<GroundTriple>)
    requires
        dict_ok(db.dict),
        grounded(db.dict, db.quads),
        dict_fits(op_after(db, UpdateOp::InsertData(ts)).dict),
    ensures
        forall|f: Fact| #[trigger] content(op_after(db, UpdateOp::InsertData(ts))).contains(f) <==> content(db).contains(f) || exists|k: int| 0 <= k < ts@.len() && f == stated(#[trigger] ts@[k]),
        op_count(db, UpdateOp::InsertData(ts)) == Set::new(|f: Fact| !content(db).contains(f) && exists|k: int| 0 <= k < ts@.len() && f == stated(#[trigger] ts@[k])).len(),
{
    let cs = as_inserts(ts@);
    lemma_inserted_facts(db, cs);
    assert forall|f: Fact| facts_of(cs).contains(f) <==> exists|k: int| 0 <= k < ts@.len() && f == stated(#[trigger] ts@[k]) by {
        if facts_of(cs).contains(f) {
            let k = choose|k: int| 0 <= k < cs.len() && f == fact_of(#[trigger] cs[k]);
            assert(f == stated(ts@[k]));
        }
        if exists|k: int| 0 <= k < ts@.len() && f == stated(#[trigger] ts@[k]) {
            let k = choose|k: int| 0 <= k < ts@.len() && f == stated(#[trigger] ts@[k]);
            assert(f == fact_of(cs[k]));
        }
    }
    assert(facts_of(cs).difference(content(db)) =~= Set::new(|f: Fact| !content(db).contains(f) && exists|k: int| 0 <= k < ts@.len() && f == stated(#[trigger] ts@[k])));
}

/// DELETE DATA: the facts afterwards are those before without those that are listed. The
/// count is that of the listed facts that were there.
pub proof fn law_delete_data_removes_the_listed(db: DbSpec, ts: Vec<GroundTriple>)
    requires
        dict_ok(db.dict),
        grounded(db.dict, db.quads),
    ensures
        forall|f: Fact| #[trigger] content(op_after(db, UpdateOp::DeleteData(ts))).contains(f) <==> content(db).contains(f) && !exists|k: int| 0 <= k < ts@.len() && f == stated(#[trigger] ts@[k]),
        op_count(db, UpdateOp::DeleteData(ts)) == Set::new(|f: Fact| content(db).contains(f) && exists|k: int| 0 <= k < ts@.len() && f == stated(#[trigger] ts@[k])).len(),
{
    let cs = as_deletes(ts@);
    lemma_deleted_facts(db, cs);
    assert forall|f: Fact| facts_of(cs).contains(f) <==> exists|k: int| 0 <= k < ts@.len() && f == stated(#[trigger] ts@[k]) by {
        if facts_of(cs).contains(f) {
            let k = choose|k: int| 0 <= k < cs.len() && f == fact_of(#[trigger] cs[k]);
            assert(f == stated(ts@[k]));
        }
        if exists|k: int| 0 <= k < ts@.len() && f == stated(#[trigger] ts@[k]) {
            let k = choose|k: int| 0 <= k < ts@.len() && f == stated(#[trigger] ts@[k]);
            assert(f == fact_of(cs[k]));
        }
    }
    assert(content(db).intersect(facts_of(cs)) =~= Set::new(|f: Fact| content(db).contains(f) && exists|k: int| 0 <= k < ts@.len() && f == stated(#[trigger] ts@[k])));
}

/// The triple in the default graph is one of the list.
pub open spec fn in_list(f: Fact, ts: Seq<Triple>) -> bool {
    f.1 is None && exists|k: int| 0 <= k < ts.len() && f.0 == keys_of(#[trigger] ts[k])
}

proof fn lemma_default_facts(ts: Seq<Triple>)
    ensures
        forall|f: Fact| #[trigger] facts_of(default_inserts(ts)).contains(f) <==> in_list(f, ts),
        forall|f: Fact| #[trigger] facts_of(default_deletes(ts)).contains(f) <==> in_list(f, ts),
{
    let a = default_inserts(ts);
    let b = default_deletes(ts);
    assert forall|f: Fact| #[trigger] facts_of(a).contains(f) <==> in_list(f, ts) by {
        if facts_of(a).contains(f) {
            let k = choose|k: int| 0 <= k < a.len() && f == fact_of(#[trigger] a[k]);
            assert(f.0 == keys_of(ts[k]));
        }
        if in_list(f, ts) {
            let k = choose|k: int| 0 <= k < ts.len() && f.0 == keys_of(#[trigger] ts[k]);
            assert(f == fact_of(a[k]));
        }
    }
    assert forall|f: Fact| #[trigger] facts_of(b).contains(f) <==> in_list(f, ts) by {
        if facts_of(b).contains(f) {
            let k = choose|k: int| 0 <= k < b.len() && f == fact_of(#[trigger] b[k]);
            assert(f.0 == keys_of(ts[k]));
        }
        if in_list(f, ts) {
            let k = choose|k: int| 0 <= k < ts.len() && f.0 == keys_of(#[trigger] ts[k]);
            assert(f == fact_of(b[k]));
        }
    }
}

/// DELETE/INSERT WHERE: every triple that is to be inserted is in the default graph then,
/// also if it is to be deleted too; every other triple that is to be deleted is not; every
/// other fact, in whatever graph, is as before. The count is that of the triples that were
/// taken out, and of those that were new then.
pub proof fn law_modify_deletes_then_inserts(db: DbSpec, delete: Vec<Triple>, insert: Vec<Triple>)
    requires
        dict_ok(db.dict),
        grounded(db.dict, db.quads),
        dict_fits(op_after(db, UpdateOp::Modify { delete, insert }).dict),
    ensures
        ({
            let op = UpdateOp::Modify { delete, insert };
            let after = content(op_after(db, op));
            &&& forall|k: int| 0 <= k < insert@.len() ==> after.contains((keys_of(#[trigger] insert@[k]), None))
            &&& forall|k: int| 0 <= k < delete@.len() && !in_list((keys_of(#[trigger] delete@[k]), None), insert@) ==> !after.contains((keys_of(delete@[k]), None))
            &&& forall|f: Fact| !in_list(f, delete@) && !in_list(f, insert@) ==> (#[trigger] after.contains(f) <==> content(db).contains(f))
            &&& op_count(db, op) == Set::new(|f: Fact| content(db).contains(f) && in_list(f, delete@)).len() + Set::new(|f: Fact| in_list(f, insert@) && (in_list(f, delete@) || !content(db).contains(f))).len()
        }),
{
    let op = UpdateOp::Modify { delete, insert };
    let (a, b) = (default_deletes(delete@), default_inserts(insert@));
    lemma_two_parts(db, a, b);
    lemma_deleted_facts(db, a);
    let mid = changed_by_all(db, a);
    lemma_inserted_facts(mid, b);
    lemma_default_facts(delete@);
    lemma_default_facts(insert@);
    let after = content(op_after(db, op));
    assert(after == content(db).difference(facts_of(a)).union(facts_of(b)));
    assert forall|k: int| 0 <= k < insert@.len() implies after.contains((keys_of(#[trigger] insert@[k]), None)) by {
        assert(in_list((keys_of(insert@[k]), None), insert@));
    }
    assert forall|k: int| 0 <= k < delete@.len() && !in_list((keys_of(#[trigger] delete@[k]), None), insert@) implies !after.contains((keys_of(delete@[k]), None)) by {
        assert(in_list((keys_of(delete@[k]), None), delete@));
    }
    assert(content(db).intersect(facts_of(a)) =~= Set::new(|f: Fact| content(db).contains(f) && in_list(f, delete@)));
    assert(facts_of(b).difference(content(mid)) =~= Set::new(|f: Fact| in_list(f, insert@) && (in_list(f, delete@) || !content(db).contains(f))));
}

/// LOAD: the triples of a local document are in the default graph then, besides all facts
/// that there were, and are counted if they were new. A remote document, or one that did
/// not parse, changes nothing.
pub proof fn law_load_adds_the_document(db: DbSpec, source: String, silent: bool, parsed: Result<Vec<Triple>>)
    requires
        dict_ok(db.dict),
        grounded(db.dict, db.quads),
        dict_fits(op_after(db, UpdateOp::Load { source, silent, parsed }).dict),
    ensures
        ({
            let op = UpdateOp::Load { source, silent, parsed };
            if is_remote(source@) || parsed is Err {
                op_after(db, op) == db && op_count(db, op) == 0
            } else {
                let ts = parsed->Ok_0@;
                &&& forall|f: Fact| #[trigger] content(op_after(db, op)).contains(f) <==> content(db).contains(f) || in_list(f, ts)
                &&& op_count(db, op) == Set::new(|f: Fact| in_list(f, ts) && !content(db).contains(f)).len()
            }
        }),
{
    let op = UpdateOp::Load { source, silent, parsed };
    if !is_remote(source@) && parsed is Ok {
        let ts = parsed->Ok_0@;
        let cs = default_inserts(ts);
        assert(op_changes(op) == cs);
        lemma_inserted_facts(db, cs);
        lemma_default_facts(ts);
        assert(facts_of(cs).difference(content(db)) =~= Set::new(|f: Fact| in_list(f, ts) && !content(db).contains(f)));
    } else {
        assert(op_changes(op) =~= Seq::<Change>::empty());
    }
}

/// CREATE changes nothing, as a graph is there with its first triple.
pub proof fn law_create_changes_nothing(db: DbSpec)
    ensures
        op_after(db, UpdateOp::Create) == db,
        op_count(db, UpdateOp::Create) == 0,
{
}

/// Derived triples are in the default graph then, besides all facts that there were.
pub proof fn law_derived_triples_are_added(db: DbSpec, ts: Seq<Triple>)
    requires
        dict_ok(db.dict),
        grounded(db.dict, db.quads),
        dict_fits(derived(db, ts).dict),
    ensures
        forall|f: Fact| #[trigger] content(derived(db, ts)).contains(f) <==> content(db).contains(f) || in_list(f, ts),
        effects(db, default_inserts(ts)) == Set::new(|f: Fact| in_list(f, ts) && !content(db).contains(f)).len(),
        derived(db, ts).index_valid ==> db.index_valid && forall|k: int| 0 <= k < ts.len() ==> content(db).contains((keys_of(#[trigger] ts[k]), None)),
        derived(db, ts).rules == db.rules,
{
    let cs = default_inserts(ts);
    lemma_inserted_facts(db, cs);
    lemma_default_facts(ts);
    let new = Set::new(|f: Fact| in_list(f, ts) && !content(db).contains(f));
    assert(facts_of(cs).difference(content(db)) =~= new);
    lemma_settings_stay(db, cs);
    lemma_facts_finite(cs);
    if derived(db, ts).index_valid {
        assert forall|k: int| 0 <= k < ts.len() implies content(db).contains((keys_of(#[trigger] ts[k]), None)) by {
            let f: Fact = (keys_of(ts[k]), None);
            if !content(db).contains(f) {
                assert(in_list(f, ts));
                assert(new.contains(f));
                assert(new.len() == 0);
                new.lemma_len0_is_empty();
            }
        }
    }
}

/// Running the rules adds, to the default graph, the triples that follow by rules that are
/// enabled, and no others.
pub proof fn law_rules_add_what_follows(db: DbSpec, inferred: Seq<Inferred>)
    requires
        dict_ok(db.dict),
        grounded(db.dict, db.quads),
        dict_fits(rules_ran(db, inferred).dict),
    ensures
        forall|f: Fact| #[trigger] content(rules_ran(db, inferred)).contains(f) <==> content(db).contains(f) || (f.1 is None && exists|k: int|
            0 <= k < inferred.len() && rule_applies(db.rules, #[trigger] inferred[k]) && f.0 == keys_of(inferred[k].triple)),
        rules_ran(db, inferred).functions == db.functions,
        rules_ran(db, inferred).name == db.name,
        rules_ran(db, inferred).txn == db.txn,
{
    let gs = given(db.rules, inferred);
    let ts = given_triples(gs);
    law_derived_triples_are_added(db, ts);
    law_enabled_rules_give(db.rules, inferred);
    lemma_settings_stay(db, default_inserts(ts));
    let after = content(rules_ran(db, inferred));
    assert(after == content(derived(db, ts)));
    assert forall|f: Fact| #[trigger] after.contains(f) <==> content(db).contains(f) || (f.1 is None && exists|k: int|
        0 <= k < inferred.len() && rule_applies(db.rules, #[trigger] inferred[k]) && f.0 == keys_of(inferred[k].triple)) by {
        assert(content(derived(db, ts)).contains(f) <==> content(db).contains(f) || in_list(f, ts));
        if in_list(f, ts) {
            let i = choose|i: int| 0 <= i < ts.len() && f.0 == keys_of(#[trigger] ts[i]);
            let (j, t) = gs[i];
            let k = choose|k: int| 0 <= k < inferred.len() && (#[trigger] inferred[k]).triple == t && inferred[k].rule@ == db.rules[j].name && rule_applies(db.rules, inferred[k]);
            assert(rule_applies(db.rules, inferred[k]) && f.0 == keys_of(inferred[k].triple));
        }
        if f.1 is None && exists|k: int| 0 <= k < inferred.len() && rule_applies(db.rules, #[trigger] inferred[k]) && f.0 == keys_of(inferred[k].triple) {
            let k = choose|k: int| 0 <= k < inferred.len() && rule_applies(db.rules, #[trigger] inferred[k]) && f.0 == keys_of(inferred[k].triple);
            let i = choose|i: int| 0 <= i < ts.len() && ts[i] == inferred[k].triple;
            assert(f.0 == keys_of(ts[i]));
        }
    }
}

proof fn lemma_settings_stay(db: DbSpec, cs: Seq<Change>)
    ensures
        settings_same(db, changed_by_all(db, cs)),
    decreases cs.len(),
{
    if cs.len() > 0 {
        lemma_settings_stay(db, cs.drop_last());
    }
}

/// What a database is besides its graphs: its name, its rules and functions, the open
/// transaction, the capacity of the cache, the update log, and whether a redo log is kept.
pub open spec fn settings_same(a: DbSpec, b: DbSpec) -> bool {
    &&& b.name == a.name
    &&& b.rules == a.rules
    &&& b.functions == a.functions
    &&& b.txn == a.txn
    &&& b.cache_cap == a.cache_cap
    &&& b.update_log == a.update_log
    &&& b.update_out == a.update_out
    &&& b.redo_log == a.redo_log
    &&& b.disk_index == a.disk_index
    &&& b.index_valid ==> a.index_valid
}

/// Operations change graphs and nothing else.
pub proof fn law_operations_keep_settings(db: DbSpec, op: UpdateOp)
    ensures
        settings_same(db, op_after(db, op)),
{
    match op {
        UpdateOp::Clear { target } => {},
        UpdateOp::Drop { target } => {},
        _ => {
            lemma_settings_stay(db, op_changes(op));
        },
    }
}

/// The quads are in the default graph, in all named graphs, or in the graph with the name.
pub open spec fn meant(d: DictSpec, target: GraphTarget, q: Quad) -> bool {
    match target {
        GraphTarget::Default => q.0 is None,
        GraphTarget::All => true,
        GraphTarget::Named(n) => if n@.len() == 0 {
            q.0 is Some
        } else {
            q.0 is Some && d.entities.contains_key(graph_key(n@)) && q.0->0 == d.entities[graph_key(n@)]
        },
    }
}

/// CLEAR and DROP of the default graph leave it empty, and every triple of a named graph
/// where it is.
pub proof fn law_clear_default_spares_named(db: DbSpec)
    requires
        db.quads.finite(),
    ensures
        forall|t: IdTriple| !#[trigger] op_after(db, UpdateOp::Clear { target: GraphTarget::Default }).quads.contains((None, t)),
        forall|g: u32, t: IdTriple| #[trigger] op_after(db, UpdateOp::Clear { target: GraphTarget::Default }).quads.contains((Some(g), t)) <==> db.quads.contains((Some(g), t)),
        op_after(db, UpdateOp::Clear { target: GraphTarget::Default }).graphs == db.graphs,
        op_after(db, UpdateOp::Drop { target: GraphTarget::Default }) == op_after(db, UpdateOp::Clear { target: GraphTarget::Default }),
{
    let gone = quads_in(db.quads, both(true, false));
    lemma_empty_or_not(db.quads, both(true, false));
    let named = quads_in(gone, both(false, true));
    assert(named =~= Set::<Quad>::empty());
    assert(target_selects(db.dict, GraphTarget::Default) == both(true, false));
}

/// CLEAR and DROP of all named graphs leave none of their triples, and the default graph
/// as it was.
pub proof fn law_clear_named_spares_default(db: DbSpec, name: String)
    requires
        db.quads.finite(),
        name@.len() == 0,
    ensures
        forall|t: IdTriple| #[trigger] op_after(db, UpdateOp::Clear { target: GraphTarget::Named(name) }).quads.contains((None, t)) <==> db.quads.contains((None, t)),
        forall|g: u32, t: IdTriple| !#[trigger] op_after(db, UpdateOp::Clear { target: GraphTarget::Named(name) }).quads.contains((Some(g), t)),
        op_after(db, UpdateOp::Clear { target: GraphTarget::Named(name) }).index_valid == db.index_valid,
        op_after(db, UpdateOp::Drop { target: GraphTarget::Named(name) }) == op_after(db, UpdateOp::Clear { target: GraphTarget::Named(name) }),
{
    let gone = quads_in(db.quads, both(false, true));
    lemma_empty_or_not(db.quads, both(false, true));
    let inner = quads_in(gone, both(true, false));
    assert(inner =~= Set::<Quad>::empty());
    assert(target_selects(db.dict, GraphTarget::Named(name)) == both(false, true));
}

/// CLEAR and DROP of one named graph leave none of its triples, and every triple of every
/// other graph, the default graph among them, where it is. If no graph has the name nothing
/// changes.
pub proof fn law_clear_one_spares_others(db: DbSpec, name: String)
    requires
        db.quads.finite(),
        name@.len() > 0,
    ensures
        ({
            let after = op_after(db, UpdateOp::Clear { target: GraphTarget::Named(name) });
            let key = graph_key(name@);
            &&& db.dict.entities.contains_key(key) ==> forall|t: IdTriple| !#[trigger] after.quads.contains((Some(db.dict.entities[key]), t))
            &&& db.dict.entities.contains_key(key) ==> forall|q: Quad| q.0 != Some(db.dict.entities[key]) ==> (#[trigger] after.quads.contains(q) <==> db.quads.contains(q))
            &&& !db.dict.entities.contains_key(key) ==> after == db
            &&& after.index_valid == db.index_valid
            &&& op_after(db, UpdateOp::Drop { target: GraphTarget::Named(name) }) == after
        }),
{
    let sel = named_selects(db.dict, name@);
    let gone = quads_in(db.quads, sel);
    lemma_empty_or_not(db.quads, sel);
    let inner = quads_in(gone, both(true, false));
    assert(inner =~= Set::<Quad>::empty());
    assert(target_selects(db.dict, GraphTarget::Named(name)) == sel);
    if !db.dict.entities.contains_key(graph_key(name@)) {
        assert(gone =~= Set::<Quad>::empty());
    }
}

/// CLEAR and DROP of all graphs leave no triple at all.
pub proof fn law_clear_all_leaves_nothing(db: DbSpec)
    requires
        db.quads.finite(),
    ensures
        op_after(db, UpdateOp::Clear { target: GraphTarget::All }).quads == Set::<Quad>::empty(),
        op_after(db, UpdateOp::Drop { target: GraphTarget::All }) == op_after(db, UpdateOp::Clear { target: GraphTarget::All }),
{
    lemma_empty_or_not(db.quads, both(true, true));
    assert(target_selects(db.dict, GraphTarget::All) == both(true, true));
    assert(op_after(db, UpdateOp::Clear { target: GraphTarget::All }).quads =~= Set::<Quad>::empty());
}

proof fn lemma_empty_or_not(quads: Set<Quad>, sel: spec_fn(Option<u32>) -> bool)
    requires
        quads.finite(),
    ensures
        quads_in(quads, sel).finite(),
        quads_in(quads, sel).len() == 0 ==> forall|q: Quad| #[trigger] quads.contains(q) ==> !sel(q.0),
{
    let gone = quads_in(quads, sel);
    quads.lemma_len_filter(|q: Quad| sel(q.0));
    if gone.len() == 0 {
        assert forall|q: Quad| #[trigger] quads.contains(q) implies !sel(q.0) by {
            if sel(q.0) {
                assert(gone.contains(q));
                gone.lemma_len0_is_empty();
            }
        }
    }
}

/// Clearing counts the triples that go: exactly those of the graphs that are meant.
pub proof fn law_clear_counts_what_goes(db: DbSpec, target: GraphTarget)
    requires
        db.quads.finite(),
    ensures
        op_count(db, UpdateOp::Clear { target }) + op_after(db, UpdateOp::Clear { target }).quads.len() == db.quads.len(),
        op_count(db, UpdateOp::Drop { target }) == op_count(db, UpdateOp::Clear { target }),
        forall|q: Quad| #[trigger] op_after(db, UpdateOp::Clear { target }).quads.contains(q) <==> db.quads.contains(q) && !meant(db.dict, target, q),
        op_after(db, UpdateOp::Clear { target }).dict == db.dict,
{
    let sel = target_selects(db.dict, target);
    lemma_empty_or_not(db.quads, sel);
    let gone = quads_in(db.quads, sel);
    let left = op_after(db, UpdateOp::Clear { target }).quads;
    assert forall|q: Quad| #[trigger] left.contains(q) <==> db.quads.contains(q) && !meant(db.dict, target, q) by {
        assert(sel(q.0) <==> meant(db.dict, target, q));
    }
    assert(left =~= db.quads.difference(gone));
    assert(left.union(gone) =~= db.quads);
    vstd::set_lib::lemma_len_difference(db.quads, gone);
    vstd::set_lib::lemma_set_disjoint_lens(left, gone);
}

} // verus!
