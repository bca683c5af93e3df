use gstore::db::info::{vstree_entries, vstree_updates};
use gstore::db::logs::redo_records;
use gstore::db::open::BatchBuild;
use gstore::db::rules::Inferred;
use gstore::db::requests::{Answer, Request, UpdateRun};
use gstore::db::{BuildProgress, Database};
use gstore::query::{GraphTarget, GroundTriple, QueryResult, RequestOp, ResultSet, UpdateOp};
use gstore::{GStoreError, Result, Term, Triple};
use std::sync::Arc;

const SMALL: &str = "\
<root> <name> \"Bookug Lobert\" .
<root> <contain> <node0> .
<root> <contain> <node1> .
<node1> <own> <point0> .
<node1> <own> <point1> .
";

fn term(s: &str) -> Term {
    if let Some(iri) = s.strip_prefix('<') {
        Term::iri(iri.strip_suffix('>').unwrap())
    } else {
        Term::plain_literal(s.trim_matches('"'))
    }
}

/// The triples of a document with one triple per line.
fn parse(doc: &str) -> Result<Vec<Triple>> {
    let mut out = Vec::new();
    for line in doc.lines() {
        let body = line.trim().trim_end_matches('.').trim();
        if body.is_empty() {
            continue;
        }
        let mut parts = body.splitn(3, ' ');
        let s = parts.next().unwrap();
        let p = parts.next().unwrap();
        let o = parts.next().unwrap();
        out.push(Triple::new(term(s), term(p), term(o)));
    }
    Ok(out)
}

fn ground(s: &str, p: &str, o: &str) -> GroundTriple {
    GroundTriple { subject: Term::iri(s), predicate: Term::iri(p), object: Term::iri(o), graph: None }
}

/// A triple of the graph `g`.
fn ground_in(g: &str, s: &str, p: &str, o: &str) -> GroundTriple {
    GroundTriple { graph: Some(g.to_string()), ..ground(s, p, o) }
}

fn update(ops: Vec<UpdateOp>) -> Result<Request> {
    Ok(Request::Update(UpdateRun::new(ops.into_iter().map(RequestOp::Ready).collect())))
}

fn insert_data(ts: Vec<GroundTriple>) -> Result<Request> {
    update(vec![UpdateOp::InsertData(ts)])
}

fn delete_data(ts: Vec<GroundTriple>) -> Result<Request> {
    update(vec![UpdateOp::DeleteData(ts)])
}

fn changed(r: Result<Answer>) -> usize {
    match r.unwrap() {
        Answer::Ready(q) => match &*q {
            QueryResult::Update { changed } => *changed,
            other => panic!("expected Update, got {other:?}"),
        },
        other => panic!("expected a result, got {other:?}"),
    }
}

/// The objects that a subject has under a predicate, as texts in order.
fn objects(db: &Database, s: &str, p: &str) -> Vec<String> {
    let sub = db.dict().term_id(&Term::iri(s));
    let pred = db.dict().predicate_id(&Term::iri(p).dict_key());
    let mut out = Vec::new();
    if let (Some(sub), Some(pred)) = (sub, pred) {
        for o in db.store().o_by_sp(sub, pred) {
            out.push(db.dict().id_to_string(o).unwrap().to_string());
        }
    }
    out.sort();
    out
}

/// All triples as texts in order.
fn rows(db: &Database) -> Vec<(String, String, String)> {
    let d = db.dict();
    let mut out: Vec<(String, String, String)> = db
        .store()
        .iter_all()
        .iter()
        .map(|t| {
            (
                d.id_to_string(t.sub).unwrap().to_string(),
                d.predicate_to_string(t.pred).unwrap().to_string(),
                d.id_to_string(t.obj).unwrap().to_string(),
            )
        })
        .collect();
    out.sort();
    out
}

/// The subjects that have an object under a predicate, as texts in order.
fn subjects(db: &Database, p: &str, o: &str) -> Vec<String> {
    let obj = db.dict().term_id(&Term::iri(o));
    let pred = db.dict().predicate_id(&Term::iri(p).dict_key());
    let mut out = Vec::new();
    if let (Some(obj), Some(pred)) = (obj, pred) {
        for s in db.store().s_by_po(pred, obj) {
            out.push(db.dict().id_to_string(s).unwrap().to_string());
        }
    }
    out.sort();
    out
}

/// Run a read query: a miss is answered with a table and remembered.
fn read(db: &mut Database, q: &str) {
    match db.query(q, Ok(Request::Read), 0).unwrap() {
        Answer::Ready(_) => {}
        Answer::Evaluate { .. } => {
            let table = ResultSet { vars: vec!["o".to_string()], rows: Vec::new() };
            db.remember(q, Arc::new(QueryResult::Select(table)));
        }
        other => panic!("expected a read, got {other:?}"),
    }
}

/// The rows of `SELECT ?o WHERE { <s> <p> ?o }`: matched on a miss, and read back
/// from the kept results.
fn select_objects(db: &mut Database, s: &str, p: &str) -> ResultSet {
    let q = format!("SELECT ?o WHERE {{ <{s}> <{p}> ?o }}");
    match db.query(&q, Ok(Request::Read), 0).unwrap() {
        Answer::Evaluate { .. } => {
            let found = objects(db, s, p).into_iter().map(|o| vec![Some(o)]).collect();
            let table = ResultSet { vars: vec!["o".to_string()], rows: found };
            db.remember(&q, Arc::new(QueryResult::Select(table)));
        }
        other => panic!("expected a miss, got {other:?}"),
    }
    match db.query(&q, Ok(Request::Read), 0).unwrap() {
        Answer::Ready(r) => Database::select(&r).unwrap(),
        other => panic!("expected a kept result, got {other:?}"),
    }
}

#[test]
fn build_and_count() {
    let db = Database::build_from_str("t", parse(SMALL)).unwrap();
    assert_eq!(db.triple_num(), 5);
    // entities: root, node0, node1, point0, point1 = 5
    assert_eq!(db.entity_num(), 5);
    // literals: "Bookug Lobert" = 1
    assert_eq!(db.literal_num(), 1);
    // predicates: name, contain, own = 3
    assert_eq!(db.predicate_num(), 3);
}

#[test]
fn query_select_over_built_db() {
    let mut db = Database::build_from_str("t", parse(SMALL)).unwrap();
    let rs = select_objects(&mut db, "root", "contain");
    let mut vals: Vec<String> = rs.rows.iter().map(|r| r[0].clone().unwrap()).collect();
    vals.sort();
    assert_eq!(vals, vec!["<node0>".to_string(), "<node1>".to_string()]);
}

#[test]
fn query_literal_object() {
    let mut db = Database::build_from_str("t", parse(SMALL)).unwrap();
    let rs = select_objects(&mut db, "root", "name");
    assert_eq!(rs.rows[0][0].as_deref(), Some("\"Bookug Lobert\""));
}

#[test]
fn insert_and_delete_triple() {
    let mut db = Database::build_from_str("t", parse(SMALL)).unwrap();
    let before = db.triple_num();
    let t = Triple::new(Term::iri("root"), Term::iri("contain"), Term::iri("node9"));
    assert!(db.insert_triple(&t));
    assert!(!db.insert_triple(&t)); // duplicate
    assert_eq!(db.triple_num(), before + 1);
    assert!(db.remove_triple(&t));
    assert_eq!(db.triple_num(), before);
}

#[test]
fn sparql_insert_delete_data() {
    let mut db = Database::build_from_str("t", parse(SMALL)).unwrap();
    let before = db.triple_num();
    let ts = vec![ground("root", "contain", "nodeX"), ground("nodeX", "own", "pointZ")];
    let r = db.query(
        "INSERT DATA { <root> <contain> <nodeX> . <nodeX> <own> <pointZ> }",
        insert_data(ts),
        0,
    );
    assert_eq!(changed(r), 2);
    assert_eq!(db.triple_num(), before + 2);

    // The new triple is queryable.
    assert_eq!(objects(&db, "nodeX", "own")[0], "<pointZ>");

    let r = db.query(
        "DELETE DATA { <root> <contain> <nodeX> }",
        delete_data(vec![ground("root", "contain", "nodeX")]),
        0,
    );
    assert_eq!(changed(r), 1);
    assert_eq!(db.triple_num(), before + 1);
}

#[test]
fn delete_nonexistent_changes_nothing() {
    let mut db = Database::build_from_str("t", parse(SMALL)).unwrap();
    let before = db.triple_num();
    let r = db.query("DELETE DATA { <ghost> <p> <o> }", delete_data(vec![ground("ghost", "p", "o")]), 0);
    assert_eq!(changed(r), 0);
    assert_eq!(db.triple_num(), before);
}

#[test]
fn save_and_load_roundtrip() {
    let db = Database::build_from_str("rt", parse(SMALL)).unwrap();
    let dict = db.dict().duplicate();
    let store = db.store().duplicate();
    let loaded = Database::load(db.meta(), dict, store, Vec::new()).unwrap();
    assert_eq!(loaded.name(), "rt");
    assert_eq!(loaded.triple_num(), db.triple_num());
    assert_eq!(loaded.entity_num(), db.entity_num());
    assert_eq!(loaded.predicate_num(), db.predicate_num());

    // Queries work identically after reload.
    assert_eq!(objects(&loaded, "node1", "own").len(), 2);
}

/// Inserts keep the index valid, and the contents match a freshly built
/// baseline at every step.
#[test]
fn incremental_vstree_keeps_index_valid_and_matches_rebuild() {
    let mut inc = Database::build_from_str("inc", parse(SMALL)).unwrap();
    assert!(inc.stats().index_valid, "build leaves the index valid");

    // Edges added one at a time; some touch existing entities, some introduce
    // brand-new entities.
    let extra = [
        ("node0", "own", "point2"),
        ("node0", "link", "node1"),
        ("node1", "own", "point2"),
        ("root", "contain", "node2"),
        ("node2", "own", "point3"),
        ("point0", "kind", "leaf"),
    ];

    let mut accumulated = SMALL.to_string();
    for (s, p, o) in extra {
        assert!(inc.insert_triple(&Triple::new(Term::iri(s), Term::iri(p), Term::iri(o))));
        assert!(inc.stats().index_valid, "incremental insert must keep the index valid");

        accumulated.push_str(&format!("<{s}> <{p}> <{o}> .\n"));
        let base = Database::build_from_str("base", parse(&accumulated)).unwrap();

        assert_eq!(objects(&inc, "root", "contain"), objects(&base, "root", "contain"));
        assert_eq!(subjects(&inc, "own", "point2"), subjects(&base, "own", "point2"));
        assert_eq!(rows(&inc), rows(&base), "diverged after inserting ({s},{p},{o})");
    }
}

/// Many incremental inserts stay sound against a full-rebuild baseline.
#[test]
fn incremental_vstree_sound_under_node_splits() {
    let mut inc = Database::new("inc");
    assert!(inc.stats().index_valid);

    let mut accumulated = String::new();
    let n = 300u32;
    for i in 0..n {
        let s = format!("e{i}");
        let o = format!("t{}", i % 23);
        assert!(inc.insert_triple(&Triple::new(Term::iri(&s), Term::iri("p"), Term::iri(&o))));
        accumulated.push_str(&format!("<{s}> <p> <{o}> .\n"));
    }
    assert!(inc.stats().index_valid, "every incremental insert kept the index valid");

    let base = Database::build_from_str("base", parse(&accumulated)).unwrap();
    for o in ["t7", "t0"] {
        let a = subjects(&inc, "p", o);
        assert_eq!(a, subjects(&base, "p", o));
        assert!(!a.is_empty());
    }
    assert_eq!(rows(&inc), rows(&base));
    assert!(!rows(&inc).is_empty());
}

/// A delete invalidates the index; reads stay right, and a rebuild restores it.
#[test]
fn delete_invalidates_then_results_stay_correct() {
    let mut db = Database::build_from_str("d", parse(SMALL)).unwrap();
    assert!(db.stats().index_valid);
    assert!(db.remove_triple(&Triple::new(Term::iri("node1"), Term::iri("own"), Term::iri("point0"))));
    assert!(!db.stats().index_valid, "a delete invalidates the index");

    match db.query("SELECT ?o WHERE { <node1> <own> ?o }", Ok(Request::Read), 0).unwrap() {
        Answer::Evaluate { use_index } => assert!(!use_index, "the stale index is not used"),
        other => panic!("{other:?}"),
    }
    assert_eq!(objects(&db, "node1", "own"), vec!["<point1>".to_string()], "point0 was deleted");

    // Rebuilding restores a valid index and the same answer.
    db.rebuild_index();
    assert!(db.stats().index_valid);
    assert_eq!(objects(&db, "node1", "own").len(), 1);
}

/// Replay a redo log over a database: each record's triple is parsed first.
fn replay(db: &mut Database, log: &[u8]) -> Result<usize> {
    let (recs, _) = redo_records(log);
    let parsed: Vec<Result<Vec<Triple>>> = recs.iter().map(|r| parse(&r.triple)).collect();
    db.apply_redo_records(log, parsed)
}

#[test]
fn redo_log_replays_committed_mutations() {
    let mut db = Database::build_from_str("rd", parse(SMALL)).unwrap();
    db.enable_redo_log("redo.log");
    assert!(db.redo_log_enabled());

    // A mix of auto-commit mutations.
    db.query("INSERT DATA { <root> <contain> <nodeX> }", insert_data(vec![ground("root", "contain", "nodeX")]), 0)
        .unwrap();
    db.insert_triple(&Triple::new(Term::iri("nodeX"), Term::iri("own"), Term::iri("pointZ")));
    db.query("DELETE DATA { <node1> <own> <point0> }", delete_data(vec![ground("node1", "own", "point0")]), 0)
        .unwrap();
    let final_count = db.triple_num();
    let log = db.take_redo_out();

    // Recover into a fresh database starting from the same base.
    let mut recovered = Database::build_from_str("rd", parse(SMALL)).unwrap();
    let applied = replay(&mut recovered, &log).unwrap();
    assert_eq!(applied, 3, "three committed mutations recorded");
    assert_eq!(recovered.triple_num(), final_count);
    assert_eq!(objects(&recovered, "nodeX", "own").len(), 1);
    assert_eq!(objects(&recovered, "node1", "own").len(), 1, "point0 was deleted; point1 remains");
}

#[test]
fn redo_log_omits_rolled_back_transaction() {
    let mut db = Database::build_from_str("rd", parse(SMALL)).unwrap();
    db.enable_redo_log("redo.log");

    // A transaction that rolls back must leave nothing in the redo log.
    db.begin().unwrap();
    db.insert_triple(&Triple::new(Term::iri("x"), Term::iri("p"), Term::iri("y")));
    db.rollback().unwrap();

    // A committed transaction is recorded.
    db.begin().unwrap();
    db.insert_triple(&Triple::new(Term::iri("k"), Term::iri("p"), Term::iri("v")));
    db.commit().unwrap();

    let log = db.take_redo_out();
    let mut recovered = Database::build_from_str("rd", parse(SMALL)).unwrap();
    replay(&mut recovered, &log).unwrap();
    assert_eq!(objects(&recovered, "x", "p").len(), 0, "the rolled-back mutation must not be replayed");
    assert_eq!(objects(&recovered, "k", "p").len(), 1, "the committed mutation must be replayed");
}

#[test]
fn query_cache_lru_evicts_least_recently_used() {
    let mut db = Database::build_from_str("lru", parse(SMALL)).unwrap();
    db.set_query_cache_capacity(2);
    let q1 = "SELECT ?o WHERE { <root> <contain> ?o }";
    let q2 = "SELECT ?n WHERE { <root> <name> ?n }";
    let q3 = "SELECT ?o WHERE { <node1> <own> ?o }";

    read(&mut db, q1);
    read(&mut db, q2);
    assert_eq!(db.query_cache_len(), 2);
    // Touch q1 so q2 is now the least-recently used.
    read(&mut db, q1);
    // Inserting q3 evicts q2.
    read(&mut db, q3);
    assert_eq!(db.query_cache_len(), 2, "cache stays at capacity");
    assert!(db.query_cache_contains(q1));
    assert!(db.query_cache_contains(q3));
    assert!(!db.query_cache_contains(q2), "q2 was least-recently used");
}

#[test]
fn write_invalidates_query_cache() {
    let mut db = Database::build_from_str("inv", parse(SMALL)).unwrap();
    read(&mut db, "SELECT ?o WHERE { <root> <contain> ?o }");
    assert_eq!(db.query_cache_len(), 1);
    db.query("INSERT DATA { <root> <contain> <nodeZ> }", insert_data(vec![ground("root", "contain", "nodeZ")]), 0)
        .unwrap();
    assert_eq!(db.query_cache_len(), 0, "any write clears the cache");
}

#[test]
fn reclaim_unused_reuses_deleted_term_ids() {
    let mut db = Database::build_from_str("rc", parse(SMALL)).unwrap();
    let before_entities = db.entity_num();
    let node0_id = db.dict().entity_id(&Term::iri("node0").dict_key()).unwrap();

    // Delete the only triple using <node0>; its id is not auto-freed.
    db.query("DELETE DATA { <root> <contain> <node0> }", delete_data(vec![ground("root", "contain", "node0")]), 0)
        .unwrap();
    assert!(db.dict().entity_id(&Term::iri("node0").dict_key()).is_some());

    let freed = db.reclaim_unused();
    assert_eq!(freed, 1, "only <node0> became unreferenced");
    assert_eq!(db.entity_num(), before_entities - 1);
    assert!(db.dict().entity_id(&Term::iri("node0").dict_key()).is_none(), "node0 was reclaimed");

    // A brand-new term reuses node0's freed id.
    db.query("INSERT DATA { <root> <contain> <fresh> }", insert_data(vec![ground("root", "contain", "fresh")]), 0)
        .unwrap();
    assert_eq!(
        db.dict().entity_id(&Term::iri("fresh").dict_key()),
        Some(node0_id),
        "the freed id is reused"
    );
}

/// Triples that follow by a rule.
fn by(rule: &str, triples: Vec<Triple>) -> Vec<Inferred> {
    triples.into_iter().map(|triple| Inferred { rule: rule.to_string(), triple }).collect()
}

/// What follows by transitivity of a predicate from the triples as they are.
fn transitive(db: &Database, p: &str) -> Vec<Triple> {
    let edges: Vec<(String, String)> =
        rows(db).into_iter().filter(|r| r.1 == format!("<{p}>")).map(|r| (r.0, r.2)).collect();
    let mut out = Vec::new();
    for (x, y) in &edges {
        for (y2, z) in &edges {
            if y == y2 {
                out.push(Triple::new(term(x), Term::iri(p), term(z)));
            }
        }
    }
    out
}

#[test]
fn database_runs_user_rules() {
    let mut db = Database::build_from_str("rl", parse("<a> <ancestor> <b> .\n<b> <ancestor> <c> .\n")).unwrap();
    db.add_rule("anc", "?x <ancestor> ?y . ?y <ancestor> ?z => ?x <ancestor> ?z", Ok(())).unwrap();
    let inferred = transitive(&db, "ancestor");
    let n = db.run_rules(by("anc", inferred));
    assert_eq!(n, 1, "a→c inferred");
    assert_eq!(db.rule_effect_count("anc"), Some(1));
    assert_eq!(
        select_objects(&mut db, "a", "ancestor").row_count(),
        2,
        "a now reaches both b and c"
    );

    // Disabling is reflected in the listing and stops further inference.
    assert!(db.disable_rule("anc"));
    assert_eq!(db.list_rules(), vec![("anc".to_string(), false, 1)]);
    assert_eq!(db.run_rules(by("anc", vec![triple("x", "ancestor", "y")])), 0);
    assert_eq!(db.triple_num(), 3);
}

#[test]
fn rules_have_names_of_their_own() {
    let mut db = Database::new("d");
    db.add_rule("r", "a => b", Ok(())).unwrap();
    db.add_rule("s", "b => c", Ok(())).unwrap();
    assert!(db.add_rule("r", "c => d", Ok(())).is_err());
    let bad = db.add_rule("t", "?", Err(GStoreError::Query("malformed".to_string())));
    assert!(matches!(bad, Err(GStoreError::Query(m)) if m == "malformed"));
    assert_eq!(db.rules().iter().map(|r| r.text.as_str()).collect::<Vec<_>>(), vec!["a => b", "b => c"]);
    assert!(!db.enable_rule("t") && !db.disable_rule("t") && !db.remove_rule("t"));
    assert!(db.remove_rule("r"));
    assert!(!db.remove_rule("r"));
    assert_eq!(db.rule_effect_count("r"), None);
    assert_eq!(db.list_rules(), vec![("s".to_string(), true, 0)]);
}

/// A triple counts for the rule that gave it first.
#[test]
fn rules_count_their_new_triples() {
    let mut db = Database::new("d");
    db.add_rule("r", "a => b", Ok(())).unwrap();
    db.add_rule("s", "b => c", Ok(())).unwrap();
    let mut inferred = by("r", vec![triple("a", "p", "b"), triple("a", "p", "c")]);
    inferred.extend(by("s", vec![triple("a", "p", "b"), triple("a", "p", "d")]));
    inferred.extend(by("none", vec![triple("a", "p", "e")]));
    assert_eq!(db.run_rules(inferred), 3);
    assert_eq!(db.list_rules(), vec![("r".to_string(), true, 2), ("s".to_string(), true, 1)]);
    assert!(!db.stats().index_valid);
}

/// A registered function is visible to queries: the host looks it up by its name when
/// it evaluates one.
#[test]
fn register_function_visible_to_query() {
    let salary = Term::typed_literal("2500", "http://www.w3.org/2001/XMLSchema#integer");
    let data = vec![Triple::new(Term::iri("http://ex/alice"), Term::iri("http://ex/salary"), salary)];
    let mut db = Database::build_from_str("pfn", Ok(data)).unwrap();
    db.register_function("myDouble");
    let my_double = |text: &str| {
        let digits: String = text.chars().skip(1).take_while(|c| c.is_ascii_digit()).collect();
        (digits.parse::<f64>().unwrap() * 2.0).to_string()
    };
    assert_eq!(db.function_count(), 1);
    let q = "SELECT (myDouble(?s) AS ?d) WHERE { ?x <http://ex/salary> ?s }";
    match db.query(q, Ok(Request::Read), 0).unwrap() {
        Answer::Evaluate { .. } => {
            let found = objects(&db, "http://ex/alice", "http://ex/salary");
            let table = ResultSet {
                vars: vec!["d".to_string()],
                rows: found.iter().map(|s| vec![Some(my_double(s))]).collect(),
            };
            db.remember(q, Arc::new(QueryResult::Select(table)));
        }
        other => panic!("expected a miss, got {other:?}"),
    }
    let rs = match db.query(q, Ok(Request::Read), 0).unwrap() {
        Answer::Ready(r) => Database::select(&r).unwrap(),
        other => panic!("expected a kept result, got {other:?}"),
    };
    assert!(rs.rows[0][0].as_ref().unwrap().contains("5000"));
}

/// Reclaiming ids leaves the graphs, by their keys, and the kept results as they are.
#[test]
fn reclaiming_keeps_results() {
    let mut db = Database::build_from_str("t", parse(SMALL)).unwrap();
    db.remove_triple(&Triple::new(Term::iri("node1"), Term::iri("own"), Term::iri("point0")));
    let kept = select_objects(&mut db, "root", "contain");
    let before = rows(&db);
    assert_eq!(db.reclaim_unused(), 1);
    assert_eq!(rows(&db), before);
    match db.query("SELECT ?o WHERE { <root> <contain> ?o }", Ok(Request::Read), 0).unwrap() {
        Answer::Ready(r) => assert_eq!(Database::select(&r).unwrap(), kept),
        other => panic!("expected a kept result, got {other:?}"),
    }
}

#[test]
fn functions_are_registered_by_name() {
    let mut db = Database::build_from_str("t", parse(SMALL)).unwrap();
    read(&mut db, "SELECT (myDouble(?s) AS ?d) WHERE { ?x <name> ?s }");
    db.register_function("myDouble");
    assert_eq!(db.function_count(), 1);
    assert_eq!(db.query_cache_len(), 0, "queries may give other results now");
    db.register_function("MYDOUBLE");
    assert_eq!(db.function_count(), 1, "case does not matter");
    db.register_function("other");
    assert_eq!(db.function_count(), 2);
}

#[test]
fn derived_triples_are_added_once() {
    let mut db = Database::build_from_str("rl", parse("<a> <ancestor> <b> .\n<b> <ancestor> <c> .\n")).unwrap();
    let inferred = vec![triple("a", "ancestor", "c")];
    let n = db.materialize_rdfs(&inferred);
    assert_eq!(n, 1, "a→c inferred");
    assert_eq!(objects(&db, "a", "ancestor").len(), 2, "a now reaches both b and c");
    assert_eq!(db.materialize_rdfs(&inferred), 0, "nothing new the second time");
}

/// Mutating a database whose index is on disk invalidates the index.
#[test]
fn insertion_invalidates_a_disk_index() {
    let built = Database::build_from_str("m", parse("<a> <p> <b> .\n<b> <p> <c> .\n")).unwrap();
    let mut db = Database::load_disk(Some("m.db"), built.dict().duplicate(), built.store().duplicate());
    assert_eq!(db.name(), "m");
    assert!(db.stats().index_valid);

    // An insert can't update the on-disk tree in place ⇒ index invalidates.
    assert!(db.insert_triple(&Triple::new(Term::iri("c"), Term::iri("p"), Term::iri("d"))));
    assert!(!db.stats().index_valid, "mutation invalidates the disk-backed index");
    assert_eq!(objects(&db, "c", "p"), vec!["<d>".to_string()]);

    // A rebuild restores a valid index.
    db.rebuild_index();
    assert!(db.stats().index_valid);
}

#[test]
fn build_reports_progress_stages() {
    let mut stages = Vec::new();
    let (db, told) = Database::build_from_str_with_progress("p", || parse(SMALL), |s| stages.push(s));
    assert_eq!(db.unwrap().triple_num(), 5);
    assert_eq!(
        stages,
        vec![
            BuildProgress::RdfParse,
            BuildProgress::Dictionary,
            BuildProgress::Index,
            BuildProgress::Done,
        ]
    );
    assert_eq!(told, stages);
}

#[test]
fn a_build_that_does_not_parse_stops_at_the_first_stage() {
    let mut stages = Vec::new();
    let bad = || Err(GStoreError::Database("no".to_string()));
    let (db, _) = Database::build_from_str_with_progress("p", bad, |s| stages.push(s));
    assert!(matches!(db, Err(GStoreError::Database(m)) if m == "no"));
    assert_eq!(stages, vec![BuildProgress::RdfParse]);
}

#[test]
fn load_refuses_a_count_that_does_not_match() {
    let db = Database::build_from_str("rt", parse(SMALL)).unwrap();
    let mut meta = db.meta();
    meta.triple_num = 6;
    let r = Database::load(meta, db.dict().duplicate(), db.store().duplicate(), Vec::new());
    assert!(matches!(r.err(), Some(GStoreError::Database(_))));
}

#[test]
fn rollback_restores_the_triples() {
    let mut db = Database::build_from_str("t", parse(SMALL)).unwrap();
    let before = rows(&db);
    db.begin().unwrap();
    assert!(db.begin().is_err());
    assert!(db.in_transaction());
    db.insert_triple(&Triple::new(Term::iri("q"), Term::iri("contain"), Term::iri("z")));
    db.remove_triple(&Triple::new(Term::iri("root"), Term::iri("contain"), Term::iri("node0")));
    assert_ne!(rows(&db), before);
    db.rollback().unwrap();
    assert_eq!(rows(&db), before);
    assert!(matches!(db.rollback().err(), Some(GStoreError::Database(_)) | Some(GStoreError::Query(_))));
}

#[test]
fn schema_lists_classes_and_edges() {
    let t = "http://www.w3.org/1999/02/22-rdf-syntax-ns#type";
    let sub = "http://www.w3.org/2000/01/rdf-schema#subClassOf";
    let ts = vec![
        Triple::new(Term::iri("a"), Term::iri(t), Term::iri("Dog")),
        Triple::new(Term::iri("Dog"), Term::iri(sub), Term::iri("Animal")),
    ];
    let db = Database::build_from_str("s", Ok(ts)).unwrap();
    let schema = db.schema();
    assert_eq!(schema.classes, vec!["<Animal>".to_string(), "<Dog>".to_string()]);
    assert_eq!(schema.properties, vec![format!("<{t}>"), format!("<{sub}>")]);
}

#[test]
fn split_lines_cuts_behind_line_ends() {
    let doc = b"aa\nbb\ncc\n";
    assert_eq!(gstore::db::lines::split_lines(doc, 1), vec![(0, 9)]);
    let cut = gstore::db::lines::split_lines(doc, 2);
    assert_eq!(cut, vec![(0, 6), (6, 9)]);
}

#[test]
fn export_writes_one_line_per_triple() {
    let db = Database::build_from_str("t", parse(SMALL)).unwrap();
    let (lines, skipped) = db.export_lines();
    assert_eq!(skipped, 0);
    assert_eq!(lines.len(), 5);
    assert!(lines.contains(&"<root> <contain> <node0> .".to_string()));
}

#[test]
fn update_log_roundtrips() {
    let mut db = Database::build_from_str("t", parse(SMALL)).unwrap();
    db.enable_update_log("update.log");
    assert!(db.update_log_enabled());
    let q = "INSERT DATA {\n <a> <b> <c> }";
    db.query(q, insert_data(vec![ground("a", "b", "c")]), 17).unwrap();
    let log = db.take_update_out();
    let (texts, bad) = gstore::db::logs::update_records(&log);
    assert!(bad.is_none());
    assert_eq!(texts, vec![q.to_string()]);
    let (none, bad) = gstore::db::logs::update_records(b"garbage");
    assert!(none.is_empty());
    assert!(matches!(bad, Some(GStoreError::Database(_))));
    db.disable_update_log();
    assert!(!db.update_log_enabled());
}

#[test]
fn redo_log_refuses_a_torn_record() {
    let mut db = Database::build_from_str("t", parse(SMALL)).unwrap();
    db.enable_redo_log("redo.log");
    db.insert_triple(&Triple::new(Term::iri("a"), Term::iri("b"), Term::iri("c")));
    let log = db.take_redo_out();
    let (recs, bad) = redo_records(&log[..log.len() - 3]);
    assert!(recs.is_empty());
    assert!(matches!(bad, Some(GStoreError::Database(_))));
}

#[test]
fn load_needs_a_local_path() {
    assert_eq!(gstore::db::update::load_path("file:///tmp/x.nt").unwrap(), "/tmp/x.nt");
    assert!(matches!(gstore::db::update::load_path("http://ex/x.nt").err(), Some(GStoreError::Query(_))));
}

#[test]
fn select_refuses_other_results() {
    let e = Database::select(&QueryResult::Ask(true)).err();
    match e {
        Some(GStoreError::Query(m)) => assert!(m.contains("Ask(true)"), "{m}"),
        other => panic!("{other:?}"),
    }
}

#[test]
fn clear_removes_all_triples() {
    let mut db = Database::build_from_str("t", parse(SMALL)).unwrap();
    let op = UpdateOp::Clear { target: gstore::query::GraphTarget::All };
    assert_eq!(db.exec_update_op(op).unwrap(), 5);
    assert_eq!(db.triple_num(), 0);
    let op = UpdateOp::Load {
        source: "http://ex/x".to_string(),
        silent: false,
        parsed: Err(GStoreError::Io("no such file".to_string())),
    };
    assert!(db.exec_update_op(op).is_err());
    let op = UpdateOp::Load {
        source: "file:///x".to_string(),
        silent: true,
        parsed: Err(GStoreError::Io("no such file".to_string())),
    };
    assert_eq!(db.exec_update_op(op).unwrap(), 0);
}

#[test]
fn malformed_log_headers_are_quoted() {
    let (_, e) = gstore::db::logs::update_records(b"NOT \"it\"\n");
    assert_eq!(e.unwrap().message(), "database error: malformed update.log record header: \"NOT \\\"it\\\"\"");
    let (_, e) = gstore::db::logs::update_records(b"\xff\xfe\n");
    assert_eq!(e.unwrap().message(), "database error: non-UTF-8 update.log header");
}

#[test]
fn chunks_are_built_in_order_and_the_first_error_wins() {
    let t = |s: &str| Triple::new(Term::iri(s), Term::iri("p"), Term::iri("o"));
    let db = Database::build_from_ntriples_str_parallel("d", vec![Ok(vec![t("a")]), Ok(Vec::new()), Ok(vec![t("b"), t("a")])]).unwrap();
    assert_eq!(db.triple_num(), 2);
    assert_eq!(db.dict().entity_id("<a>"), Some(0));
    let bad = |m: &str| Err(GStoreError::Database(m.to_string()));
    let r = Database::build_from_ntriples_str_parallel("d", vec![Ok(vec![t("a")]), bad("first"), bad("second")]);
    assert!(matches!(r, Err(GStoreError::Database(m)) if m == "first"));
}

#[test]
fn a_description_goes_with_the_triples() {
    let ts = vec![
        Triple::new(Term::iri("a"), Term::iri("p"), Term::plain_literal("x")),
        Triple::new(Term::iri("a"), Term::iri("q"), Term::iri("b")),
    ];
    let (db, m) = Database::build_rocksdb_from_str("kv", Ok(ts)).unwrap();
    assert_eq!((m.name.as_str(), m.triple_num, m.entity_num, m.literal_num, m.predicate_num), ("kv", 2, 2, 1, 2));
    assert_eq!(db.triple_num(), 2);
}

#[test]
fn an_insertion_touches_its_subject_and_its_entity_object() {
    let mut db = Database::new("d");
    let t1 = Triple::new(Term::iri("a"), Term::iri("p"), Term::iri("b"));
    let t2 = Triple::new(Term::iri("a"), Term::iri("p"), Term::plain_literal("x"));
    assert!(db.has_room(2));
    assert!(!db.has_room(usize::MAX));
    db.insert_triple(&t1);
    db.insert_triple(&t2);
    let all = db.store().iter_all();
    for id in all {
        let touched = vstree_updates(db.store(), id);
        let expected = if id.obj == 1 { vec![0, 1] } else { vec![0] };
        assert_eq!(touched.iter().map(|e| e.id).collect::<Vec<_>>(), expected);
        for e in &touched {
            let made = vstree_entries(db.store()).into_iter().find(|x| x.id == e.id).unwrap();
            assert_eq!(e.outgoing, made.outgoing);
            assert_eq!(e.incoming, made.incoming);
        }
    }
}

fn triple(s: &str, p: &str, o: &str) -> Triple {
    Triple::new(Term::iri(s), Term::iri(p), Term::iri(o))
}

/// A pattern update sees what the operations before it did.
#[test]
fn a_pattern_is_matched_when_its_turn_comes() {
    let mut db = Database::new("d");
    db.enable_update_log("update.log");
    let q = "INSERT DATA { <a> <p> <b> } ; DELETE { ?s ?p ?o } WHERE { ?s ?p ?o }";
    let ops = vec![RequestOp::Ready(UpdateOp::InsertData(vec![ground("a", "p", "b")])), RequestOp::Pattern];
    let mut run = match db.query(q, Ok(Request::Update(UpdateRun::new(ops))), 3).unwrap() {
        Answer::Match(run) => run,
        other => panic!("expected a pattern to match, got {other:?}"),
    };
    assert_eq!(run.remaining(), 1);
    assert_eq!(rows(&db).len(), 1);
    assert!(db.take_update_out().is_empty(), "the request is not done yet");

    // The pattern matches what the insertion added.
    let matched: Vec<Triple> = rows(&db)
        .iter()
        .map(|(s, p, o)| Triple::new(term(s), term(p), term(o)))
        .collect();
    run.fill(matched, Vec::new());
    assert_eq!(changed(db.query(q, Ok(Request::Update(run)), 3)), 2);
    assert_eq!(db.triple_num(), 0);
    let (texts, bad) = gstore::db::logs::update_records(&db.take_update_out());
    assert!(bad.is_none());
    assert_eq!(texts, vec![q.to_string()]);
}

#[test]
fn an_update_stops_at_its_first_failure() {
    let mut db = Database::new("d");
    let load = UpdateOp::Load {
        source: "http://ex/x.nt".to_string(),
        silent: false,
        parsed: Err(GStoreError::Io("unused".to_string())),
    };
    let ops = vec![UpdateOp::InsertData(vec![ground("a", "p", "b")]), load, UpdateOp::InsertData(vec![ground("a", "p", "c")])];
    assert!(db.query("INSERT ; LOAD ; INSERT", update(ops), 0).is_err());
    assert_eq!(objects(&db, "a", "p"), vec!["<b>".to_string()]);
}

/// What a request cleared and what was derived comes back from the redo log.
#[test]
fn redo_log_replays_clear_and_derived_triples() {
    let start = "<a> <p> <b> .\n<a> <p> <c> .\n";
    let mut db = Database::build_from_str("rd", parse(start)).unwrap();
    db.enable_redo_log("redo.log");
    db.query("INSERT DATA", insert_data(vec![ground_in("g", "x", "p", "y")]), 0).unwrap();
    let clear = UpdateOp::Clear { target: GraphTarget::All };
    assert_eq!(changed(db.query("CLEAR ALL", update(vec![clear]), 0)), 3);
    db.add_rule("r", "?x <p> ?y => ?x <q> ?y", Ok(())).unwrap();
    assert_eq!(db.run_rules(by("r", vec![triple("a", "q", "c")])), 1);
    assert_eq!(db.materialize_rdfs(&vec![triple("c", "q", "a"), triple("a", "q", "c")]), 1);
    let log = db.take_redo_out();

    let mut recovered = Database::build_from_str("rd", parse(start)).unwrap();
    assert_eq!(replay(&mut recovered, &log).unwrap(), 6);
    assert_eq!(rows(&recovered), rows(&db));
    assert_eq!(rows(&recovered).len(), 2);
    assert_eq!(recovered.named_graphs().iter().map(|g| g.store.iter_all().len()).sum::<usize>(), 0);
}

#[test]
fn dropping_a_transaction_drops_its_clear() {
    let mut db = Database::build_from_str("rd", parse(SMALL)).unwrap();
    db.enable_redo_log("redo.log");
    let before = rows(&db);
    db.begin().unwrap();
    db.query("DROP ALL", update(vec![UpdateOp::Drop { target: GraphTarget::All }]), 0).unwrap();
    assert_eq!(db.triple_num(), 0);
    db.rollback().unwrap();
    assert_eq!(rows(&db), before);
    assert!(db.take_redo_out().is_empty());
}

#[test]
fn redo_records_name_their_graphs() {
    let log = b"REDO I 0 13\n<a> <p> <b> .\nREDO I 3 13\ng:1<a> <p> <c> .\nREDO D 0 13\n<a> <p> <b> .\n";
    let mut db = Database::new("d");
    assert_eq!(replay(&mut db, log).unwrap(), 3);
    assert_eq!(db.triple_num(), 0);
    let graphs = db.named_graphs();
    assert_eq!(graphs.len(), 1);
    assert_eq!(Some(graphs[0].id), db.dict().entity_id("<g:1>"));
    assert_eq!(graphs[0].store.iter_all().len(), 1);
}

#[test]
fn an_empty_graph_stays_until_it_is_cleared() {
    let mut db = Database::new("d");
    db.query("INSERT DATA", insert_data(vec![ground_in("g", "a", "p", "b")]), 0).unwrap();
    assert_eq!(db.named_graphs().len(), 1);
    db.query("DELETE DATA", delete_data(vec![ground_in("g", "a", "p", "b")]), 0).unwrap();
    assert_eq!(db.named_graphs().len(), 1, "a deletion leaves the graph empty");
    assert_eq!(db.named_graphs()[0].store.iter_all().len(), 0);

    // Rolling back an insertion leaves the graph that it made.
    db.begin().unwrap();
    db.query("INSERT DATA", insert_data(vec![ground_in("h", "a", "p", "b")]), 0).unwrap();
    db.rollback().unwrap();
    assert!(db.named_graphs().iter().all(|g| g.store.iter_all().is_empty()));

    // Clearing takes the graph away, if there was something in it.
    let clear = || update(vec![UpdateOp::Clear { target: GraphTarget::Named("g".to_string()) }]);
    let named = db.named_graphs().len();
    assert_eq!(changed(db.query("CLEAR GRAPH <g>", clear(), 0)), 0);
    assert_eq!(db.named_graphs().len(), named);
    db.query("INSERT DATA", insert_data(vec![ground_in("g", "a", "p", "b")]), 0).unwrap();
    assert_eq!(changed(db.query("CLEAR GRAPH <g>", clear(), 0)), 1);
    let g = db.dict().entity_id("<g>").unwrap();
    assert!(db.named_graphs().iter().all(|n| n.id != g));
}

#[test]
fn batches_of_any_size_build_the_same() {
    let ts = parse(SMALL).unwrap();
    let whole = Database::build_from_str("b", parse(SMALL)).unwrap();
    for batch in 1..7 {
        let mut b = BatchBuild::new("b", batch);
        for t in &ts {
            b.push(t);
        }
        let db = b.finish();
        assert_eq!(rows(&db), rows(&whole));
        assert_eq!(db.dict().entity_id("<point1>"), whole.dict().entity_id("<point1>"));
        assert!(db.stats().index_valid);
    }
}

#[test]
fn room_is_counted_in_new_terms() {
    let db = Database::build_from_str("t", parse(SMALL)).unwrap();
    assert!(db.fits(&triple("root", "contain", "new"), Some("g")));
    assert!(db.fits(&Triple::new(Term::iri("root"), Term::iri("name"), Term::plain_literal("x")), None));
    assert!(Database::build_has_room(&parse(SMALL).unwrap()));
}

#[test]
fn log_paths_are_kept() {
    let mut db = Database::new("d");
    assert_eq!((db.update_log_path(), db.redo_log_path()), (None, None));
    db.enable_update_log("u");
    db.enable_redo_log("r");
    assert_eq!((db.update_log_path(), db.redo_log_path()), (Some("u"), Some("r")));
}

/// Every way of changing the graphs drops the kept results.
#[test]
fn a_kept_result_goes_when_the_graphs_change() {
    let q = "SELECT ?o WHERE { <root> <contain> ?o }";
    let mut db = Database::build_from_str("t", parse(SMALL)).unwrap();
    read(&mut db, q);
    db.materialize_rdfs(&vec![triple("root", "contain", "node5")]);
    assert!(!db.query_cache_contains(q), "derivation");
    read(&mut db, q);
    db.begin().unwrap();
    db.remove_triple(&triple("root", "contain", "node5"));
    assert!(!db.query_cache_contains(q), "removal");
    read(&mut db, q);
    db.rollback().unwrap();
    assert!(!db.query_cache_contains(q), "rollback");
    read(&mut db, q);
    db.query("CLEAR ALL", update(vec![UpdateOp::Clear { target: GraphTarget::All }]), 0).unwrap();
    assert!(!db.query_cache_contains(q), "clear");
}

#[test]
fn any_two_batch_sizes_build_the_same_database() {
    let whole = Database::build_from_str("b", parse(SMALL)).unwrap();
    for size in [0usize, 1, 2, 5, 100] {
        let db = Database::build_from_ntriples_batched("b", parse(SMALL), size).unwrap();
        assert_eq!(db.store().iter_all(), whole.store().iter_all());
        assert_eq!(db.export_lines(), whole.export_lines());
        assert_eq!(db.entity_num(), whole.entity_num());
    }
}

#[test]
fn an_insertion_counts_once_and_leaves_the_rest() {
    let mut db = Database::build_from_str("b", parse(SMALL)).unwrap();
    db.query("INSERT DATA", insert_data(vec![ground_in("g", "x", "y", "z")]), 0).unwrap();
    let named = db.stats().triple_num;
    let t = Triple::new(Term::iri("new"), Term::iri("own"), Term::iri("point0"));
    assert!(db.insert_triple(&t));
    assert_eq!(db.triple_num(), named + 1);
    assert!(db.stats().index_valid);
    assert!(!db.insert_triple(&t));
    assert_eq!(db.triple_num(), named + 1);
    assert_eq!(db.named_graphs().len(), 1);
}
