use gstore::concurrent::{ConcurrentDb, Outcome, Snapshot};
use gstore::db::requests::{Request, UpdateRun};
use gstore::query::{GroundTriple, RequestOp, UpdateOp};
use gstore::{GStoreError, Result, Term, Triple};

fn cdb() -> ConcurrentDb {
    let data = vec![Triple::new(Term::iri("http://ex/a"), Term::iri("http://ex/p"), Term::iri("http://ex/b"))];
    ConcurrentDb::build_from_str("conc", Ok(data)).unwrap()
}

fn edge(o: &str) -> Vec<GroundTriple> {
    vec![GroundTriple {
        subject: Term::iri("http://ex/a"),
        predicate: Term::iri("http://ex/p"),
        object: Term::iri(o),
        graph: None,
    }]
}

fn request(ops: Vec<RequestOp>) -> Result<Request> {
    Ok(Request::Update(UpdateRun::new(ops)))
}

fn insert_edge(o: &str) -> Result<Request> {
    request(vec![RequestOp::Ready(UpdateOp::InsertData(edge(o)))])
}

fn delete_edge(o: &str) -> Result<Request> {
    request(vec![RequestOp::Ready(UpdateOp::DeleteData(edge(o)))])
}

fn changed(r: Result<Outcome>) -> usize {
    match r.unwrap() {
        Outcome::Done(n) => n,
        Outcome::Match(_) => panic!("no pattern is left"),
    }
}

/// The number of objects of `<http://ex/a> <http://ex/p>`.
fn edges(s: &Snapshot) -> usize {
    let sub = s.dict().term_id(&Term::iri("http://ex/a")).unwrap();
    let pred = s.dict().predicate_id(&Term::iri("http://ex/p").dict_key()).unwrap();
    s.store().o_by_sp(sub, pred).len()
}

#[test]
fn single_thread_read_write_roundtrip() {
    let mut c = cdb();
    assert_eq!(c.version(), 1);
    assert_eq!(edges(&c.snapshot()), 1);

    let n = changed(c.update("INSERT DATA { <http://ex/a> <http://ex/p> <http://ex/c> }", insert_edge("http://ex/c"), 0));
    assert_eq!(n, 1);
    assert_eq!(c.version(), 2);
    assert_eq!(edges(&c.snapshot()), 2);

    c.update("DELETE DATA { <http://ex/a> <http://ex/p> <http://ex/c> }", delete_edge("http://ex/c"), 0)
        .unwrap();
    assert_eq!(edges(&c.snapshot()), 1);
}

#[test]
fn old_snapshot_is_stable_across_commits() {
    let mut c = cdb();
    let snap = c.snapshot(); // version 1: 1 triple
    c.update("INSERT DATA { <http://ex/a> <http://ex/p> <http://ex/c> }", insert_edge("http://ex/c"), 0)
        .unwrap();
    // The held snapshot still sees the old state; the live db sees the new.
    assert_eq!(snap.store().iter_all().len(), 1);
    assert_eq!(c.snapshot().store().iter_all().len(), 2);
    assert_eq!(snap.version(), 1);
}

#[test]
fn a_read_is_no_update() {
    let mut c = cdb();
    assert!(c.update("SELECT ?o WHERE { ?s ?p ?o }", Ok(Request::Read), 0).is_err());
    assert_eq!(c.version(), 1);
}

#[test]
fn a_write_is_published() {
    let mut c = cdb();
    let t = Triple::new(Term::iri("x"), Term::iri("y"), Term::iri("z"));
    let added = c.write(|d| d.insert_triple(&t));
    assert!(added);
    assert_eq!(c.version(), 2);
    assert_eq!(c.snapshot().store().iter_all().len(), 2);
}

/// A request that fails half way leaves nothing behind, in the writer either.
#[test]
fn a_failed_update_has_no_effect() {
    let mut c = cdb();
    let load = UpdateOp::Load {
        source: "http://ex/x.nt".to_string(),
        silent: false,
        parsed: Err(GStoreError::Io("unused".to_string())),
    };
    let ops = vec![RequestOp::Ready(UpdateOp::InsertData(edge("http://ex/c"))), RequestOp::Ready(load)];
    assert!(c.update("INSERT ; LOAD", request(ops), 0).is_err());
    assert_eq!(c.version(), 1);
    assert_eq!(edges(&c.snapshot()), 1);
    assert_eq!(changed(c.update("INSERT", insert_edge("http://ex/d"), 0)), 1);
    assert_eq!(c.version(), 2);
    assert_eq!(edges(&c.snapshot()), 2);
    assert_eq!(changed(c.update("INSERT", insert_edge("http://ex/c"), 0)), 1, "the failed insertion is gone");
}

/// Nothing is published before the last operation of a request is done.
#[test]
fn a_pattern_update_is_published_whole() {
    let mut c = cdb();
    let ops = vec![RequestOp::Ready(UpdateOp::InsertData(edge("http://ex/c"))), RequestOp::Pattern];
    let mut draft = match c.update("INSERT ; DELETE WHERE", request(ops), 0).unwrap() {
        Outcome::Match(draft) => draft,
        Outcome::Done(_) => panic!("a pattern is left"),
    };
    assert_eq!(draft.remaining(), 1);
    assert_eq!(draft.version(), 1);
    assert_eq!(draft.db().triple_num(), 2, "the pattern sees the insertion");
    assert_eq!(edges(&c.snapshot()), 1);
    let gone: Vec<Triple> = edge("http://ex/c")
        .into_iter()
        .map(|t| Triple::new(t.subject, t.predicate, t.object))
        .collect();
    draft.fill(gone, Vec::new());
    assert_eq!(changed(c.resume("INSERT ; DELETE WHERE", draft, 0)), 2);
    assert_eq!(c.version(), 2);
    assert_eq!(edges(&c.snapshot()), 1);
}

#[test]
fn a_snapshot_stays_over_many_calls_and_each_success_raises_the_version() {
    let mut c = cdb();
    let held = c.snapshot();
    let mut version = c.version();
    for i in 0..20 {
        let o = format!("http://ex/n{i}");
        if i % 3 == 0 {
            assert!(c.update("BROKEN", Err(GStoreError::Query("broken".to_string())), 0).is_err());
            assert!(c.update("ASK {}", Ok(Request::Read), 0).is_err());
        } else if i % 3 == 1 {
            changed(c.update("INSERT DATA", insert_edge(&o), 0));
            version += 1;
        } else {
            c.write(|db| {
                db.insert_triple(&Triple::new(Term::iri("http://ex/a"), Term::iri("http://ex/p"), Term::iri(&o)));
            });
            version += 1;
        }
        assert_eq!(c.version(), version);
        assert_eq!((held.version(), edges(&held)), (1, 1));
    }
    assert_eq!(edges(&c.snapshot()), version as usize);
}
