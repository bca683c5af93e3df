use gstore::http_api::{is_update_sparql, valid_db_name, Action, ApiState, Fresh, Request, Resp};
use gstore::http_replies::{backed_up, batch_done, checkpointed, ended, monitor, queried, status, unloaded, Counts, Rendered};
use gstore::http_users::UserStore;

#[test]
fn detects_update_statements() {
    assert!(is_update_sparql("INSERT DATA { <a> <b> <c> }"));
    assert!(is_update_sparql("  delete data { <a> <b> <c> }"));
    assert!(is_update_sparql(
        "PREFIX : <http://x/> INSERT DATA { :a :b :c }"
    ));
    assert!(!is_update_sparql("SELECT * WHERE { ?s ?p ?o }"));
    assert!(!is_update_sparql("ASK { ?s ?p ?o }"));
    assert!(!is_update_sparql(
        "PREFIX : <http://x/> SELECT * WHERE { ?s ?p ?o }"
    ));
}

#[test]
fn validates_db_names() {
    assert!(valid_db_name("my_db-1"));
    assert!(!valid_db_name(""));
    assert!(!valid_db_name("../etc"));
    assert!(!valid_db_name("a b"));
}

fn request(method: &str, path: &str, params: &[(&str, &str)]) -> Request {
    Request {
        method: method.to_string(),
        path: path.to_string(),
        params: params.iter().map(|(k, v)| (k.to_string(), v.to_string())).collect(),
        query: None,
        body: String::new(),
        token: None,
        basic: None,
        accept: None,
    }
}

fn fresh_values() -> Fresh {
    Fresh { token: "tok".to_string(), salt: 7, now: 100 }
}

fn state() -> ApiState {
    let (users, _) = UserStore::open(None, "secret", 1);
    ApiState::new(users)
}

fn reply(a: Action) -> Resp {
    match a {
        Action::Reply(r) => r,
        other => panic!("{other:?}"),
    }
}

#[test]
fn a_request_without_a_user_is_refused() {
    let mut s = state();
    let r = reply(s.dispatch(&request("GET", "/show", &[]), None, &fresh_values()));
    assert_eq!(r.status, 401);
    assert_eq!(r.body, "{\"StatusCode\":401,\"StatusMsg\":\"authentication required\"}");
    assert_eq!(r.extra, vec![("WWW-Authenticate".to_string(), "Basic realm=\"gStore\"".to_string())]);
    let r = reply(s.dispatch(&request("GET", "/nowhere", &[]), Some("root"), &fresh_values()));
    assert_eq!(r.status, 404);
}

#[test]
fn a_login_gives_a_session() {
    let mut s = state();
    let login = request("POST", "/login", &[("username", "root"), ("password", "secret")]);
    let r = reply(s.dispatch(&login, None, &fresh_values()));
    assert_eq!(r.status, 200);
    assert!(r.body.contains("\"session\":\"tok\""));
    let mut with_token = request("GET", "/show", &[]);
    with_token.token = Some("tok".to_string());
    assert_eq!(s.resolve_user(&with_token, 101), Some("root".to_string()));
    let mut out = request("GET", "/logout", &[]);
    out.token = Some("tok".to_string());
    assert_eq!(reply(s.dispatch(&out, None, &fresh_values())).status, 401);
    assert_eq!(s.resolve_user(&with_token, 101), Some("root".to_string()));
    assert_eq!(reply(s.dispatch(&out, Some("root"), &fresh_values())).status, 200);
    assert_eq!(s.resolve_user(&with_token, 101), None);
    let wrong = request("POST", "/login", &[("username", "root"), ("password", "x")]);
    assert_eq!(reply(s.dispatch(&wrong, None, &fresh_values())).status, 401);
    let none = request("POST", "/login", &[]);
    assert_eq!(reply(s.dispatch(&none, None, &fresh_values())).status, 400);
}

#[test]
fn a_user_needs_the_privilege() {
    let mut s = state();
    let make = request("POST", "/user/create", &[("username", "amy"), ("password", "p"), ("privileges", "query")]);
    assert!(matches!(s.dispatch(&make, Some("root"), &fresh_values()), Action::SaveUsers(r) if r.status == 200));
    assert_eq!(reply(s.dispatch(&make, Some("root"), &fresh_values())).status, 400);
    let drop = request("POST", "/drop", &[("db_name", "a")]);
    assert_eq!(reply(s.dispatch(&drop, Some("amy"), &fresh_values())).status, 403);
    let mut update = request("GET", "/sparql", &[("db_name", "a"), ("sparql", "INSERT DATA { <a> <b> <c> }")]);
    assert_eq!(reply(s.dispatch(&update, Some("amy"), &fresh_values())).status, 403);
    update.params[1].1 = "SELECT ?s WHERE { ?s ?p ?o }".to_string();
    assert_eq!(s.loaded("a", true, Ok(())).status, 200);
    assert!(matches!(s.dispatch(&update, Some("amy"), &fresh_values()), Action::Query { db, .. } if db == "a"));
}

#[test]
fn one_transaction_at_a_time_is_open_on_a_database() {
    let mut s = state();
    let begin = request("POST", "/begin", &[("db_name", "a")]);
    assert_eq!(reply(s.dispatch(&begin, Some("root"), &fresh_values())).status, 404);
    let r = s.built("a", Ok(3), Ok(()));
    assert_eq!(r.status, 200);
    assert!(s.is_loaded("a"));
    assert!(matches!(s.dispatch(&begin, Some("root"), &fresh_values()), Action::Begin { db } if db == "a"));
    assert!(s.begun("a", 5, &Ok(())).is_some());
    assert!(s.is_busy("a"));
    assert_eq!(s.open_transactions(), 1);
    assert_eq!(reply(s.dispatch(&begin, Some("root"), &fresh_values())).status, 409);
    let drop = request("POST", "/drop", &[("db_name", "a")]);
    assert_eq!(reply(s.dispatch(&drop, Some("root"), &fresh_values())).status, 409);
    let end = request("POST", "/commit", &[("tid", "5")]);
    assert!(matches!(s.dispatch(&end, Some("root"), &fresh_values()), Action::End { tid: 5, commit: true, .. }));
    assert!(!s.is_busy("a"));
    assert_eq!(reply(s.dispatch(&end, Some("root"), &fresh_values())).status, 404);
    assert!(matches!(s.dispatch(&drop, Some("root"), &fresh_values()), Action::Drop { was_loaded: true, .. }));
    assert!(!s.is_loaded("a"));
}

#[test]
fn replies_say_what_happened() {
    let mut s = state();
    assert_eq!(s.built("a", Err("bad line".to_string()), Ok(())).status, 400);
    assert_eq!(s.built("a", Ok(1), Err("full".to_string())).status, 500);
    assert!(!s.is_loaded("a"));
    assert_eq!(s.loaded("a", true, Ok(())).status, 200);
    let r = s.show(&vec!["b.db".to_string(), "notes.txt".to_string()], &vec![("a".to_string(), "12".to_string())]);
    assert_eq!(
        r.body,
        "{\"StatusCode\":0,\"StatusMsg\":\"success\",\"databases\":[{\"name\":\"a\",\"loaded\":true,\"in_transaction\":false,\"triples\":12},{\"name\":\"b\",\"loaded\":false,\"in_transaction\":false,\"triples\":null}]}"
    );
    assert_eq!(ended("a", 5, true, Some(Ok(()))).body, "{\"StatusCode\":0,\"StatusMsg\":\"transaction 5 commit done\"}");
    assert_eq!(ended("a", 5, false, None).status, 404);
    assert_eq!(batch_done(true, Ok(Some(2))).body, "{\"StatusCode\":0,\"StatusMsg\":\"batch inserted\",\"changed\":2}");
    assert_eq!(batch_done(false, Ok(None)).status, 400);
    assert_eq!(backed_up("x", Err("no".to_string())).status, 500);
    assert_eq!(checkpointed("a", Ok(())).status, 200);
    let c = Counts { databases: 1, triples: 2, transactions: 0, users: 1, requests: 9, uptime: 60 };
    assert_eq!(
        status(c).body,
        "{\"StatusCode\":0,\"StatusMsg\":\"running\",\"databases_loaded\":1,\"total_triples\":2,\"open_transactions\":0,\"users\":1,\"requests\":9,\"uptime_secs\":60}"
    );
    assert!(monitor(c, &Vec::new()).body.ends_with("\"databases\":[]}"));
}

#[test]
fn an_update_is_told_by_its_keyword_however_it_is_spaced() {
    assert!(is_update_sparql("DELETE{ <a> <b> <c> } WHERE { <a> <b> <c> }"));
    assert!(is_update_sparql("PREFIX :<http://x/> INSERT DATA { :a :b :c }"));
    assert!(is_update_sparql("PREFIX a:<http://x/>INSERT{ ?s a:b 1 }WHERE{ ?s ?p ?o }"));
    assert!(is_update_sparql("# a remark > : <\nBASE <http://x/>\nprefix a: # another >\n <http://y#z> # and more\nwith <g> delete { ?s ?p ?o }"));
    assert!(!is_update_sparql("PREFIX insert: <http://x/> SELECT ?s { ?s insert:a 1 }"));
    assert!(!is_update_sparql("BASE<http://x/>SELECT*{ ?s ?p ?o }"));
    assert!(!is_update_sparql("PREFIX delete"));
    assert!(!is_update_sparql(""));
    assert!(!is_update_sparql("INSERTS DATA { }"));
}

#[test]
fn a_database_that_is_not_loaded_is_not_used() {
    let mut s = state();
    assert_eq!(s.built("a", Ok(3), Ok(())).status, 200);
    let mut query = request("GET", "/sparql", &[("db_name", "a"), ("sparql", "ASK { ?s ?p ?o }"), ("format", "xml")]);
    query.accept = Some("text/csv".to_string());
    match s.dispatch(&query, Some("root"), &fresh_values()) {
        Action::Query { db, sparql, format, accept } => {
            assert_eq!((db.as_str(), sparql.as_str()), ("a", "ASK { ?s ?p ?o }"));
            assert_eq!(format, Some("xml".to_string()));
            assert_eq!(accept, Some("text/csv".to_string()));
        }
        other => panic!("{other:?}"),
    }
    let unload = request("POST", "/unload", &[("db_name", "a")]);
    assert!(matches!(s.dispatch(&unload, Some("root"), &fresh_values()), Action::Unload { db } if db == "a"));
    assert!(!s.is_loaded("a"));
    assert_eq!(unloaded("a").body, "{\"StatusCode\":0,\"StatusMsg\":\"database 'a' unloaded\"}");
    let batch = request("POST", "/batchInsert", &[("db_name", "a"), ("triples", " <x> <y> <z> . ")]);
    for (req, said) in [(&query, "ASK { ?s ?p ?o }"), (&batch, "INSERT DATA { <x> <y> <z> . }")] {
        match s.dispatch(req, Some("root"), &fresh_values()) {
            Action::Refuse { db, statement, answer } => {
                assert_eq!((db.as_str(), statement.as_str()), ("a", said));
                assert_eq!(answer.status, 404);
                assert_eq!(answer.body, "{\"StatusCode\":404,\"StatusMsg\":\"database 'a' is not loaded\"}");
            }
            other => panic!("{other:?}"),
        }
    }
    assert_eq!(reply(s.dispatch(&unload, Some("root"), &fresh_values())).status, 404);
}

#[test]
fn a_query_is_answered_in_its_content_type() {
    let t = queried(Rendered::Table { ctype: "text/csv".to_string(), body: "s\n1".to_string() });
    assert_eq!((t.status, t.ctype.as_str(), t.body.as_str()), (200, "text/csv", "s\n1"));
    let n = queried(Rendered::Triples("<a> <b> <c> .\n".to_string()));
    assert_eq!((n.status, n.ctype.as_str()), (200, "application/n-triples"));
    let c = queried(Rendered::Changed(4));
    assert_eq!((c.status, c.ctype.as_str()), (200, "application/json"));
    assert_eq!(c.body, "{\"StatusCode\":0,\"StatusMsg\":\"success\",\"changed\":4}");
    let e = queried(Rendered::Failed("{\"error\":\"no\"}".to_string()));
    assert_eq!((e.status, e.ctype.as_str(), e.body.as_str()), (400, "application/sparql-results+json", "{\"error\":\"no\"}"));
}
