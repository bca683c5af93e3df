//! What each address of the HTTP endpoint is for.

use crate::fields::{law_trimmed_has_no_white_ends, trimmed};
use crate::http_api::{caller, db_name_ok, endpoint_of, is_update, json_answer, login_text, named_txn, okay, param_in, picked_db, step, ActionSpec, ApiSpec, Endpoint, RequestSpec};
use crate::http_users::{allowed, knows, name_char, parsed_list, session_owner, set_text, Privilege, UserStoreSpec};
use crate::text::{decimal, is_digit, lemma_decimal_reads_back, parsed_unsigned};
use vstd::prelude::*;
use vstd::string::*;
use vstd::utf8::encode_utf8;

verus! {

/// The first parameter with the name counts: the others do not matter.
pub proof fn law_first_parameter_counts(params: Seq<(Seq<char>, Seq<char>)>, name: Seq<char>)
    ensures
        param_in(params, name) is None <==> forall|k: int| 0 <= k < params.len() ==> (#[trigger] params[k]).0 != name,
        forall|k: int| 0 <= k < params.len() && (#[trigger] params[k]).0 == name && (forall|j: int| 0 <= j < k ==> (#[trigger] params[j]).0 != name) ==> param_in(params, name) == Some(params[k].1),
    decreases params.len(),
{
    if params.len() > 0 {
        let rest = params.skip(1);
        law_first_parameter_counts(rest, name);
        if params[0].0 != name {
            assert forall|k: int| 0 <= k < params.len() && (#[trigger] params[k]).0 == name && (forall|j: int| 0 <= j < k ==> (#[trigger] params[j]).0 != name) implies param_in(params, name) == Some(params[k].1) by {
                assert(rest[k - 1] == params[k]);
                assert forall|j: int| 0 <= j < k - 1 implies (#[trigger] rest[j]).0 != name by {
                    assert(rest[j] == params[j + 1]);
                }
            }
            if param_in(params, name) is None {
                assert forall|k: int| 0 <= k < params.len() implies (#[trigger] params[k]).0 != name by {
                    if k > 0 {
                        assert(rest[k - 1] == params[k]);
                    }
                }
            }
            if forall|k: int| 0 <= k < params.len() ==> (#[trigger] params[k]).0 != name {
                assert forall|k: int| 0 <= k < rest.len() implies (#[trigger] rest[k]).0 != name by {
                    assert(rest[k] == params[k + 1]);
                }
            }
        }
    }
}

#[verifier::spinoff_prover]
#[verifier::rlimit(60)]
proof fn lemma_words()
    ensures
        "GET"@ != "POST"@,
        endpoint_of("GET"@, "/sparql"@) == Some(Endpoint::Sparql),
        endpoint_of("POST"@, "/sparql"@) == Some(Endpoint::Sparql),
        endpoint_of("POST"@, "/update"@) == Some(Endpoint::Update),
        endpoint_of("POST"@, "/build"@) == Some(Endpoint::Build),
        endpoint_of("POST"@, "/load"@) == Some(Endpoint::Load),
        endpoint_of("POST"@, "/unload"@) == Some(Endpoint::Unload),
        endpoint_of("POST"@, "/drop"@) == Some(Endpoint::Drop),
        endpoint_of("GET"@, "/show"@) == Some(Endpoint::Show),
        endpoint_of("POST"@, "/show"@) == Some(Endpoint::Show),
        endpoint_of("POST"@, "/begin"@) == Some(Endpoint::Begin),
        endpoint_of("POST"@, "/tquery"@) == Some(Endpoint::Tquery),
        endpoint_of("POST"@, "/commit"@) == Some(Endpoint::Commit),
        endpoint_of("POST"@, "/rollback"@) == Some(Endpoint::Rollback),
        endpoint_of("POST"@, "/checkpoint"@) == Some(Endpoint::Checkpoint),
        endpoint_of("POST"@, "/backup"@) == Some(Endpoint::Backup),
        endpoint_of("POST"@, "/restore"@) == Some(Endpoint::Restore),
        endpoint_of("GET"@, "/export"@) == Some(Endpoint::Export),
        endpoint_of("POST"@, "/export"@) == Some(Endpoint::Export),
        endpoint_of("POST"@, "/batchInsert"@) == Some(Endpoint::BatchInsert),
        endpoint_of("POST"@, "/batchRemove"@) == Some(Endpoint::BatchRemove),
        endpoint_of("GET"@, "/status"@) == Some(Endpoint::Status),
        endpoint_of("GET"@, "/monitor"@) == Some(Endpoint::Monitor),
        endpoint_of("POST"@, "/user/create"@) == Some(Endpoint::UserCreate),
        endpoint_of("POST"@, "/user/drop"@) == Some(Endpoint::UserDrop),
        endpoint_of("POST"@, "/user/password"@) == Some(Endpoint::UserPassword),
        endpoint_of("POST"@, "/user/grant"@) == Some(Endpoint::UserGrant),
        endpoint_of("POST"@, "/user/revoke"@) == Some(Endpoint::UserRevoke),
        endpoint_of("GET"@, "/user/show"@) == Some(Endpoint::UserShow),
        endpoint_of("GET"@, "/querylog"@) == Some(Endpoint::QueryLog),
        endpoint_of("GET"@, "/accesslog"@) == Some(Endpoint::AccessLog),
        endpoint_of("GET"@, "/txnlog"@) == Some(Endpoint::TxnLog),
{
    reveal_strlit("GET");
    reveal_strlit("POST");
    reveal_strlit("/sparql");
    reveal_strlit("/update");
    reveal_strlit("/build");
    reveal_strlit("/load");
    reveal_strlit("/unload");
    reveal_strlit("/drop");
    reveal_strlit("/show");
    reveal_strlit("/begin");
    reveal_strlit("/tquery");
    reveal_strlit("/commit");
    reveal_strlit("/rollback");
    reveal_strlit("/checkpoint");
    reveal_strlit("/backup");
    reveal_strlit("/restore");
    reveal_strlit("/export");
    reveal_strlit("/batchInsert");
    reveal_strlit("/batchRemove");
    reveal_strlit("/status");
    reveal_strlit("/monitor");
    reveal_strlit("/user/create");
    reveal_strlit("/user/drop");
    reveal_strlit("/user/password");
    reveal_strlit("/user/grant");
    reveal_strlit("/user/revoke");
    reveal_strlit("/user/show");
    reveal_strlit("/querylog");
    reveal_strlit("/accesslog");
    reveal_strlit("/txnlog");
    assert("GET"@.len() == 3);
    assert("POST"@.len() == 4);
    assert("/sparql"@.len() == 7);
    assert("/update"@.len() == 7);
    assert("/build"@.len() == 6);
    assert("/load"@.len() == 5);
    assert("/unload"@.len() == 7);
    assert("/drop"@.len() == 5);
    assert("/show"@.len() == 5);
    assert("/begin"@.len() == 6);
    assert("/tquery"@.len() == 7);
    assert("/commit"@.len() == 7);
    assert("/rollback"@.len() == 9);
    assert("/checkpoint"@.len() == 11);
    assert("/backup"@.len() == 7);
    assert("/restore"@.len() == 8);
    assert("/export"@.len() == 7);
    assert("/batchInsert"@.len() == 12);
    assert("/batchRemove"@.len() == 12);
    assert("/status"@.len() == 7);
    assert("/monitor"@.len() == 8);
    assert("/user/create"@.len() == 12);
    assert("/user/drop"@.len() == 10);
    assert("/user/password"@.len() == 14);
    assert("/user/grant"@.len() == 11);
    assert("/user/revoke"@.len() == 12);
    assert("/user/show"@.len() == 10);
    assert("/querylog"@.len() == 9);
    assert("/accesslog"@.len() == 10);
    assert("/txnlog"@.len() == 7);
    assert("/sparql"@[1] == 's' && "/sparql"@[2] == 'p');
    assert("/update"@[1] == 'u' && "/update"@[2] == 'p');
    assert("/unload"@[1] == 'u' && "/unload"@[2] == 'n');
    assert("/tquery"@[1] == 't' && "/tquery"@[2] == 'q');
    assert("/commit"@[1] == 'c');
    assert("/backup"@[1] == 'b');
    assert("/export"@[1] == 'e');
    assert("/status"@[1] == 's' && "/status"@[2] == 't');
    assert("/txnlog"@[1] == 't' && "/txnlog"@[2] == 'x');
    assert("/load"@[1] == 'l');
    assert("/drop"@[1] == 'd');
    assert("/show"@[1] == 's');
    assert("/build"@[1] == 'b' && "/build"@[2] == 'u');
    assert("/begin"@[1] == 'b' && "/begin"@[2] == 'e');
    assert("/restore"@[1] == 'r');
    assert("/monitor"@[1] == 'm');
    assert("/rollback"@[1] == 'r');
    assert("/querylog"@[1] == 'q');
    assert("/accesslog"@[1] == 'a');
    assert("/checkpoint"@[1] == 'c');
    assert("/batchInsert"@[1] == 'b' && "/batchInsert"@[6] == 'I');
    assert("/batchRemove"@[1] == 'b' && "/batchRemove"@[6] == 'R');
    assert("/user/create"@[1] == 'u' && "/user/create"@[6] == 'c');
    assert("/user/revoke"@[1] == 'u' && "/user/revoke"@[6] == 'r');
    assert("/user/drop"@[1] == 'u' && "/user/drop"@[6] == 'd');
    assert("/user/show"@[1] == 'u' && "/user/show"@[6] == 's');
    assert("/user/grant"@[1] == 'u');
}

proof fn lemma_not_login()
    ensures
        "/sparql"@ != "/login"@ && "/sparql"@ != "/logout"@,
        "/update"@ != "/login"@ && "/update"@ != "/logout"@,
        "/build"@ != "/login"@ && "/build"@ != "/logout"@,
        "/load"@ != "/login"@ && "/load"@ != "/logout"@,
        "/unload"@ != "/login"@ && "/unload"@ != "/logout"@,
        "/drop"@ != "/login"@ && "/drop"@ != "/logout"@,
        "/show"@ != "/login"@ && "/show"@ != "/logout"@,
        "/begin"@ != "/login"@ && "/begin"@ != "/logout"@,
        "/tquery"@ != "/login"@ && "/tquery"@ != "/logout"@,
        "/commit"@ != "/login"@ && "/commit"@ != "/logout"@,
        "/rollback"@ != "/login"@ && "/rollback"@ != "/logout"@,
        "/checkpoint"@ != "/login"@ && "/checkpoint"@ != "/logout"@,
        "/backup"@ != "/login"@ && "/backup"@ != "/logout"@,
        "/restore"@ != "/login"@ && "/restore"@ != "/logout"@,
        "/export"@ != "/login"@ && "/export"@ != "/logout"@,
        "/batchInsert"@ != "/login"@ && "/batchInsert"@ != "/logout"@,
        "/batchRemove"@ != "/login"@ && "/batchRemove"@ != "/logout"@,
        "/status"@ != "/login"@ && "/status"@ != "/logout"@,
        "/monitor"@ != "/login"@ && "/monitor"@ != "/logout"@,
        "/user/create"@ != "/login"@ && "/user/create"@ != "/logout"@,
        "/user/drop"@ != "/login"@ && "/user/drop"@ != "/logout"@,
        "/user/password"@ != "/login"@ && "/user/password"@ != "/logout"@,
        "/user/grant"@ != "/login"@ && "/user/grant"@ != "/logout"@,
        "/user/revoke"@ != "/login"@ && "/user/revoke"@ != "/logout"@,
        "/user/show"@ != "/login"@ && "/user/show"@ != "/logout"@,
        "/querylog"@ != "/login"@ && "/querylog"@ != "/logout"@,
        "/accesslog"@ != "/login"@ && "/accesslog"@ != "/logout"@,
        "/txnlog"@ != "/login"@ && "/txnlog"@ != "/logout"@,
{
    reveal_strlit("/login");
    reveal_strlit("/logout");
    assert("/login"@.len() == 6 && "/login"@[1] == 'l');
    assert("/logout"@.len() == 7 && "/logout"@[1] == 'l');
    reveal_strlit("/sparql");
    assert("/sparql"@.len() == 7 && "/sparql"@[1] == 's');
    reveal_strlit("/update");
    assert("/update"@.len() == 7 && "/update"@[1] == 'u');
    reveal_strlit("/build");
    assert("/build"@.len() == 6 && "/build"@[1] == 'b');
    reveal_strlit("/load");
    assert("/load"@.len() == 5);
    reveal_strlit("/unload");
    assert("/unload"@.len() == 7 && "/unload"@[1] == 'u');
    reveal_strlit("/drop");
    assert("/drop"@.len() == 5);
    reveal_strlit("/show");
    assert("/show"@.len() == 5);
    reveal_strlit("/begin");
    assert("/begin"@.len() == 6 && "/begin"@[1] == 'b');
    reveal_strlit("/tquery");
    assert("/tquery"@.len() == 7 && "/tquery"@[1] == 't');
    reveal_strlit("/commit");
    assert("/commit"@.len() == 7 && "/commit"@[1] == 'c');
    reveal_strlit("/rollback");
    assert("/rollback"@.len() == 9);
    reveal_strlit("/checkpoint");
    assert("/checkpoint"@.len() == 11);
    reveal_strlit("/backup");
    assert("/backup"@.len() == 7 && "/backup"@[1] == 'b');
    reveal_strlit("/restore");
    assert("/restore"@.len() == 8);
    reveal_strlit("/export");
    assert("/export"@.len() == 7 && "/export"@[1] == 'e');
    reveal_strlit("/batchInsert");
    assert("/batchInsert"@.len() == 12);
    reveal_strlit("/batchRemove");
    assert("/batchRemove"@.len() == 12);
    reveal_strlit("/status");
    assert("/status"@.len() == 7 && "/status"@[1] == 's');
    reveal_strlit("/monitor");
    assert("/monitor"@.len() == 8);
    reveal_strlit("/user/create");
    assert("/user/create"@.len() == 12);
    reveal_strlit("/user/drop");
    assert("/user/drop"@.len() == 10);
    reveal_strlit("/user/password");
    assert("/user/password"@.len() == 14);
    reveal_strlit("/user/grant");
    assert("/user/grant"@.len() == 11);
    reveal_strlit("/user/revoke");
    assert("/user/revoke"@.len() == 12);
    reveal_strlit("/user/show");
    assert("/user/show"@.len() == 10);
    reveal_strlit("/querylog");
    assert("/querylog"@.len() == 9);
    reveal_strlit("/accesslog");
    assert("/accesslog"@.len() == 10);
    reveal_strlit("/txnlog");
    assert("/txnlog"@.len() == 7 && "/txnlog"@[1] == 't');
}

/// POST /begin on a loaded database without an open transaction has the host open one.
pub proof fn law_begin_opens(s: ApiSpec, r: RequestSpec, user: Seq<char>, db: Seq<char>, token: Seq<char>, salt: u64, now: u64)
    requires
        r.method == "POST"@,
        r.path == "/begin"@,
        allowed(s.users, user, Privilege::Update),
        param_in(r.params, "db_name"@) == Some(db),
        db_name_ok(db),
    ensures
        ({
            let (after, a) = step(s, r, Some(user), token, salt, now);
            &&& after == s
            &&& !s.loaded.contains(db) ==> (a matches ActionSpec::Reply(x) && x.status == 404)
            &&& s.loaded.contains(db) && (exists|t: u64| #[trigger] s.txns.contains_key(t) && s.txns[t] == db) ==> (a matches ActionSpec::Reply(x) && x.status == 409)
            &&& s.loaded.contains(db) && !(exists|t: u64| #[trigger] s.txns.contains_key(t) && s.txns[t] == db) ==> a == ActionSpec::Begin { db }
        }),
{
    lemma_words();
    lemma_not_login();
}

/// POST /commit that names an open transaction has the host commit it, and POST /rollback
/// roll it back: the action has the database and the number of the transaction, which is
/// no longer open then, and all others are as before.
pub proof fn law_commit_keeps_and_rollback_undoes(s: ApiSpec, r: RequestSpec, user: Seq<char>, text: Seq<char>, tid: u64, token: Seq<char>, salt: u64, now: u64)
    requires
        r.method == "POST"@,
        r.path == "/commit"@ || r.path == "/rollback"@,
        allowed(s.users, user, Privilege::Update),
        param_in(r.params, "tid"@) == Some(text) || (param_in(r.params, "tid"@) is None && param_in(r.params, "txn"@) == Some(text)),
        parsed_unsigned(trimmed(text), u64::MAX as nat) == Some(tid as nat),
        s.txns.contains_key(tid),
    ensures
        ({
            let (after, a) = step(s, r, Some(user), token, salt, now);
            &&& a matches ActionSpec::End { db, tid: t, commit }
            &&& db == s.txns[tid]
            &&& t == tid
            &&& r.path == "/commit"@ ==> commit
            &&& r.path == "/rollback"@ ==> !commit
            &&& !after.txns.contains_key(tid)
            &&& forall|x: u64| x != tid ==> (#[trigger] after.txns.contains_key(x) <==> s.txns.contains_key(x))
            &&& forall|x: u64| x != tid && s.txns.contains_key(x) ==> #[trigger] after.txns[x] == s.txns[x]
            &&& after.users == s.users
            &&& after.loaded == s.loaded
        }),
{
    lemma_words();
    lemma_not_login();
    reveal_strlit("/commit");
    reveal_strlit("/rollback");
    assert("/commit"@.len() != "/rollback"@.len());
}

/// The end of a transaction that is not open, or that no number names, is refused.
pub proof fn law_unknown_transactions_are_refused(s: ApiSpec, r: RequestSpec, user: Seq<char>, text: Seq<char>, token: Seq<char>, salt: u64, now: u64)
    requires
        r.method == "POST"@,
        r.path == "/commit"@ || r.path == "/rollback"@ || r.path == "/tquery"@,
        allowed(s.users, user, Privilege::Update),
        param_in(r.params, "tid"@) == Some(text),
        parsed_unsigned(trimmed(text), u64::MAX as nat) matches Some(n) ==> !s.txns.contains_key(n as u64),
    ensures
        ({
            let (after, a) = step(s, r, Some(user), token, salt, now);
            &&& after == s
            &&& a matches ActionSpec::Reply(x)
            &&& x.status == (if parsed_unsigned(trimmed(text), u64::MAX as nat) is Some { 404u16 } else { 400 })
        }),
{
    lemma_words();
    lemma_not_login();
}

/// A number that is written in digits is the number that a request names.
pub proof fn law_transaction_numbers_read_back(tid: u64)
    ensures
        parsed_unsigned(trimmed(decimal(tid as nat)), u64::MAX as nat) == Some(tid as nat),
{
    let t = decimal(tid as nat);
    lemma_decimal_reads_back(tid as nat);
    assert(is_digit(t[0]) && is_digit(t[t.len() - 1]));
    crate::fields::lemma_trimmed(t);
}

/// The text is what a query or an update is to run: nothing on a database that is not
/// loaded, else just this text on this database, with what the client says of formats.
pub open spec fn runs_just(s: ApiSpec, r: RequestSpec, db: Seq<char>, text: Seq<char>, done: (ApiSpec, ActionSpec)) -> bool {
    &&& done.0 == s
    &&& s.loaded.contains(db) ==> (done.1 matches ActionSpec::Query { db: d, sparql, format, accept } && d == db && sparql == text && format == param_in(r.params, "format"@) && accept == r.accept)
    &&& !s.loaded.contains(db) ==> (done.1 matches ActionSpec::Refuse { db: d, statement, answer } && d == db && statement == text && answer.status == 404)
}

/// GET or POST /sparql runs the query on the database that it names, for a user who may
/// query; an update is run only for a user who may update, and refused else.
pub proof fn law_sparql_runs_the_query(s: ApiSpec, r: RequestSpec, user: Seq<char>, db: Seq<char>, text: Seq<char>, token: Seq<char>, salt: u64, now: u64)
    requires
        r.method == "GET"@ || r.method == "POST"@,
        r.path == "/sparql"@,
        param_in(r.params, "sparql"@) == Some(text) || (param_in(r.params, "sparql"@) is None && r.query == Some(text)),
        param_in(r.params, "db_name"@) == Some(db) || (param_in(r.params, "db_name"@) is None && param_in(r.params, "db"@) == Some(db)),
        db_name_ok(db),
    ensures
        ({
            let done = step(s, r, Some(user), token, salt, now);
            let may = if is_update(text) { allowed(s.users, user, Privilege::Update) } else { allowed(s.users, user, Privilege::Query) };
            &&& may ==> runs_just(s, r, db, text, done)
            &&& !may ==> done.0 == s && (done.1 matches ActionSpec::Reply(x) && x.status == 403)
        }),
{
    lemma_words();
    lemma_not_login();
}

/// POST /update runs the statement on the database that it names, for a user who may update.
pub proof fn law_update_runs_the_statement(s: ApiSpec, r: RequestSpec, user: Seq<char>, db: Seq<char>, text: Seq<char>, token: Seq<char>, salt: u64, now: u64)
    requires
        r.method == "POST"@,
        r.path == "/update"@,
        param_in(r.params, "sparql"@) == Some(text) || (param_in(r.params, "sparql"@) is None && (param_in(r.params, "update"@) == Some(text) || (param_in(r.params, "update"@) is None && r.body == text && trimmed(text).len() > 0))),
        param_in(r.params, "db_name"@) == Some(db) || (param_in(r.params, "db_name"@) is None && param_in(r.params, "db"@) == Some(db)),
        db_name_ok(db),
        allowed(s.users, user, Privilege::Update),
    ensures
        runs_just(s, r, db, text, step(s, r, Some(user), token, salt, now)),
{
    lemma_words();
    lemma_not_login();
}

/// POST /tquery runs the query on the database of the transaction that it names.
pub proof fn law_tquery_runs_in_the_transaction(s: ApiSpec, r: RequestSpec, user: Seq<char>, tid: u64, number: Seq<char>, text: Seq<char>, token: Seq<char>, salt: u64, now: u64)
    requires
        r.method == "POST"@,
        r.path == "/tquery"@,
        param_in(r.params, "tid"@) == Some(number),
        parsed_unsigned(trimmed(number), u64::MAX as nat) == Some(tid as nat),
        s.txns.contains_key(tid),
        param_in(r.params, "sparql"@) == Some(text),
    ensures
        ({
            let done = step(s, r, Some(user), token, salt, now);
            let may = if is_update(text) { allowed(s.users, user, Privilege::Update) } else { allowed(s.users, user, Privilege::Query) };
            &&& may ==> runs_just(s, r, s.txns[tid], text, done)
            &&& !may ==> done.0 == s && (done.1 matches ActionSpec::Reply(x) && x.status == 403)
        }),
{
    lemma_words();
    lemma_not_login();
}

/// POST /batchInsert and /batchRemove run an INSERT DATA or a DELETE DATA of just the
/// triples that are sent, on the database that is named.
pub proof fn law_batches_insert_and_remove(s: ApiSpec, r: RequestSpec, user: Seq<char>, db: Seq<char>, triples: Seq<char>, token: Seq<char>, salt: u64, now: u64)
    requires
        r.method == "POST"@,
        r.path == "/batchInsert"@ || r.path == "/batchRemove"@,
        allowed(s.users, user, Privilege::Update),
        param_in(r.params, "db_name"@) == Some(db),
        db_name_ok(db),
        s.loaded.contains(db),
        triples == trimmed(match param_in(r.params, "triples"@) {
            Some(t) => t,
            None => r.body,
        }),
    ensures
        ({
            let (after, a) = step(s, r, Some(user), token, salt, now);
            &&& after == s
            &&& triples.len() == 0 ==> (a matches ActionSpec::Reply(x) && x.status == 400)
            &&& triples.len() > 0 && r.path == "/batchInsert"@ ==> a == (ActionSpec::Batch { db, statement: "INSERT DATA { "@ + triples + " }"@, insert: true })
            &&& triples.len() > 0 && r.path == "/batchRemove"@ ==> a == (ActionSpec::Batch { db, statement: "DELETE DATA { "@ + triples + " }"@, insert: false })
        }),
{
    lemma_words();
    lemma_not_login();
    reveal_strlit("/batchInsert");
    reveal_strlit("/batchRemove");
    assert("/batchInsert"@[6] == 'I' && "/batchRemove"@[6] == 'R');
}

/// POST /build, /load, /unload and /drop are for the database that they name. One that is in
/// a transaction is built, unloaded or dropped by no one.
pub proof fn law_databases_come_and_go(s: ApiSpec, r: RequestSpec, user: Seq<char>, db: Seq<char>, token: Seq<char>, salt: u64, now: u64)
    requires
        r.method == "POST"@,
        r.path == "/build"@ || r.path == "/load"@ || r.path == "/unload"@ || r.path == "/drop"@,
        allowed(s.users, user, if r.path == "/build"@ || r.path == "/load"@ { Privilege::Load } else { Privilege::Unload }),
        param_in(r.params, "db_name"@) == Some(db),
        db_name_ok(db),
    ensures
        ({
            let (after, a) = step(s, r, Some(user), token, salt, now);
            let busy = exists|t: u64| #[trigger] s.txns.contains_key(t) && s.txns[t] == db;
            &&& after.txns == s.txns
            &&& after.users == s.users
            &&& r.path == "/load"@ ==> after == s && a == (ActionSpec::Load { db })
            &&& r.path != "/load"@ && busy ==> after == s && (a matches ActionSpec::Reply(x) && x.status == 409)
            &&& r.path == "/build"@ && !busy ==> after == s && (a matches ActionSpec::Build { db: d, path } && d == db && (param_in(r.params, "db_path"@) matches Some(f) ==> path == Some(f)) && (param_in(r.params, "db_path"@) is None ==> path == param_in(r.params, "path"@)))
            &&& r.path == "/unload"@ && !busy && s.loaded.contains(db) ==> a == (ActionSpec::Unload { db }) && after.loaded == s.loaded.remove(db)
            &&& r.path == "/unload"@ && !busy && !s.loaded.contains(db) ==> after == s && (a matches ActionSpec::Reply(x) && x.status == 404)
            &&& r.path == "/drop"@ && !busy ==> a == (ActionSpec::Drop { db, was_loaded: s.loaded.contains(db) }) && after.loaded == s.loaded.remove(db)
        }),
{
    lemma_words();
    lemma_not_login();
    lemma_lifecycle_words();
}

proof fn lemma_lifecycle_words()
    ensures
        "/build"@ != "/load"@ && "/build"@ != "/unload"@ && "/build"@ != "/drop"@,
        "/load"@ != "/unload"@ && "/load"@ != "/drop"@ && "/unload"@ != "/drop"@,
        "/checkpoint"@ != "/backup"@ && "/checkpoint"@ != "/export"@ && "/backup"@ != "/export"@,
{
    reveal_strlit("/build");
    reveal_strlit("/load");
    reveal_strlit("/unload");
    reveal_strlit("/drop");
    reveal_strlit("/checkpoint");
    reveal_strlit("/backup");
    reveal_strlit("/export");
    assert("/build"@.len() == 6 && "/load"@.len() == 5 && "/unload"@.len() == 7 && "/drop"@.len() == 5);
    assert("/load"@[1] == 'l' && "/drop"@[1] == 'd');
    assert("/checkpoint"@.len() == 11 && "/backup"@.len() == 7 && "/export"@.len() == 7);
    assert("/backup"@[1] == 'b' && "/export"@[1] == 'e');
}

/// POST /checkpoint and /backup, and GET or POST /export, have a loaded database saved, backed
/// up to the path that is named, or written out; POST /restore has one read from the path.
pub proof fn law_databases_are_kept(s: ApiSpec, r: RequestSpec, user: Seq<char>, db: Seq<char>, token: Seq<char>, salt: u64, now: u64)
    requires
        r.method == "POST"@ || (r.method == "GET"@ && r.path == "/export"@),
        r.path == "/checkpoint"@ || r.path == "/backup"@ || r.path == "/export"@,
        allowed(s.users, user, if r.path == "/checkpoint"@ { Privilege::Update } else if r.path == "/backup"@ { Privilege::Backup } else { Privilege::Export }),
        param_in(r.params, "db_name"@) == Some(db),
        db_name_ok(db),
    ensures
        ({
            let (after, a) = step(s, r, Some(user), token, salt, now);
            &&& after == s
            &&& !s.loaded.contains(db) ==> (a matches ActionSpec::Reply(x) && x.status == 404)
            &&& s.loaded.contains(db) && r.path == "/checkpoint"@ ==> a == (ActionSpec::Checkpoint { db })
            &&& s.loaded.contains(db) && r.path == "/backup"@ ==> (a matches ActionSpec::Backup { db: d, path } && d == db && (param_in(r.params, "path"@) matches Some(f) ==> path == Some(f)) && (param_in(r.params, "path"@) is None ==> path == param_in(r.params, "backup_path"@)))
            &&& s.loaded.contains(db) && r.path == "/export"@ ==> a == (ActionSpec::Export { db })
        }),
{
    lemma_words();
    lemma_not_login();
    lemma_lifecycle_words();
}

/// POST /restore has a database read from the path that is named, unless it is in a
/// transaction.
pub proof fn law_restore_reads_the_path(s: ApiSpec, r: RequestSpec, user: Seq<char>, db: Seq<char>, path: Seq<char>, token: Seq<char>, salt: u64, now: u64)
    requires
        r.method == "POST"@,
        r.path == "/restore"@,
        allowed(s.users, user, Privilege::Restore),
        param_in(r.params, "db_name"@) == Some(db),
        db_name_ok(db),
        param_in(r.params, "path"@) == Some(path) || (param_in(r.params, "path"@) is None && param_in(r.params, "backup_path"@) == Some(path)),
    ensures
        ({
            let (after, a) = step(s, r, Some(user), token, salt, now);
            let busy = exists|t: u64| #[trigger] s.txns.contains_key(t) && s.txns[t] == db;
            &&& after == s
            &&& busy ==> (a matches ActionSpec::Reply(x) && x.status == 409)
            &&& !busy ==> a == (ActionSpec::Restore { db, source: path })
        }),
{
    lemma_words();
    lemma_not_login();
}

/// GET /status, /monitor and the logs, and GET or POST /show, ask for just that and change
/// nothing. The logs are for administrators.
pub proof fn law_inspection_changes_nothing(s: ApiSpec, r: RequestSpec, user: Seq<char>, token: Seq<char>, salt: u64, now: u64)
    requires
        r.method == "GET"@,
        r.path == "/status"@ || r.path == "/monitor"@ || r.path == "/show"@ || r.path == "/querylog"@ || r.path == "/accesslog"@ || r.path == "/txnlog"@ || r.path == "/user/show"@,
    ensures
        ({
            let (after, a) = step(s, r, Some(user), token, salt, now);
            let admin = allowed(s.users, user, Privilege::Admin);
            &&& after == s
            &&& r.path == "/status"@ ==> a is Status
            &&& r.path == "/monitor"@ ==> a is Monitor
            &&& r.path == "/show"@ ==> a is Show
            &&& r.path == "/querylog"@ && admin ==> a == (ActionSpec::Log { file: "query.log"@ })
            &&& r.path == "/accesslog"@ && admin ==> a == (ActionSpec::Log { file: "access.log"@ })
            &&& r.path == "/txnlog"@ && admin ==> a == (ActionSpec::Log { file: "txn.log"@ })
            &&& r.path == "/user/show"@ && admin ==> (a matches ActionSpec::Reply(x) && x.status == 200)
            &&& (r.path == "/querylog"@ || r.path == "/accesslog"@ || r.path == "/txnlog"@ || r.path == "/user/show"@) && !admin ==> (a matches ActionSpec::Reply(x) && x.status == 403)
        }),
{
    lemma_words();
    lemma_not_login();
    lemma_inspection_words();
}

proof fn lemma_inspection_words()
    ensures
        "/status"@ != "/monitor"@ && "/status"@ != "/show"@ && "/status"@ != "/querylog"@ && "/status"@ != "/accesslog"@ && "/status"@ != "/txnlog"@ && "/status"@ != "/user/show"@,
        "/monitor"@ != "/show"@ && "/monitor"@ != "/querylog"@ && "/monitor"@ != "/accesslog"@ && "/monitor"@ != "/txnlog"@ && "/monitor"@ != "/user/show"@,
        "/show"@ != "/querylog"@ && "/show"@ != "/accesslog"@ && "/show"@ != "/txnlog"@ && "/show"@ != "/user/show"@,
        "/querylog"@ != "/accesslog"@ && "/querylog"@ != "/txnlog"@ && "/querylog"@ != "/user/show"@,
        "/accesslog"@ != "/txnlog"@ && "/accesslog"@ != "/user/show"@ && "/txnlog"@ != "/user/show"@,
{
    reveal_strlit("/status");
    reveal_strlit("/monitor");
    reveal_strlit("/show");
    reveal_strlit("/querylog");
    reveal_strlit("/accesslog");
    reveal_strlit("/txnlog");
    reveal_strlit("/user/show");
    assert("/status"@.len() == 7 && "/monitor"@.len() == 8 && "/show"@.len() == 5 && "/querylog"@.len() == 9 && "/accesslog"@.len() == 10 && "/txnlog"@.len() == 7 && "/user/show"@.len() == 10);
    assert("/status"@[1] == 's' && "/txnlog"@[1] == 't' && "/accesslog"@[1] == 'a' && "/user/show"@[1] == 'u');
}

/// Without the privilege that an address needs, the answer has status 403 and nothing
/// happens.
pub proof fn law_addresses_need_their_privilege(s: ApiSpec, r: RequestSpec, user: Seq<char>, p: Privilege, token: Seq<char>, salt: u64, now: u64)
    requires
        r.method == "POST"@,
        match p {
            Privilege::Load => r.path == "/build"@ || r.path == "/load"@,
            Privilege::Unload => r.path == "/unload"@ || r.path == "/drop"@,
            Privilege::Update => r.path == "/update"@ || r.path == "/begin"@ || r.path == "/commit"@ || r.path == "/rollback"@ || r.path == "/checkpoint"@ || r.path == "/batchInsert"@ || r.path == "/batchRemove"@,
            Privilege::Backup => r.path == "/backup"@,
            Privilege::Restore => r.path == "/restore"@,
            Privilege::Export => r.path == "/export"@,
            Privilege::Admin => r.path == "/user/create"@ || r.path == "/user/drop"@ || r.path == "/user/grant"@ || r.path == "/user/revoke"@,
            Privilege::Query => false,
        },
        !allowed(s.users, user, p),
    ensures
        step(s, r, Some(user), token, salt, now).0 == s,
        step(s, r, Some(user), token, salt, now).1 matches ActionSpec::Reply(x) && x.status == 403,
{
    lemma_words();
    lemma_not_login();
}

/// A request without a user is answered with status 401 and changes nothing, and one for an
/// address that there is not with 404.
pub proof fn law_unknown_addresses_are_refused(s: ApiSpec, r: RequestSpec, user: Seq<char>, token: Seq<char>, salt: u64, now: u64)
    requires
        r.method != "GET"@,
        r.method != "POST"@,
        r.path != "/login"@,
        r.path != "/logout"@,
    ensures
        step(s, r, Some(user), token, salt, now).0 == s,
        step(s, r, Some(user), token, salt, now).1 matches ActionSpec::Reply(x) && x.status == 404,
        step(s, r, None, token, salt, now).0 == s,
        step(s, r, None, token, salt, now).1 matches ActionSpec::Reply(x) && x.status == 401,
{
}

/// A login with the password of a user opens a session: the token is that user's for a day,
/// and for no longer. With a wrong password, or for a user that there is not, the answer has
/// status 401 and nothing happens.
pub proof fn law_login_opens_a_session(s: ApiSpec, r: RequestSpec, user: Option<Seq<char>>, name: Seq<char>, password: Seq<char>, token: Seq<char>, salt: u64, now: u64, later: u64)
    requires
        r.path == "/login"@,
        param_in(r.params, "username"@) == Some(name),
        param_in(r.params, "password"@) == Some(password),
        now <= later,
    ensures
        ({
            let (after, a) = step(s, r, user, token, salt, now);
            &&& after.users.users == s.users.users
            &&& after.loaded == s.loaded
            &&& after.txns == s.txns
            &&& knows(s.users, name, password) ==> {
                &&& a == ActionSpec::Reply(json_answer(200, login_text(token, name, set_text(s.users.users[name].privileges))))
                &&& later - now <= 86400000000000 ==> session_owner(after.users, token, later) == Some(name)
                &&& later - now > 86400000000000 ==> session_owner(after.users, token, later) is None
                &&& forall|t: Seq<char>| t != token ==> #[trigger] session_owner(after.users, t, later) == session_owner(s.users, t, later)
            }
            &&& !knows(s.users, name, password) ==> after == s && (a matches ActionSpec::Reply(x) && x.status == 401)
        }),
{
}

/// A logout ends the session of the request and no other.
pub proof fn law_logout_ends_the_session(s: ApiSpec, r: RequestSpec, user: Seq<char>, t: Seq<char>, token: Seq<char>, salt: u64, now: u64, later: u64)
    requires
        r.path == "/logout"@,
        r.token == Some(t),
    ensures
        ({
            let (after, a) = step(s, r, Some(user), token, salt, now);
            &&& session_owner(after.users, t, later) is None
            &&& forall|x: Seq<char>| x != t ==> #[trigger] session_owner(after.users, x, later) == session_owner(s.users, x, later)
            &&& after.users.users == s.users.users
            &&& after.loaded == s.loaded
            &&& after.txns == s.txns
            &&& a matches ActionSpec::Reply(x) && x.status == 200
        }),
{
    reveal_strlit("/login");
    reveal_strlit("/logout");
    assert("/login"@.len() != "/logout"@.len());
}

/// Who sends a request: the user whose name and password go with it, else the user whose
/// session the token is of, else no one. No user changes by that.
pub proof fn law_caller_is_who_proves_it(s: ApiSpec, r: RequestSpec, now: u64)
    ensures
        r.basic matches Some((name, password)) ==> knows(s.users, name, password) ==> caller(s, r, now) == (s, Some(name)),
        !(r.basic matches Some((name, password)) && knows(s.users, name, password)) ==> caller(s, r, now).1 == (match r.token {
            Some(t) => session_owner(s.users, t, now),
            None => None,
        }),
        caller(s, r, now).0.users.users == s.users.users,
        caller(s, r, now).0.txns == s.txns,
        caller(s, r, now).0.loaded == s.loaded,
        forall|t: Seq<char>| #[trigger] session_owner(caller(s, r, now).0.users, t, now) == session_owner(s.users, t, now),
{
}

/// Whether a user holds a privilege: `root` and administrators hold all, other users those
/// that they were given, and no one else holds any.
pub proof fn law_privileges_are_held(s: UserStoreSpec, name: Seq<char>, p: Privilege)
    ensures
        allowed(s, name, p) <==> s.users.contains_key(name) && (name == "root"@ || s.users[name].privileges.contains(Privilege::Admin) || s.users[name].privileges.contains(p)),
        !s.users.contains_key(name) ==> forall|w: Seq<char>| !#[trigger] knows(s, name, w),
{
}

/// A new user has the password and the privileges that were given, can log in, and all other
/// users are as before. A name that is taken or malformed, or an empty password, is refused.
pub proof fn law_created_user_can_log_in(s: ApiSpec, r: RequestSpec, user: Seq<char>, name: Seq<char>, password: Seq<char>, list: Seq<char>, token: Seq<char>, salt: u64, now: u64)
    requires
        r.method == "POST"@,
        r.path == "/user/create"@,
        allowed(s.users, user, Privilege::Admin),
        param_in(r.params, "op_username"@) == Some(name),
        param_in(r.params, "op_password"@) == Some(password),
        param_in(r.params, "privileges"@) == Some(list),
    ensures
        ({
            let (after, a) = step(s, r, Some(user), token, salt, now);
            let fine = 0 < name.len() && encode_utf8(name).len() <= 64 && (forall|i: int| 0 <= i < name.len() ==> name_char(#[trigger] name[i])) && password.len() > 0 && !s.users.users.contains_key(name) && parsed_list(list) is Some;
            &&& fine ==> {
                &&& a == ActionSpec::SaveUsers(okay("user '"@ + name + "' created"@))
                &&& knows(after.users, name, password)
                &&& after.users.users[name].privileges == parsed_list(list)->0
                &&& forall|n: Seq<char>| n != name ==> (#[trigger] after.users.users.contains_key(n) <==> s.users.users.contains_key(n))
                &&& forall|n: Seq<char>| n != name && s.users.users.contains_key(n) ==> #[trigger] after.users.users[n] == s.users.users[n]
                &&& after.users.sessions == s.users.sessions
                &&& after.txns == s.txns
                &&& after.loaded == s.loaded
            }
            &&& !fine ==> after == s && (a matches ActionSpec::Reply(x) && x.status == 400)
        }),
{
    lemma_words();
    lemma_not_login();
}

/// A user that is dropped is gone, with all sessions; all other users and their sessions are
/// as before. `root` cannot be dropped.
pub proof fn law_dropped_user_is_gone(s: ApiSpec, r: RequestSpec, user: Seq<char>, name: Seq<char>, token: Seq<char>, salt: u64, now: u64)
    requires
        r.method == "POST"@,
        r.path == "/user/drop"@,
        allowed(s.users, user, Privilege::Admin),
        param_in(r.params, "op_username"@) == Some(name),
    ensures
        ({
            let (after, a) = step(s, r, Some(user), token, salt, now);
            &&& name != "root"@ && s.users.users.contains_key(name) ==> {
                &&& a is SaveUsers
                &&& !after.users.users.contains_key(name)
                &&& forall|t: Seq<char>| #[trigger] after.users.sessions.contains_key(t) <==> s.users.sessions.contains_key(t) && s.users.sessions[t].user != name
                &&& forall|t: Seq<char>| #[trigger] after.users.sessions.contains_key(t) ==> after.users.sessions[t] == s.users.sessions[t]
                &&& forall|n: Seq<char>| n != name ==> (#[trigger] after.users.users.contains_key(n) <==> s.users.users.contains_key(n))
                &&& forall|n: Seq<char>| n != name && s.users.users.contains_key(n) ==> #[trigger] after.users.users[n] == s.users.users[n]
            }
            &&& name == "root"@ || !s.users.users.contains_key(name) ==> after == s && (a matches ActionSpec::Reply(x) && x.status == 400)
        }),
{
    lemma_words();
    lemma_not_login();
}

/// A new password is the password then, and privileges and all other users are as before.
/// Users change their own; that of others only administrators change.
pub proof fn law_changed_password_is_known(s: ApiSpec, r: RequestSpec, user: Seq<char>, name: Seq<char>, password: Seq<char>, token: Seq<char>, salt: u64, now: u64)
    requires
        r.method == "POST"@,
        r.path == "/user/password"@,
        param_in(r.params, "username"@) == Some(name),
        param_in(r.params, "op_password"@) == Some(password),
    ensures
        ({
            let (after, a) = step(s, r, Some(user), token, salt, now);
            let may = user == name || allowed(s.users, user, Privilege::Admin);
            &&& !may ==> after == s && (a matches ActionSpec::Reply(x) && x.status == 403)
            &&& may && (password.len() == 0 || !s.users.users.contains_key(name)) ==> after == s && (a matches ActionSpec::Reply(x) && x.status == 400)
            &&& may && password.len() > 0 && s.users.users.contains_key(name) ==> {
                &&& a is SaveUsers
                &&& knows(after.users, name, password)
                &&& after.users.users[name].privileges == s.users.users[name].privileges
                &&& after.users.users.dom() == s.users.users.dom()
                &&& forall|n: Seq<char>| n != name && s.users.users.contains_key(n) ==> #[trigger] after.users.users[n] == s.users.users[n]
                &&& after.users.sessions == s.users.sessions
            }
        }),
{
    lemma_words();
    lemma_not_login();
    let (after, a) = step(s, r, Some(user), token, salt, now);
    if s.users.users.contains_key(name) {
        assert(s.users.users.dom().insert(name) =~= s.users.users.dom());
    }
}

/// POST /user/grant gives privileges and /user/revoke takes them: the user holds what was
/// held and what was given, or what was held without what was taken. The password, and all
/// other users, are as before. Those of `root` do not change.
pub proof fn law_grant_gives_and_revoke_takes(s: ApiSpec, r: RequestSpec, user: Seq<char>, name: Seq<char>, list: Seq<char>, set: Set<Privilege>, p: Privilege, token: Seq<char>, salt: u64, now: u64)
    requires
        r.method == "POST"@,
        r.path == "/user/grant"@ || r.path == "/user/revoke"@,
        allowed(s.users, user, Privilege::Admin),
        param_in(r.params, "op_username"@) == Some(name),
        param_in(r.params, "type"@) is None,
        param_in(r.params, "privileges"@) == Some(list),
        parsed_list(list) == Some(set),
    ensures
        ({
            let (after, a) = step(s, r, Some(user), token, salt, now);
            &&& name != "root"@ && s.users.users.contains_key(name) ==> {
                &&& a is SaveUsers
                &&& r.path == "/user/grant"@ ==> (after.users.users[name].privileges.contains(p) <==> s.users.users[name].privileges.contains(p) || set.contains(p))
                &&& r.path == "/user/revoke"@ ==> (after.users.users[name].privileges.contains(p) <==> s.users.users[name].privileges.contains(p) && !set.contains(p))
                &&& after.users.users[name].hash == s.users.users[name].hash
                &&& after.users.users[name].salt == s.users.users[name].salt
                &&& after.users.users.dom() == s.users.users.dom()
                &&& forall|n: Seq<char>| n != name && s.users.users.contains_key(n) ==> #[trigger] after.users.users[n] == s.users.users[n]
                &&& after.users.sessions == s.users.sessions
            }
            &&& name == "root"@ || !s.users.users.contains_key(name) ==> after == s && (a matches ActionSpec::Reply(x) && x.status == 400)
        }),
{
    lemma_words();
    lemma_not_login();
    reveal_strlit("/user/grant");
    reveal_strlit("/user/revoke");
    assert("/user/grant"@.len() != "/user/revoke"@.len());
    if s.users.users.contains_key(name) {
        assert(s.users.users.dom().insert(name) =~= s.users.users.dom());
    }
}

/// A name of a database is made of the characters that a file name can have, and any such
/// text is one.
pub proof fn law_database_names(name: Seq<char>)
    ensures
        db_name_ok(name) <==> 0 < name.len() && encode_utf8(name).len() <= 64 && forall|i: int| 0 <= i < name.len() ==> ('a' <= #[trigger] name[i] <= 'z') || ('A' <= name[i] <= 'Z') || ('0' <= name[i] <= '9') || name[i] == '_' || name[i] == '-',
{
}

/// A request is for the database it names, by `db_name` before `db`; one that names none is
/// for the only database that is loaded, and for none if there is not exactly one.
pub proof fn law_database_is_the_named_or_the_only(s: ApiSpec, r: RequestSpec, name: Seq<char>)
    ensures
        param_in(r.params, "db_name"@) == Some(name) ==> picked_db(s, r) == (if db_name_ok(name) { Some(name) } else { None }),
        param_in(r.params, "db_name"@) is None && param_in(r.params, "db"@) == Some(name) ==> picked_db(s, r) == (if db_name_ok(name) { Some(name) } else { None }),
        param_in(r.params, "db_name"@) is None && param_in(r.params, "db"@) is None && s.loaded == set![name] ==> picked_db(s, r) == Some(name),
        param_in(r.params, "db_name"@) is None && param_in(r.params, "db"@) is None && s.loaded.len() != 1 ==> picked_db(s, r) is None,
{
    if s.loaded == set![name] {
        assert(s.loaded == Set::<Seq<char>>::empty().insert(name));
        let x = choose|x: Seq<char>| s.loaded == #[trigger] Set::<Seq<char>>::empty().insert(x);
        assert(Set::<Seq<char>>::empty().insert(x).contains(name));
        assert(x == name);
    }
    if exists|x: Seq<char>| s.loaded == #[trigger] Set::<Seq<char>>::empty().insert(x) {
        let x = choose|x: Seq<char>| s.loaded == #[trigger] Set::<Seq<char>>::empty().insert(x);
        assert(s.loaded.len() == 1);
    }
}

/// A request names its transaction by a number, under `tid` before `txn`.
pub proof fn law_transaction_is_the_named(r: RequestSpec, tid: u64, other: Seq<char>)
    ensures
        param_in(r.params, "tid"@) == Some(decimal(tid as nat)) ==> named_txn(r) == Some(tid as nat),
        param_in(r.params, "tid"@) is None && param_in(r.params, "txn"@) == Some(decimal(tid as nat)) ==> named_txn(r) == Some(tid as nat),
        param_in(r.params, "tid"@) is None && param_in(r.params, "txn"@) is None ==> named_txn(r) is None,
        param_in(r.params, "tid"@) == Some(other) && (exists|i: int| 0 <= i < trimmed(other).len() && !is_digit(#[trigger] trimmed(other)[i]) && trimmed(other)[i] != '+') ==> named_txn(r) is None,
{
    let d = decimal(tid as nat);
    lemma_decimal_reads_back(tid as nat);
    assert(is_digit(d[0]) && is_digit(d[d.len() - 1]));
    let none = Seq::<char>::empty();
    law_trimmed_has_no_white_ends(none, d, none);
    assert(none + d + none =~= d);
    if param_in(r.params, "tid"@) == Some(other) && (exists|i: int| 0 <= i < trimmed(other).len() && !is_digit(#[trigger] trimmed(other)[i]) && trimmed(other)[i] != '+') {
        let t = trimmed(other);
        let i = choose|i: int| 0 <= i < t.len() && !is_digit(#[trigger] t[i]) && t[i] != '+';
        let w = crate::text::without_plus(t);
        if w.len() == t.len() {
            assert(w == t);
            assert(!is_digit(w[i]));
        } else {
            assert(t[0] == '+');
            assert(w[i - 1] == t[i]);
            assert(!is_digit(w[i - 1]));
        }
    }
}

} // verus!
