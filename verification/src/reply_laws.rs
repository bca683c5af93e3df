//! What a client reads from an answer: its status, and the fields of its body.

use crate::db::DbStats;
use crate::http_api::{failure, in_txn, login_text, okay, param_in, status_text, user_entries, user_entry, users_answer, ApiSpec};
use crate::http_replies::{backup_answer, batch_answer, begin_answer, build_answer, checkpoint_answer, db_entries, db_entry, drop_answer, end_answer, load_answer, monitor_answer, query_answer, restore_answer, show_answer, stats_entries, stats_entry, status_answer, stem, stems, Counts, Rendered};
use crate::http_users::{set_text, UserSpec};
use crate::json::{digits_end, json_char, json_chars, json_quoted, json_read, mantissa_end, sign_end, JsonSpec};
use crate::json_text::{fields_writable, fields_written, is_number, items_writable, items_written, law_json_reads_back, writable, written};
use crate::text::{decimal, is_digit, lemma_decimal_reads_back};
use vstd::prelude::*;
use vstd::string::*;

verus! {

/// Texts that stand in JSON as they are.
pub open spec fn is_plain(s: Seq<char>) -> bool {
    forall|i: int| 0 <= i < s.len() ==> (#[trigger] s[i]) as u32 >= 0x20 && s[i] != '"' && s[i] != '\\'
}

/// The text of a field.
pub open spec fn field_text(key: Seq<char>, value: Seq<char>) -> Seq<char> {
    seq!['"'] + key + seq!['"', ':'] + value
}

proof fn lemma_plain_chars(s: Seq<char>)
    requires
        is_plain(s),
    ensures
        json_chars(s) == s,
        json_quoted(s) == seq!['"'] + s + seq!['"'],
    decreases s.len(),
{
    if s.len() > 0 {
        assert forall|i: int| 0 <= i < s.skip(1).len() implies (#[trigger] s.skip(1)[i]) as u32 >= 0x20 && s.skip(1)[i] != '"' && s.skip(1)[i] != '\\' by {
            assert(s.skip(1)[i] == s[i + 1]);
        }
        lemma_plain_chars(s.skip(1));
        assert(s[0] as u32 >= 0x20);
        assert(json_char(s[0]) =~= seq![s[0]]);
        assert(seq![s[0]] + s.skip(1) =~= s);
    } else {
        assert(json_chars(s) =~= s);
    }
}

/// Decimal notation is the text of a number.
pub proof fn law_decimal_is_a_number(n: nat)
    ensures
        is_number(decimal(n)),
        writable(JsonSpec::Num(decimal(n))),
{
    let d = decimal(n);
    lemma_decimal_reads_back(n);
    lemma_digits_to_end(d, 0);
    assert(is_digit(d[0]));
    assert(sign_end(d, 0) == 0);
    assert(mantissa_end(d, 0) == Some(d.len() as int));
}

proof fn lemma_digits_to_end(d: Seq<char>, p: int)
    requires
        0 <= p <= d.len(),
        forall|i: int| 0 <= i < d.len() ==> is_digit(#[trigger] d[i]),
    ensures
        digits_end(d, p) == d.len(),
    decreases d.len() - p,
{
    if p < d.len() {
        assert(is_digit(d[p]));
        lemma_digits_to_end(d, p + 1);
    }
}

proof fn lemma_first_field(key: Seq<char>, value: JsonSpec)
    requires
        is_plain(key),
        writable(value),
    ensures
        fields_writable(seq![(key, value)]),
        fields_written(seq![(key, value)], Seq::empty()) == field_text(key, written(value, Seq::empty())),
{
    let none = Seq::<char>::empty();
    let v = seq![(key, value)];
    lemma_plain_chars(key);
    assert(v.subrange(1, 1) =~= Seq::empty());
    assert(fields_writable(v.subrange(1, 1)));
    assert(fields_written(v, none) =~= field_text(key, written(value, none)));
}

proof fn lemma_next_field(v: Seq<(Seq<char>, JsonSpec)>, key: Seq<char>, value: JsonSpec)
    requires
        v.len() > 0,
        fields_writable(v),
        is_plain(key),
        writable(value),
    ensures
        fields_writable(v.push((key, value))),
        fields_written(v.push((key, value)), Seq::empty()) == fields_written(v, Seq::empty()) + seq![','] + field_text(key, written(value, Seq::empty())),
    decreases v.len(),
{
    let none = Seq::<char>::empty();
    let f = (key, value);
    let all = v.push(f);
    let rest = v.subrange(1, v.len() as int);
    assert(all.subrange(1, all.len() as int) =~= rest.push(f));
    assert(all[0] == v[0]);
    if v.len() == 1 {
        lemma_first_field(key, value);
        assert(rest.push(f) =~= seq![f]);
        assert(fields_written(all, none) =~= fields_written(v, none) + seq![','] + field_text(key, written(value, none)));
    } else {
        lemma_next_field(rest, key, value);
        assert(fields_written(all, none) =~= fields_written(v, none) + seq![','] + field_text(key, written(value, none)));
    }
}

/// The name of a field, with the colon behind it.
pub open spec fn head_text(key: Seq<char>) -> Seq<char> {
    seq!['"'] + key + seq!['"', ':']
}

/// An object with some fields, before its closing brace.
spec fn open_text(v: Seq<(Seq<char>, JsonSpec)>) -> Seq<char> {
    seq!['{'] + fields_written(v, Seq::empty())
}

proof fn lemma_open(head: Seq<char>, key: Seq<char>, value: JsonSpec)
    requires
        is_plain(key),
        head == seq!['{'] + head_text(key),
        writable(value),
    ensures
        fields_writable(seq![(key, value)]),
        open_text(seq![(key, value)]) == head + written(value, Seq::empty()),
{
    lemma_first_field(key, value);
    assert(open_text(seq![(key, value)]) =~= head + written(value, Seq::empty()));
}

proof fn lemma_more(v: Seq<(Seq<char>, JsonSpec)>, head: Seq<char>, key: Seq<char>, value: JsonSpec)
    requires
        v.len() > 0,
        fields_writable(v),
        is_plain(key),
        head == seq![','] + head_text(key),
        writable(value),
    ensures
        fields_writable(v.push((key, value))),
        open_text(v.push((key, value))) == open_text(v) + head + written(value, Seq::empty()),
{
    lemma_next_field(v, key, value);
    assert(open_text(v.push((key, value))) =~= open_text(v) + head + written(value, Seq::empty()));
}

/// An object reads as its fields.
proof fn lemma_close(v: Seq<(Seq<char>, JsonSpec)>)
    requires
        fields_writable(v),
    ensures
        json_read(open_text(v) + "}"@) == Ok::<JsonSpec, Seq<char>>(JsonSpec::Obj(v)),
        written(JsonSpec::Obj(v), Seq::empty()) == open_text(v) + "}"@,
{
    let none = Seq::<char>::empty();
    reveal_strlit("}");
    law_json_reads_back(JsonSpec::Obj(v), none);
    assert(written(JsonSpec::Obj(v), none) =~= open_text(v) + "}"@);
}

proof fn lemma_status_code()
    ensures
        is_plain("StatusCode"@),
        "{\"StatusCode\":"@ == seq!['{'] + head_text("StatusCode"@),
{
    reveal_strlit("StatusCode");
    reveal_strlit("{\"StatusCode\":");
    assert("{\"StatusCode\":"@ =~= seq!['{'] + head_text("StatusCode"@));
}

proof fn lemma_status_msg()
    ensures
        is_plain("StatusMsg"@),
        ",\"StatusMsg\":"@ == seq![','] + head_text("StatusMsg"@),
{
    reveal_strlit("StatusMsg");
    reveal_strlit(",\"StatusMsg\":");
    assert(",\"StatusMsg\":"@ =~= seq![','] + head_text("StatusMsg"@));
}

/// A code and a message, as fields.
pub open spec fn status_fields(code: nat, msg: Seq<char>) -> Seq<(Seq<char>, JsonSpec)> {
    seq![("StatusCode"@, JsonSpec::Num(decimal(code)))].push(("StatusMsg"@, JsonSpec::Str(msg)))
}

proof fn lemma_status_fields(code: nat, msg: Seq<char>)
    ensures
        fields_writable(status_fields(code, msg)),
        open_text(status_fields(code, msg)) == "{\"StatusCode\":"@ + decimal(code) + ",\"StatusMsg\":"@ + json_quoted(msg),
{
    lemma_status_code();
    lemma_status_msg();
    law_decimal_is_a_number(code);
    lemma_open("{\"StatusCode\":"@, "StatusCode"@, JsonSpec::Num(decimal(code)));
    let one = seq![("StatusCode"@, JsonSpec::Num(decimal(code)))];
    lemma_more(one, ",\"StatusMsg\":"@, "StatusMsg"@, JsonSpec::Str(msg));
}

/// The body of an answer with a code and a message is read as these.
pub proof fn law_status_reads_back(code: nat, msg: Seq<char>)
    ensures
        json_read(status_text(code, msg)) == Ok::<JsonSpec, Seq<char>>(JsonSpec::Obj(seq![("StatusCode"@, JsonSpec::Num(decimal(code))), ("StatusMsg"@, JsonSpec::Str(msg))])),
{
    lemma_status_fields(code, msg);
    lemma_close(status_fields(code, msg));
    assert(status_fields(code, msg) =~= seq![("StatusCode"@, JsonSpec::Num(decimal(code))), ("StatusMsg"@, JsonSpec::Str(msg))]);
}

/// An answer of success has the status 200 and the code 0 in its body; one of failure has
/// the status also in its body. Both hold their message, in JSON.
pub proof fn law_answers_hold_their_message(status: u16, msg: Seq<char>)
    ensures
        okay(msg).status == 200,
        okay(msg).ctype == "application/json"@,
        json_read(okay(msg).body) == Ok::<JsonSpec, Seq<char>>(JsonSpec::Obj(seq![("StatusCode"@, JsonSpec::Num(decimal(0))), ("StatusMsg"@, JsonSpec::Str(msg))])),
        failure(status, msg).status == status,
        failure(status, msg).ctype == "application/json"@,
        json_read(failure(status, msg).body) == Ok::<JsonSpec, Seq<char>>(JsonSpec::Obj(seq![("StatusCode"@, JsonSpec::Num(decimal(status as nat))), ("StatusMsg"@, JsonSpec::Str(msg))])),
{
    law_status_reads_back(0, msg);
    law_status_reads_back(status as nat, msg);
}

/// The status of an answer is 200 just if all that was to be done was done. What the
/// client asked for wrongly is a 400, what is not there a 404, and the rest a 500.
pub proof fn law_status_tells_the_outcome(db: Seq<char>, tid: u64, commit: bool, insert: bool, built: Result<u64, Seq<char>>, done: Option<Seq<char>>, saved: Option<Seq<char>>, found: bool, was_loaded: bool)
    ensures
        build_answer(db, built, saved).status == (if built is Err { 400u16 } else if saved is Some { 500u16 } else { 200u16 }),
        load_answer(db, found, done).status == (if !found { 404u16 } else if done is Some { 500u16 } else { 200u16 }),
        drop_answer(db, was_loaded, found, done).status == (if found { if done is Some { 500u16 } else { 200u16 } } else if was_loaded { 200u16 } else { 404u16 }),
        restore_answer(db, done, saved).status == (if done is Some || saved is Some { 500u16 } else { 200u16 }),
        end_answer(db, tid, commit, None).status == 404,
        end_answer(db, tid, commit, Some(done)).status == (if done is Some { 500u16 } else { 200u16 }),
        forall|r: Result<Option<u64>, Seq<char>>| (#[trigger] batch_answer(insert, r)).status == (if r matches Ok(Some(_)) { 200u16 } else { 400u16 }),
        backup_answer(db, done).status == (if done is Some { 500u16 } else { 200u16 }),
        checkpoint_answer(db, done).status == (if done is Some { 500u16 } else { 200u16 }),
        forall|r: Rendered| (#[trigger] query_answer(r)).status == (if r is Failed { 400u16 } else { 200u16 }),
        begin_answer(tid).status == 200,
{
}

/// An object with the code 0 and a message, before its further fields.
spec fn success_head(msg: Seq<char>) -> Seq<char> {
    "{\"StatusCode\":"@ + seq!['0'] + ",\"StatusMsg\":"@ + (seq!['"'] + msg + seq!['"'])
}

proof fn lemma_success(head: Seq<char>, msg: Seq<char>, key: Seq<char>, value: JsonSpec)
    requires
        is_plain(msg),
        is_plain(key),
        head == success_head(msg) + (seq![','] + head_text(key)),
        writable(value),
    ensures
        fields_writable(status_fields(0, msg).push((key, value))),
        open_text(status_fields(0, msg).push((key, value))) == head + written(value, Seq::empty()),
{
    lemma_status_fields(0, msg);
    lemma_plain_chars(msg);
    assert(decimal(0) =~= seq!['0']);
    lemma_more(status_fields(0, msg), seq![','] + head_text(key), key, value);
    assert(open_text(status_fields(0, msg).push((key, value))) =~= head + written(value, Seq::empty()));
}

proof fn lemma_words_begun()
    ensures
        is_plain("transaction started"@),
        is_plain("TID"@),
        "{\"StatusCode\":0,\"StatusMsg\":\"transaction started\",\"TID\":"@ == success_head("transaction started"@) + (seq![','] + head_text("TID"@)),
{
    reveal_strlit("transaction started");
    reveal_strlit("TID");
    reveal_strlit("{\"StatusCode\":0,\"StatusMsg\":\"transaction started\",\"TID\":");
    reveal_strlit("{\"StatusCode\":");
    reveal_strlit(",\"StatusMsg\":");
    assert("{\"StatusCode\":0,\"StatusMsg\":\"transaction started\",\"TID\":"@ =~= success_head("transaction started"@) + (seq![','] + head_text("TID"@)));
}

proof fn lemma_words_changed()
    ensures
        is_plain("success"@),
        is_plain("changed"@),
        "{\"StatusCode\":0,\"StatusMsg\":\"success\",\"changed\":"@ == success_head("success"@) + (seq![','] + head_text("changed"@)),
{
    reveal_strlit("success");
    reveal_strlit("changed");
    reveal_strlit("{\"StatusCode\":0,\"StatusMsg\":\"success\",\"changed\":");
    reveal_strlit("{\"StatusCode\":");
    reveal_strlit(",\"StatusMsg\":");
    assert("{\"StatusCode\":0,\"StatusMsg\":\"success\",\"changed\":"@ =~= success_head("success"@) + (seq![','] + head_text("changed"@)));
}

proof fn lemma_words_backup()
    ensures
        is_plain("backup success"@),
        is_plain("path"@),
        "{\"StatusCode\":0,\"StatusMsg\":\"backup success\",\"path\":"@ == success_head("backup success"@) + (seq![','] + head_text("path"@)),
{
    reveal_strlit("backup success");
    reveal_strlit("path");
    reveal_strlit("{\"StatusCode\":0,\"StatusMsg\":\"backup success\",\"path\":");
    reveal_strlit("{\"StatusCode\":");
    reveal_strlit(",\"StatusMsg\":");
    assert("{\"StatusCode\":0,\"StatusMsg\":\"backup success\",\"path\":"@ =~= success_head("backup success"@) + (seq![','] + head_text("path"@)));
}

proof fn lemma_words_running()
    ensures
        is_plain("running"@),
        is_plain("databases_loaded"@),
        "{\"StatusCode\":0,\"StatusMsg\":\"running\",\"databases_loaded\":"@ == success_head("running"@) + (seq![','] + head_text("databases_loaded"@)),
{
    reveal_strlit("running");
    reveal_strlit("databases_loaded");
    reveal_strlit("{\"StatusCode\":0,\"StatusMsg\":\"running\",\"databases_loaded\":");
    reveal_strlit("{\"StatusCode\":");
    reveal_strlit(",\"StatusMsg\":");
    assert("{\"StatusCode\":0,\"StatusMsg\":\"running\",\"databases_loaded\":"@ =~= success_head("running"@) + (seq![','] + head_text("databases_loaded"@)));
}

proof fn lemma_words_login()
    ensures
        is_plain("login success"@),
        is_plain("session"@),
        "{\"StatusCode\":0,\"StatusMsg\":\"login success\",\"session\":"@ == success_head("login success"@) + (seq![','] + head_text("session"@)),
{
    reveal_strlit("login success");
    reveal_strlit("session");
    reveal_strlit("{\"StatusCode\":0,\"StatusMsg\":\"login success\",\"session\":");
    reveal_strlit("{\"StatusCode\":");
    reveal_strlit(",\"StatusMsg\":");
    assert("{\"StatusCode\":0,\"StatusMsg\":\"login success\",\"session\":"@ =~= success_head("login success"@) + (seq![','] + head_text("session"@)));
}

proof fn lemma_words_uptime()
    ensures
        is_plain("success"@),
        is_plain("uptime_secs"@),
        "{\"StatusCode\":0,\"StatusMsg\":\"success\",\"uptime_secs\":"@ == success_head("success"@) + (seq![','] + head_text("uptime_secs"@)),
{
    reveal_strlit("success");
    reveal_strlit("uptime_secs");
    reveal_strlit("{\"StatusCode\":0,\"StatusMsg\":\"success\",\"uptime_secs\":");
    reveal_strlit("{\"StatusCode\":");
    reveal_strlit(",\"StatusMsg\":");
    assert("{\"StatusCode\":0,\"StatusMsg\":\"success\",\"uptime_secs\":"@ =~= success_head("success"@) + (seq![','] + head_text("uptime_secs"@)));
}

proof fn lemma_key_total_triples()
    ensures
        is_plain("total_triples"@),
        ",\"total_triples\":"@ == seq![','] + head_text("total_triples"@),
{
    reveal_strlit("total_triples");
    reveal_strlit(",\"total_triples\":");
    assert(",\"total_triples\":"@ =~= seq![','] + head_text("total_triples"@));
}

proof fn lemma_key_open_transactions()
    ensures
        is_plain("open_transactions"@),
        ",\"open_transactions\":"@ == seq![','] + head_text("open_transactions"@),
{
    reveal_strlit("open_transactions");
    reveal_strlit(",\"open_transactions\":");
    assert(",\"open_transactions\":"@ =~= seq![','] + head_text("open_transactions"@));
}

proof fn lemma_key_users()
    ensures
        is_plain("users"@),
        ",\"users\":"@ == seq![','] + head_text("users"@),
{
    reveal_strlit("users");
    reveal_strlit(",\"users\":");
    assert(",\"users\":"@ =~= seq![','] + head_text("users"@));
}

proof fn lemma_key_requests()
    ensures
        is_plain("requests"@),
        ",\"requests\":"@ == seq![','] + head_text("requests"@),
{
    reveal_strlit("requests");
    reveal_strlit(",\"requests\":");
    assert(",\"requests\":"@ =~= seq![','] + head_text("requests"@));
}

proof fn lemma_key_uptime_secs()
    ensures
        is_plain("uptime_secs"@),
        ",\"uptime_secs\":"@ == seq![','] + head_text("uptime_secs"@),
{
    reveal_strlit("uptime_secs");
    reveal_strlit(",\"uptime_secs\":");
    assert(",\"uptime_secs\":"@ =~= seq![','] + head_text("uptime_secs"@));
}

proof fn lemma_key_username()
    ensures
        is_plain("username"@),
        ",\"username\":"@ == seq![','] + head_text("username"@),
{
    reveal_strlit("username");
    reveal_strlit(",\"username\":");
    assert(",\"username\":"@ =~= seq![','] + head_text("username"@));
}

proof fn lemma_key_privilege()
    ensures
        is_plain("privilege"@),
        ",\"privilege\":"@ == seq![','] + head_text("privilege"@),
{
    reveal_strlit("privilege");
    reveal_strlit(",\"privilege\":");
    assert(",\"privilege\":"@ =~= seq![','] + head_text("privilege"@));
}

proof fn lemma_key_loaded()
    ensures
        is_plain("loaded"@),
        ",\"loaded\":"@ == seq![','] + head_text("loaded"@),
{
    reveal_strlit("loaded");
    reveal_strlit(",\"loaded\":");
    assert(",\"loaded\":"@ =~= seq![','] + head_text("loaded"@));
}

proof fn lemma_key_in_transaction()
    ensures
        is_plain("in_transaction"@),
        ",\"in_transaction\":"@ == seq![','] + head_text("in_transaction"@),
{
    reveal_strlit("in_transaction");
    reveal_strlit(",\"in_transaction\":");
    assert(",\"in_transaction\":"@ =~= seq![','] + head_text("in_transaction"@));
}

proof fn lemma_key_triples()
    ensures
        is_plain("triples"@),
        ",\"triples\":"@ == seq![','] + head_text("triples"@),
{
    reveal_strlit("triples");
    reveal_strlit(",\"triples\":");
    assert(",\"triples\":"@ =~= seq![','] + head_text("triples"@));
}

proof fn lemma_key_entities()
    ensures
        is_plain("entities"@),
        ",\"entities\":"@ == seq![','] + head_text("entities"@),
{
    reveal_strlit("entities");
    reveal_strlit(",\"entities\":");
    assert(",\"entities\":"@ =~= seq![','] + head_text("entities"@));
}

proof fn lemma_key_literals()
    ensures
        is_plain("literals"@),
        ",\"literals\":"@ == seq![','] + head_text("literals"@),
{
    reveal_strlit("literals");
    reveal_strlit(",\"literals\":");
    assert(",\"literals\":"@ =~= seq![','] + head_text("literals"@));
}

proof fn lemma_key_predicates()
    ensures
        is_plain("predicates"@),
        ",\"predicates\":"@ == seq![','] + head_text("predicates"@),
{
    reveal_strlit("predicates");
    reveal_strlit(",\"predicates\":");
    assert(",\"predicates\":"@ =~= seq![','] + head_text("predicates"@));
}

proof fn lemma_key_index_valid()
    ensures
        is_plain("index_valid"@),
        ",\"index_valid\":"@ == seq![','] + head_text("index_valid"@),
{
    reveal_strlit("index_valid");
    reveal_strlit(",\"index_valid\":");
    assert(",\"index_valid\":"@ =~= seq![','] + head_text("index_valid"@));
}

proof fn lemma_key_privileges()
    ensures
        is_plain("privileges"@),
        ",\"privileges\":"@ == seq![','] + head_text("privileges"@),
{
    reveal_strlit("privileges");
    reveal_strlit(",\"privileges\":");
    assert(",\"privileges\":"@ =~= seq![','] + head_text("privileges"@));
}

proof fn lemma_key_is_root()
    ensures
        is_plain("is_root"@),
        ",\"is_root\":"@ == seq![','] + head_text("is_root"@),
{
    reveal_strlit("is_root");
    reveal_strlit(",\"is_root\":");
    assert(",\"is_root\":"@ =~= seq![','] + head_text("is_root"@));
}

proof fn lemma_key_databases()
    ensures
        is_plain("databases"@),
        ",\"databases\":["@ == seq![','] + head_text("databases"@) + seq!['['],
{
    reveal_strlit("databases");
    reveal_strlit(",\"databases\":[");
    assert(",\"databases\":["@ =~= seq![','] + head_text("databases"@) + seq!['[']);
}

proof fn lemma_first_name()
    ensures
        is_plain("name"@),
        "{\"name\":"@ == seq!['{'] + head_text("name"@),
{
    reveal_strlit("name");
    reveal_strlit("{\"name\":");
    assert("{\"name\":"@ =~= seq!['{'] + head_text("name"@));
}

proof fn lemma_first_username()
    ensures
        is_plain("username"@),
        "{\"username\":"@ == seq!['{'] + head_text("username"@),
{
    reveal_strlit("username");
    reveal_strlit("{\"username\":");
    assert("{\"username\":"@ =~= seq!['{'] + head_text("username"@));
}

/// The answer to the start of a transaction tells its number.
pub proof fn law_begin_answer_tells_the_number(tid: u64)
    ensures
        json_read(begin_answer(tid).body) == Ok::<JsonSpec, Seq<char>>(JsonSpec::Obj(status_fields(0, "transaction started"@).push(("TID"@, JsonSpec::Str(decimal(tid as nat)))))),
{
    lemma_words_begun();
    let value = JsonSpec::Str(decimal(tid as nat));
    lemma_success("{\"StatusCode\":0,\"StatusMsg\":\"transaction started\",\"TID\":"@, "transaction started"@, "TID"@, value);
    lemma_close(status_fields(0, "transaction started"@).push(("TID"@, value)));
}

/// The answer to an update tells how many triples it changed.
pub proof fn law_update_answer_tells_the_count(n: u64)
    ensures
        json_read(query_answer(Rendered::Changed(n)).body) == Ok::<JsonSpec, Seq<char>>(JsonSpec::Obj(status_fields(0, "success"@).push(("changed"@, JsonSpec::Num(decimal(n as nat)))))),
{
    lemma_words_changed();
    law_decimal_is_a_number(n as nat);
    let value = JsonSpec::Num(decimal(n as nat));
    lemma_success("{\"StatusCode\":0,\"StatusMsg\":\"success\",\"changed\":"@, "success"@, "changed"@, value);
    lemma_close(status_fields(0, "success"@).push(("changed"@, value)));
}

/// The answer to a query is what was rendered of its result, with the content type of it.
pub proof fn law_query_answer_is_the_result(ctype: String, body: String)
    ensures
        query_answer(Rendered::Table { ctype, body }).body == body@,
        query_answer(Rendered::Table { ctype, body }).ctype == ctype@,
        query_answer(Rendered::Triples(body)).body == body@,
        query_answer(Rendered::Triples(body)).ctype == "application/n-triples"@,
        query_answer(Rendered::Failed(body)).body == body@,
        query_answer(Rendered::Failed(body)).ctype == "application/sparql-results+json"@,
{
}

/// The answer to a backup tells where it is.
pub proof fn law_backup_answer_tells_the_path(path: Seq<char>)
    ensures
        json_read(backup_answer(path, None).body) == Ok::<JsonSpec, Seq<char>>(JsonSpec::Obj(status_fields(0, "backup success"@).push(("path"@, JsonSpec::Str(path))))),
{
    lemma_words_backup();
    lemma_success("{\"StatusCode\":0,\"StatusMsg\":\"backup success\",\"path\":"@, "backup success"@, "path"@, JsonSpec::Str(path));
    lemma_close(status_fields(0, "backup success"@).push(("path"@, JsonSpec::Str(path))));
}

/// The answer to a login tells the session, the user and the privileges.
pub proof fn law_login_answer_tells_the_session(token: Seq<char>, name: Seq<char>, privileges: Seq<char>)
    ensures
        json_read(login_text(token, name, privileges)) == Ok::<JsonSpec, Seq<char>>(
            JsonSpec::Obj(
                status_fields(0, "login success"@).push(("session"@, JsonSpec::Str(token))).push(("username"@, JsonSpec::Str(name))).push(("privilege"@, JsonSpec::Str(privileges))),
            ),
        ),
{
    lemma_words_login();
    lemma_key_username();
    lemma_key_privilege();
    let a = status_fields(0, "login success"@).push(("session"@, JsonSpec::Str(token)));
    lemma_success("{\"StatusCode\":0,\"StatusMsg\":\"login success\",\"session\":"@, "login success"@, "session"@, JsonSpec::Str(token));
    lemma_more(a, ",\"username\":"@, "username"@, JsonSpec::Str(name));
    let b = a.push(("username"@, JsonSpec::Str(name)));
    lemma_more(b, ",\"privilege\":"@, "privilege"@, JsonSpec::Str(privileges));
    lemma_close(b.push(("privilege"@, JsonSpec::Str(privileges))));
}

/// The number, as a value.
pub open spec fn number(n: nat) -> JsonSpec {
    JsonSpec::Num(decimal(n))
}

/// The answer with a status tells each count under its own name.
pub proof fn law_status_answer_tells_the_counts(c: Counts)
    ensures
        json_read(status_answer(c).body) == Ok::<JsonSpec, Seq<char>>(
            JsonSpec::Obj(
                status_fields(0, "running"@).push(("databases_loaded"@, number(c.databases as nat))).push(("total_triples"@, number(c.triples as nat))).push(
                    ("open_transactions"@, number(c.transactions as nat)),
                ).push(("users"@, number(c.users as nat))).push(("requests"@, number(c.requests as nat))).push(("uptime_secs"@, number(c.uptime as nat))),
            ),
        ),
{
    law_decimal_is_a_number(c.databases as nat);
    law_decimal_is_a_number(c.triples as nat);
    law_decimal_is_a_number(c.transactions as nat);
    law_decimal_is_a_number(c.users as nat);
    law_decimal_is_a_number(c.requests as nat);
    law_decimal_is_a_number(c.uptime as nat);
    lemma_words_running();
    lemma_key_total_triples();
    lemma_key_open_transactions();
    lemma_key_users();
    lemma_key_requests();
    lemma_key_uptime_secs();
    let v1 = status_fields(0, "running"@).push(("databases_loaded"@, number(c.databases as nat)));
    lemma_success("{\"StatusCode\":0,\"StatusMsg\":\"running\",\"databases_loaded\":"@, "running"@, "databases_loaded"@, number(c.databases as nat));
    lemma_more(v1, ",\"total_triples\":"@, "total_triples"@, number(c.triples as nat));
    let v2 = v1.push(("total_triples"@, number(c.triples as nat)));
    lemma_more(v2, ",\"open_transactions\":"@, "open_transactions"@, number(c.transactions as nat));
    let v3 = v2.push(("open_transactions"@, number(c.transactions as nat)));
    lemma_more(v3, ",\"users\":"@, "users"@, number(c.users as nat));
    let v4 = v3.push(("users"@, number(c.users as nat)));
    lemma_more(v4, ",\"requests\":"@, "requests"@, number(c.requests as nat));
    let v5 = v4.push(("requests"@, number(c.requests as nat)));
    lemma_more(v5, ",\"uptime_secs\":"@, "uptime_secs"@, number(c.uptime as nat));
    lemma_close(v5.push(("uptime_secs"@, number(c.uptime as nat))));
}

/// What a monitor tells of a database.
pub open spec fn stats_object(d: DbStats) -> JsonSpec {
    JsonSpec::Obj(
        seq![("name"@, JsonSpec::Str(d.name@))].push(("triples"@, number(d.triple_num as nat))).push(("entities"@, number(d.entity_num as nat))).push(("literals"@, number(d.literal_num as nat))).push(
            ("predicates"@, number(d.predicate_num as nat)),
        ).push(("index_valid"@, JsonSpec::Bool(d.index_valid))).push(("in_transaction"@, JsonSpec::Bool(d.in_transaction))),
    )
}

/// The entry of a database in a monitor tells each count and flag under its own name.
pub proof fn law_monitor_entry_reads_back(d: DbStats)
    ensures
        writable(stats_object(d)),
        written(stats_object(d), Seq::empty()) == stats_entry(d),
        json_read(stats_entry(d)) == Ok::<JsonSpec, Seq<char>>(stats_object(d)),
{
    law_decimal_is_a_number(d.triple_num as nat);
    law_decimal_is_a_number(d.entity_num as nat);
    law_decimal_is_a_number(d.literal_num as nat);
    law_decimal_is_a_number(d.predicate_num as nat);
    lemma_first_name();
    lemma_key_triples();
    lemma_key_entities();
    lemma_key_literals();
    lemma_key_predicates();
    lemma_key_index_valid();
    lemma_key_in_transaction();
    let v1 = seq![("name"@, JsonSpec::Str(d.name@))];
    lemma_open("{\"name\":"@, "name"@, JsonSpec::Str(d.name@));
    lemma_more(v1, ",\"triples\":"@, "triples"@, number(d.triple_num as nat));
    let v2 = v1.push(("triples"@, number(d.triple_num as nat)));
    lemma_more(v2, ",\"entities\":"@, "entities"@, number(d.entity_num as nat));
    let v3 = v2.push(("entities"@, number(d.entity_num as nat)));
    lemma_more(v3, ",\"literals\":"@, "literals"@, number(d.literal_num as nat));
    let v4 = v3.push(("literals"@, number(d.literal_num as nat)));
    lemma_more(v4, ",\"predicates\":"@, "predicates"@, number(d.predicate_num as nat));
    let v5 = v4.push(("predicates"@, number(d.predicate_num as nat)));
    lemma_more(v5, ",\"index_valid\":"@, "index_valid"@, JsonSpec::Bool(d.index_valid));
    let v6 = v5.push(("index_valid"@, JsonSpec::Bool(d.index_valid)));
    lemma_more(v6, ",\"in_transaction\":"@, "in_transaction"@, JsonSpec::Bool(d.in_transaction));
    let v7 = v6.push(("in_transaction"@, JsonSpec::Bool(d.in_transaction)));
    lemma_close(v7);
}

/// What a list tells of a database.
pub open spec fn db_object(name: Seq<char>, loaded: bool, busy: bool, size: Option<Seq<char>>) -> JsonSpec {
    JsonSpec::Obj(
        seq![("name"@, JsonSpec::Str(name))].push(("loaded"@, JsonSpec::Bool(loaded))).push(("in_transaction"@, JsonSpec::Bool(busy))).push(
            (
                "triples"@,
                match size {
                    Some(n) => JsonSpec::Num(n),
                    None => JsonSpec::Null,
                },
            ),
        ),
    )
}

/// The entry of a database in a list tells whether it is loaded, whether a transaction is
/// open on it, and how many triples it has, if that is known.
pub proof fn law_list_entry_reads_back(s: ApiSpec, name: Seq<char>, size: Option<Seq<char>>)
    requires
        size matches Some(n) ==> is_number(n),
    ensures
        writable(db_object(name, s.loaded.contains(name), in_txn(s, name), size)),
        written(db_object(name, s.loaded.contains(name), in_txn(s, name), size), Seq::empty()) == db_entry(s, name, size),
        json_read(db_entry(s, name, size)) == Ok::<JsonSpec, Seq<char>>(db_object(name, s.loaded.contains(name), in_txn(s, name), size)),
{
    let (loaded, busy) = (s.loaded.contains(name), in_txn(s, name));
    let count = match size {
        Some(n) => JsonSpec::Num(n),
        None => JsonSpec::Null,
    };
    lemma_first_name();
    lemma_key_loaded();
    lemma_key_in_transaction();
    lemma_key_triples();
    let v1 = seq![("name"@, JsonSpec::Str(name))];
    lemma_open("{\"name\":"@, "name"@, JsonSpec::Str(name));
    lemma_more(v1, ",\"loaded\":"@, "loaded"@, JsonSpec::Bool(loaded));
    let v2 = v1.push(("loaded"@, JsonSpec::Bool(loaded)));
    lemma_more(v2, ",\"in_transaction\":"@, "in_transaction"@, JsonSpec::Bool(busy));
    let v3 = v2.push(("in_transaction"@, JsonSpec::Bool(busy)));
    lemma_more(v3, ",\"triples\":"@, "triples"@, count);
    lemma_close(v3.push(("triples"@, count)));
}

/// What a list tells of a user.
pub open spec fn user_object(name: Seq<char>, u: UserSpec) -> JsonSpec {
    JsonSpec::Obj(
        seq![("username"@, JsonSpec::Str(name))].push(("privileges"@, JsonSpec::Str(set_text(u.privileges)))).push(("is_root"@, JsonSpec::Bool(name == "root"@))),
    )
}

/// The entry of a user tells the name, the privileges, and whether it is root.
pub proof fn law_user_entry_reads_back(name: Seq<char>, u: UserSpec)
    ensures
        writable(user_object(name, u)),
        written(user_object(name, u), Seq::empty()) == user_entry(name, u),
        json_read(user_entry(name, u)) == Ok::<JsonSpec, Seq<char>>(user_object(name, u)),
{
    lemma_first_username();
    lemma_key_privileges();
    lemma_key_is_root();
    let v1 = seq![("username"@, JsonSpec::Str(name))];
    lemma_open("{\"username\":"@, "username"@, JsonSpec::Str(name));
    lemma_more(v1, ",\"privileges\":"@, "privileges"@, JsonSpec::Str(set_text(u.privileges)));
    let v2 = v1.push(("privileges"@, JsonSpec::Str(set_text(u.privileges))));
    lemma_more(v2, ",\"is_root\":"@, "is_root"@, JsonSpec::Bool(name == "root"@));
    lemma_close(v2.push(("is_root"@, JsonSpec::Bool(name == "root"@))));
}

proof fn lemma_next_item(v: Seq<JsonSpec>, j: JsonSpec)
    requires
        items_writable(v),
        writable(j),
    ensures
        items_writable(v.push(j)),
        items_written(v.push(j), Seq::empty()) == (if v.len() == 0 { Seq::empty() } else { items_written(v, Seq::empty()) + seq![','] }) + written(j, Seq::empty()),
    decreases v.len(),
{
    let none = Seq::<char>::empty();
    let all = v.push(j);
    if v.len() == 0 {
        assert(all.subrange(1, 1) =~= Seq::empty());
        assert(items_writable(all.subrange(1, 1)));
        assert(items_written(all, none) =~= Seq::empty() + written(j, none));
    } else {
        let rest = v.subrange(1, v.len() as int);
        assert(all.subrange(1, all.len() as int) =~= rest.push(j));
        assert(all[0] == v[0]);
        lemma_next_item(rest, j);
        assert(items_written(all, none) =~= items_written(v, none) + seq![','] + written(j, none));
    }
}

/// The entries of a monitor are the items of an array, one for each database.
pub proof fn law_monitor_entries_are_items(s: Seq<DbStats>)
    ensures
        items_writable(s.map_values(|d: DbStats| stats_object(d))),
        items_written(s.map_values(|d: DbStats| stats_object(d)), Seq::empty()) == stats_entries(s),
    decreases s.len(),
{
    let v = s.map_values(|d: DbStats| stats_object(d));
    if s.len() == 0 {
        assert(v =~= Seq::empty());
    } else {
        reveal_strlit(",");
        let front = s.drop_last();
        law_monitor_entries_are_items(front);
        law_monitor_entry_reads_back(s.last());
        let fv = front.map_values(|d: DbStats| stats_object(d));
        assert(v =~= fv.push(stats_object(s.last())));
        lemma_next_item(fv, stats_object(s.last()));
        assert(","@ =~= seq![',']);
        if s.len() == 1 {
            assert(fv.len() == 0);
            assert(stats_entries(s) =~= Seq::empty() + stats_entry(s.last()));
        }
    }
}

/// The answer with a monitor tells each count under its own name, and lists every database.
pub proof fn law_monitor_answer_tells_all(c: Counts, s: Seq<DbStats>)
    ensures
        json_read(monitor_answer(c, s).body) == Ok::<JsonSpec, Seq<char>>(
            JsonSpec::Obj(
                status_fields(0, "success"@).push(("uptime_secs"@, number(c.uptime as nat))).push(("requests"@, number(c.requests as nat))).push(("users"@, number(c.users as nat))).push(
                    ("open_transactions"@, number(c.transactions as nat)),
                ).push(("databases"@, JsonSpec::Arr(s.map_values(|d: DbStats| stats_object(d))))),
            ),
        ),
{
    law_decimal_is_a_number(c.transactions as nat);
    law_decimal_is_a_number(c.users as nat);
    law_decimal_is_a_number(c.requests as nat);
    law_decimal_is_a_number(c.uptime as nat);
    lemma_words_uptime();
    lemma_key_requests();
    lemma_key_users();
    lemma_key_open_transactions();
    lemma_key_databases();
    law_monitor_entries_are_items(s);
    let items = s.map_values(|d: DbStats| stats_object(d));
    let v1 = status_fields(0, "success"@).push(("uptime_secs"@, number(c.uptime as nat)));
    lemma_success("{\"StatusCode\":0,\"StatusMsg\":\"success\",\"uptime_secs\":"@, "success"@, "uptime_secs"@, number(c.uptime as nat));
    lemma_more(v1, ",\"requests\":"@, "requests"@, number(c.requests as nat));
    let v2 = v1.push(("requests"@, number(c.requests as nat)));
    lemma_more(v2, ",\"users\":"@, "users"@, number(c.users as nat));
    let v3 = v2.push(("users"@, number(c.users as nat)));
    lemma_more(v3, ",\"open_transactions\":"@, "open_transactions"@, number(c.transactions as nat));
    let v4 = v3.push(("open_transactions"@, number(c.transactions as nat)));
    lemma_close_list(v4, ",\"databases\":["@, "databases"@, items);
}

/// An object whose last field is an array reads as its fields.
proof fn lemma_close_list(v: Seq<(Seq<char>, JsonSpec)>, head: Seq<char>, key: Seq<char>, items: Seq<JsonSpec>)
    requires
        v.len() > 0,
        fields_writable(v),
        is_plain(key),
        head == seq![','] + head_text(key) + seq!['['],
        items_writable(items),
    ensures
        json_read(open_text(v) + head + items_written(items, Seq::empty()) + "]}"@) == Ok::<JsonSpec, Seq<char>>(JsonSpec::Obj(v.push((key, JsonSpec::Arr(items))))),
{
    let all = v.push((key, JsonSpec::Arr(items)));
    lemma_more(v, seq![','] + head_text(key), key, JsonSpec::Arr(items));
    lemma_close(all);
    reveal_strlit("]}");
    reveal_strlit("}");
    assert(open_text(all) + "}"@ =~= open_text(v) + head + items_written(items, Seq::empty()) + "]}"@);
}

/// The answer with the list of databases lists each of them.
pub proof fn law_show_answer_lists_the_databases(s: ApiSpec, names: Seq<Seq<char>>, sizes: Seq<(Seq<char>, Seq<char>)>)
    requires
        forall|i: int| 0 <= i < names.len() ==> (param_in(sizes, #[trigger] names[i]) matches Some(n) ==> is_number(n)),
    ensures
        json_read(show_answer(db_entries(s, names, sizes)).body) == Ok::<JsonSpec, Seq<char>>(
            JsonSpec::Obj(status_fields(0, "success"@).push(("databases"@, JsonSpec::Arr(names.map_values(|n: Seq<char>| db_object(n, s.loaded.contains(n), in_txn(s, n), param_in(sizes, n))))))),
        ),
{
    let items = names.map_values(|n: Seq<char>| db_object(n, s.loaded.contains(n), in_txn(s, n), param_in(sizes, n)));
    lemma_list_items(s, names, sizes);
    lemma_key_databases();
    lemma_words_list();
    lemma_status_fields(0, "success"@);
    lemma_plain_chars("success"@);
    assert(decimal(0) =~= seq!['0']);
    assert(open_text(status_fields(0, "success"@)) =~= success_head("success"@));
    lemma_close_list(status_fields(0, "success"@), ",\"databases\":["@, "databases"@, items);
}

proof fn lemma_words_list()
    ensures
        is_plain("success"@),
        "{\"StatusCode\":0,\"StatusMsg\":\"success\",\"databases\":["@ == success_head("success"@) + ",\"databases\":["@,
        "{\"StatusCode\":0,\"StatusMsg\":\"success\",\"users\":["@ == success_head("success"@) + ",\"users\":["@,
        is_plain("users"@),
        ",\"users\":["@ == seq![','] + head_text("users"@) + seq!['['],
{
    reveal_strlit("success");
    reveal_strlit("users");
    reveal_strlit(",\"databases\":[");
    reveal_strlit(",\"users\":[");
    reveal_strlit("{\"StatusCode\":0,\"StatusMsg\":\"success\",\"databases\":[");
    reveal_strlit("{\"StatusCode\":0,\"StatusMsg\":\"success\",\"users\":[");
    reveal_strlit("{\"StatusCode\":");
    reveal_strlit(",\"StatusMsg\":");
    assert("{\"StatusCode\":0,\"StatusMsg\":\"success\",\"databases\":["@ =~= success_head("success"@) + ",\"databases\":["@);
    assert("{\"StatusCode\":0,\"StatusMsg\":\"success\",\"users\":["@ =~= success_head("success"@) + ",\"users\":["@);
    assert(",\"users\":["@ =~= seq![','] + head_text("users"@) + seq!['[']);
}

/// The answer with the list of users lists each of them.
pub proof fn law_users_answer_lists_the_users(names: Seq<Seq<char>>, users: Map<Seq<char>, UserSpec>)
    ensures
        json_read(users_answer(names, users).body) == Ok::<JsonSpec, Seq<char>>(
            JsonSpec::Obj(status_fields(0, "success"@).push(("users"@, JsonSpec::Arr(names.map_values(|n: Seq<char>| user_object(n, users[n])))))),
        ),
{
    let items = names.map_values(|n: Seq<char>| user_object(n, users[n]));
    lemma_user_items(names, users);
    lemma_words_list();
    lemma_status_fields(0, "success"@);
    lemma_plain_chars("success"@);
    assert(decimal(0) =~= seq!['0']);
    assert(open_text(status_fields(0, "success"@)) =~= success_head("success"@));
    lemma_close_list(status_fields(0, "success"@), ",\"users\":["@, "users"@, items);
}

proof fn lemma_user_items(names: Seq<Seq<char>>, users: Map<Seq<char>, UserSpec>)
    ensures
        items_writable(names.map_values(|n: Seq<char>| user_object(n, users[n]))),
        items_written(names.map_values(|n: Seq<char>| user_object(n, users[n])), Seq::empty()) == user_entries(names, users),
    decreases names.len(),
{
    let v = names.map_values(|n: Seq<char>| user_object(n, users[n]));
    if names.len() == 0 {
        assert(v =~= Seq::empty());
    } else {
        reveal_strlit(",");
        let front = names.drop_last();
        let last = names.last();
        lemma_user_items(front, users);
        law_user_entry_reads_back(last, users[last]);
        let fv = front.map_values(|n: Seq<char>| user_object(n, users[n]));
        assert(v =~= fv.push(user_object(last, users[last])));
        lemma_next_item(fv, user_object(last, users[last]));
        assert(","@ =~= seq![',']);
        if names.len() == 1 {
            assert(fv.len() == 0);
            assert(user_entries(names, users) =~= Seq::empty() + user_entry(last, users[last]));
        }
    }
}

proof fn lemma_list_items(s: ApiSpec, names: Seq<Seq<char>>, sizes: Seq<(Seq<char>, Seq<char>)>)
    requires
        forall|i: int| 0 <= i < names.len() ==> (param_in(sizes, #[trigger] names[i]) matches Some(n) ==> is_number(n)),
    ensures
        items_writable(names.map_values(|n: Seq<char>| db_object(n, s.loaded.contains(n), in_txn(s, n), param_in(sizes, n)))),
        items_written(names.map_values(|n: Seq<char>| db_object(n, s.loaded.contains(n), in_txn(s, n), param_in(sizes, n))), Seq::empty()) == db_entries(s, names, sizes),
    decreases names.len(),
{
    let v = names.map_values(|n: Seq<char>| db_object(n, s.loaded.contains(n), in_txn(s, n), param_in(sizes, n)));
    if names.len() == 0 {
        assert(v =~= Seq::empty());
    } else {
        reveal_strlit(",");
        let front = names.drop_last();
        let last = names.last();
        assert(names[names.len() - 1] == last);
        assert forall|i: int| 0 <= i < front.len() implies (param_in(sizes, #[trigger] front[i]) matches Some(n) ==> is_number(n)) by {
            assert(front[i] == names[i]);
        }
        lemma_list_items(s, front, sizes);
        law_list_entry_reads_back(s, last, param_in(sizes, last));
        let j = db_object(last, s.loaded.contains(last), in_txn(s, last), param_in(sizes, last));
        let fv = front.map_values(|n: Seq<char>| db_object(n, s.loaded.contains(n), in_txn(s, n), param_in(sizes, n)));
        assert(v =~= fv.push(j));
        lemma_next_item(fv, j);
        assert(","@ =~= seq![',']);
        if names.len() == 1 {
            assert(fv.len() == 0);
            assert(db_entries(s, names, sizes) =~= Seq::empty() + db_entry(s, last, param_in(sizes, last)));
        }
    }
}

/// The answer to a batch tells how many triples were inserted or removed.
pub proof fn law_batch_answer_tells_the_count(insert: bool, n: u64)
    ensures
        json_read(batch_answer(insert, Ok(Some(n))).body) == Ok::<JsonSpec, Seq<char>>(
            JsonSpec::Obj(status_fields(0, if insert { "batch inserted"@ } else { "batch removed"@ }).push(("changed"@, number(n as nat)))),
        ),
{
    law_decimal_is_a_number(n as nat);
    lemma_words_batch(insert);
    let msg = if insert { "batch inserted"@ } else { "batch removed"@ };
    let head = "{\"StatusCode\":0,\"StatusMsg\":\"batch "@ + (if insert { "inserted"@ } else { "removed"@ }) + "\",\"changed\":"@;
    lemma_success(head, msg, "changed"@, number(n as nat));
    lemma_close(status_fields(0, msg).push(("changed"@, number(n as nat))));
}

proof fn lemma_words_batch(insert: bool)
    ensures
        is_plain(if insert { "batch inserted"@ } else { "batch removed"@ }),
        is_plain("changed"@),
        "{\"StatusCode\":0,\"StatusMsg\":\"batch "@ + (if insert { "inserted"@ } else { "removed"@ }) + "\",\"changed\":"@ == success_head(if insert { "batch inserted"@ } else { "batch removed"@ }) + (seq![','] + head_text("changed"@)),
{
    reveal_strlit("batch inserted");
    reveal_strlit("batch removed");
    reveal_strlit("inserted");
    reveal_strlit("removed");
    reveal_strlit("changed");
    reveal_strlit("{\"StatusCode\":0,\"StatusMsg\":\"batch ");
    reveal_strlit("\",\"changed\":");
    reveal_strlit("{\"StatusCode\":");
    reveal_strlit(",\"StatusMsg\":");
    let head = "{\"StatusCode\":0,\"StatusMsg\":\"batch "@;
    if insert {
        assert(head + "inserted"@ + "\",\"changed\":"@ =~= success_head("batch inserted"@) + (seq![','] + head_text("changed"@)));
    } else {
        assert(head + "removed"@ + "\",\"changed\":"@ =~= success_head("batch removed"@) + (seq![','] + head_text("changed"@)));
    }
}

/// The databases in a directory are those whose name with `.db` behind it is there.
pub proof fn law_databases_are_their_directories(dirs: Seq<Seq<char>>, name: Seq<char>)
    ensures
        stems(dirs).contains(name) <==> dirs.contains(name + ".db"@),
{
    reveal_strlit(".db");
    assert(".db"@.len() == 3);
    let full = name + ".db"@;
    if dirs.contains(full) {
        let i = choose|i: int| 0 <= i < dirs.len() && dirs[i] == full;
        assert(full.take(full.len() - 3) =~= name);
        assert(full.skip(full.len() - 3) =~= ".db"@);
        assert(full.subrange(full.len() - 3, full.len() as int) =~= ".db"@);
        assert(stem(dirs[i]) == Some(name));
    }
    if stems(dirs).contains(name) {
        let i = choose|i: int| 0 <= i < dirs.len() && #[trigger] stem(dirs[i]) == Some(name);
        assert(dirs[i] =~= full);
    }
}

} // verus!
