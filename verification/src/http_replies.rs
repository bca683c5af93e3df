//! How the HTTP endpoint answers once the host has done what a request asked for.

use crate::db::DbStats;
use crate::error::{join2, join3};
use crate::http_api::{about_db, failure, in_txn, json_answer, okay, pairs_of, param_in, ApiSpec, ApiState, Resp, RespSpec};
use crate::json::{json_quoted, json_str};
use crate::text::{chars_of, decimal, decimal_of, insert_text, lists_texts, same, string_of, texts};
use vstd::prelude::*;
use vstd::string::*;

verus! {

/// The outcome of work by the host.
pub open spec fn outcome<T>(r: Result<T, String>) -> Option<Seq<char>> {
    match r {
        Ok(t) => None,
        Err(e) => Some(e@),
    }
}

/// The answer to a build.
pub open spec fn build_answer(db: Seq<char>, built: Result<u64, Seq<char>>, saved: Option<Seq<char>>) -> RespSpec {
    match built {
        Err(e) => failure(400, "build failed: "@ + e),
        Ok(n) => match saved {
            Some(e) => failure(500, "save failed: "@ + e),
            None => okay("database '"@ + db + "' built ("@ + decimal(n as nat) + " triples)"@),
        },
    }
}

/// The answer to a load.
pub open spec fn load_answer(db: Seq<char>, found: bool, loaded: Option<Seq<char>>) -> RespSpec {
    if !found {
        failure(404, about_db(db, "' not found on disk"@))
    } else {
        match loaded {
            Some(e) => failure(500, "load failed: "@ + e),
            None => okay(about_db(db, "' loaded"@)),
        }
    }
}

/// The answer to a drop.
pub open spec fn drop_answer(db: Seq<char>, was_loaded: bool, found: bool, removed: Option<Seq<char>>) -> RespSpec {
    if found && removed is Some {
        failure(500, "drop failed: "@ + removed->0)
    } else if !was_loaded && !found {
        failure(404, about_db(db, "' does not exist"@))
    } else {
        okay(about_db(db, "' dropped"@))
    }
}

/// The answer to a restore.
pub open spec fn restore_answer(db: Seq<char>, restored: Option<Seq<char>>, saved: Option<Seq<char>>) -> RespSpec {
    match restored {
        Some(e) => failure(500, "restore failed: "@ + e),
        None => match saved {
            Some(e) => failure(500, "restore persist failed: "@ + e),
            None => okay(about_db(db, "' restored"@)),
        },
    }
}

/// The answer to the start of a transaction.
pub open spec fn begin_answer(tid: u64) -> RespSpec {
    json_answer(200, "{\"StatusCode\":0,\"StatusMsg\":\"transaction started\",\"TID\":"@ + json_quoted(decimal(tid as nat)) + "}"@)
}

/// The word for the end of a transaction.
pub open spec fn end_verb(commit: bool) -> Seq<char> {
    if commit {
        "commit"@
    } else {
        "rollback"@
    }
}

/// The answer to the end of a transaction; there is no outcome if the database is
/// not loaded.
pub open spec fn end_answer(db: Seq<char>, tid: u64, commit: bool, ended: Option<Option<Seq<char>>>) -> RespSpec {
    match ended {
        None => failure(404, about_db(db, "' is not loaded"@)),
        Some(Some(e)) => failure(500, end_verb(commit) + " failed: "@ + e),
        Some(None) => okay("transaction "@ + decimal(tid as nat) + " "@ + end_verb(commit) + " done"@),
    }
}

/// The answer to a batch; there is no count if the statement was no update.
pub open spec fn batch_answer(insert: bool, done: Result<Option<u64>, Seq<char>>) -> RespSpec {
    match done {
        Err(e) => failure(400, "batch failed: "@ + e),
        Ok(None) => failure(400, "batch statement did not produce an update"@),
        Ok(Some(n)) => json_answer(
            200,
            "{\"StatusCode\":0,\"StatusMsg\":\"batch "@ + (if insert { "inserted"@ } else { "removed"@ }) + "\",\"changed\":"@ + decimal(n as nat) + "}"@,
        ),
    }
}

/// The content type of an error about a query.
pub const RESULTS_JSON: &'static str = "application/sparql-results+json";

/// The content type of a graph.
pub const N_TRIPLES: &'static str = "application/n-triples";

/// What a query gave, in the texts that the client reads: a table or a truth value
/// in the negotiated format, triples, the number of changes of an update, or an error.
#[derive(Debug)]
pub enum Rendered {
    Table { ctype: String, body: String },
    Triples(String),
    Changed(u64),
    Failed(String),
}

/// The answer to a query.
pub open spec fn query_answer(r: Rendered) -> RespSpec {
    match r {
        Rendered::Table { ctype, body } => RespSpec { status: 200, ctype: ctype@, body: body@, extra: Seq::empty() },
        Rendered::Triples(body) => RespSpec { status: 200, ctype: N_TRIPLES@, body: body@, extra: Seq::empty() },
        Rendered::Changed(n) => json_answer(200, "{\"StatusCode\":0,\"StatusMsg\":\"success\",\"changed\":"@ + decimal(n as nat) + "}"@),
        Rendered::Failed(body) => RespSpec { status: 400, ctype: RESULTS_JSON@, body: body@, extra: Seq::empty() },
    }
}

/// The answer to a backup.
pub open spec fn backup_answer(path: Seq<char>, done: Option<Seq<char>>) -> RespSpec {
    match done {
        Some(e) => failure(500, "backup failed: "@ + e),
        None => json_answer(200, "{\"StatusCode\":0,\"StatusMsg\":\"backup success\",\"path\":"@ + json_quoted(path) + "}"@),
    }
}

/// The answer to a checkpoint.
pub open spec fn checkpoint_answer(db: Seq<char>, done: Option<Seq<char>>) -> RespSpec {
    match done {
        Some(e) => failure(500, "checkpoint failed: "@ + e),
        None => okay(about_db(db, "' checkpointed"@)),
    }
}

/// The name of the database in a directory, if it is one.
pub open spec fn stem(dir: Seq<char>) -> Option<Seq<char>> {
    if crate::ends_with(dir, ".db"@) {
        Some(dir.take(dir.len() - 3))
    } else {
        None
    }
}

/// The names of the databases in some directories.
pub open spec fn stems(dirs: Seq<Seq<char>>) -> Set<Seq<char>> {
    Set::new(|n: Seq<char>| exists|i: int| 0 <= i < dirs.len() && #[trigger] stem(dirs[i]) == Some(n))
}

/// A truth value in JSON.
pub open spec fn bool_text(b: bool) -> Seq<char> {
    if b {
        "true"@
    } else {
        "false"@
    }
}

/// The entry of a database in a list. Only loaded databases have a size.
pub open spec fn db_entry(s: ApiSpec, name: Seq<char>, size: Option<Seq<char>>) -> Seq<char> {
    "{\"name\":"@ + json_quoted(name) + ",\"loaded\":"@ + bool_text(s.loaded.contains(name)) + ",\"in_transaction\":"@ + bool_text(in_txn(s, name)) + ",\"triples\":"@ + (match size {
        Some(n) => n,
        None => "null"@,
    }) + "}"@
}

/// The entries of some databases, with commas between them.
pub open spec fn db_entries(s: ApiSpec, names: Seq<Seq<char>>, sizes: Seq<(Seq<char>, Seq<char>)>) -> Seq<char>
    decreases names.len(),
{
    if names.len() == 0 {
        Seq::empty()
    } else if names.len() == 1 {
        db_entry(s, names[0], param_in(sizes, names[0]))
    } else {
        db_entries(s, names.drop_last(), sizes) + ","@ + db_entry(s, names.last(), param_in(sizes, names.last()))
    }
}

/// The answer with the list of databases.
pub open spec fn show_answer(entries: Seq<char>) -> RespSpec {
    json_answer(200, "{\"StatusCode\":0,\"StatusMsg\":\"success\",\"databases\":["@ + entries + "]}"@)
}

/// The counts of a status.
#[derive(Debug, Clone, Copy)]
pub struct Counts {
    pub databases: u64,
    pub triples: u64,
    pub transactions: u64,
    pub users: u64,
    pub requests: u64,
    pub uptime: u64,
}

/// The answer with a status.
pub open spec fn status_answer(c: Counts) -> RespSpec {
    json_answer(
        200,
        "{\"StatusCode\":0,\"StatusMsg\":\"running\",\"databases_loaded\":"@ + decimal(c.databases as nat) + ",\"total_triples\":"@ + decimal(c.triples as nat) + ",\"open_transactions\":"@ + decimal(c.transactions as nat) + ",\"users\":"@
            + decimal(c.users as nat) + ",\"requests\":"@ + decimal(c.requests as nat) + ",\"uptime_secs\":"@ + decimal(c.uptime as nat) + "}"@,
    )
}

/// The entry of a database in a monitor.
pub open spec fn stats_entry(d: DbStats) -> Seq<char> {
    "{\"name\":"@ + json_quoted(d.name@) + ",\"triples\":"@ + decimal(d.triple_num as nat) + ",\"entities\":"@ + decimal(d.entity_num as nat) + ",\"literals\":"@ + decimal(d.literal_num as nat) + ",\"predicates\":"@
        + decimal(d.predicate_num as nat) + ",\"index_valid\":"@ + bool_text(d.index_valid) + ",\"in_transaction\":"@ + bool_text(d.in_transaction) + "}"@
}

/// The entries of some databases in a monitor, with commas between them.
pub open spec fn stats_entries(s: Seq<DbStats>) -> Seq<char>
    decreases s.len(),
{
    if s.len() == 0 {
        Seq::empty()
    } else if s.len() == 1 {
        stats_entry(s[0])
    } else {
        stats_entries(s.drop_last()) + ","@ + stats_entry(s.last())
    }
}

/// The answer with a monitor.
pub open spec fn monitor_answer(c: Counts, s: Seq<DbStats>) -> RespSpec {
    json_answer(
        200,
        "{\"StatusCode\":0,\"StatusMsg\":\"success\",\"uptime_secs\":"@ + decimal(c.uptime as nat) + ",\"requests\":"@ + decimal(c.requests as nat) + ",\"users\":"@ + decimal(c.users as nat) + ",\"open_transactions\":"@
            + decimal(c.transactions as nat) + ",\"databases\":["@ + stats_entries(s) + "]}"@,
    )
}

fn failed(status: u16, what: &str, e: &str) -> (r: Resp)
    ensures
        r@ == failure(status, what@ + e@),
{
    Resp::fail(status, join2(what, e).as_str())
}

fn db_text(db: &str, what: &str) -> (r: String)
    ensures
        r@ == about_db(db@, what@),
{
    join3("database '", db, what)
}

impl ApiState {
    /// A database was built and saved.
    pub fn built(&mut self, db: &str, built: Result<u64, String>, saved: Result<(), String>) -> (r: Resp)
        requires
            old(self).wf(),
        ensures
            final(self).wf(),
            r@ == build_answer(
                db@,
                match built {
                    Ok(n) => Ok(n),
                    Err(e) => Err(e@),
                },
                outcome(saved),
            ),
            final(self)@ == if built is Ok && saved is Ok {
                ApiSpec { loaded: old(self)@.loaded.insert(db@), ..old(self)@ }
            } else {
                old(self)@
            },
    {
        let n: u64 = match built {
            Ok(n) => n,
            Err(e) => {
                return failed(400, "build failed: ", e.as_str());
            },
        };
        match saved {
            Err(e) => failed(500, "save failed: ", e.as_str()),
            Ok(u) => {
                self.set_loaded(db);
                let mut m: String = join3("database '", db, "' built (");
                m.append(decimal_of(n).as_str());
                m.append(" triples)");
                Resp::ok(m.as_str())
            },
        }
    }

    /// A database was looked for on disk, and loaded.
    pub fn loaded(&mut self, db: &str, found: bool, loaded: Result<(), String>) -> (r: Resp)
        requires
            old(self).wf(),
        ensures
            final(self).wf(),
            r@ == load_answer(db@, found, outcome(loaded)),
            final(self)@ == if found && loaded is Ok {
                ApiSpec { loaded: old(self)@.loaded.insert(db@), ..old(self)@ }
            } else {
                old(self)@
            },
    {
        if !found {
            return Resp::fail(404, db_text(db, "' not found on disk").as_str());
        }
        match loaded {
            Err(e) => failed(500, "load failed: ", e.as_str()),
            Ok(u) => {
                self.set_loaded(db);
                Resp::ok(db_text(db, "' loaded").as_str())
            },
        }
    }

    /// A backup was restored and saved.
    pub fn restored(&mut self, db: &str, restored: Result<(), String>, saved: Result<(), String>) -> (r: Resp)
        requires
            old(self).wf(),
        ensures
            final(self).wf(),
            r@ == restore_answer(db@, outcome(restored), outcome(saved)),
            final(self)@ == if restored is Ok && saved is Ok {
                ApiSpec { loaded: old(self)@.loaded.insert(db@), ..old(self)@ }
            } else {
                old(self)@
            },
    {
        match restored {
            Err(e) => {
                return failed(500, "restore failed: ", e.as_str());
            },
            Ok(u) => {},
        }
        match saved {
            Err(e) => failed(500, "restore persist failed: ", e.as_str()),
            Ok(u) => {
                self.set_loaded(db);
                Resp::ok(db_text(db, "' restored").as_str())
            },
        }
    }

    /// A transaction was started, and is to have the given id. Nothing is returned
    /// if the id is taken: the host then tries another.
    pub fn begun(&mut self, db: &str, tid: u64, started: &Result<(), String>) -> (r: Option<Resp>)
        requires
            old(self).wf(),
        ensures
            final(self).wf(),
            match started {
                Err(e) => (r matches Some(p) && p@ == failure(500, "begin failed: "@ + e@)) && final(self)@ == old(self)@,
                Ok(u) => if old(self)@.txns.contains_key(tid) {
                    r is None && final(self)@ == old(self)@
                } else {
                    &&& r matches Some(p) && p@ == begin_answer(tid)
                    &&& final(self)@ == (ApiSpec { txns: old(self)@.txns.insert(tid, db@), ..old(self)@ })
                },
            },
    {
        match started {
            Err(e) => {
                return Some(failed(500, "begin failed: ", e.as_str()));
            },
            Ok(u) => {},
        }
        if !self.open_txn(tid, db) {
            return None;
        }
        Some(Resp::json(200, join3("{\"StatusCode\":0,\"StatusMsg\":\"transaction started\",\"TID\":", json_str(decimal_of(tid).as_str()).as_str(), "}")))
    }

    /// The names of all databases: those in the given directories, and those that
    /// are loaded.
    pub fn names(&self, dirs: &Vec<String>) -> (r: Vec<String>)
        requires
            self.wf(),
        ensures
            lists_texts(texts(r@), stems(texts(dirs@)).union(self@.loaded)),
    {
        let mut r: Vec<String> = self.loaded_names();
        let ghost all = texts(dirs@);
        let mut i: usize = 0;
        proof {
            assert(stems(all.take(0)) =~= Set::<Seq<char>>::empty());
            assert(stems(all.take(0)).union(self@.loaded) =~= self@.loaded);
        }
        while i < dirs.len()
            invariant
                i <= dirs@.len(),
                all == texts(dirs@),
                self.wf(),
                lists_texts(texts(r@), stems(all.take(i as int)).union(self@.loaded)),
            decreases dirs.len() - i,
        {
            let ghost r0 = texts(r@);
            let ghost s0 = stems(all.take(i as int)).union(self@.loaded);
            let dir: Vec<char> = chars_of(dirs[i].as_str());
            proof {
                reveal_strlit(".db");
                assert(all[i as int] == dirs@[i as int]@);
                lemma_stems(all, i as int);
            }
            let n: usize = dir.len();
            if n >= 3 && dir[n - 3] == '.' && dir[n - 2] == 'd' && dir[n - 1] == 'b' {
                let name: String = string_of(&dir, 0, n - 3);
                proof {
                    assert(dir@.subrange(n - 3, n as int) =~= ".db"@);
                    assert(name@ =~= dir@.take(n - 3));
                }
                insert_text(&mut r, name.as_str());
                proof {
                    let s1 = stems(all.take(i + 1)).union(self@.loaded);
                    assert forall|x: Seq<char>| #[trigger] s1.contains(x) <==> texts(r@).contains(x) by {
                        assert(s0.contains(x) <==> r0.contains(x));
                        assert(texts(r@).contains(x) <==> r0.contains(x) || x == name@);
                    }
                }
            } else {
                proof {
                    if crate::ends_with(dir@, ".db"@) {
                        let e = dir@.subrange(n - 3, n as int);
                        assert(e[0] == '.' && e[1] == 'd' && e[2] == 'b');
                    }
                    assert(stems(all.take(i + 1)) =~= stems(all.take(i as int)));
                }
            }
            i = i + 1;
        }
        assert(all.take(i as int) =~= all);
        r
    }

    /// What the list says of one database.
    fn entry(&self, name: &str, sizes: &Vec<(String, String)>) -> (r: String)
        requires
            self.wf(),
        ensures
            r@ == db_entry(self@, name@, param_in(pairs_of(sizes@), name@)),
    {
        let mut r: String = String::new();
        r.append("{\"name\":");
        r.append(json_str(name).as_str());
        r.append(",\"loaded\":");
        r.append(truth(self.is_loaded(name)));
        r.append(",\"in_transaction\":");
        r.append(truth(self.is_busy(name)));
        r.append(",\"triples\":");
        match size_of(sizes, name) {
            Some(n) => {
                r.append(n.as_str());
            },
            None => {
                r.append("null");
            },
        }
        r.append("}");
        assert(r@ =~= db_entry(self@, name@, param_in(pairs_of(sizes@), name@)));
        r
    }

    /// The answer with the list of databases. The sizes are those of the loaded ones.
    pub fn show(&self, dirs: &Vec<String>, sizes: &Vec<(String, String)>) -> (r: Resp)
        requires
            self.wf(),
        ensures
            exists|names: Seq<Seq<char>>| #[trigger] lists_texts(names, stems(texts(dirs@)).union(self@.loaded)) && r@ == show_answer(db_entries(self@, names, pairs_of(sizes@))),
    {
        let list: Vec<String> = self.names(dirs);
        let ghost names = texts(list@);
        let ghost table = pairs_of(sizes@);
        let mut items: String = String::new();
        let mut i: usize = 0;
        assert(names.take(0) =~= Seq::<Seq<char>>::empty());
        assert(items@ =~= Seq::<char>::empty());
        while i < list.len()
            invariant
                i <= list@.len(),
                names == texts(list@),
                table == pairs_of(sizes@),
                self.wf(),
                items@ == db_entries(self@, names.take(i as int), table),
            decreases list.len() - i,
        {
            let ghost before = items@;
            let name: &str = list[i].as_str();
            proof {
                assert(names.take(i + 1).drop_last() =~= names.take(i as int));
                assert(names.take(i + 1).last() == name@);
            }
            if i > 0 {
                items.append(",");
            }
            let entry: String = self.entry(name, sizes);
            items.append(entry.as_str());
            proof {
                if i == 0 {
                    assert(before =~= Seq::<char>::empty());
                    assert(items@ =~= entry@);
                }
            }
            i = i + 1;
        }
        assert(names.take(i as int) =~= names);
        Resp::json(200, join3("{\"StatusCode\":0,\"StatusMsg\":\"success\",\"databases\":[", items.as_str(), "]}"))
    }
}

proof fn lemma_stems(dirs: Seq<Seq<char>>, i: int)
    requires
        0 <= i < dirs.len(),
    ensures
        forall|n: Seq<char>| #[trigger] stems(dirs.take(i + 1)).contains(n) <==> stems(dirs.take(i)).contains(n) || stem(dirs[i]) == Some(n),
{
    let a = dirs.take(i);
    let b = dirs.take(i + 1);
    assert forall|n: Seq<char>| #[trigger] stems(b).contains(n) <==> stems(a).contains(n) || stem(dirs[i]) == Some(n) by {
        if stems(b).contains(n) {
            let k = choose|k: int| 0 <= k < b.len() && #[trigger] stem(b[k]) == Some(n);
            if k < i {
                assert(stem(a[k]) == Some(n));
            }
        }
        if stems(a).contains(n) {
            let k = choose|k: int| 0 <= k < a.len() && #[trigger] stem(a[k]) == Some(n);
            assert(stem(b[k]) == Some(n));
        }
        if stem(dirs[i]) == Some(n) {
            assert(stem(b[i]) == Some(n));
        }
    }
}

fn truth(b: bool) -> (r: &'static str)
    ensures
        r@ == bool_text(b),
{
    if b {
        "true"
    } else {
        "false"
    }
}

fn size_of(sizes: &Vec<(String, String)>, name: &str) -> (r: Option<String>)
    ensures
        match param_in(pairs_of(sizes@), name@) {
            Some(n) => r matches Some(s) && s@ == n,
            None => r is None,
        },
{
    let ghost all = pairs_of(sizes@);
    let mut i: usize = 0;
    assert(all.skip(0) =~= all);
    while i < sizes.len()
        invariant
            i <= sizes@.len(),
            all == pairs_of(sizes@),
            param_in(all, name@) == param_in(all.skip(i as int), name@),
        decreases sizes.len() - i,
    {
        proof {
            assert(all.skip(i as int)[0] == (sizes@[i as int].0@, sizes@[i as int].1@));
            assert(all.skip(i as int).skip(1) =~= all.skip(i + 1));
        }
        if same(sizes[i].0.as_str(), name) {
            return Some(sizes[i].1.as_str().to_owned());
        }
        i = i + 1;
    }
    assert(all.skip(i as int).len() == 0);
    None
}

/// A database was looked for on disk, and removed.
pub fn dropped(db: &str, was_loaded: bool, found: bool, removed: Result<(), String>) -> (r: Resp)
    ensures
        r@ == drop_answer(db@, was_loaded, found, outcome(removed)),
{
    if found {
        match removed {
            Err(e) => {
                return failed(500, "drop failed: ", e.as_str());
            },
            Ok(u) => {},
        }
    }
    if !was_loaded && !found {
        return Resp::fail(404, db_text(db, "' does not exist").as_str());
    }
    Resp::ok(db_text(db, "' dropped").as_str())
}

/// A transaction was ended; there is no outcome if the database is not loaded.
pub fn ended(db: &str, tid: u64, commit: bool, done: Option<Result<(), String>>) -> (r: Resp)
    ensures
        r@ == end_answer(
            db@,
            tid,
            commit,
            match done {
                Some(d) => Some(outcome(d)),
                None => None,
            },
        ),
{
    let verb: &'static str = if commit { "commit" } else { "rollback" };
    match done {
        None => Resp::fail(404, db_text(db, "' is not loaded").as_str()),
        Some(Err(e)) => Resp::fail(500, join3(verb, " failed: ", e.as_str()).as_str()),
        Some(Ok(u)) => {
            let mut m: String = join3("transaction ", decimal_of(tid).as_str(), " ");
            m.append(verb);
            m.append(" done");
            Resp::ok(m.as_str())
        },
    }
}

fn typed(status: u16, ctype: String, body: String) -> (r: Resp)
    ensures
        r@ == (RespSpec { status, ctype: ctype@, body: body@, extra: Seq::empty() }),
{
    let r = Resp { status, ctype, body, extra: Vec::new() };
    assert(pairs_of(r.extra@) =~= Seq::empty());
    r
}

/// A query was run.
pub fn queried(r: Rendered) -> (a: Resp)
    ensures
        a@ == query_answer(r),
{
    match r {
        Rendered::Table { ctype, body } => typed(200, ctype, body),
        Rendered::Triples(body) => typed(200, N_TRIPLES.to_owned(), body),
        Rendered::Changed(n) => Resp::json(200, join3("{\"StatusCode\":0,\"StatusMsg\":\"success\",\"changed\":", decimal_of(n).as_str(), "}")),
        Rendered::Failed(body) => typed(400, RESULTS_JSON.to_owned(), body),
    }
}

/// A database was unloaded.
pub fn unloaded(db: &str) -> (r: Resp)
    ensures
        r@ == okay(about_db(db@, "' unloaded"@)),
{
    Resp::ok(db_text(db, "' unloaded").as_str())
}

/// A batch was run; there is no count if the statement was no update.
pub fn batch_done(insert: bool, done: Result<Option<u64>, String>) -> (r: Resp)
    ensures
        r@ == batch_answer(
            insert,
            match done {
                Ok(n) => Ok(n),
                Err(e) => Err(e@),
            },
        ),
{
    match done {
        Err(e) => failed(400, "batch failed: ", e.as_str()),
        Ok(None) => Resp::fail(400, "batch statement did not produce an update"),
        Ok(Some(n)) => {
            let mut m: String = join3("{\"StatusCode\":0,\"StatusMsg\":\"batch ", if insert { "inserted" } else { "removed" }, "\",\"changed\":");
            m.append(decimal_of(n).as_str());
            m.append("}");
            Resp::json(200, m)
        },
    }
}

/// A backup was written to a path.
pub fn backed_up(path: &str, done: Result<(), String>) -> (r: Resp)
    ensures
        r@ == backup_answer(path@, outcome(done)),
{
    match done {
        Err(e) => failed(500, "backup failed: ", e.as_str()),
        Ok(u) => Resp::json(200, join3("{\"StatusCode\":0,\"StatusMsg\":\"backup success\",\"path\":", json_str(path).as_str(), "}")),
    }
}

/// A database was saved.
pub fn checkpointed(db: &str, done: Result<(), String>) -> (r: Resp)
    ensures
        r@ == checkpoint_answer(db@, outcome(done)),
{
    match done {
        Err(e) => failed(500, "checkpoint failed: ", e.as_str()),
        Ok(u) => Resp::ok(db_text(db, "' checkpointed").as_str()),
    }
}

/// The answer with a status.
pub fn status(c: Counts) -> (r: Resp)
    ensures
        r@ == status_answer(c),
{
    let mut m: String = join3("{\"StatusCode\":0,\"StatusMsg\":\"running\",\"databases_loaded\":", decimal_of(c.databases).as_str(), ",\"total_triples\":");
    m.append(decimal_of(c.triples).as_str());
    m.append(",\"open_transactions\":");
    m.append(decimal_of(c.transactions).as_str());
    m.append(",\"users\":");
    m.append(decimal_of(c.users).as_str());
    m.append(",\"requests\":");
    m.append(decimal_of(c.requests).as_str());
    m.append(",\"uptime_secs\":");
    m.append(decimal_of(c.uptime).as_str());
    m.append("}");
    Resp::json(200, m)
}

fn stats_text(d: &DbStats) -> (r: String)
    ensures
        r@ == stats_entry(*d),
{
    let mut m: String = join3("{\"name\":", json_str(d.name.as_str()).as_str(), ",\"triples\":");
    m.append(decimal_of(d.triple_num).as_str());
    m.append(",\"entities\":");
    m.append(decimal_of(d.entity_num as u64).as_str());
    m.append(",\"literals\":");
    m.append(decimal_of(d.literal_num as u64).as_str());
    m.append(",\"predicates\":");
    m.append(decimal_of(d.predicate_num as u64).as_str());
    m.append(",\"index_valid\":");
    m.append(truth(d.index_valid));
    m.append(",\"in_transaction\":");
    m.append(truth(d.in_transaction));
    m.append("}");
    m
}

/// The answer with a monitor, given the statistics of the loaded databases by name.
pub fn monitor(c: Counts, stats: &Vec<DbStats>) -> (r: Resp)
    ensures
        r@ == monitor_answer(c, stats@),
{
    let mut items: String = String::new();
    let mut i: usize = 0;
    assert(stats@.take(0) =~= Seq::<DbStats>::empty());
    assert(items@ =~= Seq::<char>::empty());
    while i < stats.len()
        invariant
            i <= stats@.len(),
            items@ == stats_entries(stats@.take(i as int)),
        decreases stats.len() - i,
    {
        let ghost before = items@;
        proof {
            assert(stats@.take(i + 1).drop_last() =~= stats@.take(i as int));
        }
        if i > 0 {
            items.append(",");
        }
        items.append(stats_text(&stats[i]).as_str());
        proof {
            let e = stats_entry(stats@[i as int]);
            if i == 0 {
                assert(before =~= Seq::<char>::empty());
                assert(items@ =~= e);
            } else {
                assert(items@ =~= before + ","@ + e);
            }
        }
        i = i + 1;
    }
    assert(stats@.take(i as int) =~= stats@);
    let mut m: String = join3("{\"StatusCode\":0,\"StatusMsg\":\"success\",\"uptime_secs\":", decimal_of(c.uptime).as_str(), ",\"requests\":");
    m.append(decimal_of(c.requests).as_str());
    m.append(",\"users\":");
    m.append(decimal_of(c.users).as_str());
    m.append(",\"open_transactions\":");
    m.append(decimal_of(c.transactions).as_str());
    m.append(",\"databases\":[");
    m.append(items.as_str());
    m.append("]}");
    Resp::json(200, m)
}

} // verus!
