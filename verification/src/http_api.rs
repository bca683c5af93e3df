//! The HTTP endpoint of a directory of databases: who may do what, what a request
//! asks the host to do, and how it is answered.
//!
//! Every request but one to `/login` needs a user. Without one the
//! answer has status 401; without the privilege that the endpoint needs, 403.

use crate::error::{join2, join3};
use crate::fields::{trim_text, trimmed};
use crate::http_users::{about_user, allowed, change_error, knows, name_error, parsed_list, password_hash, plain_char, session_owner, set_text, sessions_without, with_privileges, name_char, Privilege, PrivilegeSet, SessionSpec, User, UserSpec, UserStore, UserStoreSpec, ROOT_USER};
use crate::json::{json_quoted, json_str};
use crate::text::{chars_of, decimal, decimal_of, insert_text, lemma_text_order, lists_texts, parse_unsigned, parsed_unsigned, is_white, same, string_of, text_less, text_place, texts, texts_ascend, white};
use vstd::prelude::*;
use vstd::string::*;
use vstd::utf8::encode_utf8;

verus! {

/// The content type of most answers.
pub const JSON: &'static str = "application/json";

/// An answer as a mathematical value.
#[verifier::ext_equal]
pub ghost struct RespSpec {
    pub status: u16,
    pub ctype: Seq<char>,
    pub body: Seq<char>,
    pub extra: Seq<(Seq<char>, Seq<char>)>,
}

/// An answer: status, content type, body, and further headers.
#[derive(Debug)]
pub struct Resp {
    pub status: u16,
    pub ctype: String,
    pub body: String,
    pub extra: Vec<(String, String)>,
}

/// Pairs of texts as mathematical values.
pub open spec fn pairs_of(v: Seq<(String, String)>) -> Seq<(Seq<char>, Seq<char>)> {
    Seq::new(v.len(), |i: int| (v[i].0@, v[i].1@))
}

impl View for Resp {
    type V = RespSpec;

    open spec fn view(&self) -> RespSpec {
        RespSpec { status: self.status, ctype: self.ctype@, body: self.body@, extra: pairs_of(self.extra@) }
    }
}

/// An answer in JSON.
pub open spec fn json_answer(status: u16, body: Seq<char>) -> RespSpec {
    RespSpec { status, ctype: JSON@, body, extra: Seq::empty() }
}

/// The body with a code and a message.
pub open spec fn status_text(code: nat, msg: Seq<char>) -> Seq<char> {
    "{\"StatusCode\":"@ + decimal(code) + ",\"StatusMsg\":"@ + json_quoted(msg) + "}"@
}

/// An answer of success.
pub open spec fn okay(msg: Seq<char>) -> RespSpec {
    json_answer(200, status_text(0, msg))
}

/// An answer of failure.
pub open spec fn failure(status: u16, msg: Seq<char>) -> RespSpec {
    json_answer(status, status_text(status as nat, msg))
}

/// The answer to a request without a user.
pub open spec fn no_user() -> RespSpec {
    RespSpec { extra: seq![("WWW-Authenticate"@, "Basic realm=\"gStore\""@)], ..failure(401, "authentication required"@) }
}

/// The answer to a request without the privilege.
pub open spec fn no_privilege() -> RespSpec {
    failure(403, "permission denied: insufficient privilege"@)
}

impl Resp {
    /// An answer in JSON.
    pub fn json(status: u16, body: String) -> (r: Resp)
        ensures
            r@ == json_answer(status, body@),
    {
        let r = Resp { status, ctype: JSON.to_owned(), body, extra: Vec::new() };
        assert(pairs_of(r.extra@) =~= Seq::empty());
        r
    }

    /// An answer of success.
    pub fn ok(msg: &str) -> (r: Resp)
        ensures
            r@ == okay(msg@),
    {
        Resp::json(200, status_json(0, msg))
    }

    /// An answer of failure.
    pub fn fail(status: u16, msg: &str) -> (r: Resp)
        ensures
            r@ == failure(status, msg@),
    {
        Resp::json(status, status_json(status as u64, msg))
    }
}

/// The body with a code and a message.
pub fn status_json(code: u64, msg: &str) -> (r: String)
    ensures
        r@ == status_text(code as nat, msg@),
{
    let mut r: String = join3("{\"StatusCode\":", decimal_of(code).as_str(), ",\"StatusMsg\":");
    r.append(json_str(msg).as_str());
    r.append("}");
    r
}

fn unauthorized() -> (r: Resp)
    ensures
        r@ == no_user(),
{
    let mut r: Resp = Resp::fail(401, "authentication required");
    r.extra.push(("WWW-Authenticate".to_owned(), "Basic realm=\"gStore\"".to_owned()));
    assert(pairs_of(r.extra@) =~= seq![("WWW-Authenticate"@, "Basic realm=\"gStore\""@)]);
    r
}

fn forbidden() -> (r: Resp)
    ensures
        r@ == no_privilege(),
{
    Resp::fail(403, "permission denied: insufficient privilege")
}

/// A request as a mathematical value.
pub ghost struct RequestSpec {
    pub method: Seq<char>,
    pub path: Seq<char>,
    pub params: Seq<(Seq<char>, Seq<char>)>,
    pub query: Option<Seq<char>>,
    pub body: Seq<char>,
    pub token: Option<Seq<char>>,
    pub basic: Option<(Seq<char>, Seq<char>)>,
    pub accept: Option<Seq<char>>,
}

/// A request: the parameters, the query text of the protocol, the body, the
/// session token, the user and password of basic authentication, and the content
/// types that the client accepts.
#[derive(Debug)]
pub struct Request {
    pub method: String,
    pub path: String,
    pub params: Vec<(String, String)>,
    pub query: Option<String>,
    pub body: String,
    pub token: Option<String>,
    pub basic: Option<(String, String)>,
    pub accept: Option<String>,
}

/// An optional text as a mathematical value.
pub open spec fn text_opt(o: Option<String>) -> Option<Seq<char>> {
    match o {
        Some(s) => Some(s@),
        None => None,
    }
}

impl View for Request {
    type V = RequestSpec;

    open spec fn view(&self) -> RequestSpec {
        RequestSpec {
            method: self.method@,
            path: self.path@,
            params: pairs_of(self.params@),
            query: text_opt(self.query),
            body: self.body@,
            token: text_opt(self.token),
            basic: match self.basic {
                Some(p) => Some((p.0@, p.1@)),
                None => None,
            },
            accept: text_opt(self.accept),
        }
    }
}

/// The first parameter with a name.
pub open spec fn param_in(params: Seq<(Seq<char>, Seq<char>)>, name: Seq<char>) -> Option<Seq<char>>
    decreases params.len(),
{
    if params.len() == 0 {
        None
    } else if params[0].0 == name {
        Some(params[0].1)
    } else {
        param_in(params.skip(1), name)
    }
}

/// The first of two that there is.
pub open spec fn either(a: Option<Seq<char>>, b: Option<Seq<char>>) -> Option<Seq<char>> {
    match a {
        Some(x) => Some(x),
        None => b,
    }
}

/// The body, unless it is blank.
pub open spec fn body_text(r: RequestSpec) -> Option<Seq<char>> {
    if trimmed(r.body).len() == 0 {
        None
    } else {
        Some(r.body)
    }
}

/// A copy of an optional text.
fn copy_opt(o: &Option<String>) -> (r: Option<String>)
    ensures
        text_opt(r) == text_opt(*o),
{
    match o {
        Some(s) => Some(s.as_str().to_owned()),
        None => None,
    }
}

/// The first of two that there is.
fn first_of(a: Option<String>, b: Option<String>) -> (r: Option<String>)
    ensures
        text_opt(r) == either(text_opt(a), text_opt(b)),
{
    match a {
        Some(s) => Some(s),
        None => b,
    }
}

impl Request {
    /// A parameter.
    pub fn param(&self, name: &str) -> (r: Option<String>)
        ensures
            text_opt(r) == param_in(self@.params, name@),
    {
        let ghost all = pairs_of(self.params@);
        let mut i: usize = 0;
        assert(all.skip(0) =~= all);
        while i < self.params.len()
            invariant
                i <= self.params@.len(),
                all == pairs_of(self.params@),
                param_in(all, name@) == param_in(all.skip(i as int), name@),
            decreases self.params.len() - i,
        {
            proof {
                assert(all.skip(i as int)[0] == (self.params@[i as int].0@, self.params@[i as int].1@));
                assert(all.skip(i as int).skip(1) =~= all.skip(i + 1));
            }
            if same(self.params[i].0.as_str(), name) {
                return Some(self.params[i].1.as_str().to_owned());
            }
            i = i + 1;
        }
        assert(all.skip(i as int).len() == 0);
        None
    }

    fn two(&self, a: &str, b: &str) -> (r: Option<String>)
        ensures
            text_opt(r) == either(param_in(self@.params, a@), param_in(self@.params, b@)),
    {
        first_of(self.param(a), self.param(b))
    }

    fn full_body(&self) -> (r: Option<String>)
        ensures
            text_opt(r) == body_text(self@),
    {
        let t: String = trim_text(self.body.as_str());
        if chars_of(t.as_str()).len() == 0 {
            None
        } else {
            Some(self.body.as_str().to_owned())
        }
    }
}

/// An ASCII letter in upper case.
pub open spec fn upper_char(c: char) -> char {
    if 'a' <= c <= 'z' {
        ((c as u8) - 32) as char
    } else {
        c
    }
}

/// A text with all ASCII letters in upper case.
pub open spec fn upper(s: Seq<char>) -> Seq<char> {
    s.map_values(|c: char| upper_char(c))
}

/// The text behind the first place of a character, or nothing if there is none.
pub open spec fn behind(s: Seq<char>, c: char) -> Seq<char>
    decreases s.len(),
{
    if s.len() == 0 {
        s
    } else if s[0] == c {
        s.skip(1)
    } else {
        behind(s.skip(1), c)
    }
}

/// The text behind white space and comments, which go to the end of their line.
pub open spec fn behind_space(s: Seq<char>) -> Seq<char>
    decreases s.len(),
{
    if s.len() == 0 {
        s
    } else if is_white(s[0]) {
        behind_space(s.skip(1))
    } else if s[0] == '#' && behind(s, '\n').len() < s.len() {
        behind_space(behind(s, '\n'))
    } else {
        s
    }
}

/// How many letters a text starts with.
pub open spec fn letter_count(s: Seq<char>) -> nat
    decreases s.len(),
{
    if s.len() > 0 && ('a' <= s[0] <= 'z' || 'A' <= s[0] <= 'Z') {
        1 + letter_count(s.skip(1))
    } else {
        0
    }
}

/// The keyword that a text starts with: its letters, in upper case.
pub open spec fn keyword(s: Seq<char>) -> Seq<char> {
    upper(s.take(letter_count(s) as int))
}

/// The text behind a declaration of a prefix or of the base, whose keyword was read: a
/// prefix has a name that ends with a colon, and an IRI ends with an angle bracket.
pub open spec fn behind_declaration(s: Seq<char>, prefix: bool) -> Seq<char> {
    if prefix {
        behind(behind_space(behind(behind_space(s), ':')), '>')
    } else {
        behind(behind_space(s), '>')
    }
}

/// The text behind the declarations at the start.
pub open spec fn behind_prologue(s: Seq<char>) -> Seq<char>
    decreases s.len(),
{
    let t = behind_space(s);
    let k = keyword(t);
    let rest = behind_declaration(t.skip(letter_count(t) as int), k == "PREFIX"@);
    if (k == "PREFIX"@ || k == "BASE"@) && rest.len() < s.len() {
        behind_prologue(rest)
    } else {
        t
    }
}

/// A word that starts an update.
pub open spec fn update_word(u: Seq<char>) -> bool {
    u == "INSERT"@ || u == "DELETE"@ || u == "LOAD"@ || u == "CLEAR"@ || u == "DROP"@ || u == "CREATE"@ || u == "ADD"@ || u == "MOVE"@ || u == "COPY"@ || u == "WITH"@
}

/// A request whose keyword behind the declarations is one of an update.
pub open spec fn is_update(s: Seq<char>) -> bool {
    update_word(keyword(behind_prologue(s)))
}

fn to_upper(s: &str) -> (r: String)
    ensures
        r@ == upper(s@),
{
    let chars: Vec<char> = chars_of(s);
    let mut r: String = String::new();
    let mut i: usize = 0;
    while i < chars.len()
        invariant
            i <= chars@.len(),
            chars@ == s@,
            r@ == upper(s@.take(i as int)),
        decreases chars.len() - i,
    {
        let c: char = chars[i];
        let u: char = if 'a' <= c && c <= 'z' { (c as u8 - 32) as char } else { c };
        r.push(u);
        proof {
            assert(s@.take(i + 1) =~= s@.take(i as int).push(c));
            assert(upper(s@.take(i + 1)) =~= upper(s@.take(i as int)).push(upper_char(c)));
        }
        i = i + 1;
    }
    assert(s@.take(i as int) =~= s@);
    r
}

proof fn lemma_behind(s: Seq<char>, c: char)
    ensures
        behind(s, c).len() <= s.len(),
        s.len() > 0 ==> behind(s, c).len() < s.len(),
    decreases s.len(),
{
    if s.len() > 0 && s[0] != c {
        lemma_behind(s.skip(1), c);
    }
}

/// Where the text behind a character starts.
fn place_behind(c: &Vec<char>, from: usize, stop: char) -> (r: usize)
    requires
        from <= c@.len(),
    ensures
        from <= r <= c@.len(),
        c@.skip(r as int) == behind(c@.skip(from as int), stop),
{
    let mut i: usize = from;
    while i < c.len()
        invariant
            from <= i <= c@.len(),
            behind(c@.skip(i as int), stop) == behind(c@.skip(from as int), stop),
        decreases c.len() - i,
    {
        assert(c@.skip(i as int)[0] == c@[i as int]);
        assert(c@.skip(i as int).skip(1) =~= c@.skip(i + 1));
        i = i + 1;
        if c[i - 1] == stop {
            return i;
        }
    }
    i
}

/// Where the text behind white space and comments starts.
fn place_behind_space(c: &Vec<char>, from: usize) -> (r: usize)
    requires
        from <= c@.len(),
    ensures
        from <= r <= c@.len(),
        c@.skip(r as int) == behind_space(c@.skip(from as int)),
{
    let mut i: usize = from;
    while i < c.len()
        invariant
            from <= i <= c@.len(),
            behind_space(c@.skip(i as int)) == behind_space(c@.skip(from as int)),
        decreases c.len() - i,
    {
        assert(c@.skip(i as int)[0] == c@[i as int]);
        if white(c[i]) {
            assert(c@.skip(i as int).skip(1) =~= c@.skip(i + 1));
            i = i + 1;
        } else if c[i] == '#' {
            proof {
                lemma_behind(c@.skip(i as int), '\n');
            }
            i = place_behind(c, i, '\n');
        } else {
            return i;
        }
    }
    i
}

/// Where the letters at a place end.
fn place_behind_letters(c: &Vec<char>, from: usize) -> (r: usize)
    requires
        from <= c@.len(),
    ensures
        from <= r <= c@.len(),
        r - from == letter_count(c@.skip(from as int)),
{
    let mut i: usize = from;
    while i < c.len()
        invariant
            from <= i <= c@.len(),
            letter_count(c@.skip(from as int)) == i - from + letter_count(c@.skip(i as int)),
        decreases c.len() - i,
    {
        assert(c@.skip(i as int)[0] == c@[i as int]);
        assert(c@.skip(i as int).skip(1) =~= c@.skip(i + 1));
        let x: char = c[i];
        if !(('a' <= x && x <= 'z') || ('A' <= x && x <= 'Z')) {
            return i;
        }
        i = i + 1;
    }
    i
}

/// Does a request change data? Declarations at its start do not count.
pub fn is_update_sparql(s: &str) -> (b: bool)
    ensures
        b == is_update(s@),
{
    let c: Vec<char> = chars_of(s);
    let mut from: usize = 0;
    assert(c@.skip(0) =~= c@);
    loop
        invariant
            from <= c@.len(),
            c@ == s@,
            behind_prologue(c@.skip(from as int)) == behind_prologue(c@),
        decreases c.len() - from,
    {
        let start: usize = place_behind_space(&c, from);
        let end: usize = place_behind_letters(&c, start);
        let word: String = to_upper(string_of(&c, start, end).as_str());
        let ghost t = c@.skip(start as int);
        proof {
            assert(t.take(end - start) =~= c@.subrange(start as int, end as int));
            assert(t.skip(end - start) =~= c@.skip(end as int));
        }
        let prefix: bool = same(word.as_str(), "PREFIX");
        if prefix || same(word.as_str(), "BASE") {
            let name: usize = place_behind_space(&c, end);
            let iri: usize = if prefix {
                let colon: usize = place_behind(&c, name, ':');
                place_behind_space(&c, colon)
            } else {
                name
            };
            let next: usize = place_behind(&c, iri, '>');
            proof {
                reveal_strlit("PREFIX");
                reveal_strlit("BASE");
                assert(word@.len() == end - start);
                assert(end > start);
            }
            from = next;
        } else {
            let u: &str = word.as_str();
            return same(u, "INSERT") || same(u, "DELETE") || same(u, "LOAD") || same(u, "CLEAR") || same(u, "DROP") || same(u, "CREATE") || same(u, "ADD") || same(u, "MOVE") || same(u, "COPY") || same(u, "WITH");
        }
    }
}

/// A name that a database can have.
pub open spec fn db_name_ok(name: Seq<char>) -> bool {
    name.len() > 0 && encode_utf8(name).len() <= 64 && forall|i: int| 0 <= i < name.len() ==> name_char(#[trigger] name[i])
}

/// Can a database have this name?
pub fn valid_db_name(name: &str) -> (b: bool)
    ensures
        b == db_name_ok(name@),
{
    let chars: Vec<char> = chars_of(name);
    if chars.len() == 0 || name.as_bytes().len() > 64 {
        return false;
    }
    let mut i: usize = 0;
    while i < chars.len()
        invariant
            i <= chars@.len(),
            chars@ == name@,
            forall|k: int| 0 <= k < i ==> name_char(#[trigger] name@[k]),
        decreases chars.len() - i,
    {
        if !plain_char(chars[i]) {
            assert(!name_char(name@[i as int]));
            return false;
        }
        i = i + 1;
    }
    true
}

/// A database name is one component of a path.
pub proof fn law_db_name_is_one_component(name: Seq<char>)
    requires
        db_name_ok(name),
    ensures
        !name.contains('/'),
        !name.contains('.'),
{
    if name.contains('/') {
        let k = choose|k: int| 0 <= k < name.len() && name[k] == '/';
        assert(name_char(name[k]));
    }
    if name.contains('.') {
        let k = choose|k: int| 0 <= k < name.len() && name[k] == '.';
        assert(name_char(name[k]));
    }
}

/// What a request with a user can be for.
#[derive(Debug, Clone, Copy, PartialEq, Eq, Structural)]
pub enum Endpoint {
    Sparql,
    Update,
    Build,
    Load,
    Unload,
    Drop,
    Show,
    Begin,
    Tquery,
    Commit,
    Rollback,
    Checkpoint,
    Backup,
    Restore,
    Export,
    BatchInsert,
    BatchRemove,
    Status,
    Monitor,
    UserCreate,
    UserDrop,
    UserPassword,
    UserGrant,
    UserRevoke,
    UserShow,
    QueryLog,
    AccessLog,
    TxnLog,
}

/// The endpoint of a method and a path.
pub open spec fn endpoint_of(method: Seq<char>, path: Seq<char>) -> Option<Endpoint> {
    let get = method == "GET"@;
    let post = method == "POST"@;
    if (get || post) && path == "/sparql"@ {
        Some(Endpoint::Sparql)
    } else if post && path == "/update"@ {
        Some(Endpoint::Update)
    } else if post && path == "/build"@ {
        Some(Endpoint::Build)
    } else if post && path == "/load"@ {
        Some(Endpoint::Load)
    } else if post && path == "/unload"@ {
        Some(Endpoint::Unload)
    } else if post && path == "/drop"@ {
        Some(Endpoint::Drop)
    } else if (get || post) && path == "/show"@ {
        Some(Endpoint::Show)
    } else if post && path == "/begin"@ {
        Some(Endpoint::Begin)
    } else if post && path == "/tquery"@ {
        Some(Endpoint::Tquery)
    } else if post && path == "/commit"@ {
        Some(Endpoint::Commit)
    } else if post && path == "/rollback"@ {
        Some(Endpoint::Rollback)
    } else if post && path == "/checkpoint"@ {
        Some(Endpoint::Checkpoint)
    } else if post && path == "/backup"@ {
        Some(Endpoint::Backup)
    } else if post && path == "/restore"@ {
        Some(Endpoint::Restore)
    } else if (get || post) && path == "/export"@ {
        Some(Endpoint::Export)
    } else if post && path == "/batchInsert"@ {
        Some(Endpoint::BatchInsert)
    } else if post && path == "/batchRemove"@ {
        Some(Endpoint::BatchRemove)
    } else if get && path == "/status"@ {
        Some(Endpoint::Status)
    } else if get && path == "/monitor"@ {
        Some(Endpoint::Monitor)
    } else if post && path == "/user/create"@ {
        Some(Endpoint::UserCreate)
    } else if post && path == "/user/drop"@ {
        Some(Endpoint::UserDrop)
    } else if post && path == "/user/password"@ {
        Some(Endpoint::UserPassword)
    } else if post && path == "/user/grant"@ {
        Some(Endpoint::UserGrant)
    } else if post && path == "/user/revoke"@ {
        Some(Endpoint::UserRevoke)
    } else if get && path == "/user/show"@ {
        Some(Endpoint::UserShow)
    } else if get && path == "/querylog"@ {
        Some(Endpoint::QueryLog)
    } else if get && path == "/accesslog"@ {
        Some(Endpoint::AccessLog)
    } else if get && path == "/txnlog"@ {
        Some(Endpoint::TxnLog)
    } else {
        None
    }
}

/// The privilege that an endpoint needs in any case.
pub open spec fn needed(e: Endpoint) -> Option<Privilege> {
    match e {
        Endpoint::Sparql => None,
        Endpoint::Update => Some(Privilege::Update),
        Endpoint::Build => Some(Privilege::Load),
        Endpoint::Load => Some(Privilege::Load),
        Endpoint::Unload => Some(Privilege::Unload),
        Endpoint::Drop => Some(Privilege::Unload),
        Endpoint::Show => None,
        Endpoint::Begin => Some(Privilege::Update),
        Endpoint::Tquery => None,
        Endpoint::Commit => Some(Privilege::Update),
        Endpoint::Rollback => Some(Privilege::Update),
        Endpoint::Checkpoint => Some(Privilege::Update),
        Endpoint::Backup => Some(Privilege::Backup),
        Endpoint::Restore => Some(Privilege::Restore),
        Endpoint::Export => Some(Privilege::Export),
        Endpoint::BatchInsert => Some(Privilege::Update),
        Endpoint::BatchRemove => Some(Privilege::Update),
        Endpoint::Status => None,
        Endpoint::Monitor => None,
        Endpoint::UserCreate => Some(Privilege::Admin),
        Endpoint::UserDrop => Some(Privilege::Admin),
        Endpoint::UserPassword => None,
        Endpoint::UserGrant => Some(Privilege::Admin),
        Endpoint::UserRevoke => Some(Privilege::Admin),
        Endpoint::UserShow => Some(Privilege::Admin),
        Endpoint::QueryLog => Some(Privilege::Admin),
        Endpoint::AccessLog => Some(Privilege::Admin),
        Endpoint::TxnLog => Some(Privilege::Admin),
    }
}

/// Find the endpoint of a method and a path.
pub fn route(method: &str, path: &str) -> (r: Option<Endpoint>)
    ensures
        r == endpoint_of(method@, path@),
{
    let get: bool = same(method, "GET");
    let post: bool = same(method, "POST");
    if (get || post) && same(path, "/sparql") {
        Some(Endpoint::Sparql)
    } else if post && same(path, "/update") {
        Some(Endpoint::Update)
    } else if post && same(path, "/build") {
        Some(Endpoint::Build)
    } else if post && same(path, "/load") {
        Some(Endpoint::Load)
    } else if post && same(path, "/unload") {
        Some(Endpoint::Unload)
    } else if post && same(path, "/drop") {
        Some(Endpoint::Drop)
    } else if (get || post) && same(path, "/show") {
        Some(Endpoint::Show)
    } else if post && same(path, "/begin") {
        Some(Endpoint::Begin)
    } else if post && same(path, "/tquery") {
        Some(Endpoint::Tquery)
    } else if post && same(path, "/commit") {
        Some(Endpoint::Commit)
    } else if post && same(path, "/rollback") {
        Some(Endpoint::Rollback)
    } else if post && same(path, "/checkpoint") {
        Some(Endpoint::Checkpoint)
    } else if post && same(path, "/backup") {
        Some(Endpoint::Backup)
    } else if post && same(path, "/restore") {
        Some(Endpoint::Restore)
    } else if (get || post) && same(path, "/export") {
        Some(Endpoint::Export)
    } else if post && same(path, "/batchInsert") {
        Some(Endpoint::BatchInsert)
    } else if post && same(path, "/batchRemove") {
        Some(Endpoint::BatchRemove)
    } else if get && same(path, "/status") {
        Some(Endpoint::Status)
    } else if get && same(path, "/monitor") {
        Some(Endpoint::Monitor)
    } else if post && same(path, "/user/create") {
        Some(Endpoint::UserCreate)
    } else if post && same(path, "/user/drop") {
        Some(Endpoint::UserDrop)
    } else if post && same(path, "/user/password") {
        Some(Endpoint::UserPassword)
    } else if post && same(path, "/user/grant") {
        Some(Endpoint::UserGrant)
    } else if post && same(path, "/user/revoke") {
        Some(Endpoint::UserRevoke)
    } else if get && same(path, "/user/show") {
        Some(Endpoint::UserShow)
    } else if get && same(path, "/querylog") {
        Some(Endpoint::QueryLog)
    } else if get && same(path, "/accesslog") {
        Some(Endpoint::AccessLog)
    } else if get && same(path, "/txnlog") {
        Some(Endpoint::TxnLog)
    } else {
        None
    }
}

/// The privilege that an endpoint needs in any case.
pub fn privilege_for(e: Endpoint) -> (r: Option<Privilege>)
    ensures
        r == needed(e),
{
    match e {
        Endpoint::Sparql => None,
        Endpoint::Update => Some(Privilege::Update),
        Endpoint::Build => Some(Privilege::Load),
        Endpoint::Load => Some(Privilege::Load),
        Endpoint::Unload => Some(Privilege::Unload),
        Endpoint::Drop => Some(Privilege::Unload),
        Endpoint::Show => None,
        Endpoint::Begin => Some(Privilege::Update),
        Endpoint::Tquery => None,
        Endpoint::Commit => Some(Privilege::Update),
        Endpoint::Rollback => Some(Privilege::Update),
        Endpoint::Checkpoint => Some(Privilege::Update),
        Endpoint::Backup => Some(Privilege::Backup),
        Endpoint::Restore => Some(Privilege::Restore),
        Endpoint::Export => Some(Privilege::Export),
        Endpoint::BatchInsert => Some(Privilege::Update),
        Endpoint::BatchRemove => Some(Privilege::Update),
        Endpoint::Status => None,
        Endpoint::Monitor => None,
        Endpoint::UserCreate => Some(Privilege::Admin),
        Endpoint::UserDrop => Some(Privilege::Admin),
        Endpoint::UserPassword => None,
        Endpoint::UserGrant => Some(Privilege::Admin),
        Endpoint::UserRevoke => Some(Privilege::Admin),
        Endpoint::UserShow => Some(Privilege::Admin),
        Endpoint::QueryLog => Some(Privilege::Admin),
        Endpoint::AccessLog => Some(Privilege::Admin),
        Endpoint::TxnLog => Some(Privilege::Admin),
    }
}

/// The state of the endpoint as a mathematical value: the users, the databases that
/// are loaded, and the database of each open transaction.
#[verifier::ext_equal]
pub ghost struct ApiSpec {
    pub users: UserStoreSpec,
    pub loaded: Set<Seq<char>>,
    pub txns: Map<u64, Seq<char>>,
}

/// What the host is to do for a request.
pub ghost enum ActionSpec {
    Reply(RespSpec),
    SaveUsers(RespSpec),
    Query { db: Seq<char>, sparql: Seq<char>, format: Option<Seq<char>>, accept: Option<Seq<char>> },
    Refuse { db: Seq<char>, statement: Seq<char>, answer: RespSpec },
    Build { db: Seq<char>, path: Option<Seq<char>> },
    Load { db: Seq<char> },
    Unload { db: Seq<char> },
    Drop { db: Seq<char>, was_loaded: bool },
    Show,
    Begin { db: Seq<char> },
    End { db: Seq<char>, tid: u64, commit: bool },
    Checkpoint { db: Seq<char> },
    Backup { db: Seq<char>, path: Option<Seq<char>> },
    Restore { db: Seq<char>, source: Seq<char> },
    Export { db: Seq<char> },
    Batch { db: Seq<char>, statement: Seq<char>, insert: bool },
    Status,
    Monitor,
    Log { file: Seq<char> },
}

/// What the host is to do for a request: answer at once, or work on a database, a
/// directory or a log and answer then.
#[derive(Debug)]
pub enum Action {
    Reply(Resp),
    /// Write the table of users, and answer then.
    SaveUsers(Resp),
    /// Log the query and run it, for a client that asks for a format or accepts some
    /// content types.
    Query { db: String, sparql: String, format: Option<String>, accept: Option<String> },
    /// Log the statement, and answer without running it.
    Refuse { db: String, statement: String, answer: Resp },
    Build { db: String, path: Option<String> },
    Load { db: String },
    Unload { db: String },
    Drop { db: String, was_loaded: bool },
    Show,
    Begin { db: String },
    End { db: String, tid: u64, commit: bool },
    Checkpoint { db: String },
    Backup { db: String, path: Option<String> },
    Restore { db: String, source: String },
    Export { db: String },
    Batch { db: String, statement: String, insert: bool },
    Status,
    Monitor,
    Log { file: String },
}

impl View for Action {
    type V = ActionSpec;

    open spec fn view(&self) -> ActionSpec {
        match *self {
            Action::Reply(r) => ActionSpec::Reply(r@),
            Action::SaveUsers(r) => ActionSpec::SaveUsers(r@),
            Action::Query { db, sparql, format, accept } => ActionSpec::Query { db: db@, sparql: sparql@, format: text_opt(format), accept: text_opt(accept) },
            Action::Refuse { db, statement, answer } => ActionSpec::Refuse { db: db@, statement: statement@, answer: answer@ },
            Action::Build { db, path } => ActionSpec::Build { db: db@, path: text_opt(path) },
            Action::Load { db } => ActionSpec::Load { db: db@ },
            Action::Unload { db } => ActionSpec::Unload { db: db@ },
            Action::Drop { db, was_loaded } => ActionSpec::Drop { db: db@, was_loaded },
            Action::Show => ActionSpec::Show,
            Action::Begin { db } => ActionSpec::Begin { db: db@ },
            Action::End { db, tid, commit } => ActionSpec::End { db: db@, tid, commit },
            Action::Checkpoint { db } => ActionSpec::Checkpoint { db: db@ },
            Action::Backup { db, path } => ActionSpec::Backup { db: db@, path: text_opt(path) },
            Action::Restore { db, source } => ActionSpec::Restore { db: db@, source: source@ },
            Action::Export { db } => ActionSpec::Export { db: db@ },
            Action::Batch { db, statement, insert } => ActionSpec::Batch { db: db@, statement: statement@, insert },
            Action::Status => ActionSpec::Status,
            Action::Monitor => ActionSpec::Monitor,
            Action::Log { file } => ActionSpec::Log { file: file@ },
        }
    }
}

/// What is new with each request: a session token, a salt, and the time.
#[derive(Debug)]
pub struct Fresh {
    pub token: String,
    pub salt: u64,
    /// In nanoseconds, from any fixed start.
    pub now: u64,
}

/// A database has an open transaction.
pub open spec fn in_txn(s: ApiSpec, db: Seq<char>) -> bool {
    exists|tid: u64| #[trigger] s.txns.contains_key(tid) && s.txns[tid] == db
}

/// The only element of a set, if it has one.
pub open spec fn only(s: Set<Seq<char>>) -> Option<Seq<char>> {
    if exists|x: Seq<char>| s == #[trigger] Set::<Seq<char>>::empty().insert(x) {
        Some(choose|x: Seq<char>| s == #[trigger] Set::<Seq<char>>::empty().insert(x))
    } else {
        None
    }
}

/// The name, if a database can have it.
pub open spec fn checked_name(name: Option<Seq<char>>) -> Option<Seq<char>> {
    match name {
        Some(n) => if db_name_ok(n) {
            Some(n)
        } else {
            None
        },
        None => None,
    }
}

/// The database that a request is for: the one it names, else the only one that is
/// loaded.
pub open spec fn picked_db(s: ApiSpec, r: RequestSpec) -> Option<Seq<char>> {
    match either(param_in(r.params, "db_name"@), param_in(r.params, "db"@)) {
        Some(n) => checked_name(Some(n)),
        None => only(s.loaded),
    }
}

/// The database that a request names.
pub open spec fn named_db(r: RequestSpec) -> Option<Seq<char>> {
    checked_name(either(either(param_in(r.params, "db_name"@), param_in(r.params, "name"@)), param_in(r.params, "db"@)))
}

/// The transaction that a request names.
pub open spec fn named_txn(r: RequestSpec) -> Option<nat> {
    match either(param_in(r.params, "tid"@), param_in(r.params, "txn"@)) {
        Some(t) => parsed_unsigned(trimmed(t), u64::MAX as nat),
        None => None,
    }
}

/// A message about a database.
pub open spec fn about_db(db: Seq<char>, what: Seq<char>) -> Seq<char> {
    "database '"@ + db + what
}

/// The message for a transaction that is not open.
pub open spec fn no_txn(tid: nat) -> Seq<char> {
    "no open transaction "@ + decimal(tid)
}

/// The body of the answer to a login.
pub open spec fn login_text(token: Seq<char>, name: Seq<char>, privileges: Seq<char>) -> Seq<char> {
    "{\"StatusCode\":0,\"StatusMsg\":\"login success\",\"session\":"@ + json_quoted(token) + ",\"username\":"@ + json_quoted(name) + ",\"privilege\":"@ + json_quoted(privileges) + "}"@
}

/// What adding a user is refused for.
pub open spec fn add_error(s: UserStoreSpec, name: Seq<char>, password: Seq<char>) -> Option<Seq<char>> {
    match name_error(name) {
        Some(m) => Some(m),
        None => if password.len() == 0 {
            Some("password must not be empty"@)
        } else if s.users.contains_key(name) {
            Some(about_user(name, "' already exists"@))
        } else {
            None
        },
    }
}

pub open spec fn reply(s: ApiSpec, r: RespSpec) -> (ApiSpec, ActionSpec) {
    (s, ActionSpec::Reply(r))
}

/// A change of users that is to last.
pub open spec fn saved(s: ApiSpec, r: RespSpec) -> (ApiSpec, ActionSpec) {
    (s, ActionSpec::SaveUsers(r))
}

/// A login.
pub open spec fn login_step(s: ApiSpec, r: RequestSpec, token: Seq<char>, now: u64) -> (ApiSpec, ActionSpec) {
    match (param_in(r.params, "username"@), param_in(r.params, "password"@)) {
        (Some(name), Some(password)) => if knows(s.users, name, password) {
            reply(
                ApiSpec { users: UserStoreSpec { sessions: s.users.sessions.insert(token, SessionSpec { user: name, created: now }), ..s.users }, ..s },
                json_answer(200, login_text(token, name, set_text(s.users.users[name].privileges))),
            )
        } else {
            reply(s, failure(401, "invalid username or password"@))
        },
        _ => reply(s, failure(400, "missing username or password"@)),
    }
}

/// A logout.
pub open spec fn logout_step(s: ApiSpec, r: RequestSpec) -> (ApiSpec, ActionSpec) {
    reply(
        match r.token {
            Some(t) => ApiSpec { users: UserStoreSpec { sessions: s.users.sessions.remove(t), ..s.users }, ..s },
            None => s,
        },
        okay("logged out"@),
    )
}

/// The privilege that a query needs.
pub open spec fn query_privilege(sparql: Seq<char>) -> Privilege {
    if is_update(sparql) {
        Privilege::Update
    } else {
        Privilege::Query
    }
}

/// The answer about a database that is not loaded.
pub open spec fn not_loaded(db: Seq<char>) -> RespSpec {
    failure(404, about_db(db, "' is not loaded"@))
}

/// A query or an update is run if the database is loaded.
pub open spec fn run_step(s: ApiSpec, r: RequestSpec, db: Seq<char>, sparql: Seq<char>) -> (ApiSpec, ActionSpec) {
    if s.loaded.contains(db) {
        (s, ActionSpec::Query { db, sparql, format: param_in(r.params, "format"@), accept: r.accept })
    } else {
        (s, ActionSpec::Refuse { db, statement: sparql, answer: not_loaded(db) })
    }
}

/// A query on a database.
pub open spec fn query_step(s: ApiSpec, r: RequestSpec, user: Seq<char>) -> (ApiSpec, ActionSpec) {
    match either(param_in(r.params, "sparql"@), r.query) {
        None => reply(s, failure(400, "missing sparql/query parameter"@)),
        Some(sparql) => if !allowed(s.users, user, query_privilege(sparql)) {
            reply(s, no_privilege())
        } else {
            match picked_db(s, r) {
                None => reply(s, failure(400, "missing or ambiguous db parameter"@)),
                Some(db) => run_step(s, r, db, sparql),
            }
        },
    }
}

/// An update of a database.
pub open spec fn update_step(s: ApiSpec, r: RequestSpec) -> (ApiSpec, ActionSpec) {
    match either(either(param_in(r.params, "sparql"@), param_in(r.params, "update"@)), body_text(r)) {
        None => reply(s, failure(400, "missing update statement"@)),
        Some(sparql) => match picked_db(s, r) {
            None => reply(s, failure(400, "missing or ambiguous db parameter"@)),
            Some(db) => run_step(s, r, db, sparql),
        },
    }
}

/// A request that must name a database without an open transaction.
pub open spec fn lifecycle_step(s: ApiSpec, r: RequestSpec, e: Endpoint) -> (ApiSpec, ActionSpec) {
    match named_db(r) {
        None => reply(s, failure(400, "missing or invalid db_name"@)),
        Some(db) => if e is Load {
            (s, ActionSpec::Load { db })
        } else if e is Restore {
            match either(param_in(r.params, "path"@), param_in(r.params, "backup_path"@)) {
                None => reply(s, failure(400, "missing backup path"@)),
                Some(path) => if in_txn(s, db) {
                    reply(s, failure(409, "database is busy in a transaction"@))
                } else {
                    (s, ActionSpec::Restore { db, source: path })
                },
            }
        } else if in_txn(s, db) {
            reply(s, failure(409, "database is busy in a transaction"@))
        } else if e is Build {
            (s, ActionSpec::Build { db, path: either(param_in(r.params, "db_path"@), param_in(r.params, "path"@)) })
        } else if e is Unload {
            if s.loaded.contains(db) {
                (ApiSpec { loaded: s.loaded.remove(db), ..s }, ActionSpec::Unload { db })
            } else {
                reply(s, not_loaded(db))
            }
        } else {
            (ApiSpec { loaded: s.loaded.remove(db), ..s }, ActionSpec::Drop { db, was_loaded: s.loaded.contains(db) })
        },
    }
}

/// The start of a transaction.
pub open spec fn begin_step(s: ApiSpec, r: RequestSpec) -> (ApiSpec, ActionSpec) {
    match picked_db(s, r) {
        None => reply(s, failure(400, "missing or ambiguous db parameter"@)),
        Some(db) => if !s.loaded.contains(db) {
            reply(s, not_loaded(db))
        } else if in_txn(s, db) {
            reply(s, failure(409, "a transaction is already open on this database"@))
        } else {
            (s, ActionSpec::Begin { db })
        },
    }
}

/// A query in a transaction.
pub open spec fn tquery_step(s: ApiSpec, r: RequestSpec, user: Seq<char>) -> (ApiSpec, ActionSpec) {
    match named_txn(r) {
        None => reply(s, failure(400, "missing or malformed tid/txn parameter"@)),
        Some(tid) => if !s.txns.contains_key(tid as u64) {
            reply(s, failure(404, no_txn(tid)))
        } else {
            match either(either(param_in(r.params, "sparql"@), r.query), body_text(r)) {
                None => reply(s, failure(400, "missing sparql parameter"@)),
                Some(sparql) => if !allowed(s.users, user, query_privilege(sparql)) {
                    reply(s, no_privilege())
                } else {
                    run_step(s, r, s.txns[tid as u64], sparql)
                },
            }
        },
    }
}

/// The end of a transaction.
pub open spec fn end_step(s: ApiSpec, r: RequestSpec, commit: bool) -> (ApiSpec, ActionSpec) {
    match named_txn(r) {
        None => reply(s, failure(400, "missing or malformed tid/txn parameter"@)),
        Some(tid) => if !s.txns.contains_key(tid as u64) {
            reply(s, failure(404, no_txn(tid)))
        } else {
            (ApiSpec { txns: s.txns.remove(tid as u64), ..s }, ActionSpec::End { db: s.txns[tid as u64], tid: tid as u64, commit })
        },
    }
}

/// A request on a database that must be loaded.
pub open spec fn loaded_step(s: ApiSpec, r: RequestSpec, e: Endpoint) -> (ApiSpec, ActionSpec) {
    match picked_db(s, r) {
        None => reply(s, failure(400, "missing or ambiguous db parameter"@)),
        Some(db) => if !s.loaded.contains(db) {
            reply(s, not_loaded(db))
        } else if e is Checkpoint {
            (s, ActionSpec::Checkpoint { db })
        } else if e is Backup {
            (s, ActionSpec::Backup { db, path: either(param_in(r.params, "path"@), param_in(r.params, "backup_path"@)) })
        } else {
            (s, ActionSpec::Export { db })
        },
    }
}

/// Many triples at once.
pub open spec fn batch_step(s: ApiSpec, r: RequestSpec, insert: bool) -> (ApiSpec, ActionSpec) {
    match picked_db(s, r) {
        None => reply(s, failure(400, "missing or ambiguous db parameter"@)),
        Some(db) => {
            let triples = trimmed(match param_in(r.params, "triples"@) {
                Some(t) => t,
                None => r.body,
            });
            if triples.len() == 0 {
                reply(s, failure(400, "no triples supplied"@))
            } else {
                let verb = if insert {
                    "INSERT DATA { "@
                } else {
                    "DELETE DATA { "@
                };
                let statement = verb + triples + " }"@;
                if s.loaded.contains(db) {
                    (s, ActionSpec::Batch { db, statement, insert })
                } else {
                    (s, ActionSpec::Refuse { db, statement, answer: not_loaded(db) })
                }
            }
        },
    }
}

/// The user that an administrator names.
pub open spec fn named_user(r: RequestSpec) -> Option<Seq<char>> {
    either(param_in(r.params, "op_username"@), param_in(r.params, "username"@))
}

/// The password that a request names.
pub open spec fn named_password(r: RequestSpec) -> Option<Seq<char>> {
    either(param_in(r.params, "op_password"@), param_in(r.params, "password"@))
}

/// A new user.
pub open spec fn create_step(s: ApiSpec, r: RequestSpec, salt: u64) -> (ApiSpec, ActionSpec) {
    match (named_user(r), named_password(r)) {
        (Some(name), Some(password)) => match parsed_list(match param_in(r.params, "privileges"@) {
            Some(p) => p,
            None => Seq::empty(),
        }) {
            None => reply(s, failure(400, "invalid privileges (use names or codes 1..8)"@)),
            Some(privileges) => match add_error(s.users, name, password) {
                Some(m) => reply(s, failure(400, m)),
                None => saved(
                    ApiSpec { users: UserStoreSpec { users: s.users.users.insert(name, UserSpec { salt, hash: password_hash(password, salt), privileges }), ..s.users }, ..s },
                    okay(about_user(name, "' created"@)),
                ),
            },
        },
        _ => reply(s, failure(400, "missing op_username or op_password"@)),
    }
}

/// A user is dropped.
pub open spec fn drop_step(s: ApiSpec, r: RequestSpec) -> (ApiSpec, ActionSpec) {
    match named_user(r) {
        None => reply(s, failure(400, "missing op_username"@)),
        Some(name) => if name == ROOT_USER@ {
            reply(s, failure(400, "cannot drop the root user"@))
        } else if !s.users.users.contains_key(name) {
            reply(s, failure(400, about_user(name, "' does not exist"@)))
        } else {
            saved(
                ApiSpec { users: UserStoreSpec { users: s.users.users.remove(name), sessions: sessions_without(s.users.sessions, name) }, ..s },
                okay(about_user(name, "' dropped"@)),
            )
        },
    }
}

/// A new password. Only administrators may change that of others.
pub open spec fn password_step(s: ApiSpec, r: RequestSpec, user: Seq<char>, salt: u64) -> (ApiSpec, ActionSpec) {
    let target = match either(param_in(r.params, "username"@), param_in(r.params, "op_username"@)) {
        Some(t) => t,
        None => user,
    };
    match named_password(r) {
        None => reply(s, failure(400, "missing op_password"@)),
        Some(password) => if target != user && !allowed(s.users, user, Privilege::Admin) {
            reply(s, no_privilege())
        } else if password.len() == 0 {
            reply(s, failure(400, "password must not be empty"@))
        } else if !s.users.users.contains_key(target) {
            reply(s, failure(400, about_user(target, "' does not exist"@)))
        } else {
            saved(
                ApiSpec {
                    users: UserStoreSpec { users: s.users.users.insert(target, UserSpec { salt, hash: password_hash(password, salt), privileges: s.users.users[target].privileges }), ..s.users },
                    ..s
                },
                okay("password for '"@ + target + "' changed"@),
            )
        },
    }
}

/// Privileges are given or taken.
pub open spec fn grant_step(s: ApiSpec, r: RequestSpec, grant: bool) -> (ApiSpec, ActionSpec) {
    match named_user(r) {
        None => reply(s, failure(400, "missing op_username"@)),
        Some(name) => if param_in(r.params, "type"@) == Some("3"@) {
            match change_error(s.users, name) {
                Some(m) => reply(s, failure(400, m)),
                None => saved(ApiSpec { users: with_privileges(s.users, name, Set::empty()), ..s }, okay("privileges for '"@ + name + "' cleared"@)),
            }
        } else {
            match param_in(r.params, "privileges"@) {
                None => reply(s, failure(400, "missing privileges"@)),
                Some(list) => match parsed_list(list) {
                    None => reply(s, failure(400, "invalid privileges (use names or codes 1..8)"@)),
                    Some(set) => match change_error(s.users, name) {
                        Some(m) => reply(s, failure(400, m)),
                        None => {
                            let held = s.users.users[name].privileges;
                            saved(
                                ApiSpec { users: with_privileges(s.users, name, if grant { held.union(set) } else { held.difference(set) }), ..s },
                                okay("privileges "@ + (if grant { "granted"@ } else { "revoked"@ }) + " for '"@ + name + "'"@),
                            )
                        },
                    },
                },
            }
        },
    }
}

/// The entry of a user in a list.
pub open spec fn user_entry(name: Seq<char>, u: UserSpec) -> Seq<char> {
    "{\"username\":"@ + json_quoted(name) + ",\"privileges\":"@ + json_quoted(set_text(u.privileges)) + ",\"is_root\":"@ + (if name == ROOT_USER@ { "true"@ } else { "false"@ }) + "}"@
}

/// The entries of some users, with commas between them.
pub open spec fn user_entries(names: Seq<Seq<char>>, users: Map<Seq<char>, UserSpec>) -> Seq<char>
    decreases names.len(),
{
    if names.len() == 0 {
        Seq::empty()
    } else if names.len() == 1 {
        user_entry(names[0], users[names[0]])
    } else {
        user_entries(names.drop_last(), users) + ","@ + user_entry(names.last(), users[names.last()])
    }
}

/// The answer with the list of users.
pub open spec fn users_answer(names: Seq<Seq<char>>, users: Map<Seq<char>, UserSpec>) -> RespSpec {
    json_answer(200, "{\"StatusCode\":0,\"StatusMsg\":\"success\",\"users\":["@ + user_entries(names, users) + "]}"@)
}

/// The names of all users, in order.
pub open spec fn sorted_names(s: ApiSpec) -> Seq<Seq<char>> {
    choose|names: Seq<Seq<char>>| lists_texts(names, s.users.users.dom())
}

/// A request to an endpoint by a user who may use it.
pub open spec fn endpoint_step(s: ApiSpec, r: RequestSpec, user: Seq<char>, e: Endpoint, salt: u64) -> (ApiSpec, ActionSpec) {
    match e {
        Endpoint::Sparql => query_step(s, r, user),
        Endpoint::Update => update_step(s, r),
        Endpoint::Build => lifecycle_step(s, r, e),
        Endpoint::Load => lifecycle_step(s, r, e),
        Endpoint::Unload => lifecycle_step(s, r, e),
        Endpoint::Drop => lifecycle_step(s, r, e),
        Endpoint::Restore => lifecycle_step(s, r, e),
        Endpoint::Show => (s, ActionSpec::Show),
        Endpoint::Begin => begin_step(s, r),
        Endpoint::Tquery => tquery_step(s, r, user),
        Endpoint::Commit => end_step(s, r, true),
        Endpoint::Rollback => end_step(s, r, false),
        Endpoint::Checkpoint => loaded_step(s, r, e),
        Endpoint::Backup => loaded_step(s, r, e),
        Endpoint::Export => loaded_step(s, r, e),
        Endpoint::BatchInsert => batch_step(s, r, true),
        Endpoint::BatchRemove => batch_step(s, r, false),
        Endpoint::Status => (s, ActionSpec::Status),
        Endpoint::Monitor => (s, ActionSpec::Monitor),
        Endpoint::UserCreate => create_step(s, r, salt),
        Endpoint::UserDrop => drop_step(s, r),
        Endpoint::UserPassword => password_step(s, r, user, salt),
        Endpoint::UserGrant => grant_step(s, r, true),
        Endpoint::UserRevoke => grant_step(s, r, false),
        Endpoint::UserShow => reply(s, users_answer(sorted_names(s), s.users.users)),
        Endpoint::QueryLog => (s, ActionSpec::Log { file: "query.log"@ }),
        Endpoint::AccessLog => (s, ActionSpec::Log { file: "access.log"@ }),
        Endpoint::TxnLog => (s, ActionSpec::Log { file: "txn.log"@ }),
    }
}

/// A request: the state after it, and what the host is to do.
pub open spec fn step(s: ApiSpec, r: RequestSpec, user: Option<Seq<char>>, token: Seq<char>, salt: u64, now: u64) -> (ApiSpec, ActionSpec) {
    if r.path == "/login"@ {
        login_step(s, r, token, now)
    } else {
        match user {
            None => reply(s, no_user()),
            Some(u) => if r.path == "/logout"@ {
                logout_step(s, r)
            } else {
                match endpoint_of(r.method, r.path) {
                    None => reply(s, failure(404, "not found"@)),
                    Some(e) => if needed(e) is Some && !allowed(s.users, u, needed(e)->0) {
                        reply(s, no_privilege())
                    } else {
                        endpoint_step(s, r, u, e, salt)
                    },
                }
            },
        }
    }
}

/// Without a user, every request but a login is answered with 401, and changes nothing.
pub proof fn law_user_needed(s: ApiSpec, r: RequestSpec, token: Seq<char>, salt: u64, now: u64)
    requires
        r.path != "/login"@,
    ensures
        step(s, r, None, token, salt, now) == reply(s, no_user()),
        no_user().status == 401,
{
}

/// A user without the privilege that an endpoint needs is answered with 403, and
/// changes nothing.
pub proof fn law_privilege_needed(s: ApiSpec, r: RequestSpec, user: Seq<char>, e: Endpoint, token: Seq<char>, salt: u64, now: u64)
    requires
        r.path != "/login"@,
        r.path != "/logout"@,
        endpoint_of(r.method, r.path) == Some(e),
        needed(e) is Some,
        !allowed(s.users, user, needed(e)->0),
    ensures
        step(s, r, Some(user), token, salt, now) == reply(s, no_privilege()),
        no_privilege().status == 403,
{
}

/// A request that changes data is never run for a user without that privilege.
pub proof fn law_updates_need_privilege(s: ApiSpec, r: RequestSpec, user: Seq<char>, token: Seq<char>, salt: u64, now: u64)
    requires
        r.path != "/login"@,
        r.path != "/logout"@,
        !allowed(s.users, user, Privilege::Update),
    ensures
        step(s, r, Some(user), token, salt, now).1 matches ActionSpec::Query { db, sparql, format, accept } ==> !is_update(sparql),
        !(step(s, r, Some(user), token, salt, now).1 is Batch),
        !(step(s, r, Some(user), token, salt, now).1 is Begin),
        !(step(s, r, Some(user), token, salt, now).1 is End),
        step(s, r, Some(user), token, salt, now).0.txns == s.txns,
{
}

/// The database that an action reads or changes, as far as it must be loaded for that.
pub open spec fn works_on(a: ActionSpec) -> Option<Seq<char>> {
    match a {
        ActionSpec::Query { db, sparql, format, accept } => Some(db),
        ActionSpec::Batch { db, statement, insert } => Some(db),
        ActionSpec::Begin { db } => Some(db),
        ActionSpec::Checkpoint { db } => Some(db),
        ActionSpec::Backup { db, path } => Some(db),
        ActionSpec::Export { db } => Some(db),
        ActionSpec::Unload { db } => Some(db),
        _ => None,
    }
}

/// The action works on a loaded database, if on any, and one that it unloads or drops is
/// no longer loaded.
pub open spec fn uses_loaded(s: ApiSpec, done: (ApiSpec, ActionSpec)) -> bool {
    &&& works_on(done.1) matches Some(db) ==> s.loaded.contains(db)
    &&& done.1 matches ActionSpec::Unload { db } ==> !done.0.loaded.contains(db)
    &&& done.1 matches ActionSpec::Drop { db, was_loaded } ==> !done.0.loaded.contains(db)
}

proof fn lemma_queries_use_loaded(s: ApiSpec, r: RequestSpec, user: Seq<char>)
    ensures
        uses_loaded(s, query_step(s, r, user)),
        uses_loaded(s, update_step(s, r)),
        uses_loaded(s, tquery_step(s, r, user)),
{
}

proof fn lemma_requests_use_loaded(s: ApiSpec, r: RequestSpec, e: Endpoint)
    ensures
        uses_loaded(s, lifecycle_step(s, r, e)),
        uses_loaded(s, begin_step(s, r)),
        uses_loaded(s, loaded_step(s, r, e)),
{
}

proof fn lemma_batches_use_loaded(s: ApiSpec, r: RequestSpec, insert: bool)
    ensures
        uses_loaded(s, batch_step(s, r, insert)),
        uses_loaded(s, end_step(s, r, insert)),
        uses_loaded(s, grant_step(s, r, insert)),
{
}

proof fn lemma_users_use_loaded(s: ApiSpec, r: RequestSpec, user: Seq<char>, salt: u64)
    ensures
        uses_loaded(s, create_step(s, r, salt)),
        uses_loaded(s, drop_step(s, r)),
        uses_loaded(s, password_step(s, r, user, salt)),
{
}

/// The host is never asked to work on a database that is not loaded. One that it is
/// asked to unload or drop is not loaded from then on.
#[verifier::rlimit(60)]
#[verifier::spinoff_prover]
pub proof fn law_only_loaded_databases_are_used(s: ApiSpec, r: RequestSpec, user: Option<Seq<char>>, token: Seq<char>, salt: u64, now: u64)
    ensures
        uses_loaded(s, step(s, r, user, token, salt, now)),
{
    assert(uses_loaded(s, login_step(s, r, token, now)));
    match user {
        Some(u) => {
            match endpoint_of(r.method, r.path) {
                Some(e) => {
                    lemma_queries_use_loaded(s, r, u);
                    lemma_requests_use_loaded(s, r, e);
                    lemma_batches_use_loaded(s, r, true);
                    lemma_batches_use_loaded(s, r, false);
                    lemma_users_use_loaded(s, r, u, salt);
                },
                None => {},
            }
        },
        None => {},
    }
}

/// A request that changes the users or their privileges has the table of users written.
/// It has succeeded then.
pub proof fn law_changed_users_are_saved(s: ApiSpec, r: RequestSpec, user: Option<Seq<char>>, token: Seq<char>, salt: u64, now: u64)
    ensures
        !(step(s, r, user, token, salt, now).1 is SaveUsers) ==> step(s, r, user, token, salt, now).0.users.users == s.users.users,
        step(s, r, user, token, salt, now).1 matches ActionSpec::SaveUsers(answer) ==> answer.status == 200,
{
}

/// No database has two open transactions.
pub open spec fn single_writer(s: ApiSpec) -> bool {
    forall|a: u64, b: u64| #[trigger] s.txns.contains_key(a) && #[trigger] s.txns.contains_key(b) && a != b ==> s.txns[a] != s.txns[b]
}

/// A request keeps that no database has two open transactions.
pub proof fn law_requests_keep_single_writer(s: ApiSpec, r: RequestSpec, user: Option<Seq<char>>, token: Seq<char>, salt: u64, now: u64)
    requires
        single_writer(s),
    ensures
        single_writer(step(s, r, user, token, salt, now).0),
        step(s, r, user, token, salt, now).0.txns.submap_of(s.txns),
{
    let q = step(s, r, user, token, salt, now).0.txns;
    let tid = named_txn(r);
    if tid is Some {
        assert(q == s.txns || q == s.txns.remove(tid->0 as u64));
    } else {
        assert(q == s.txns);
    }
    lemma_fewer_txns(s, step(s, r, user, token, salt, now).0);
}

proof fn lemma_fewer_txns(s: ApiSpec, q: ApiSpec)
    requires
        single_writer(s),
        q.txns == s.txns || exists|tid: u64| q.txns == #[trigger] s.txns.remove(tid),
    ensures
        single_writer(q),
        q.txns.submap_of(s.txns),
{
    assert forall|x: u64| #[trigger] q.txns.contains_key(x) implies s.txns.contains_key(x) && q.txns[x] == s.txns[x] by {}
}

/// A transaction that is started is one more, on a database that had none.
pub proof fn law_begun_keeps_single_writer(s: ApiSpec, r: RequestSpec, tid: u64)
    requires
        single_writer(s),
        begin_step(s, r).1 is Begin,
        !s.txns.contains_key(tid),
    ensures
        single_writer(ApiSpec { txns: s.txns.insert(tid, begin_step(s, r).1->Begin_db), ..s }),
{
}

/// `root` stays, whatever is requested.
pub proof fn law_root_stays(s: ApiSpec, r: RequestSpec, user: Option<Seq<char>>, token: Seq<char>, salt: u64, now: u64)
    requires
        s.users.users.contains_key(ROOT_USER@),
    ensures
        step(s, r, user, token, salt, now).0.users.users.contains_key(ROOT_USER@),
        step(s, r, user, token, salt, now).0.users.users[ROOT_USER@].privileges == s.users.users[ROOT_USER@].privileges,
{
}

/// Two ascending lists of the same texts are equal.
pub proof fn lemma_listing_unique(a: Seq<Seq<char>>, b: Seq<Seq<char>>, set: Set<Seq<char>>)
    requires
        lists_texts(a, set),
        lists_texts(b, set),
    ensures
        a == b,
    decreases a.len(),
{
    if a.len() == 0 {
        if b.len() > 0 {
            assert(b.contains(b[0]));
            assert(set.contains(b[0]));
        }
        assert(a =~= b);
    } else {
        let x = a.last();
        assert(a.contains(x));
        assert(set.contains(x));
        let k = choose|k: int| 0 <= k < b.len() && b[k] == x;
        let y = b.last();
        assert(b.contains(y));
        assert(set.contains(y));
        let j = choose|j: int| 0 <= j < a.len() && a[j] == y;
        lemma_text_order(x, y, x);
        if j < a.len() - 1 {
            assert(text_less(a[j], a[a.len() - 1]));
        }
        if k < b.len() - 1 {
            assert(text_less(b[k], b[b.len() - 1]));
        }
        assert(x == y);
        lemma_listing_rest(a, set);
        lemma_listing_rest(b, set);
        lemma_listing_unique(a.drop_last(), b.drop_last(), set.remove(x));
        assert(a =~= a.drop_last().push(x));
        assert(b =~= b.drop_last().push(y));
    }
}

proof fn lemma_listing_rest(a: Seq<Seq<char>>, set: Set<Seq<char>>)
    requires
        lists_texts(a, set),
        a.len() > 0,
    ensures
        lists_texts(a.drop_last(), set.remove(a.last())),
{
    let d = a.drop_last();
    let x = a.last();
    assert forall|y: Seq<char>| #[trigger] set.remove(x).contains(y) <==> d.contains(y) by {
        if set.remove(x).contains(y) {
            assert(set.contains(y));
            let k = choose|k: int| 0 <= k < a.len() && a[k] == y;
            assert(d[k] == y);
        }
        if d.contains(y) {
            let k = choose|k: int| 0 <= k < d.len() && d[k] == y;
            assert(a[k] == y);
            assert(a.contains(y));
            assert(set.contains(y));
            assert(text_less(a[k], a[a.len() - 1]));
            lemma_text_order(y, y, y);
        }
    }
    assert forall|i: int, j: int| 0 <= i < j < d.len() implies text_less(#[trigger] d[i], #[trigger] d[j]) by {
        assert(d[i] == a[i] && d[j] == a[j]);
    }
}

/// The ids of some transactions.
pub open spec fn txn_ids(v: Seq<(u64, String)>) -> Seq<u64> {
    Seq::new(v.len(), |i: int| v[i].0)
}

/// The database of each transaction.
pub open spec fn txn_map(v: Seq<(u64, String)>) -> Map<u64, Seq<char>> {
    Map::new(|t: u64| txn_ids(v).contains(t), |t: u64| v[txn_ids(v).index_of(t)].1@)
}

proof fn lemma_txn_at(v: Seq<(u64, String)>, i: int)
    requires
        txn_ids(v).no_duplicates(),
        0 <= i < v.len(),
    ensures
        txn_map(v).contains_key(v[i].0),
        txn_map(v)[v[i].0] == v[i].1@,
{
    let ids = txn_ids(v);
    assert(ids[i] == v[i].0);
    assert(ids.contains(ids[i]));
    assert(ids.index_of(ids[i]) == i);
}

proof fn lemma_txn_removed(v0: Seq<(u64, String)>, v1: Seq<(u64, String)>, i: int)
    requires
        txn_ids(v0).no_duplicates(),
        0 <= i < v0.len(),
        v1 == v0.remove(i),
    ensures
        txn_ids(v1).no_duplicates(),
        txn_map(v1) == txn_map(v0).remove(v0[i].0),
{
    let n0 = txn_ids(v0);
    let n1 = txn_ids(v1);
    assert(n1 =~= n0.remove(i));
    assert forall|a: int, c: int| 0 <= a < n1.len() && 0 <= c < n1.len() && a != c implies n1[a] != n1[c] by {
        assert(n1[a] == n0[if a < i { a } else { a + 1 }]);
        assert(n1[c] == n0[if c < i { c } else { c + 1 }]);
    }
    assert forall|x: u64| #[trigger] n1.contains(x) <==> n0.contains(x) && x != n0[i] by {
        if n1.contains(x) {
            let k = choose|k: int| 0 <= k < n1.len() && n1[k] == x;
            assert(n0[if k < i { k } else { k + 1 }] == x);
        }
        if n0.contains(x) && x != n0[i] {
            let k = choose|k: int| 0 <= k < n0.len() && n0[k] == x;
            assert(n1[if k < i { k } else { k - 1 }] == x);
        }
    }
    assert forall|x: u64| n1.contains(x) implies #[trigger] txn_map(v1)[x] == txn_map(v0)[x] by {
        let k = choose|k: int| 0 <= k < n1.len() && n1[k] == x;
        let j = if k < i { k } else { k + 1 };
        assert(v1[k] == v0[j] && n0[j] == x);
        lemma_txn_at(v1, k);
        lemma_txn_at(v0, j);
    }
    assert(txn_map(v1) =~= txn_map(v0).remove(v0[i].0));
}

/// The state of the endpoint.
pub struct ApiState {
    users: UserStore,
    loaded: Vec<String>,
    txns: Vec<(u64, String)>,
}

impl View for ApiState {
    type V = ApiSpec;

    closed spec fn view(&self) -> ApiSpec {
        ApiSpec { users: self.users@, loaded: texts(self.loaded@).to_set(), txns: txn_map(self.txns@) }
    }
}

fn about(db: &str, what: &str) -> (r: String)
    ensures
        r@ == about_db(db@, what@),
{
    join3("database '", db, what)
}

fn refuse(status: u16, msg: &str) -> (a: Action)
    ensures
        a@ == ActionSpec::Reply(failure(status, msg@)),
{
    Action::Reply(Resp::fail(status, msg))
}

fn refuse_unloaded(db: String, statement: String) -> (a: Action)
    ensures
        a@ == (ActionSpec::Refuse { db: db@, statement: statement@, answer: not_loaded(db@) }),
{
    let answer: Resp = Resp::fail(404, about(db.as_str(), "' is not loaded").as_str());
    Action::Refuse { db, statement, answer }
}

fn empty_text(s: &str) -> (b: bool)
    ensures
        b == (s@.len() == 0),
{
    chars_of(s).len() == 0
}

impl ApiState {
    /// What holds of every state.
    pub closed spec fn wf(&self) -> bool {
        &&& self.users.wf()
        &&& texts_ascend(texts(self.loaded@))
        &&& txn_ids(self.txns@).no_duplicates()
    }

    /// A state without databases and transactions.
    pub fn new(users: UserStore) -> (r: ApiState)
        requires
            users.wf(),
        ensures
            r.wf(),
            r@ == (ApiSpec { users: users@, loaded: Set::empty(), txns: Map::empty() }),
    {
        let r = ApiState { users, loaded: Vec::new(), txns: Vec::new() };
        proof {
            assert(texts(r.loaded@).len() == 0);
            assert(txn_ids(r.txns@).len() == 0);
            assert(r@ =~= (ApiSpec { users: users@, loaded: Set::empty(), txns: Map::empty() }));
        }
        r
    }

    /// The users.
    pub fn users(&self) -> (r: &UserStore)
        requires
            self.wf(),
        ensures
            r.wf(),
            r@ == self@.users,
    {
        &self.users
    }

    /// Number of open transactions.
    pub fn open_transactions(&self) -> (n: usize)
        requires
            self.wf(),
        ensures
            self@.txns.dom().finite(),
            n == self@.txns.dom().len(),
    {
        proof {
            let ids = txn_ids(self.txns@);
            ids.unique_seq_to_set();
            assert(self@.txns.dom() =~= ids.to_set());
        }
        self.txns.len()
    }

    /// Is the database loaded?
    pub fn is_loaded(&self, db: &str) -> (b: bool)
        requires
            self.wf(),
        ensures
            b == self@.loaded.contains(db@),
    {
        let i: usize = text_place(&self.loaded, db);
        let ghost t = texts(self.loaded@);
        if i < self.loaded.len() && same(self.loaded[i].as_str(), db) {
            assert(t[i as int] == db@);
            assert(t.contains(db@));
            true
        } else {
            proof {
                if t.contains(db@) {
                    let k = choose|k: int| 0 <= k < t.len() && t[k] == db@;
                    lemma_text_order(db@, db@, db@);
                    assert(k >= i);
                    if k > i {
                        assert(text_less(t[i as int], t[k]));
                    } else {
                        assert(t[i as int] == self.loaded@[i as int]@);
                    }
                }
            }
            false
        }
    }

    /// Has the database an open transaction?
    pub fn is_busy(&self, db: &str) -> (b: bool)
        requires
            self.wf(),
        ensures
            b == in_txn(self@, db@),
    {
        let mut i: usize = 0;
        while i < self.txns.len()
            invariant
                i <= self.txns@.len(),
                self.wf(),
                forall|k: int| 0 <= k < i ==> (#[trigger] self.txns@[k]).1@ != db@,
            decreases self.txns.len() - i,
        {
            if same(self.txns[i].1.as_str(), db) {
                proof {
                    lemma_txn_at(self.txns@, i as int);
                    assert(self@.txns.contains_key(self.txns@[i as int].0));
                }
                return true;
            }
            i = i + 1;
        }
        proof {
            if in_txn(self@, db@) {
                let tid = choose|tid: u64| #[trigger] self@.txns.contains_key(tid) && self@.txns[tid] == db@;
                let k = txn_ids(self.txns@).index_of(tid);
                assert(txn_ids(self.txns@)[k] == tid);
                assert(self.txns@[k].1@ != db@);
            }
        }
        false
    }

    fn find_txn(&self, tid: u64) -> (r: Option<usize>)
        requires
            self.wf(),
        ensures
            r is Some <==> self@.txns.contains_key(tid),
            r matches Some(i) ==> i < self.txns@.len() && self.txns@[i as int].0 == tid && self@.txns[tid] == self.txns@[i as int].1@,
    {
        let mut i: usize = 0;
        let ghost ids = txn_ids(self.txns@);
        while i < self.txns.len()
            invariant
                i <= self.txns@.len(),
                self.wf(),
                ids == txn_ids(self.txns@),
                forall|k: int| 0 <= k < i ==> #[trigger] ids[k] != tid,
            decreases self.txns.len() - i,
        {
            assert(ids[i as int] == self.txns@[i as int].0);
            if self.txns[i].0 == tid {
                proof {
                    lemma_txn_at(self.txns@, i as int);
                }
                return Some(i);
            }
            i = i + 1;
        }
        None
    }

    pub(crate) fn set_loaded(&mut self, db: &str)
        requires
            old(self).wf(),
        ensures
            final(self).wf(),
            final(self)@ == (ApiSpec { loaded: old(self)@.loaded.insert(db@), ..old(self)@ }),
    {
        let ghost t0 = texts(self.loaded@);
        insert_text(&mut self.loaded, db);
        proof {
            assert(texts(self.loaded@).to_set() =~= t0.to_set().insert(db@)) by {
                assert forall|x: Seq<char>| #[trigger] texts(self.loaded@).to_set().contains(x) <==> t0.to_set().insert(db@).contains(x) by {
                    assert(texts(self.loaded@).contains(x) <==> t0.contains(x) || x == db@);
                }
            }
            assert(self@ =~= (ApiSpec { loaded: old(self)@.loaded.insert(db@), ..old(self)@ }));
        }
    }

    fn set_unloaded(&mut self, db: &str)
        requires
            old(self).wf(),
        ensures
            final(self).wf(),
            final(self)@ == (ApiSpec { loaded: old(self)@.loaded.remove(db@), ..old(self)@ }),
    {
        if !self.is_loaded(db) {
            assert(self@.loaded.remove(db@) =~= self@.loaded);
            return;
        }
        let ghost t0 = texts(self.loaded@);
        let mut i: usize = 0;
        while i < self.loaded.len() && !same(self.loaded[i].as_str(), db)
            invariant
                i <= self.loaded@.len(),
                t0 == texts(self.loaded@),
                forall|k: int| 0 <= k < i ==> #[trigger] t0[k] != db@,
                self.wf(),
                self@ == old(self)@,
            decreases self.loaded.len() - i,
        {
            assert(t0[i as int] == self.loaded@[i as int]@);
            i = i + 1;
        }
        proof {
            let k = choose|k: int| 0 <= k < t0.len() && t0[k] == db@;
            assert(i <= k);
            assert(i < t0.len());
            assert(t0[i as int] == db@);
        }
        let gone: String = self.loaded.remove(i);
        proof {
            let t1 = texts(self.loaded@);
            assert(t1 =~= t0.remove(i as int));
            assert forall|a: int, c: int| 0 <= a < c < t1.len() implies text_less(#[trigger] t1[a], #[trigger] t1[c]) by {
                assert(t1[a] == t0[if a < i { a } else { a + 1 }]);
                assert(t1[c] == t0[if c < i { c } else { c + 1 }]);
            }
            assert(t1.to_set() =~= t0.to_set().remove(db@)) by {
                assert forall|x: Seq<char>| #[trigger] t1.to_set().contains(x) <==> t0.to_set().remove(db@).contains(x) by {
                    if t1.contains(x) {
                        let k = choose|k: int| 0 <= k < t1.len() && t1[k] == x;
                        let j = if k < i { k } else { k + 1 };
                        assert(t0[j] == x);
                        lemma_text_order(x, x, x);
                        if j < i {
                            assert(text_less(t0[j], t0[i as int]));
                        } else {
                            assert(text_less(t0[i as int], t0[j]));
                        }
                    }
                    if t0.contains(x) && x != db@ {
                        let k = choose|k: int| 0 <= k < t0.len() && t0[k] == x;
                        assert(t1[if k < i { k } else { k - 1 }] == x);
                    }
                }
            }
            assert(self@ =~= (ApiSpec { loaded: old(self)@.loaded.remove(db@), ..old(self)@ }));
        }
    }

    /// The names of the loaded databases, in order.
    pub fn loaded_names(&self) -> (r: Vec<String>)
        requires
            self.wf(),
        ensures
            lists_texts(texts(r@), self@.loaded),
    {
        let r: Vec<String> = crate::query::copy_strings(&self.loaded);
        proof {
            assert(texts(r@) =~= texts(self.loaded@));
            assert forall|x: Seq<char>| #[trigger] self@.loaded.contains(x) <==> texts(r@).contains(x) by {}
        }
        r
    }

    /// Open a transaction with the given id, unless it is taken.
    pub(crate) fn open_txn(&mut self, tid: u64, db: &str) -> (b: bool)
        requires
            old(self).wf(),
        ensures
            final(self).wf(),
            b == !old(self)@.txns.contains_key(tid),
            final(self)@ == if b {
                ApiSpec { txns: old(self)@.txns.insert(tid, db@), ..old(self)@ }
            } else {
                old(self)@
            },
    {
        if self.find_txn(tid).is_some() {
            return false;
        }
        let ghost v0 = self.txns@;
        self.txns.push((tid, db.to_owned()));
        proof {
            let v1 = self.txns@;
            let ids = txn_ids(v1);
            assert(ids =~= txn_ids(v0).push(tid));
            assert forall|a: int, c: int| 0 <= a < ids.len() && 0 <= c < ids.len() && a != c implies ids[a] != ids[c] by {
                if a < v0.len() {
                    assert(txn_ids(v0).contains(txn_ids(v0)[a]));
                }
                if c < v0.len() {
                    assert(txn_ids(v0).contains(txn_ids(v0)[c]));
                }
            }
            assert(v1.remove(v0.len() as int) =~= v0);
            lemma_txn_removed(v1, v0, v0.len() as int);
            lemma_txn_at(v1, v0.len() as int);
            assert(txn_map(v1) =~= txn_map(v0).insert(tid, db@));
            assert(self@ =~= (ApiSpec { txns: old(self)@.txns.insert(tid, db@), ..old(self)@ }));
        }
        true
    }

    /// The database that a request is for.
    pub fn pick_db(&self, req: &Request) -> (r: Option<String>)
        requires
            self.wf(),
        ensures
            text_opt(r) == picked_db(self@, req@),
    {
        match req.two("db_name", "db") {
            Some(n) => {
                if valid_db_name(n.as_str()) {
                    Some(n)
                } else {
                    None
                }
            },
            None => {
                let ghost t = texts(self.loaded@);
                let ghost set = t.to_set();
                if self.loaded.len() == 1 {
                    proof {
                        let x = t[0];
                        assert(set =~= Set::<Seq<char>>::empty().insert(x)) by {
                            assert(t.contains(x));
                        }
                        let y = choose|y: Seq<char>| set == #[trigger] Set::<Seq<char>>::empty().insert(y);
                        assert(set.contains(x));
                        assert(Set::<Seq<char>>::empty().insert(y).contains(x));
                        assert(t[0] == self.loaded@[0]@);
                    }
                    Some(self.loaded[0].as_str().to_owned())
                } else {
                    proof {
                        if exists|x: Seq<char>| set == #[trigger] Set::<Seq<char>>::empty().insert(x) {
                            let x = choose|x: Seq<char>| set == #[trigger] Set::<Seq<char>>::empty().insert(x);
                            assert(Set::<Seq<char>>::empty().insert(x).contains(x));
                            assert(t.contains(x));
                            assert(t.len() >= 2);
                            lemma_text_order(t[0], t[1], t[0]);
                            assert(t.contains(t[0]) && t.contains(t[1]));
                            assert(set.contains(t[0]) && set.contains(t[1]));
                            assert(text_less(t[0], t[1]));
                        }
                    }
                    None
                }
            },
        }
    }
}

/// The database that a request names.
pub fn req_db_name(req: &Request) -> (r: Option<String>)
    ensures
        text_opt(r) == named_db(req@),
{
    match first_of(req.two("db_name", "name"), req.param("db")) {
        Some(n) => {
            if valid_db_name(n.as_str()) {
                Some(n)
            } else {
                None
            }
        },
        None => None,
    }
}

/// The transaction that a request names.
pub fn txn_id(req: &Request) -> (r: Option<u64>)
    ensures
        match named_txn(req@) {
            Some(n) => r == Some(n as u64),
            None => r is None,
        },
{
    match req.two("tid", "txn") {
        None => None,
        Some(t) => {
            let chars: Vec<char> = chars_of(trim_text(t.as_str()).as_str());
            assert(chars@.subrange(0, chars@.len() as int) =~= chars@);
            parse_unsigned(&chars, 0, chars.len(), u64::MAX)
        },
    }
}

impl ApiState {
    /// May the user run the request?
    fn may_run(&self, user: &str, sparql: &str) -> (b: bool)
        requires
            self.wf(),
        ensures
            b == allowed(self@.users, user@, query_privilege(sparql@)),
    {
        self.users.has_priv(user, if is_update_sparql(sparql) { Privilege::Update } else { Privilege::Query })
    }

    /// Open a session.
    fn handle_login(&mut self, req: &Request, token: &str, now: u64) -> (a: Action)
        requires
            old(self).wf(),
        ensures
            final(self).wf(),
            (final(self)@, a@) == login_step(old(self)@, req@, token@, now),
    {
        let name: String = match req.param("username") {
            Some(n) => n,
            None => {
                return refuse(400, "missing username or password");
            },
        };
        let password: String = match req.param("password") {
            Some(p) => p,
            None => {
                return refuse(400, "missing username or password");
            },
        };
        let ghost s0 = self@;
        match self.users.login(name.as_str(), password.as_str(), token, now) {
            None => {
                assert(self@ =~= s0);
                refuse(401, "invalid username or password")
            },
            Some(t) => {
                let privileges: String = match self.users.get(name.as_str()) {
                    Some(u) => u.privilege_str(),
                    None => String::new(),
                };
                let mut body: String = join3("{\"StatusCode\":0,\"StatusMsg\":\"login success\",\"session\":", json_str(t.as_str()).as_str(), ",\"username\":");
                body.append(json_str(name.as_str()).as_str());
                body.append(",\"privilege\":");
                body.append(json_str(privileges.as_str()).as_str());
                body.append("}");
                assert(self@ =~= login_step(s0, req@, token@, now).0);
                Action::Reply(Resp::json(200, body))
            },
        }
    }

    /// Close a session.
    fn handle_logout(&mut self, req: &Request) -> (a: Action)
        requires
            old(self).wf(),
        ensures
            final(self).wf(),
            (final(self)@, a@) == logout_step(old(self)@, req@),
    {
        let ghost s0 = self@;
        match &req.token {
            Some(t) => {
                let was: bool = self.users.logout(t.as_str());
            },
            None => {},
        }
        assert(self@ =~= logout_step(s0, req@).0);
        Action::Reply(Resp::ok("logged out"))
    }

    /// Run a query or an update, if the database is loaded.
    fn run(&self, req: &Request, db: String, sparql: String) -> (a: Action)
        requires
            self.wf(),
        ensures
            (self@, a@) == run_step(self@, req@, db@, sparql@),
    {
        if self.is_loaded(db.as_str()) {
            Action::Query { db, sparql, format: req.param("format"), accept: copy_opt(&req.accept) }
        } else {
            refuse_unloaded(db, sparql)
        }
    }

    /// A query on a database.
    fn handle_query(&self, req: &Request, user: &str) -> (a: Action)
        requires
            self.wf(),
        ensures
            (self@, a@) == query_step(self@, req@, user@),
    {
        let sparql: String = match first_of(req.param("sparql"), copy_opt(&req.query)) {
            Some(s) => s,
            None => {
                return refuse(400, "missing sparql/query parameter");
            },
        };
        if !self.may_run(user, sparql.as_str()) {
            return Action::Reply(forbidden());
        }
        match self.pick_db(req) {
            None => refuse(400, "missing or ambiguous db parameter"),
            Some(db) => self.run(req, db, sparql),
        }
    }

    /// An update of a database.
    fn handle_update(&self, req: &Request) -> (a: Action)
        requires
            self.wf(),
        ensures
            (self@, a@) == update_step(self@, req@),
    {
        let sparql: String = match first_of(req.two("sparql", "update"), req.full_body()) {
            Some(s) => s,
            None => {
                return refuse(400, "missing update statement");
            },
        };
        match self.pick_db(req) {
            None => refuse(400, "missing or ambiguous db parameter"),
            Some(db) => self.run(req, db, sparql),
        }
    }

    /// Build, load, unload, drop or restore a database.
    fn handle_lifecycle(&mut self, req: &Request, e: Endpoint) -> (a: Action)
        requires
            old(self).wf(),
        ensures
            final(self).wf(),
            (final(self)@, a@) == lifecycle_step(old(self)@, req@, e),
    {
        let db: String = match req_db_name(req) {
            Some(n) => n,
            None => {
                return refuse(400, "missing or invalid db_name");
            },
        };
        if e == Endpoint::Load {
            return Action::Load { db };
        }
        if e == Endpoint::Restore {
            return match req.two("path", "backup_path") {
                None => refuse(400, "missing backup path"),
                Some(source) => {
                    if self.is_busy(db.as_str()) {
                        refuse(409, "database is busy in a transaction")
                    } else {
                        Action::Restore { db, source }
                    }
                },
            };
        }
        if self.is_busy(db.as_str()) {
            return refuse(409, "database is busy in a transaction");
        }
        if e == Endpoint::Build {
            return Action::Build { db, path: req.two("db_path", "path") };
        }
        let was_loaded: bool = self.is_loaded(db.as_str());
        if e == Endpoint::Unload {
            if !was_loaded {
                return refuse(404, about(db.as_str(), "' is not loaded").as_str());
            }
            self.set_unloaded(db.as_str());
            return Action::Unload { db };
        }
        self.set_unloaded(db.as_str());
        Action::Drop { db, was_loaded }
    }

    /// Start a transaction.
    fn handle_begin(&self, req: &Request) -> (a: Action)
        requires
            self.wf(),
        ensures
            (self@, a@) == begin_step(self@, req@),
    {
        match self.pick_db(req) {
            None => refuse(400, "missing or ambiguous db parameter"),
            Some(db) => {
                if !self.is_loaded(db.as_str()) {
                    refuse(404, about(db.as_str(), "' is not loaded").as_str())
                } else if self.is_busy(db.as_str()) {
                    refuse(409, "a transaction is already open on this database")
                } else {
                    Action::Begin { db }
                }
            },
        }
    }

    /// A query in a transaction.
    fn handle_tquery(&self, req: &Request, user: &str) -> (a: Action)
        requires
            self.wf(),
        ensures
            (self@, a@) == tquery_step(self@, req@, user@),
    {
        let tid: u64 = match txn_id(req) {
            Some(t) => t,
            None => {
                return refuse(400, "missing or malformed tid/txn parameter");
            },
        };
        let db: String = match self.find_txn(tid) {
            Some(i) => self.txns[i].1.as_str().to_owned(),
            None => {
                return refuse(404, join2("no open transaction ", decimal_of(tid).as_str()).as_str());
            },
        };
        let sparql: String = match first_of(first_of(req.param("sparql"), copy_opt(&req.query)), req.full_body()) {
            Some(s) => s,
            None => {
                return refuse(400, "missing sparql parameter");
            },
        };
        if !self.may_run(user, sparql.as_str()) {
            return Action::Reply(forbidden());
        }
        self.run(req, db, sparql)
    }

    /// Commit a transaction or roll it back.
    fn handle_txn_end(&mut self, req: &Request, commit: bool) -> (a: Action)
        requires
            old(self).wf(),
        ensures
            final(self).wf(),
            (final(self)@, a@) == end_step(old(self)@, req@, commit),
    {
        let tid: u64 = match txn_id(req) {
            Some(t) => t,
            None => {
                return refuse(400, "missing or malformed tid/txn parameter");
            },
        };
        match self.find_txn(tid) {
            None => refuse(404, join2("no open transaction ", decimal_of(tid).as_str()).as_str()),
            Some(i) => {
                let ghost v0 = self.txns@;
                let gone: (u64, String) = self.txns.remove(i);
                proof {
                    lemma_txn_removed(v0, self.txns@, i as int);
                    assert(self@ =~= end_step(old(self)@, req@, commit).0);
                }
                Action::End { db: gone.1, tid, commit }
            },
        }
    }

    /// Save, back up or export a database.
    fn handle_loaded(&self, req: &Request, e: Endpoint) -> (a: Action)
        requires
            self.wf(),
        ensures
            (self@, a@) == loaded_step(self@, req@, e),
    {
        match self.pick_db(req) {
            None => refuse(400, "missing or ambiguous db parameter"),
            Some(db) => {
                if !self.is_loaded(db.as_str()) {
                    refuse(404, about(db.as_str(), "' is not loaded").as_str())
                } else if e == Endpoint::Checkpoint {
                    Action::Checkpoint { db }
                } else if e == Endpoint::Backup {
                    Action::Backup { db, path: req.two("path", "backup_path") }
                } else {
                    Action::Export { db }
                }
            },
        }
    }

    /// Insert or remove many triples.
    fn handle_batch(&self, req: &Request, insert: bool) -> (a: Action)
        requires
            self.wf(),
        ensures
            (self@, a@) == batch_step(self@, req@, insert),
    {
        let db: String = match self.pick_db(req) {
            None => {
                return refuse(400, "missing or ambiguous db parameter");
            },
            Some(db) => db,
        };
        let triples: String = match req.param("triples") {
            Some(t) => trim_text(t.as_str()),
            None => trim_text(req.body.as_str()),
        };
        if empty_text(triples.as_str()) {
            return refuse(400, "no triples supplied");
        }
        let statement: String = if insert {
            join3("INSERT DATA { ", triples.as_str(), " }")
        } else {
            join3("DELETE DATA { ", triples.as_str(), " }")
        };
        if self.is_loaded(db.as_str()) {
            Action::Batch { db, statement, insert }
        } else {
            refuse_unloaded(db, statement)
        }
    }

    /// Add a user.
    fn handle_user_create(&mut self, req: &Request, salt: u64) -> (a: Action)
        requires
            old(self).wf(),
        ensures
            final(self).wf(),
            (final(self)@, a@) == create_step(old(self)@, req@, salt),
    {
        let name: String = match req.two("op_username", "username") {
            Some(n) => n,
            None => {
                return refuse(400, "missing op_username or op_password");
            },
        };
        let password: String = match req.two("op_password", "password") {
            Some(p) => p,
            None => {
                return refuse(400, "missing op_username or op_password");
            },
        };
        let list: String = match req.param("privileges") {
            Some(p) => p,
            None => String::new(),
        };
        assert(param_in(req@.params, "privileges"@) is None ==> list@ =~= Seq::<char>::empty());
        let privileges: PrivilegeSet = match Privilege::parse_list(list.as_str()) {
            Some(p) => p,
            None => {
                return refuse(400, "invalid privileges (use names or codes 1..8)");
            },
        };
        let ghost s0 = self@;
        match self.users.add(name.as_str(), password.as_str(), privileges, salt) {
            Ok(u) => {
                assert(self@ =~= create_step(s0, req@, salt).0);
                Action::SaveUsers(Resp::ok(join3("user '", name.as_str(), "' created").as_str()))
            },
            Err(e) => {
                assert(self@ =~= s0);
                refuse(400, e.as_str())
            },
        }
    }

    /// Drop a user.
    fn handle_user_drop(&mut self, req: &Request) -> (a: Action)
        requires
            old(self).wf(),
        ensures
            final(self).wf(),
            (final(self)@, a@) == drop_step(old(self)@, req@),
    {
        let name: String = match req.two("op_username", "username") {
            Some(n) => n,
            None => {
                return refuse(400, "missing op_username");
            },
        };
        let ghost s0 = self@;
        match self.users.drop_user(name.as_str()) {
            Ok(u) => {
                assert(self@ =~= drop_step(s0, req@).0);
                Action::SaveUsers(Resp::ok(join3("user '", name.as_str(), "' dropped").as_str()))
            },
            Err(e) => {
                assert(self@ =~= s0);
                refuse(400, e.as_str())
            },
        }
    }

    /// Change a password.
    fn handle_user_password(&mut self, req: &Request, user: &str, salt: u64) -> (a: Action)
        requires
            old(self).wf(),
        ensures
            final(self).wf(),
            (final(self)@, a@) == password_step(old(self)@, req@, user@, salt),
    {
        let target: String = match req.two("username", "op_username") {
            Some(n) => n,
            None => user.to_owned(),
        };
        let password: String = match req.two("op_password", "password") {
            Some(p) => p,
            None => {
                return refuse(400, "missing op_password");
            },
        };
        if !same(target.as_str(), user) && !self.users.has_priv(user, Privilege::Admin) {
            return Action::Reply(forbidden());
        }
        let ghost s0 = self@;
        match self.users.set_password(target.as_str(), password.as_str(), salt) {
            Ok(u) => {
                assert(self@ =~= password_step(s0, req@, user@, salt).0);
                Action::SaveUsers(Resp::ok(join3("password for '", target.as_str(), "' changed").as_str()))
            },
            Err(e) => {
                assert(self@ =~= s0);
                refuse(400, e.as_str())
            },
        }
    }

    /// Give or take privileges.
    fn handle_user_grant(&mut self, req: &Request, grant: bool) -> (a: Action)
        requires
            old(self).wf(),
        ensures
            final(self).wf(),
            (final(self)@, a@) == grant_step(old(self)@, req@, grant),
    {
        let name: String = match req.two("op_username", "username") {
            Some(n) => n,
            None => {
                return refuse(400, "missing op_username");
            },
        };
        let ghost s0 = self@;
        let clear: bool = match req.param("type") {
            Some(t) => same(t.as_str(), "3"),
            None => false,
        };
        if clear {
            return match self.users.clear_privileges(name.as_str()) {
                Ok(u) => {
                    assert(self@ =~= grant_step(s0, req@, grant).0);
                    Action::SaveUsers(Resp::ok(join3("privileges for '", name.as_str(), "' cleared").as_str()))
                },
                Err(e) => {
                    assert(self@ =~= s0);
                    refuse(400, e.as_str())
                },
            };
        }
        let list: String = match req.param("privileges") {
            Some(p) => p,
            None => {
                return refuse(400, "missing privileges");
            },
        };
        let privs: PrivilegeSet = match Privilege::parse_list(list.as_str()) {
            Some(p) => p,
            None => {
                return refuse(400, "invalid privileges (use names or codes 1..8)");
            },
        };
        let res: Result<(), String> = if grant {
            self.users.grant(name.as_str(), &privs)
        } else {
            self.users.revoke(name.as_str(), &privs)
        };
        match res {
            Ok(u) => {
                let mut m: String = join3("privileges ", if grant { "granted" } else { "revoked" }, " for '");
                m.append(name.as_str());
                m.append("'");
                assert(self@ =~= grant_step(s0, req@, grant).0);
                Action::SaveUsers(Resp::ok(m.as_str()))
            },
            Err(e) => {
                assert(self@ =~= s0);
                refuse(400, e.as_str())
            },
        }
    }

    /// List the users.
    fn handle_user_show(&self) -> (a: Action)
        requires
            self.wf(),
        ensures
            a@ == ActionSpec::Reply(users_answer(sorted_names(self@), self@.users.users)),
    {
        let list: Vec<&User> = self.users.list();
        let ghost names = list@.map_values(|u: &User| u.name@);
        let ghost users = self@.users.users;
        proof {
            assert(lists_texts(names, users.dom()));
            lemma_listing_unique(names, sorted_names(self@), users.dom());
        }
        let mut items: String = String::new();
        let mut i: usize = 0;
        assert(names.take(0) =~= Seq::<Seq<char>>::empty());
        assert(items@ =~= Seq::<char>::empty());
        while i < list.len()
            invariant
                i <= list@.len(),
                names == list@.map_values(|u: &User| u.name@),
                users == self@.users.users,
                forall|k: int| 0 <= k < list@.len() ==> (#[trigger] list@[k])@ == users[list@[k].name@],
                items@ == user_entries(names.take(i as int), users),
            decreases list.len() - i,
        {
            let ghost before = items@;
            let u: &User = list[i];
            proof {
                assert(names.take(i + 1).drop_last() =~= names.take(i as int));
                assert(names.take(i + 1).last() == u.name@);
                assert(list@[i as int]@ == users[u.name@]);
            }
            if i > 0 {
                items.append(",");
            }
            items.append("{\"username\":");
            items.append(json_str(u.name.as_str()).as_str());
            items.append(",\"privileges\":");
            items.append(json_str(u.privilege_str().as_str()).as_str());
            items.append(",\"is_root\":");
            items.append(if same(u.name.as_str(), ROOT_USER) { "true" } else { "false" });
            items.append("}");
            proof {
                let e = user_entry(u.name@, users[u.name@]);
                if i == 0 {
                    assert(before =~= Seq::<char>::empty());
                    assert(items@ =~= e);
                } else {
                    assert(items@ =~= before + ","@ + e);
                }
            }
            i = i + 1;
        }
        assert(names.take(i as int) =~= names);
        Action::Reply(Resp::json(200, join3("{\"StatusCode\":0,\"StatusMsg\":\"success\",\"users\":[", items.as_str(), "]}")))
    }

    /// The user of a request, by basic authentication or by a session.
    pub fn resolve_user(&mut self, req: &Request, now: u64) -> (r: Option<String>)
        requires
            old(self).wf(),
        ensures
            final(self).wf(),
            (final(self)@, text_opt(r)) == caller(old(self)@, req@, now),
    {
        match &req.basic {
            Some(p) => {
                if self.users.verify(p.0.as_str(), p.1.as_str()) {
                    return Some(p.0.as_str().to_owned());
                }
            },
            None => {},
        }
        let ghost s0 = self@;
        match &req.token {
            Some(t) => {
                let r: Option<String> = self.users.session_user(t.as_str(), now);
                assert(self@ =~= caller(s0, req@, now).0);
                r
            },
            None => None,
        }
    }

    /// Decide on a request: check the user and the privilege, change what is held
    /// here, and say what the host is to do.
    #[verifier::spinoff_prover]
    #[verifier::rlimit(40)]
    pub fn dispatch(&mut self, req: &Request, user: Option<&str>, fresh: &Fresh) -> (a: Action)
        requires
            old(self).wf(),
        ensures
            final(self).wf(),
            (final(self)@, a@) == step(
                old(self)@,
                req@,
                match user {
                    Some(u) => Some(u@),
                    None => None,
                },
                fresh.token@,
                fresh.salt,
                fresh.now,
            ),
    {
        if same(req.path.as_str(), "/login") {
            return self.handle_login(req, fresh.token.as_str(), fresh.now);
        }
        let user: &str = match user {
            Some(u) => u,
            None => {
                return Action::Reply(unauthorized());
            },
        };
        if same(req.path.as_str(), "/logout") {
            return self.handle_logout(req);
        }
        let e: Endpoint = match route(req.method.as_str(), req.path.as_str()) {
            Some(e) => e,
            None => {
                return refuse(404, "not found");
            },
        };
        match privilege_for(e) {
            Some(p) => {
                if !self.users.has_priv(user, p) {
                    return Action::Reply(forbidden());
                }
            },
            None => {},
        }
        match e {
            Endpoint::Sparql => self.handle_query(req, user),
            Endpoint::Update => self.handle_update(req),
            Endpoint::Build => self.handle_lifecycle(req, e),
            Endpoint::Load => self.handle_lifecycle(req, e),
            Endpoint::Unload => self.handle_lifecycle(req, e),
            Endpoint::Drop => self.handle_lifecycle(req, e),
            Endpoint::Restore => self.handle_lifecycle(req, e),
            Endpoint::Show => Action::Show,
            Endpoint::Begin => self.handle_begin(req),
            Endpoint::Tquery => self.handle_tquery(req, user),
            Endpoint::Commit => self.handle_txn_end(req, true),
            Endpoint::Rollback => self.handle_txn_end(req, false),
            Endpoint::Checkpoint => self.handle_loaded(req, e),
            Endpoint::Backup => self.handle_loaded(req, e),
            Endpoint::Export => self.handle_loaded(req, e),
            Endpoint::BatchInsert => self.handle_batch(req, true),
            Endpoint::BatchRemove => self.handle_batch(req, false),
            Endpoint::Status => Action::Status,
            Endpoint::Monitor => Action::Monitor,
            Endpoint::UserCreate => self.handle_user_create(req, fresh.salt),
            Endpoint::UserDrop => self.handle_user_drop(req),
            Endpoint::UserPassword => self.handle_user_password(req, user, fresh.salt),
            Endpoint::UserGrant => self.handle_user_grant(req, true),
            Endpoint::UserRevoke => self.handle_user_grant(req, false),
            Endpoint::UserShow => self.handle_user_show(),
            Endpoint::QueryLog => Action::Log { file: "query.log".to_owned() },
            Endpoint::AccessLog => Action::Log { file: "access.log".to_owned() },
            Endpoint::TxnLog => Action::Log { file: "txn.log".to_owned() },
        }
    }
}

/// The user of a request, and the state after the sessions were looked at.
pub open spec fn caller(s: ApiSpec, r: RequestSpec, now: u64) -> (ApiSpec, Option<Seq<char>>) {
    let by_password = match r.basic {
        Some((name, password)) => if knows(s.users, name, password) {
            Some(name)
        } else {
            None
        },
        None => None,
    };
    if by_password is Some {
        (s, by_password)
    } else {
        match r.token {
            None => (s, None),
            Some(t) => match session_owner(s.users, t, now) {
                Some(u) => (s, Some(u)),
                None => (ApiSpec { users: UserStoreSpec { sessions: s.users.sessions.remove(t), ..s.users }, ..s }, None),
            },
        }
    }
}

} // verus!
