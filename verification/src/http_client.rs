//! What a client of a SPARQL endpoint sends and receives: URLs, requests,
//! responses, and results in JSON.

use crate::error::{join2, join3};
use crate::json::{fields_of, items_of, json_field, json_of, json_read, json_text, Json, JsonSpec};
use crate::model::term::TermSpec;
use crate::model::Term;
use crate::text::{chars_of, decimal, decimal_of, is_white, law_white_space_parts_words, lemma_decimal_reads_back, parse_unsigned, parsed_unsigned, same, split_words, string_of, texts, words};
use vstd::prelude::*;
use vstd::string::*;
use vstd::utf8::encode_utf8;

verus! {

/// A solution: the variables that are bound, with their terms.
pub type ServiceSolution = Vec<(String, Term)>;

/// A solution as a mathematical value.
pub open spec fn solution_of(s: Seq<(String, Term)>) -> Seq<(Seq<char>, TermSpec)> {
    Seq::new(s.len(), |i: int| (s[i].0@, s[i].1@))
}

/// Solutions as mathematical values.
pub open spec fn solutions_of(v: Seq<ServiceSolution>) -> Seq<Seq<(Seq<char>, TermSpec)>> {
    Seq::new(v.len(), |i: int| solution_of(v[i]@))
}

/// The term that an object with a type and a value describes.
pub open spec fn term_of(cell: JsonSpec) -> Result<TermSpec, Seq<char>> {
    match json_text(json_field(cell, "type"@)) {
        None => Err("binding cell missing type"@),
        Some(ty) => match json_text(json_field(cell, "value"@)) {
            None => Err("binding cell missing value"@),
            Some(value) => if ty == "uri"@ {
                Ok(TermSpec::Iri(value))
            } else if ty == "bnode"@ {
                Ok(TermSpec::Blank(value))
            } else {
                Ok(TermSpec::Literal { value, datatype: json_text(json_field(cell, "datatype"@)), lang: json_text(json_field(cell, "xml:lang"@)) })
            },
        },
    }
}

/// The terms of some fields.
pub open spec fn terms_of(fields: Seq<(Seq<char>, JsonSpec)>) -> Result<Seq<(Seq<char>, TermSpec)>, Seq<char>>
    decreases fields.len(),
{
    if fields.len() == 0 {
        Ok(Seq::empty())
    } else {
        match terms_of(fields.drop_last()) {
            Err(e) => Err(e),
            Ok(s) => match term_of(fields.last().1) {
                Err(e) => Err(e),
                Ok(t) => Ok(s.push((fields.last().0, t))),
            },
        }
    }
}

/// The solutions of some rows.
pub open spec fn rows_of(rows: Seq<JsonSpec>) -> Result<Seq<Seq<(Seq<char>, TermSpec)>>, Seq<char>>
    decreases rows.len(),
{
    if rows.len() == 0 {
        Ok(Seq::empty())
    } else {
        match rows_of(rows.drop_last()) {
            Err(e) => Err(e),
            Ok(s) => match rows.last() {
                JsonSpec::Obj(fields) => match terms_of(fields) {
                    Err(e) => Err(e),
                    Ok(t) => Ok(s.push(t)),
                },
                _ => Err("binding is not an object"@),
            },
        }
    }
}

/// The rows of a result.
pub open spec fn bindings_of(j: JsonSpec) -> Option<Seq<JsonSpec>> {
    match json_field(j, "results"@) {
        None => None,
        Some(r) => match json_field(r, "bindings"@) {
            Some(JsonSpec::Arr(rows)) => Some(rows),
            _ => None,
        },
    }
}

/// The solutions that a text in JSON holds.
pub open spec fn solutions_read(body: Seq<char>) -> Result<Seq<Seq<(Seq<char>, TermSpec)>>, Seq<char>> {
    match json_read(body) {
        Err(e) => Err("bad JSON: "@ + e),
        Ok(j) => match bindings_of(j) {
            None => Err("no results.bindings array"@),
            Some(rows) => rows_of(rows),
        },
    }
}

proof fn lemma_terms_err(fields: Seq<(Seq<char>, JsonSpec)>, k: int)
    requires
        0 <= k <= fields.len(),
        terms_of(fields.take(k)) is Err,
    ensures
        terms_of(fields) == terms_of(fields.take(k)),
    decreases fields.len() - k,
{
    if k < fields.len() {
        assert(fields.take(k + 1).drop_last() =~= fields.take(k));
        lemma_terms_err(fields, k + 1);
    } else {
        assert(fields.take(k) =~= fields);
    }
}

proof fn lemma_rows_err(rows: Seq<JsonSpec>, k: int)
    requires
        0 <= k <= rows.len(),
        rows_of(rows.take(k)) is Err,
    ensures
        rows_of(rows) == rows_of(rows.take(k)),
    decreases rows.len() - k,
{
    if k < rows.len() {
        assert(rows.take(k + 1).drop_last() =~= rows.take(k));
        lemma_rows_err(rows, k + 1);
    } else {
        assert(rows.take(k) =~= rows);
    }
}

/// Decode one term.
pub fn rdf_term_from_json(cell: &Json) -> (r: Result<Term, String>)
    ensures
        match term_of(json_of(*cell)) {
            Ok(t) => r matches Ok(v) && v@ == t,
            Err(m) => r matches Err(e) && e@ == m,
        },
{
    let ty: String = match cell.text_field("type") {
        Some(s) => s,
        None => {
            return Err("binding cell missing type".to_owned());
        },
    };
    let value: String = match cell.text_field("value") {
        Some(s) => s,
        None => {
            return Err("binding cell missing value".to_owned());
        },
    };
    if same(ty.as_str(), "uri") {
        Ok(Term::Iri(value))
    } else if same(ty.as_str(), "bnode") {
        Ok(Term::Blank(value))
    } else {
        let datatype: Option<String> = cell.text_field("datatype");
        let lang: Option<String> = cell.text_field("xml:lang");
        Ok(Term::Literal { value, datatype, lang })
    }
}

fn read_solution(fields: &Vec<(String, Json)>) -> (r: Result<ServiceSolution, String>)
    ensures
        match terms_of(fields_of(fields@)) {
            Ok(s) => r matches Ok(v) && solution_of(v@) == s,
            Err(m) => r matches Err(e) && e@ == m,
        },
{
    let ghost all = fields_of(fields@);
    let mut out: ServiceSolution = Vec::new();
    let mut i: usize = 0;
    assert(all.take(0) =~= Seq::<(Seq<char>, JsonSpec)>::empty());
    assert(solution_of(out@) =~= Seq::<(Seq<char>, TermSpec)>::empty());
    while i < fields.len()
        invariant
            i <= fields@.len(),
            all == fields_of(fields@),
            terms_of(all.take(i as int)) == Ok::<Seq<(Seq<char>, TermSpec)>, Seq<char>>(solution_of(out@)),
        decreases fields.len() - i,
    {
        let ghost s0 = solution_of(out@);
        proof {
            assert(all.take(i + 1).drop_last() =~= all.take(i as int));
            assert(all.take(i + 1).last() == (fields@[i as int].0@, json_of(fields@[i as int].1)));
        }
        match rdf_term_from_json(&fields[i].1) {
            Err(e) => {
                proof {
                    lemma_terms_err(all, i + 1);
                }
                return Err(e);
            },
            Ok(t) => {
                let ghost pair = (fields@[i as int].0@, t@);
                out.push((fields[i].0.as_str().to_owned(), t));
                assert(solution_of(out@) =~= s0.push(pair));
            },
        }
        i = i + 1;
    }
    assert(all.take(i as int) =~= all);
    Ok(out)
}

/// Read SPARQL results in JSON.
pub fn parse_sparql_json(body: &str) -> (r: Result<Vec<ServiceSolution>, String>)
    ensures
        match solutions_read(body@) {
            Ok(s) => r matches Ok(v) && solutions_of(v@) == s,
            Err(m) => r matches Err(e) && e@ == m,
        },
{
    let json: Json = match Json::parse(body) {
        Ok(j) => j,
        Err(e) => {
            return Err(join2("bad JSON: ", e.as_str()));
        },
    };
    let found: Option<&Vec<Json>> = match json.get("results") {
        None => None,
        Some(r) => match r.get("bindings") {
            None => None,
            Some(b) => b.as_array(),
        },
    };
    let rows: &Vec<Json> = match found {
        Some(v) => v,
        None => {
            return Err("no results.bindings array".to_owned());
        },
    };
    let ghost all = items_of(rows@);
    let mut out: Vec<ServiceSolution> = Vec::new();
    let mut i: usize = 0;
    assert(all.take(0) =~= Seq::<JsonSpec>::empty());
    assert(solutions_of(out@) =~= Seq::<Seq<(Seq<char>, TermSpec)>>::empty());
    while i < rows.len()
        invariant
            i <= rows@.len(),
            all == items_of(rows@),
            solutions_read(body@) == rows_of(all),
            rows_of(all.take(i as int)) == Ok::<Seq<Seq<(Seq<char>, TermSpec)>>, Seq<char>>(solutions_of(out@)),
        decreases rows.len() - i,
    {
        let ghost s0 = solutions_of(out@);
        proof {
            assert(all.take(i + 1).drop_last() =~= all.take(i as int));
            assert(all.take(i + 1).last() == json_of(rows@[i as int]));
        }
        match rows[i].as_object() {
            None => {
                proof {
                    lemma_rows_err(all, i + 1);
                }
                return Err("binding is not an object".to_owned());
            },
            Some(fields) => match read_solution(fields) {
                Err(e) => {
                    proof {
                        lemma_rows_err(all, i + 1);
                    }
                    return Err(e);
                },
                Ok(s) => {
                    let ghost sol = solution_of(s@);
                    out.push(s);
                    assert(solutions_of(out@) =~= s0.push(sol));
                },
            },
        }
        i = i + 1;
    }
    assert(all.take(i as int) =~= all);
    Ok(out)
}

/// The parts of a URL.
pub ghost struct UrlSpec {
    pub host: Seq<char>,
    pub port: u16,
    pub path: Seq<char>,
}

/// The place of the first `c` at or behind `p`, or the length.
pub open spec fn next_at(s: Seq<char>, p: int, c: char) -> int
    decreases s.len() - p,
{
    if p >= s.len() || s[p] == c {
        p
    } else {
        next_at(s, p + 1, c)
    }
}

/// The place of the last `c` before `p`, or none.
pub open spec fn last_before(s: Seq<char>, p: nat, c: char) -> Option<int>
    decreases p,
{
    if p == 0 {
        None
    } else if s[p - 1] == c {
        Some(p - 1)
    } else {
        last_before(s, (p - 1) as nat, c)
    }
}

/// The parts of a URL with a host, an optional port, and an optional path.
pub open spec fn url_read(url: Seq<char>) -> Result<UrlSpec, Seq<char>> {
    if url.len() < 7 || url.take(7) != "http://"@ {
        Err("only http:// is supported"@)
    } else {
        let end = next_at(url, 7, '/');
        let path = if end < url.len() {
            url.skip(end)
        } else {
            "/"@
        };
        let authority = url.subrange(7, end);
        match last_before(authority, authority.len(), ':') {
            None => if authority.len() == 0 {
                Err("empty host"@)
            } else {
                Ok(UrlSpec { host: authority, port: 80, path })
            },
            Some(i) => match parsed_unsigned(authority.skip(i + 1), 65535) {
                None => Err("bad port"@),
                Some(port) => if i == 0 {
                    Err("empty host"@)
                } else {
                    Ok(UrlSpec { host: authority.take(i), port: port as u16, path })
                },
            },
        }
    }
}

proof fn lemma_next_at(s: Seq<char>, p: int, c: char)
    requires
        0 <= p <= s.len(),
    ensures
        p <= next_at(s, p, c) <= s.len(),
    decreases s.len() - p,
{
    if p < s.len() {
        lemma_next_at(s, p + 1, c);
    }
}

/// Split a URL into host, port and path.
pub fn parse_http_url(url: &str) -> (r: Result<(String, u16, String), String>)
    ensures
        match url_read(url@) {
            Ok(u) => r matches Ok(t) && t.0@ == u.host && t.1 == u.port && t.2@ == u.path,
            Err(m) => r matches Err(e) && e@ == m,
        },
{
    let chars: Vec<char> = chars_of(url);
    let n: usize = chars.len();
    if n < 7 {
        return Err("only http:// is supported".to_owned());
    }
    let head: String = string_of(&chars, 0, 7);
    assert(head@ =~= url@.take(7));
    if !same(head.as_str(), "http://") {
        return Err("only http:// is supported".to_owned());
    }
    let mut end: usize = 7;
    while end < n && chars[end] != '/'
        invariant
            7 <= end <= n,
            n == chars@.len(),
            chars@ == url@,
            next_at(url@, end as int, '/') == next_at(url@, 7, '/'),
        decreases n - end,
    {
        end = end + 1;
    }
    let path: String = if end < n { string_of(&chars, end, n) } else { "/".to_owned() };
    assert(end < n ==> path@ =~= url@.skip(end as int));
    let ghost authority = url@.subrange(7, end as int);
    let mut i: usize = end;
    while i > 7 && chars[i - 1] != ':'
        invariant
            7 <= i <= end <= n,
            n == chars@.len(),
            chars@ == url@,
            authority == url@.subrange(7, end as int),
            last_before(authority, (i - 7) as nat, ':') == last_before(authority, authority.len(), ':'),
        decreases i,
    {
        assert(authority[i - 7 - 1] == chars@[i - 1]);
        i = i - 1;
    }
    if i == 7 {
        if end == 7 {
            return Err("empty host".to_owned());
        }
        return Ok((string_of(&chars, 7, end), 80, path));
    }
    proof {
        assert(authority[i - 7 - 1] == chars@[i - 1]);
        assert(authority.skip(i - 7) =~= chars@.subrange(i as int, end as int));
    }
    match parse_unsigned(&chars, i, end, 65535) {
        None => Err("bad port".to_owned()),
        Some(port) => {
            if i == 8 {
                return Err("empty host".to_owned());
            }
            let host: String = string_of(&chars, 7, i - 1);
            assert(host@ =~= authority.take(i - 8));
            Ok((host, port as u16, path))
        },
    }
}

/// The request that posts a query.
pub open spec fn request_text(host: Seq<char>, path: Seq<char>, query: Seq<char>) -> Seq<char> {
    "POST "@ + path + " HTTP/1.1\r\nHost: "@ + host + "\r\nUser-Agent: gstore-rust/0.1\r\nAccept: application/sparql-results+json\r\nContent-Type: application/sparql-query\r\nContent-Length: "@
        + decimal(encode_utf8(query).len()) + "\r\nConnection: close\r\n\r\n"@ + query
}

/// Write the request that posts a query.
pub fn post_request(host: &str, path: &str, query: &str) -> (r: String)
    ensures
        r@ == request_text(host@, path@, query@),
{
    let mut r: String = join3("POST ", path, " HTTP/1.1\r\nHost: ");
    r.append(host);
    r.append("\r\nUser-Agent: gstore-rust/0.1\r\nAccept: application/sparql-results+json\r\nContent-Type: application/sparql-query\r\nContent-Length: ");
    r.append(decimal_of(query.as_bytes().len() as u64).as_str());
    r.append("\r\nConnection: close\r\n\r\n");
    r.append(query);
    r
}

/// An empty line starts at the place.
pub open spec fn break_at(s: Seq<char>, p: int) -> bool {
    p + 4 <= s.len() && s[p] == '\r' && s[p + 1] == '\n' && s[p + 2] == '\r' && s[p + 3] == '\n'
}

/// The place of the first empty line at or behind `p`, or none.
pub open spec fn head_end(s: Seq<char>, p: int) -> Option<int>
    decreases s.len() - p,
{
    if p + 4 > s.len() {
        None
    } else if break_at(s, p) {
        Some(p)
    } else {
        head_end(s, p + 1)
    }
}

/// The status in the first line of a response.
pub open spec fn status_of(head: Seq<char>) -> Option<nat> {
    let w = words(head.take(next_at(head, 0, '\n')));
    if w.len() < 2 {
        None
    } else {
        parsed_unsigned(w[1], 65535)
    }
}

/// The body of a response, which its status must allow.
pub open spec fn body_of(text: Seq<char>) -> Result<Seq<char>, Seq<char>> {
    match head_end(text, 0) {
        None => Err("malformed HTTP response"@),
        Some(p) => match status_of(text.take(p)) {
            None => Err("missing HTTP status"@),
            Some(status) => if 200 <= status < 300 {
                Ok(text.skip(p + 4))
            } else {
                Err("endpoint returned HTTP "@ + decimal(status))
            },
        },
    }
}

/// Take the body from a response.
pub fn response_body(text: &str) -> (r: Result<String, String>)
    ensures
        match body_of(text@) {
            Ok(b) => r matches Ok(s) && s@ == b,
            Err(m) => r matches Err(e) && e@ == m,
        },
{
    let chars: Vec<char> = chars_of(text);
    let n: usize = chars.len();
    let mut p: usize = 0;
    while n - p >= 4 && !(chars[p] == '\r' && chars[p + 1] == '\n' && chars[p + 2] == '\r' && chars[p + 3] == '\n')
        invariant
            p <= n,
            n == chars@.len(),
            chars@ == text@,
            head_end(text@, p as int) == head_end(text@, 0),
        decreases n - p,
    {
        p = p + 1;
    }
    if n - p < 4 {
        return Err("malformed HTTP response".to_owned());
    }
    let ghost head = text@.take(p as int);
    let mut e: usize = 0;
    while e < p && chars[e] != '\n'
        invariant
            e <= p <= n,
            n == chars@.len(),
            chars@ == text@,
            head == text@.take(p as int),
            next_at(head, e as int, '\n') == next_at(head, 0, '\n'),
        decreases p - e,
    {
        assert(head[e as int] == chars@[e as int]);
        e = e + 1;
    }
    proof {
        if e < p {
            assert(head[e as int] == chars@[e as int]);
        }
    }
    let line: String = string_of(&chars, 0, e);
    assert(line@ =~= head.take(e as int));
    let w: Vec<String> = split_words(line.as_str());
    let ghost ws = texts(w@);
    if w.len() < 2 {
        return Err("missing HTTP status".to_owned());
    }
    let word: Vec<char> = chars_of(w[1].as_str());
    assert(ws[1] == w@[1]@);
    assert(word@.subrange(0, word@.len() as int) =~= word@);
    match parse_unsigned(&word, 0, word.len(), 65535) {
        None => Err("missing HTTP status".to_owned()),
        Some(status) => {
            if 200 <= status && status < 300 {
                let b: String = string_of(&chars, p + 4, n);
                assert(b@ =~= text@.skip(p + 4));
                Ok(b)
            } else {
                Err(join2("endpoint returned HTTP ", decimal_of(status).as_str()))
            }
        },
    }
}

/// A cell of a result is an object with a type and a value. `uri` makes an IRI of the
/// value, `bnode` a blank node, and any other type a literal, with the data type and
/// the language that the cell has. A cell without the one or the other is refused.
pub proof fn law_cells_are_terms(cell: JsonSpec, value: Seq<char>)
    requires
        json_field(cell, "value"@) == Some(JsonSpec::Str(value)),
    ensures
        json_field(cell, "type"@) == Some(JsonSpec::Str("uri"@)) ==> term_of(cell) == Ok::<TermSpec, Seq<char>>(TermSpec::Iri(value)),
        json_field(cell, "type"@) == Some(JsonSpec::Str("bnode"@)) ==> term_of(cell) == Ok::<TermSpec, Seq<char>>(TermSpec::Blank(value)),
        json_field(cell, "type"@) == Some(JsonSpec::Str("literal"@)) || json_field(cell, "type"@) == Some(JsonSpec::Str("typed-literal"@)) ==> {
            &&& term_of(cell) matches Ok(TermSpec::Literal { value: v, datatype, lang })
            &&& v == value
            &&& datatype == json_text(json_field(cell, "datatype"@))
            &&& lang == json_text(json_field(cell, "xml:lang"@))
        },
        !(json_field(cell, "type"@) matches Some(JsonSpec::Str(_))) ==> term_of(cell) is Err,
{
    reveal_strlit("uri");
    reveal_strlit("bnode");
    reveal_strlit("literal");
    reveal_strlit("typed-literal");
    assert("uri"@.len() == 3 && "bnode"@.len() == 5 && "literal"@.len() == 7 && "typed-literal"@.len() == 13);
}

/// A row is a solution: each of its fields binds the variable of its name to the term
/// of its cell, in the order of the fields. It is refused just if one of its cells is.
pub proof fn law_fields_are_bindings(fields: Seq<(Seq<char>, JsonSpec)>)
    ensures
        terms_of(fields) is Err <==> exists|i: int| 0 <= i < fields.len() && term_of((#[trigger] fields[i]).1) is Err,
        terms_of(fields) matches Ok(s) ==> {
            &&& s.len() == fields.len()
            &&& forall|i: int| 0 <= i < s.len() ==> (#[trigger] s[i]).0 == fields[i].0 && term_of(fields[i].1) == Ok::<TermSpec, Seq<char>>(s[i].1)
        },
    decreases fields.len(),
{
    if fields.len() > 0 {
        let front = fields.drop_last();
        law_fields_are_bindings(front);
        assert forall|i: int| 0 <= i < front.len() implies #[trigger] front[i] == fields[i] by {
        }
        assert(fields[fields.len() - 1] == fields.last());
        if exists|i: int| 0 <= i < fields.len() && term_of((#[trigger] fields[i]).1) is Err {
            let i = choose|i: int| 0 <= i < fields.len() && term_of((#[trigger] fields[i]).1) is Err;
            if i < front.len() {
                assert(term_of(front[i].1) is Err);
            }
        }
        if exists|i: int| 0 <= i < front.len() && term_of((#[trigger] front[i]).1) is Err {
            let i = choose|i: int| 0 <= i < front.len() && term_of((#[trigger] front[i]).1) is Err;
            assert(term_of(fields[i].1) is Err);
        }
        match terms_of(fields) {
            Ok(s) => {
                let s0 = terms_of(front)->Ok_0;
                assert forall|i: int| 0 <= i < s.len() implies (#[trigger] s[i]).0 == fields[i].0 && term_of(fields[i].1) == Ok::<TermSpec, Seq<char>>(s[i].1) by {
                    if i < s0.len() {
                        assert(s[i] == s0[i]);
                        assert(front[i] == fields[i]);
                    }
                }
            },
            Err(e) => {},
        }
    }
}

/// A row is an object whose fields make the solution.
pub open spec fn row_gives(row: JsonSpec, solution: Seq<(Seq<char>, TermSpec)>) -> bool {
    row matches JsonSpec::Obj(f) && terms_of(f) == Ok::<Seq<(Seq<char>, TermSpec)>, Seq<char>>(solution)
}

/// Every row of a result gives a solution, in the order of the rows.
pub proof fn law_rows_are_solutions(rows: Seq<JsonSpec>)
    ensures
        rows_of(rows) matches Ok(s) ==> {
            &&& s.len() == rows.len()
            &&& forall|i: int| 0 <= i < s.len() ==> #[trigger] row_gives(rows[i], s[i])
        },
        (forall|i: int| 0 <= i < rows.len() ==> (#[trigger] rows[i] matches JsonSpec::Obj(f) && terms_of(f) is Ok)) ==> rows_of(rows) is Ok,
    decreases rows.len(),
{
    if rows.len() > 0 {
        let front = rows.drop_last();
        law_rows_are_solutions(front);
        assert forall|i: int| 0 <= i < front.len() implies #[trigger] front[i] == rows[i] by {
        }
        assert(rows[rows.len() - 1] == rows.last());
        if forall|i: int| 0 <= i < rows.len() ==> (#[trigger] rows[i] matches JsonSpec::Obj(f) && terms_of(f) is Ok) {
            assert forall|i: int| 0 <= i < front.len() implies (#[trigger] front[i] matches JsonSpec::Obj(f) && terms_of(f) is Ok) by {
                assert(front[i] == rows[i]);
            }
        }
        match rows_of(rows) {
            Ok(s) => {
                let s0 = rows_of(front)->Ok_0;
                assert forall|i: int| 0 <= i < s.len() implies #[trigger] row_gives(rows[i], s[i]) by {
                    if i < s0.len() {
                        assert(s[i] == s0[i]);
                        assert(row_gives(front[i], s0[i]));
                    }
                }
            },
            Err(e) => {},
        }
    }
}

/// The rows are those under `results`, `bindings`; a text without them is refused.
pub proof fn law_bindings_are_read(body: Seq<char>, j: JsonSpec, results: JsonSpec, rows: Seq<JsonSpec>)
    requires
        json_read(body) == Ok::<JsonSpec, Seq<char>>(j),
    ensures
        json_field(j, "results"@) == Some(results) && json_field(results, "bindings"@) == Some(JsonSpec::Arr(rows)) ==> solutions_read(body) == rows_of(rows),
        json_field(j, "results"@) is None ==> solutions_read(body) is Err,
        json_field(j, "results"@) == Some(results) && !(json_field(results, "bindings"@) matches Some(JsonSpec::Arr(_))) ==> solutions_read(body) is Err,
{
}

proof fn lemma_next_is(s: Seq<char>, p: int, q: int, c: char)
    requires
        0 <= p <= q <= s.len(),
        q < s.len() ==> s[q] == c,
        forall|i: int| p <= i < q ==> #[trigger] s[i] != c,
    ensures
        next_at(s, p, c) == q,
    decreases q - p,
{
    if p < q {
        assert(s[p] != c);
        lemma_next_is(s, p + 1, q, c);
    }
}

proof fn lemma_last_is(s: Seq<char>, p: nat, q: int, c: char)
    requires
        0 <= q < p <= s.len(),
        s[q] == c,
        forall|i: int| q < i < p ==> #[trigger] s[i] != c,
    ensures
        last_before(s, p, c) == Some(q),
    decreases p,
{
    if q < p - 1 {
        assert(s[p - 1] != c);
        lemma_last_is(s, (p - 1) as nat, q, c);
    }
}

proof fn lemma_last_none(s: Seq<char>, p: nat, c: char)
    requires
        p <= s.len(),
        forall|i: int| 0 <= i < p ==> #[trigger] s[i] != c,
    ensures
        last_before(s, p, c) is None,
    decreases p,
{
    if p > 0 {
        assert(s[p - 1] != c);
        lemma_last_none(s, (p - 1) as nat, c);
    }
}

/// A URL is read as the host, the port and the path that it is made of. Without a
/// port it is port 80, and without a path the path is `/`.
pub proof fn law_url_is_its_parts(host: Seq<char>, port: u16, path: Seq<char>)
    requires
        host.len() > 0,
        !host.contains('/'),
        !host.contains(':'),
        path.len() == 0 || path[0] == '/',
    ensures
        url_read("http://"@ + host + seq![':'] + decimal(port as nat) + path) == Ok::<UrlSpec, Seq<char>>(UrlSpec { host, port, path: if path.len() == 0 { "/"@ } else { path } }),
        url_read("http://"@ + host + path) == Ok::<UrlSpec, Seq<char>>(UrlSpec { host, port: 80, path: if path.len() == 0 { "/"@ } else { path } }),
{
    reveal_strlit("http://");
    let start = "http://"@;
    assert(start.len() == 7);
    let d = decimal(port as nat);
    lemma_decimal_reads_back(port as nat);
    let long = start + host + seq![':'] + d + path;
    let e = 7 + host.len() + 1 + d.len();
    assert(long.take(7) =~= start);
    assert forall|i: int| 7 <= i < e implies #[trigger] long[i] != '/' by {
        if i < 7 + host.len() {
            assert(long[i] == host[i - 7]);
            assert(host.contains(host[i - 7]));
        } else if i > 7 + host.len() {
            assert(long[i] == d[i - 8 - host.len()]);
        }
    }
    if path.len() > 0 {
        assert(long[e as int] == path[0]);
    }
    lemma_next_is(long, 7, e as int, '/');
    let authority = long.subrange(7, e as int);
    assert(authority =~= host + seq![':'] + d);
    assert forall|i: int| host.len() < i < authority.len() implies #[trigger] authority[i] != ':' by {
        assert(authority[i] == d[i - 1 - host.len()]);
    }
    lemma_last_is(authority, authority.len(), host.len() as int, ':');
    assert(authority.skip(host.len() as int + 1) =~= d);
    assert(authority.take(host.len() as int) =~= host);
    assert(long.skip(e as int) =~= path);
    let short = start + host + path;
    let f = 7 + host.len();
    assert(short.take(7) =~= start);
    assert forall|i: int| 7 <= i < f implies #[trigger] short[i] != '/' by {
        assert(short[i] == host[i - 7]);
        assert(host.contains(host[i - 7]));
    }
    if path.len() > 0 {
        assert(short[f as int] == path[0]);
    }
    lemma_next_is(short, 7, f as int, '/');
    assert(short.subrange(7, f as int) =~= host);
    assert forall|i: int| 0 <= i < host.len() implies #[trigger] host[i] != ':' by {
        assert(host.contains(host[i]));
    }
    lemma_last_none(host, host.len(), ':');
    assert(short.skip(f as int) =~= path);
}

/// Anything but `http://` is refused.
pub proof fn law_only_http_is_read(url: Seq<char>)
    ensures
        !"http://"@.is_prefix_of(url) ==> url_read(url) is Err,
{
    reveal_strlit("http://");
    if url.len() >= 7 && url.take(7) == "http://"@ {
        assert("http://"@ =~= url.subrange(0, 7));
    }
}

/// A request begins with the path that is asked for and the host, and holds behind an
/// empty line exactly the query, whose length in bytes it tells before.
pub proof fn law_request_ends_with_the_query(host: Seq<char>, path: Seq<char>, query: Seq<char>)
    ensures
        ("POST "@ + path + " HTTP/1.1\r\nHost: "@ + host + "\r\n"@).is_prefix_of(request_text(host, path, query)),
        ("\r\nContent-Length: "@ + decimal(encode_utf8(query).len()) + "\r\nConnection: close\r\n\r\n"@ + query).is_suffix_of(request_text(host, path, query)),
{
    let t = request_text(host, path, query);
    let mid = "\r\nUser-Agent: gstore-rust/0.1\r\nAccept: application/sparql-results+json\r\nContent-Type: application/sparql-query\r\nContent-Length: "@;
    reveal_strlit("\r\nUser-Agent: gstore-rust/0.1\r\nAccept: application/sparql-results+json\r\nContent-Type: application/sparql-query\r\nContent-Length: ");
    reveal_strlit("\r\n");
    reveal_strlit("\r\nContent-Length: ");
    let front = "POST "@ + path + " HTTP/1.1\r\nHost: "@ + host;
    let n = decimal(encode_utf8(query).len());
    let back = "\r\nConnection: close\r\n\r\n"@;
    let a = front + "\r\n"@;
    assert(t =~= front + mid + n + back + query);
    assert(mid[0] == '\r' && mid[1] == '\n');
    assert("\r\n"@[0] == '\r' && "\r\n"@[1] == '\n' && "\r\n"@.len() == 2);
    assert(a =~= t.subrange(0, a.len() as int));
    let cl = "\r\nContent-Length: "@;
    assert(mid.len() == 128);
    assert(cl.len() == 18);
    assert(mid.subrange(110, 128) =~= cl);
    let b = cl + n + back + query;
    let k = t.len() - b.len();
    assert(k == front.len() + 110);
    assert forall|i: int| 0 <= i < b.len() implies b[i] == t.subrange(k, t.len() as int)[i] by {
        if i < 18 {
            assert(mid[110 + i] == mid.subrange(110, 128)[i]);
        }
    }
    assert(b =~= t.subrange(k, t.len() as int));
}

/// No empty line starts in the text.
pub open spec fn no_break(head: Seq<char>) -> bool {
    forall|i: int| 0 <= i < head.len() ==> !#[trigger] break_at(head + "\r\n\r\n"@, i)
}

/// What a response holds behind the first empty line is its body, which is given just
/// if the status in the first line, behind the protocol, is one of success.
pub proof fn law_success_gives_the_body(protocol: Seq<char>, status: u16, reason: Seq<char>, fields: Seq<char>, body: Seq<char>)
    requires
        protocol.len() > 0,
        forall|i: int| 0 <= i < protocol.len() ==> !is_white(#[trigger] protocol[i]),
        !reason.contains('\n'),
        no_break(protocol + seq![' '] + decimal(status as nat) + seq![' '] + reason + seq!['\n'] + fields),
    ensures
        ({
            let r = body_of(protocol + seq![' '] + decimal(status as nat) + seq![' '] + reason + seq!['\n'] + fields + "\r\n\r\n"@ + body);
            if 200 <= status < 300 {
                r == Ok::<Seq<char>, Seq<char>>(body)
            } else {
                r is Err
            }
        }),
{
    reveal_strlit("\r\n\r\n");
    let d = decimal(status as nat);
    lemma_decimal_reads_back(status as nat);
    let line = protocol + seq![' '] + d + seq![' '] + reason;
    let head = line + seq!['\n'] + fields;
    let text = head + "\r\n\r\n"@ + body;
    let ended = head + "\r\n\r\n"@;
    assert("\r\n\r\n"@.len() == 4);
    assert forall|i: int| 0 <= i < head.len() implies !#[trigger] break_at(text, i) by {
        assert(!break_at(ended, i));
        assert(text[i] == ended[i] && text[i + 1] == ended[i + 1] && text[i + 2] == ended[i + 2] && text[i + 3] == ended[i + 3]);
    }
    assert(text[head.len() as int] == '\r' && text[head.len() as int + 1] == '\n' && text[head.len() as int + 2] == '\r' && text[head.len() as int + 3] == '\n');
    assert(break_at(text, head.len() as int));
    lemma_head_is(text, 0, head.len() as int);
    assert(text.take(head.len() as int) =~= head);
    assert(text.skip(head.len() as int + 4) =~= body);
    assert forall|i: int| 0 <= i < line.len() implies #[trigger] line[i] != '\n' by {
        if i < protocol.len() {
            assert(line[i] == protocol[i]);
            assert(!is_white(protocol[i]));
        } else if protocol.len() < i < protocol.len() + 1 + d.len() {
            assert(line[i] == d[i - 1 - protocol.len()]);
        } else if i > protocol.len() + 1 + d.len() {
            assert(line[i] == reason[i - 2 - protocol.len() - d.len()]);
            assert(reason.contains(reason[i - 2 - protocol.len() - d.len()]));
        }
    }
    assert(head[line.len() as int] == '\n');
    assert forall|i: int| 0 <= i < line.len() implies #[trigger] head[i] != '\n' by {
        assert(head[i] == line[i]);
    }
    lemma_next_is(head, 0, line.len() as int, '\n');
    assert(head.take(line.len() as int) =~= line);
    let tail = d.push(' ') + reason;
    assert(line =~= protocol.push(' ') + tail);
    law_white_space_parts_words(protocol, ' ', tail);
    law_white_space_parts_words(d, ' ', reason);
    assert forall|i: int| 0 <= i < d.len() implies !is_white(#[trigger] d[i]) by {
    }
    assert(words(line)[1] == d);
}

proof fn lemma_head_is(s: Seq<char>, p: int, q: int)
    requires
        0 <= p <= q,
        break_at(s, q),
        forall|i: int| p <= i < q ==> !#[trigger] break_at(s, i),
    ensures
        head_end(s, p) == Some(q),
    decreases q - p,
{
    if p < q {
        assert(!break_at(s, p));
        lemma_head_is(s, p + 1, q);
    }
}

} // verus!
