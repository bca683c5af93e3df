//! Query results and update requests, as the engine hands them around.

use crate::error::{join3, GStoreError};
use crate::model::term::{opt_text, TermSpec};
use crate::model::{Term, Triple};
use crate::text::{debug_of, decimal, decimal_of, str_debug};
use vstd::prelude::*;
use vstd::string::*;

verus! {

/// The rows of a SELECT query: one cell per variable, empty where unbound.
#[derive(Debug, PartialEq, Eq)]
pub struct ResultSet {
    pub vars: Vec<String>,
    pub rows: Vec<Vec<Option<String>>>,
}

impl ResultSet {
    /// Number of rows.
    pub fn row_count(&self) -> (n: usize)
        ensures
            n == self.rows@.len(),
    {
        self.rows.len()
    }
}

/// What a query gives.
#[derive(Debug, PartialEq, Eq)]
pub enum QueryResult {
    Select(ResultSet),
    Ask(bool),
    Construct(Vec<Triple>),
    Update { changed: usize },
}

/// A triple of an INSERT DATA or DELETE DATA request, with the graph it is for.
#[derive(Debug, PartialEq, Eq)]
pub struct GroundTriple {
    pub subject: Term,
    pub predicate: Term,
    pub object: Term,
    pub graph: Option<String>,
}

/// The graphs that a CLEAR or DROP request is for. A named target without a
/// name stands for all named graphs.
#[derive(Debug, PartialEq, Eq)]
pub enum GraphTarget {
    Default,
    All,
    Named(String),
}

/// One operation of an update request that is ready to execute. A pattern update holds
/// the triples that its pattern matched, and a LOAD what its source held.
#[derive(Debug)]
pub enum UpdateOp {
    InsertData(Vec<GroundTriple>),
    DeleteData(Vec<GroundTriple>),
    Modify { delete: Vec<Triple>, insert: Vec<Triple> },
    Load { source: String, silent: bool, parsed: Result<Vec<Triple>, GStoreError> },
    Clear { target: GraphTarget },
    Drop { target: GraphTarget },
    Create,
}

/// One operation of an update request as it was parsed: ready to execute, or a pattern
/// update, whose triples are matched when its turn comes.
#[derive(Debug)]
pub enum RequestOp {
    Ready(UpdateOp),
    Pattern,
}

/// A copy of a list of strings.
pub fn copy_strings(v: &Vec<String>) -> (r: Vec<String>)
    ensures
        r@ == v@,
{
    let mut r: Vec<String> = Vec::new();
    let mut i: usize = 0;
    while i < v.len()
        invariant
            i <= v@.len(),
            r@ == v@.subrange(0, i as int),
        decreases v.len() - i,
    {
        r.push(v[i].clone());
        i = i + 1;
        assert(r@ =~= v@.subrange(0, i as int));
    }
    assert(r@ =~= v@);
    r
}

/// The debug form of an optional text.
pub open spec fn opt_debug(o: Option<Seq<char>>) -> Seq<char> {
    match o {
        Some(s) => "Some("@ + str_debug(s) + ")"@,
        None => "None"@,
    }
}

/// The debug form of a term.
pub open spec fn term_debug(t: TermSpec) -> Seq<char> {
    match t {
        TermSpec::Iri(s) => "Iri("@ + str_debug(s) + ")"@,
        TermSpec::Blank(s) => "Blank("@ + str_debug(s) + ")"@,
        TermSpec::Literal { value, datatype, lang } => "Literal { value: "@ + str_debug(value) + ", datatype: "@ + opt_debug(datatype) + ", lang: "@ + opt_debug(lang) + " }"@,
    }
}

/// The debug form of a triple.
pub open spec fn triple_debug(t: Triple) -> Seq<char> {
    "Triple { subject: "@ + term_debug(t.subject@) + ", predicate: "@ + term_debug(t.predicate@) + ", object: "@ + term_debug(t.object@) + " }"@
}

/// The debug forms of some triples, with commas between them.
pub open spec fn triples_debug(ts: Seq<Triple>) -> Seq<char>
    decreases ts.len(),
{
    if ts.len() == 0 {
        Seq::empty()
    } else if ts.len() == 1 {
        triple_debug(ts[0])
    } else {
        triples_debug(ts.drop_last()) + ", "@ + triple_debug(ts.last())
    }
}

/// The debug form of a result that is no table.
pub open spec fn result_debug(q: QueryResult) -> Seq<char> {
    match q {
        QueryResult::Select(rs) => "Select"@,
        QueryResult::Ask(b) => if b {
            "Ask(true)"@
        } else {
            "Ask(false)"@
        },
        QueryResult::Construct(ts) => "Construct(["@ + triples_debug(ts@) + "])"@,
        QueryResult::Update { changed } => "Update { changed: "@ + decimal(changed as nat) + " }"@,
    }
}

fn debug_opt(o: &Option<String>) -> (r: String)
    ensures
        r@ == opt_debug(opt_text(*o)),
{
    match o {
        Some(s) => join3("Some(", debug_of(s.as_str()).as_str(), ")"),
        None => "None".to_owned(),
    }
}

fn debug_term(t: &Term) -> (r: String)
    ensures
        r@ == term_debug(t@),
{
    match t {
        Term::Iri(s) => join3("Iri(", debug_of(s.as_str()).as_str(), ")"),
        Term::Blank(s) => join3("Blank(", debug_of(s.as_str()).as_str(), ")"),
        Term::Literal { value, datatype, lang } => {
            let mut r: String = join3("Literal { value: ", debug_of(value.as_str()).as_str(), ", datatype: ");
            r.append(debug_opt(datatype).as_str());
            r.append(", lang: ");
            r.append(debug_opt(lang).as_str());
            r.append(" }");
            r
        },
    }
}

fn debug_triple(t: &Triple) -> (r: String)
    ensures
        r@ == triple_debug(*t),
{
    let mut r: String = join3("Triple { subject: ", debug_term(&t.subject).as_str(), ", predicate: ");
    r.append(debug_term(&t.predicate).as_str());
    r.append(", object: ");
    r.append(debug_term(&t.object).as_str());
    r.append(" }");
    r
}

fn debug_triples(ts: &Vec<Triple>) -> (r: String)
    ensures
        r@ == triples_debug(ts@),
{
    let mut r: String = "".to_owned();
    let mut i: usize = 0;
    proof {
        reveal_strlit("");
        assert(r@ =~= triples_debug(ts@.take(0)));
    }
    while i < ts.len()
        invariant
            i <= ts@.len(),
            r@ == triples_debug(ts@.take(i as int)),
        decreases ts.len() - i,
    {
        let d: String = debug_triple(&ts[i]);
        proof {
            assert(ts@.take(i + 1).drop_last() =~= ts@.take(i as int));
        }
        if i == 0 {
            r = d;
        } else {
            r.append(", ");
            r.append(d.as_str());
        }
        i = i + 1;
    }
    assert(ts@.take(ts@.len() as int) =~= ts@);
    r
}

/// The debug form of a result that is no table.
pub fn debug_result(q: &QueryResult) -> (r: String)
    ensures
        r@ == result_debug(*q),
{
    match q {
        QueryResult::Select(rs) => "Select".to_owned(),
        QueryResult::Ask(b) => if *b {
            "Ask(true)".to_owned()
        } else {
            "Ask(false)".to_owned()
        },
        QueryResult::Construct(ts) => join3("Construct([", debug_triples(ts).as_str(), "])"),
        QueryResult::Update { changed } => join3("Update { changed: ", decimal_of(*changed as u64).as_str(), " }"),
    }
}

fn copy_row(v: &Vec<Option<String>>) -> (r: Vec<Option<String>>)
    ensures
        r@ == v@,
{
    let mut r: Vec<Option<String>> = Vec::new();
    let mut i: usize = 0;
    while i < v.len()
        invariant
            i <= v@.len(),
            r@ == v@.subrange(0, i as int),
        decreases v.len() - i,
    {
        let cell: Option<String> = match &v[i] {
            Some(s) => Some(s.clone()),
            None => None,
        };
        r.push(cell);
        i = i + 1;
        assert(r@ =~= v@.subrange(0, i as int));
    }
    assert(r@ =~= v@);
    r
}

/// The cells of some rows.
pub open spec fn cells(rows: Seq<Vec<Option<String>>>) -> Seq<Seq<Option<String>>> {
    rows.map_values(|r: Vec<Option<String>>| r@)
}

impl ResultSet {
    /// A second table with the same variables and rows.
    pub fn duplicate(&self) -> (r: ResultSet)
        ensures
            r.vars@ == self.vars@,
            cells(r.rows@) == cells(self.rows@),
    {
        let mut rows: Vec<Vec<Option<String>>> = Vec::new();
        let mut i: usize = 0;
        while i < self.rows.len()
            invariant
                i <= self.rows@.len(),
                rows@.len() == i,
                forall|k: int| 0 <= k < i ==> (#[trigger] rows@[k])@ == self.rows@[k]@,
            decreases self.rows.len() - i,
        {
            rows.push(copy_row(&self.rows[i]));
            i = i + 1;
        }
        assert(cells(rows@) =~= cells(self.rows@));
        ResultSet { vars: copy_strings(&self.vars), rows }
    }
}

} // verus!
