//! Error types of the engine.

use crate::text::{decimal, decimal_of};
use vstd::prelude::*;
use vstd::string::*;

verus! {

/// The crate-wide result alias.
pub type Result<T> = std::result::Result<T, GStoreError>;

/// All error conditions that the engine can surface.
#[derive(Debug)]
pub enum GStoreError {
    /// An I/O failure while reading RDF, or loading or saving a database; holds
    /// the system's message.
    Io(String),
    /// An RDF parse failure: line number and reason.
    RdfParse { line: usize, msg: String },
    /// A SPARQL parse failure with a human-readable reason.
    SparqlParse(String),
    /// A query could not be evaluated.
    Query(String),
    /// Persistence (de)serialization failure.
    Serialize(String),
    /// A database directory was malformed or missing required files.
    Database(String),
    /// An optimistic transaction aborted on a write-write conflict.
    Conflict(String),
}

/// The text of an error.
pub open spec fn error_text(e: GStoreError) -> Seq<char> {
    match e {
        GStoreError::Io(m) => "I/O error: "@ + m@,
        GStoreError::RdfParse { line, msg } => "RDF parse error at line "@ + decimal(line as nat) + ": "@ + msg@,
        GStoreError::SparqlParse(m) => "SPARQL parse error: "@ + m@,
        GStoreError::Query(m) => "query error: "@ + m@,
        GStoreError::Serialize(m) => "serialization error: "@ + m@,
        GStoreError::Database(m) => "database error: "@ + m@,
        GStoreError::Conflict(m) => "transaction conflict: "@ + m@,
    }
}

/// `a` followed by `b`.
pub fn join2(a: &str, b: &str) -> (r: String)
    ensures
        r@ == a@ + b@,
{
    let mut r: String = a.to_owned();
    r.append(b);
    r
}

/// `a`, then `b`, then `c`.
pub fn join3(a: &str, b: &str, c: &str) -> (r: String)
    ensures
        r@ == a@ + b@ + c@,
{
    let mut r: String = a.to_owned();
    r.append(b);
    r.append(c);
    r
}

impl GStoreError {
    /// The error as one line of text: its kind, then the reason.
    pub fn message(&self) -> (r: String)
        ensures
            r@ == error_text(*self),
    {
        match self {
            GStoreError::Io(m) => join2("I/O error: ", m.as_str()),
            GStoreError::RdfParse { line, msg } => {
                let mut r: String = join2("RDF parse error at line ", decimal_of(*line as u64).as_str());
                r.append(": ");
                r.append(msg.as_str());
                r
            },
            GStoreError::SparqlParse(m) => join2("SPARQL parse error: ", m.as_str()),
            GStoreError::Query(m) => join2("query error: ", m.as_str()),
            GStoreError::Serialize(m) => join2("serialization error: ", m.as_str()),
            GStoreError::Database(m) => join2("database error: ", m.as_str()),
            GStoreError::Conflict(m) => join2("transaction conflict: ", m.as_str()),
        }
    }
}

/// The text of an error tells its kind: errors of two kinds never have the same text.
/// It ends with the message of the error.
pub proof fn law_error_text_tells_the_kind(e: GStoreError, msg: String)
    ensures
        error_text(GStoreError::Io(msg)) == "I/O error: "@ + msg@,
        msg@.is_suffix_of(error_text(GStoreError::SparqlParse(msg))),
        msg@.is_suffix_of(error_text(GStoreError::Query(msg))),
        msg@.is_suffix_of(error_text(GStoreError::Serialize(msg))),
        msg@.is_suffix_of(error_text(GStoreError::Database(msg))),
        msg@.is_suffix_of(error_text(GStoreError::Conflict(msg))),
        forall|line: usize| msg@.is_suffix_of(#[trigger] error_text(GStoreError::RdfParse { line, msg })),
        error_text(e).len() > 0,
        e is Io <==> error_text(e)[0] == 'I',
        e is RdfParse <==> error_text(e)[0] == 'R',
        e is SparqlParse <==> error_text(e)[0] == 'S',
        e is Query <==> error_text(e)[0] == 'q',
        e is Serialize <==> error_text(e)[0] == 's',
        e is Database <==> error_text(e)[0] == 'd',
        e is Conflict <==> error_text(e)[0] == 't',
{
    reveal_strlit("I/O error: ");
    reveal_strlit("RDF parse error at line ");
    reveal_strlit("SPARQL parse error: ");
    reveal_strlit("query error: ");
    reveal_strlit("serialization error: ");
    reveal_strlit("database error: ");
    reveal_strlit("transaction conflict: ");
    lemma_ends_with("SPARQL parse error: "@, msg@);
    lemma_ends_with("query error: "@, msg@);
    lemma_ends_with("serialization error: "@, msg@);
    lemma_ends_with("database error: "@, msg@);
    lemma_ends_with("transaction conflict: "@, msg@);
    assert forall|line: usize| msg@.is_suffix_of(#[trigger] error_text(GStoreError::RdfParse { line, msg })) by {
        lemma_ends_with("RDF parse error at line "@ + decimal(line as nat) + ": "@, msg@);
    }
    assert(error_text(e)[0] == error_text(e)[0]);
}

proof fn lemma_ends_with(front: Seq<char>, back: Seq<char>)
    ensures
        back.is_suffix_of(front + back),
{
    assert(back =~= (front + back).subrange(front.len() as int, (front + back).len() as int));
}

} // verus!
