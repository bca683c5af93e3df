//! # gstore: a verified RDF triple store
//!
//! The library holds the logic of an RDF graph database: the data model, the
//! string dictionary, the triple index, graph analytics, the paged key-value
//! layer, sharding, transactions and the decisions of the HTTP service. File
//! and network access lives outside, in the program that uses the library.

pub mod analytics;
pub mod backend;
pub mod cli;
pub mod cluster;
pub mod codec;
pub mod concurrent;
pub mod db;
pub mod dict;
pub mod error;
pub mod fields;
pub mod http_api;
pub mod http_client;
pub mod http_laws;
pub mod http_replies;
pub mod http_users;
pub mod json;
pub mod json_text;
pub mod kvstore;
pub mod model;
pub mod order;
pub mod query;
pub mod reply_laws;
pub mod scatter;
pub mod store;
pub mod text;
pub mod update_words;

use vstd::prelude::*;
use vstd::string::*;

pub use error::{GStoreError, Result};
pub use model::{IdTriple, ObjectType, Term, Triple};

verus! {

/// The suffix of database directories.
pub const DB_SUFFIX: &'static str = ".db";

/// Whether `s` ends with `end`.
pub open spec fn ends_with(s: Seq<char>, end: Seq<char>) -> bool {
    s.len() >= end.len() && s.subrange(s.len() - end.len(), s.len() as int) == end
}

/// Map a database name to its directory: `name` to `name.db`, unless the name
/// carries the suffix already.
pub fn db_dir_for(name: &str) -> (r: String)
    ensures
        r@ == (if ends_with(name@, ".db"@) { name@ } else { name@ + ".db"@ }),
{
    let chars: Vec<char> = text::chars_of(name);
    let n: usize = chars.len();
    proof {
        reveal_strlit(".db");
    }
    let has: bool = n >= 3 && chars[n - 3] == '.' && chars[n - 2] == 'd' && chars[n - 1] == 'b';
    proof {
        if n >= 3 {
            let t = name@.subrange(n - 3, n as int);
            assert(".db"@[0] == '.' && ".db"@[1] == 'd' && ".db"@[2] == 'b');
            assert(t[0] == chars@[n - 3] && t[1] == chars@[n - 2] && t[2] == chars@[n - 1]);
            if has {
                assert(t =~= ".db"@);
            }
        }
    }
    if has {
        name.to_owned()
    } else {
        error::join2(name, ".db")
    }
}

/// A name without any `.db` suffix, however often it is repeated.
pub open spec fn without_suffixes(s: Seq<char>) -> Seq<char>
    decreases s.len(),
{
    if s.len() >= 3 && s[s.len() - 3] == '.' && s[s.len() - 2] == 'd' && s[s.len() - 1] == 'b' {
        without_suffixes(s.take(s.len() - 3))
    } else {
        s
    }
}

/// Take every `.db` suffix off a directory name.
pub fn trim_db_suffix(name: &str) -> (r: String)
    ensures
        r@ == without_suffixes(name@),
{
    let chars: Vec<char> = text::chars_of(name);
    let mut n: usize = chars.len();
    assert(chars@.take(n as int) =~= chars@);
    while n >= 3 && chars[n - 3] == '.' && chars[n - 2] == 'd' && chars[n - 1] == 'b'
        invariant
            n <= chars.len(),
            without_suffixes(chars@.take(n as int)) == without_suffixes(chars@),
        decreases n,
    {
        assert(chars@.take(n as int).take(n - 3) =~= chars@.take(n - 3));
        n = n - 3;
    }
    assert(chars@.subrange(0, n as int) =~= chars@.take(n as int));
    text::string_of(&chars, 0, n)
}

/// Naming the directory of a directory name changes nothing.
pub proof fn law_db_dir_idempotent(name: Seq<char>)
    ensures
        ends_with(name + ".db"@, ".db"@),
{
    let s = name + ".db"@;
    assert(s.subrange(s.len() - ".db"@.len(), s.len() as int) =~= ".db"@);
}

/// A `.db` at the end of a name does not matter, however often it stands there; a name
/// without one stays as it is, and none is left.
pub proof fn law_suffix_does_not_matter(s: Seq<char>)
    ensures
        without_suffixes(s + ".db"@) == without_suffixes(s),
        !".db"@.is_suffix_of(s) ==> without_suffixes(s) == s,
        !".db"@.is_suffix_of(without_suffixes(s)),
        without_suffixes(s).is_prefix_of(s),
    decreases s.len(),
{
    reveal_strlit(".db");
    let t = s + ".db"@;
    assert(".db"@.len() == 3 && ".db"@[0] == '.' && ".db"@[1] == 'd' && ".db"@[2] == 'b');
    assert(t[t.len() - 3] == '.' && t[t.len() - 2] == 'd' && t[t.len() - 1] == 'b');
    assert(t.take(t.len() - 3) =~= s);
    if s.len() >= 3 && s[s.len() - 3] == '.' && s[s.len() - 2] == 'd' && s[s.len() - 1] == 'b' {
        assert(".db"@ =~= s.subrange(s.len() - 3, s.len() as int));
        law_suffix_does_not_matter(s.take(s.len() - 3));
        let r = without_suffixes(s);
        assert(r =~= s.subrange(0, r.len() as int));
    } else {
        if ".db"@.is_suffix_of(s) {
            let tail = s.subrange(s.len() - 3, s.len() as int);
            assert(tail[0] == '.' && tail[1] == 'd' && tail[2] == 'b');
        }
        assert(s =~= s.subrange(0, s.len() as int));
    }
}

} // verus!
