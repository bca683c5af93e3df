//! Update requests: inserting and deleting triples in bulk, clearing graphs,
//! loading documents and adding what a reasoner derived.

use super::clear::{cleared, quads_in, target_selects};
use super::state::{changed_by, changed_by_all, dict_extends, dict_fits, effects, inserts, lemma_encoded_in, lemma_sizes_grow, takes_effect, Change, DbSpec};
use super::{opt_view, str_view, Database};
use crate::dict::dict_ok;
use crate::error::{join3, GStoreError, Result};
use crate::model::Triple;
use crate::query::{GroundTriple, UpdateOp};
use crate::text::{chars_of, string_of};
use vstd::prelude::*;
use vstd::string::*;

verus! {

/// The triple of a request, without its graph.
pub open spec fn triple_of(g: GroundTriple) -> Triple {
    Triple { subject: g.subject, predicate: g.predicate, object: g.object }
}

/// The changes of INSERT DATA.
pub open spec fn as_inserts(ts: Seq<GroundTriple>) -> Seq<Change> {
    ts.map_values(|g: GroundTriple| Change::Insert(triple_of(g), opt_view(g.graph)))
}

/// The changes of DELETE DATA.
pub open spec fn as_deletes(ts: Seq<GroundTriple>) -> Seq<Change> {
    ts.map_values(|g: GroundTriple| Change::Delete(triple_of(g), opt_view(g.graph)))
}

/// Insertions into the default graph.
pub open spec fn default_inserts(ts: Seq<Triple>) -> Seq<Change> {
    ts.map_values(|t: Triple| Change::Insert(t, None))
}

/// Deletions from the default graph.
pub open spec fn default_deletes(ts: Seq<Triple>) -> Seq<Change> {
    ts.map_values(|t: Triple| Change::Delete(t, None))
}

/// Some changes leave a dictionary in order.
pub proof fn lemma_changes_grow(db: DbSpec, cs: Seq<Change>)
    requires
        dict_ok(db.dict),
        dict_fits(changed_by_all(db, cs).dict),
    ensures
        dict_ok(changed_by_all(db, cs).dict),
        dict_extends(db.dict, changed_by_all(db, cs).dict),
    decreases cs.len(),
{
    if cs.len() > 0 {
        lemma_sizes_grow(db, cs, cs.len() - 1);
        assert(cs.take(cs.len() - 1) =~= cs.drop_last());
        lemma_changes_grow(db, cs.drop_last());
        let mid = changed_by_all(db, cs.drop_last());
        match cs.last() {
            Change::Insert(t, g) => {
                lemma_encoded_in(mid.dict, t, g);
            },
            Change::Delete(t, g) => {
            },
        }
    }
}

/// Each of some changes finds a dictionary in order, and room for its terms.
pub proof fn lemma_change_fits(db: DbSpec, cs: Seq<Change>, n: int)
    requires
        dict_ok(db.dict),
        dict_fits(changed_by_all(db, cs).dict),
        0 <= n < cs.len(),
    ensures
        dict_fits(changed_by(changed_by_all(db, cs.take(n)), cs[n]).dict),
{
    lemma_sizes_grow(db, cs, n + 1);
    lemma_one_more(db, cs, n);
}

/// No more insertions than changes.
pub proof fn lemma_inserts_bound(cs: Seq<Change>)
    ensures
        inserts(cs) <= cs.len(),
    decreases cs.len(),
{
    if cs.len() > 0 {
        lemma_inserts_bound(cs.drop_last());
    }
}

/// More changes add more terms.
pub proof fn lemma_inserts_prefix(cs: Seq<Change>, n: int)
    requires
        0 <= n <= cs.len(),
    ensures
        inserts(cs.take(n)) <= inserts(cs),
    decreases cs.len(),
{
    if n < cs.len() {
        assert(cs.drop_last().take(n) =~= cs.take(n));
        lemma_inserts_prefix(cs.drop_last(), n);
    } else {
        assert(cs.take(n) =~= cs);
    }
}

/// One change after some others.
pub proof fn lemma_one_more(db: DbSpec, cs: Seq<Change>, n: int)
    requires
        0 <= n < cs.len(),
    ensures
        changed_by_all(db, cs.take(n + 1)) == changed_by(changed_by_all(db, cs.take(n)), cs[n]),
        effects(db, cs.take(n + 1)) == effects(db, cs.take(n)) + if takes_effect(changed_by_all(db, cs.take(n)), cs[n]) { 1nat } else { 0nat },
        effects(db, cs.take(n)) <= n,
    decreases n,
{
    assert(cs.take(n + 1).drop_last() =~= cs.take(n));
    if n > 0 {
        lemma_one_more(db, cs, n - 1);
    }
}

/// Changes in two parts.
pub proof fn lemma_two_parts(db: DbSpec, a: Seq<Change>, b: Seq<Change>)
    ensures
        changed_by_all(db, a + b) == changed_by_all(changed_by_all(db, a), b),
        effects(db, a + b) == effects(db, a) + effects(changed_by_all(db, a), b),
        inserts(a + b) == inserts(a) + inserts(b),
    decreases b.len(),
{
    if b.len() == 0 {
        assert(a + b =~= a);
    } else {
        assert((a + b).drop_last() =~= a + b.drop_last());
        lemma_two_parts(db, a, b.drop_last());
    }
}

/// The number of effects is bounded: with `n` quads before, the quads after and
/// the effects add up to at most `n` and twice the changes.
pub proof fn lemma_effects_bound(db: DbSpec, cs: Seq<Change>)
    requires
        db.quads.finite(),
    ensures
        changed_by_all(db, cs).quads.finite(),
        changed_by_all(db, cs).quads.len() + effects(db, cs) <= db.quads.len() + 2 * cs.len(),
        effects(db, cs) <= cs.len(),
    decreases cs.len(),
{
    if cs.len() > 0 {
        lemma_effects_bound(db, cs.drop_last());
    }
}

/// Inserting triples adds as many quads as take effect.
pub proof fn law_insert_counts_growth(db: DbSpec, ts: Seq<GroundTriple>)
    requires
        db.quads.finite(),
    ensures
        changed_by_all(db, as_inserts(ts)).quads.len() == db.quads.len() + effects(db, as_inserts(ts)),
    decreases ts.len(),
{
    if ts.len() > 0 {
        assert(as_inserts(ts).drop_last() =~= as_inserts(ts.drop_last()));
        lemma_effects_bound(db, as_inserts(ts.drop_last()));
        law_insert_counts_growth(db, ts.drop_last());
    }
}

/// Deleting triples removes as many quads as take effect.
pub proof fn law_delete_counts_shrinkage(db: DbSpec, ts: Seq<GroundTriple>)
    requires
        db.quads.finite(),
    ensures
        changed_by_all(db, as_deletes(ts)).quads.len() + effects(db, as_deletes(ts)) == db.quads.len(),
    decreases ts.len(),
{
    if ts.len() > 0 {
        assert(as_deletes(ts).drop_last() =~= as_deletes(ts.drop_last()));
        lemma_effects_bound(db, as_deletes(ts.drop_last()));
        law_delete_counts_shrinkage(db, ts.drop_last());
    }
}

impl Database {
    /// Apply INSERT DATA. Gives the number of triples that were new.
    pub fn insert_data(&mut self, triples: &Vec<GroundTriple>) -> (n: usize)
        requires
            old(self).wf(),
            dict_fits(changed_by_all(old(self)@, as_inserts(triples@)).dict),
        ensures
            final(self).wf(),
            final(self)@ == changed_by_all(old(self)@, as_inserts(triples@)),
            n == effects(old(self)@, as_inserts(triples@)),
    {
        let ghost before = self@;
        let ghost cs = as_inserts(triples@);
        let mut n: usize = 0;
        let mut i: usize = 0;
        proof {
            self.lemma_finite();
        }
        assert(cs.take(0) =~= Seq::<Change>::empty());
        while i < triples.len()
            invariant
                i <= triples.len(),
                n <= i,
                cs == as_inserts(triples@),
                self.wf(),
                self@ == changed_by_all(before, cs.take(i as int)),
                n == effects(before, cs.take(i as int)),
                dict_ok(before.dict),
                dict_fits(changed_by_all(before, cs).dict),
            decreases triples.len() - i,
        {
            proof {
                lemma_one_more(before, cs, i as int);
                lemma_change_fits(before, cs, i as int);
            }
            let g: &GroundTriple = &triples[i];
            let t: Triple = ground_to_triple(g);
            if self.insert_quad(&t, graph_of(g)) {
                n = n + 1;
            }
            i = i + 1;
        }
        assert(cs.take(cs.len() as int) =~= cs);
        n
    }

    /// Apply DELETE DATA. Gives the number of triples that were there.
    pub fn delete_data(&mut self, triples: &Vec<GroundTriple>) -> (n: usize)
        requires
            old(self).wf(),
        ensures
            final(self).wf(),
            final(self)@ == changed_by_all(old(self)@, as_deletes(triples@)),
            n == effects(old(self)@, as_deletes(triples@)),
    {
        let ghost before = self@;
        let ghost cs = as_deletes(triples@);
        let mut n: usize = 0;
        let mut i: usize = 0;
        assert(cs.take(0) =~= Seq::<Change>::empty());
        while i < triples.len()
            invariant
                i <= triples.len(),
                n <= i,
                cs == as_deletes(triples@),
                self.wf(),
                self@ == changed_by_all(before, cs.take(i as int)),
                n == effects(before, cs.take(i as int)),
            decreases triples.len() - i,
        {
            proof {
                lemma_one_more(before, cs, i as int);
            }
            let g: &GroundTriple = &triples[i];
            let t: Triple = ground_to_triple(g);
            if self.delete_quad(&t, graph_of(g)) {
                n = n + 1;
            }
            i = i + 1;
        }
        assert(cs.take(cs.len() as int) =~= cs);
        n
    }

    /// Insert triples into the default graph. Gives the number that were new.
    pub(super) fn insert_all(&mut self, triples: &Vec<Triple>) -> (n: usize)
        requires
            old(self).wf(),
            dict_fits(changed_by_all(old(self)@, default_inserts(triples@)).dict),
        ensures
            final(self).wf(),
            final(self)@ == changed_by_all(old(self)@, default_inserts(triples@)),
            n == effects(old(self)@, default_inserts(triples@)),
    {
        let ghost before = self@;
        let ghost cs = default_inserts(triples@);
        let mut n: usize = 0;
        let mut i: usize = 0;
        proof {
            self.lemma_finite();
        }
        assert(cs.take(0) =~= Seq::<Change>::empty());
        while i < triples.len()
            invariant
                i <= triples.len(),
                n <= i,
                cs == default_inserts(triples@),
                self.wf(),
                self@ == changed_by_all(before, cs.take(i as int)),
                n == effects(before, cs.take(i as int)),
                dict_ok(before.dict),
                dict_fits(changed_by_all(before, cs).dict),
            decreases triples.len() - i,
        {
            proof {
                lemma_one_more(before, cs, i as int);
                lemma_change_fits(before, cs, i as int);
            }
            if self.insert_triple(&triples[i]) {
                n = n + 1;
            }
            i = i + 1;
        }
        assert(cs.take(cs.len() as int) =~= cs);
        n
    }

    /// Delete triples from the default graph. Gives the number that were there.
    fn remove_all(&mut self, triples: &Vec<Triple>) -> (n: usize)
        requires
            old(self).wf(),
        ensures
            final(self).wf(),
            final(self)@ == changed_by_all(old(self)@, default_deletes(triples@)),
            final(self)@.dict == old(self)@.dict,
            n == effects(old(self)@, default_deletes(triples@)),
            n <= triples.len(),
    {
        let ghost before = self@;
        let ghost cs = default_deletes(triples@);
        let mut n: usize = 0;
        let mut i: usize = 0;
        assert(cs.take(0) =~= Seq::<Change>::empty());
        while i < triples.len()
            invariant
                i <= triples.len(),
                n <= i,
                cs == default_deletes(triples@),
                self.wf(),
                self@ == changed_by_all(before, cs.take(i as int)),
                self@.dict == before.dict,
                n == effects(before, cs.take(i as int)),
            decreases triples.len() - i,
        {
            proof {
                lemma_one_more(before, cs, i as int);
            }
            if self.remove_triple(&triples[i]) {
                n = n + 1;
            }
            i = i + 1;
        }
        assert(cs.take(cs.len() as int) =~= cs);
        n
    }

    /// Apply a pattern update: the deletions before the insertions.
    fn apply_modify(&mut self, delete: &Vec<Triple>, insert: &Vec<Triple>) -> (n: usize)
        requires
            old(self).wf(),
            dict_fits(changed_by_all(old(self)@, default_deletes(delete@) + default_inserts(insert@)).dict),
            old(self)@.quads.len() + 2 * (delete@.len() + insert@.len()) <= usize::MAX,
        ensures
            final(self).wf(),
            final(self)@ == changed_by_all(old(self)@, default_deletes(delete@) + default_inserts(insert@)),
            n == effects(old(self)@, default_deletes(delete@) + default_inserts(insert@)),
    {
        proof {
            self.lemma_finite();
            lemma_two_parts(self@, default_deletes(delete@), default_inserts(insert@));
            lemma_effects_bound(self@, default_deletes(delete@) + default_inserts(insert@));
        }
        let gone: usize = self.remove_all(delete);
        let new: usize = self.insert_all(insert);
        gone + new
    }

    /// Apply one operation of an update request. Gives the number of triples it
    /// changed.
    #[verifier::spinoff_prover]
    #[verifier::rlimit(30)]
    pub fn exec_update_op(&mut self, op: UpdateOp) -> (r: Result<usize>)
        requires
            old(self).wf(),
            dict_fits(op_after(old(self)@, op).dict),
            old(self)@.quads.len() + 2 * op_listed(op) <= usize::MAX,
        ensures
            final(self).wf(),
            final(self)@ == op_after(old(self)@, op),
            r is Err <==> op_fails(op),
            r matches Err(e) ==> is_op_error(op, e),
            r matches Ok(n) ==> n == op_count(old(self)@, op),
    {
        match op {
            UpdateOp::InsertData(triples) => Ok(self.insert_data(&triples)),
            UpdateOp::DeleteData(triples) => Ok(self.delete_data(&triples)),
            UpdateOp::Modify { delete, insert } => Ok(self.apply_modify(&delete, &insert)),
            UpdateOp::Load { source, silent, parsed } => {
                match self.load_rdf_source(source.as_str(), parsed) {
                    Ok(n) => Ok(n),
                    Err(e) => if silent {
                        Ok(0)
                    } else {
                        Err(e)
                    },
                }
            },
            UpdateOp::Clear { target } => Ok(self.clear_target(&target)),
            UpdateOp::Drop { target } => Ok(self.clear_target(&target)),
            UpdateOp::Create => Ok(0),
        }
    }

    /// Read a document into the default graph; `parsed` is what its source held.
    /// Only local sources are read.
    fn load_rdf_source(&mut self, source: &str, parsed: Result<Vec<Triple>>) -> (r: Result<usize>)
        requires
            old(self).wf(),
            !is_remote(source@) ==> (parsed matches Ok(ts) ==> dict_fits(changed_by_all(old(self)@, default_inserts(ts@)).dict)),
        ensures
            final(self).wf(),
            is_remote(source@) ==> final(self)@ == old(self)@ && r is Err && is_query_error(r->Err_0, remote_message(source@)),
            !is_remote(source@) ==> match parsed {
                Err(e) => final(self)@ == old(self)@ && r == Err::<usize, GStoreError>(e),
                Ok(ts) => final(self)@ == changed_by_all(old(self)@, default_inserts(ts@)) && (r matches Ok(n) && n == effects(old(self)@, default_inserts(ts@))),
            },
    {
        match load_path(source) {
            Err(e) => {
                return Err(e);
            },
            Ok(path) => {},
        }
        match parsed {
            Err(e) => Err(e),
            Ok(triples) => Ok(self.insert_all(&triples)),
        }
    }
}

/// Is the source of a LOAD on another machine?
pub open spec fn is_remote(source: Seq<char>) -> bool {
    "http://"@.is_prefix_of(source) || "https://"@.is_prefix_of(source)
}

/// Why a remote source is refused.
pub open spec fn remote_message(source: Seq<char>) -> Seq<char> {
    "LOAD of remote source '"@ + source + "' is not supported (no network); use a local file path or file:// IRI"@
}

/// The error is a query error with the given message.
pub open spec fn is_query_error(e: GStoreError, msg: Seq<char>) -> bool {
    e matches GStoreError::Query(m) && m@ == msg
}

/// The file of a LOAD request: a `file://` IRI or a plain path. Remote sources are
/// refused.
pub fn load_path(source: &str) -> (r: Result<String>)
    ensures
        r is Err <==> is_remote(source@),
        r matches Err(e) ==> is_query_error(e, remote_message(source@)),
        r matches Ok(p) ==> p@ == (if "file://"@.is_prefix_of(source@) { source@.skip(7) } else { source@ }),
{
    let c: Vec<char> = chars_of(source);
    if starts_with(&c, "http://") || starts_with(&c, "https://") {
        return Err(GStoreError::Query(join3("LOAD of remote source '", source, "' is not supported (no network); use a local file path or file:// IRI")));
    }
    if starts_with(&c, "file://") {
        proof {
            reveal_strlit("file://");
        }
        Ok(string_of(&c, 7, c.len()))
    } else {
        Ok(source.to_owned())
    }
}

/// Does the text start with the given prefix?
fn starts_with(c: &Vec<char>, prefix: &str) -> (b: bool)
    ensures
        b == prefix@.is_prefix_of(c@),
{
    let p: Vec<char> = chars_of(prefix);
    if p.len() > c.len() {
        return false;
    }
    let mut i: usize = 0;
    while i < p.len()
        invariant
            p@ == prefix@,
            p@.len() <= c@.len(),
            i <= p@.len(),
            forall|k: int| 0 <= k < i ==> p@[k] == c@[k],
        decreases p.len() - i,
    {
        if p[i] != c[i] {
            return false;
        }
        i = i + 1;
    }
    true
}

/// How many triples an operation lists.
pub open spec fn op_listed(op: UpdateOp) -> nat {
    match op {
        UpdateOp::InsertData(ts) => ts@.len(),
        UpdateOp::DeleteData(ts) => ts@.len(),
        UpdateOp::Modify { delete, insert } => delete@.len() + insert@.len(),
        UpdateOp::Load { source, silent, parsed: Ok(ts) } => ts@.len(),
        _ => 0,
    }
}

/// Does the operation fail? Only a LOAD that is not silent can.
pub open spec fn op_fails(op: UpdateOp) -> bool {
    op matches UpdateOp::Load { source, silent, parsed } && !silent && (is_remote(source@) || parsed is Err)
}

/// The error of an operation that fails.
pub open spec fn is_op_error(op: UpdateOp, e: GStoreError) -> bool {
    op matches UpdateOp::Load { source, silent, parsed } && if is_remote(source@) {
        is_query_error(e, remote_message(source@))
    } else {
        parsed == Err::<Vec<Triple>, GStoreError>(e)
    }
}

/// The changes of an operation that lists triples.
pub open spec fn op_changes(op: UpdateOp) -> Seq<Change> {
    match op {
        UpdateOp::InsertData(ts) => as_inserts(ts@),
        UpdateOp::DeleteData(ts) => as_deletes(ts@),
        UpdateOp::Modify { delete, insert } => default_deletes(delete@) + default_inserts(insert@),
        UpdateOp::Load { source, silent, parsed: Ok(ts) } => if is_remote(source@) {
            Seq::empty()
        } else {
            default_inserts(ts@)
        },
        _ => Seq::empty(),
    }
}

/// The database after an operation.
pub open spec fn op_after(db: DbSpec, op: UpdateOp) -> DbSpec {
    match op {
        UpdateOp::Clear { target } => cleared(db, target_selects(db.dict, target)),
        UpdateOp::Drop { target } => cleared(db, target_selects(db.dict, target)),
        _ => changed_by_all(db, op_changes(op)),
    }
}

/// How many triples an operation changes.
pub open spec fn op_count(db: DbSpec, op: UpdateOp) -> nat {
    match op {
        UpdateOp::Clear { target } => quads_in(db.quads, target_selects(db.dict, target)).len(),
        UpdateOp::Drop { target } => quads_in(db.quads, target_selects(db.dict, target)).len(),
        _ => effects(db, op_changes(op)),
    }
}

/// The triple of a request.
fn ground_to_triple(g: &GroundTriple) -> (t: Triple)
    ensures
        t == triple_of(*g),
{
    Triple::new(g.subject.clone(), g.predicate.clone(), g.object.clone())
}

/// The graph of a request.
fn graph_of(g: &GroundTriple) -> (r: Option<&str>)
    ensures
        str_view(r) == opt_view(g.graph),
{
    match &g.graph {
        Some(s) => Some(s.as_str()),
        None => None,
    }
}

} // verus!
