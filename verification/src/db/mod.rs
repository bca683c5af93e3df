//! The database facade: a dictionary, a default graph and named graphs, with
//! transactions, a result cache and the logs for replay.
//!
//! Parsing of RDF and SPARQL text and evaluation of query patterns happen
//! outside; the database takes their results. What it has to write to log files
//! it leaves in output buffers for its host to append.

pub mod open;
pub mod outcomes;
pub mod clear;
pub mod export;
pub mod history;
pub mod info;
pub mod laws;
pub mod lines;
pub mod logs;
pub mod lru;
pub mod replay;
pub mod requests;
pub mod results;
pub mod rules;
pub mod schema;
pub mod state;
pub mod transactions;
pub mod update;
pub mod vocabulary;

use crate::dict::{with_entity, Dictionary};
use crate::error::{GStoreError, Result};
use crate::model::{EntityLiteralId, IdTriple, Term, Triple};
use crate::order::copied;
use crate::store::TripleStore;
use crate::query::copy_strings;
use crate::text::{chars_of, texts};
use logs::{copy_records, is_database_error, push_redo_all, redo_bytes_all, redo_views, RedoRec, RedoSpec};
use lru::LruCache;
use rules::{copy_rules, rule_views, Rule};
use state::{begun, committed, dict_fits, encoded_in, lemma_encoded, lemma_encoded_sizes, lemma_interning_room, lemma_key_with, lemma_name_of, lemma_quad_record, lemma_refilled, lemma_refilled_front, lemma_with_entity, refilled, rolled_back, stripped, with_graph};
use state::{deleted, encoded, graph_key, id_of, insert_changes, inserted, known, noted, present, quad_added, quad_of, quad_record, quad_removed, redo_of, undone, undone_all, DbSpec, Quad, UndoOp};
use vstd::prelude::*;
use vstd::string::*;

verus! {

/// Capacity of the result cache of a new database.
pub const DEFAULT_QUERY_CACHE_CAP: usize = 256;

/// A named graph.
pub struct NamedGraph {
    pub id: EntityLiteralId,
    pub store: TripleStore,
}

/// The quads of the default graph and the named graphs.
pub open spec fn quads_of(default: Set<IdTriple>, named: Seq<NamedGraph>) -> Set<Quad> {
    Set::new(
        |q: Quad|
            match q.0 {
                None => default.contains(q.1),
                Some(g) => exists|k: int| 0 <= k < named.len() && (#[trigger] named[k]).id == g && named[k].store@.contains(q.1),
            },
    )
}

/// The ids of some named graphs.
pub open spec fn graph_ids(named: Seq<NamedGraph>) -> Set<u32> {
    Set::new(|g: u32| exists|k: int| 0 <= k < named.len() && (#[trigger] named[k]).id == g)
}

/// Graph ids ascend, and the stores are well formed.
pub open spec fn graphs_wf(named: Seq<NamedGraph>) -> bool {
    &&& forall|k: int| 0 <= k < named.len() ==> (#[trigger] named[k]).store.wf()
    &&& forall|i: int, j: int| 0 <= i < j < named.len() ==> (#[trigger] named[i]).id < (#[trigger] named[j]).id
}

pub open spec fn str_view(g: Option<&str>) -> Option<Seq<char>> {
    match g {
        Some(s) => Some(s@),
        None => None,
    }
}

pub open spec fn opt_view(g: Option<String>) -> Option<Seq<char>> {
    match g {
        Some(s) => Some(s@),
        None => None,
    }
}

/// The database: in memory, with its dictionary, graphs, cache and logs.
pub struct Database {
    name: String,
    dict: Dictionary,
    store: TripleStore,
    named: Vec<NamedGraph>,
    index_valid: bool,
    disk_index: bool,
    txn: Option<Vec<UndoOp>>,
    query_cache: LruCache,
    update_log: Option<String>,
    update_out: Vec<u8>,
    redo_log: Option<String>,
    redo_pending: Vec<RedoRec>,
    redo_out: Vec<u8>,
    rules: Vec<Rule>,
    functions: Vec<String>,
    /// The quads at the start of the open transaction.
    base: Ghost<Set<Quad>>,
}

/// Statistics of a database.
#[derive(Debug)]
pub struct DbStats {
    pub name: String,
    pub triple_num: u64,
    pub entity_num: usize,
    pub literal_num: usize,
    pub predicate_num: usize,
    pub index_valid: bool,
    pub in_transaction: bool,
}

/// The stages of building a database from text.
#[derive(Debug, Clone, Copy, PartialEq, Eq, Structural)]
pub enum BuildProgress {
    RdfParse,
    Dictionary,
    Index,
    Done,
}

/// What a saved database says of itself.
#[derive(Debug)]
pub struct Meta {
    pub name: String,
    pub triple_num: u64,
    pub entity_num: u64,
    pub literal_num: u64,
    pub predicate_num: u64,
}

impl View for Database {
    type V = DbSpec;

    closed spec fn view(&self) -> DbSpec {
        DbSpec {
            name: self.name@,
            dict: self.dict@,
            quads: quads_of(self.store@, self.named@),
            graphs: graph_ids(self.named@),
            index_valid: self.index_valid,
            disk_index: self.disk_index,
            txn: (match self.txn {
                Some(log) => Some(self.base@),
                None => None,
            }),
            txn_graphs: (match self.txn {
                Some(log) => refilled(log@),
                None => Set::empty(),
            }),
            cache: self.query_cache@,
            cache_cap: self.query_cache.capacity(),
            update_log: opt_view(self.update_log),
            update_out: self.update_out@,
            redo_log: opt_view(self.redo_log),
            redo_pending: redo_views(self.redo_pending@),
            redo_out: self.redo_out@,
            rules: rule_views(self.rules@),
            functions: texts(self.functions@),
        }
    }
}

/// The same ids in the same places.
proof fn lemma_same_ids(a: Seq<NamedGraph>, b: Seq<NamedGraph>)
    requires
        a.len() == b.len(),
        forall|k: int| 0 <= k < b.len() ==> (#[trigger] b[k]).id == a[k].id,
    ensures
        graph_ids(b) == graph_ids(a),
{
    assert forall|g: u32| #[trigger] graph_ids(b).contains(g) <==> graph_ids(a).contains(g) by {
        if graph_ids(a).contains(g) {
            let k = choose|k: int| 0 <= k < a.len() && (#[trigger] a[k]).id == g;
            assert(b[k].id == g);
        }
        if graph_ids(b).contains(g) {
            let k = choose|k: int| 0 <= k < b.len() && (#[trigger] b[k]).id == g;
            assert(a[k].id == g);
        }
    }
    assert(graph_ids(b) =~= graph_ids(a));
}

/// One more graph.
proof fn lemma_graph_inserted(named: Seq<NamedGraph>, i: int, g: NamedGraph)
    requires
        0 <= i <= named.len(),
    ensures
        graph_ids(named.insert(i, g)) == graph_ids(named).insert(g.id),
{
    let more = named.insert(i, g);
    assert forall|x: u32| #[trigger] graph_ids(more).contains(x) <==> graph_ids(named).insert(g.id).contains(x) by {
        if graph_ids(more).contains(x) {
            let k = choose|k: int| 0 <= k < more.len() && (#[trigger] more[k]).id == x;
            if k < i {
                assert(named[k].id == x);
            } else if k > i {
                assert(named[k - 1].id == x);
            }
        }
        if graph_ids(named).contains(x) {
            let k = choose|k: int| 0 <= k < named.len() && (#[trigger] named[k]).id == x;
            assert(more[if k < i { k } else { k + 1 }] == named[k]);
        }
        assert(more[i].id == g.id);
    }
    assert(graph_ids(more) =~= graph_ids(named).insert(g.id));
}

/// The place of a graph, or where it belongs.
fn graph_place(named: &Vec<NamedGraph>, id: u32) -> (r: usize)
    requires
        graphs_wf(named@),
    ensures
        r <= named@.len(),
        forall|k: int| 0 <= k < r ==> (#[trigger] named@[k]).id < id,
        forall|k: int| r <= k < named@.len() ==> (#[trigger] named@[k]).id >= id,
{
    let mut i: usize = 0;
    while i < named.len() && named[i].id < id
        invariant
            graphs_wf(named@),
            i <= named@.len(),
            forall|k: int| 0 <= k < i ==> (#[trigger] named@[k]).id < id,
        decreases named.len() - i,
    {
        i = i + 1;
    }
    proof {
        assert forall|k: int| i <= k < named@.len() implies (#[trigger] named@[k]).id >= id by {
            if k > i {
                assert(named@[i as int].id < named@[k].id);
            }
        }
    }
    i
}

/// Add a triple to a named graph, which is made if it is not there.
#[verifier::spinoff_prover]
#[verifier::rlimit(40)]
fn named_insert(named: &mut Vec<NamedGraph>, id: u32, t: IdTriple, default: Ghost<Set<IdTriple>>) -> (changed: bool)
    requires
        graphs_wf(old(named)@),
    ensures
        graphs_wf(final(named)@),
        changed == !quads_of(default@, old(named)@).contains((Some(id), t)),
        quads_of(default@, final(named)@) == quads_of(default@, old(named)@).insert((Some(id), t)),
        graph_ids(final(named)@) == graph_ids(old(named)@).insert(id),
{
    let i: usize = graph_place(named, id);
    let ghost n0 = named@;
    let q: Ghost<Quad> = Ghost((Some(id), t));
    if i < named.len() && named[i].id == id {
        let mut g: NamedGraph = named.remove(i);
        let ghost s0 = g.store@;
        let changed: bool = g.store.insert(t);
        named.insert(i, g);
        proof {
            let n1 = named@;
            assert(n1 =~= n0.update(i as int, n1[i as int]));
            assert forall|k: int| 0 <= k < n1.len() implies (#[trigger] n1[k]).id == n0[k].id && (k != i ==> n1[k] == n0[k]) by {
            }
            lemma_same_ids(n0, n1);
            assert(n0[i as int].id == id);
            assert(graphs_wf(n1)) by {
                assert forall|a: int, b: int| 0 <= a < b < n1.len() implies (#[trigger] n1[a]).id < (#[trigger] n1[b]).id by {
                    assert(n0[a].id < n0[b].id);
                }
                assert forall|k: int| 0 <= k < n1.len() implies (#[trigger] n1[k]).store.wf() by {
                    if k != i {
                        assert(n0[k].store.wf());
                    }
                }
            }
            assert(s0 == n0[i as int].store@);
            let qa = quads_of(default@, n0);
            let qb = quads_of(default@, n1);
            assert forall|x: Quad| #[trigger] qb.contains(x) <==> qa.insert(q@).contains(x) by {
                if let Some(gid) = x.0 {
                    if qb.contains(x) {
                        let k = choose|k: int| 0 <= k < n1.len() && (#[trigger] n1[k]).id == gid && n1[k].store@.contains(x.1);
                        assert(n0[k].id == gid);
                    }
                    if qa.contains(x) {
                        let k = choose|k: int| 0 <= k < n0.len() && (#[trigger] n0[k]).id == gid && n0[k].store@.contains(x.1);
                        assert(n1[k].id == gid && n1[k].store@.contains(x.1));
                    }
                    if x == q@ {
                        assert(n1[i as int].id == id && n1[i as int].store@.contains(t));
                    }
                }
            }
            assert(qb =~= qa.insert(q@));
            assert(graph_ids(n0).insert(id) =~= graph_ids(n0));
            if qa.contains(q@) {
                let k = choose|k: int| 0 <= k < n0.len() && (#[trigger] n0[k]).id == id && n0[k].store@.contains(t);
                assert(k == i) by {
                    if k < i {
                        assert(n0[k].id < n0[i as int].id);
                    }
                    if k > i {
                        assert(n0[i as int].id < n0[k].id);
                    }
                }
            }
            if s0.contains(t) {
                assert(n0[i as int].id == id && n0[i as int].store@.contains(t));
            }
        }
        changed
    } else {
        let mut store: TripleStore = TripleStore::new();
        store.insert(t);
        named.insert(i, NamedGraph { id, store });
        proof {
            let n1 = named@;
            assert forall|k: int| 0 <= k < i implies #[trigger] n1[k] == n0[k] by {
            }
            assert forall|k: int| i < k < n1.len() implies #[trigger] n1[k] == n0[k - 1] by {
            }
            assert(graphs_wf(n1)) by {
                assert forall|a: int, b: int| 0 <= a < b < n1.len() implies (#[trigger] n1[a]).id < (#[trigger] n1[b]).id by {
                    if a < i && b < i {
                        assert(n0[a].id < n0[b].id);
                    } else if a < i && b == i {
                        assert(n0[a].id < id);
                    } else if a < i {
                        assert(n0[a].id < id);
                        assert(n0[b - 1].id >= id);
                    } else if a == i {
                        assert(n0[b - 1].id >= id);
                        assert(n0[i as int].id != id);
                        if b - 1 > i {
                            assert(n0[i as int].id < n0[b - 1].id);
                        }
                    } else {
                        assert(n0[a - 1].id < n0[b - 1].id);
                    }
                }
                assert forall|k: int| 0 <= k < n1.len() implies (#[trigger] n1[k]).store.wf() by {
                    if k < i {
                        assert(n0[k].store.wf());
                    } else if k > i {
                        assert(n0[k - 1].store.wf());
                    }
                }
            }
            assert(n1 =~= n0.insert(i as int, n1[i as int]));
            lemma_graph_inserted(n0, i as int, n1[i as int]);
            let qa = quads_of(default@, n0);
            let qb = quads_of(default@, n1);
            assert(n1[i as int].store@ =~= Set::<IdTriple>::empty().insert(t));
            assert forall|x: Quad| #[trigger] qb.contains(x) <==> qa.insert(q@).contains(x) by {
                if let Some(gid) = x.0 {
                    if qb.contains(x) {
                        let k = choose|k: int| 0 <= k < n1.len() && (#[trigger] n1[k]).id == gid && n1[k].store@.contains(x.1);
                        if k < i {
                            assert(n0[k].id == gid);
                        } else if k > i {
                            assert(n0[k - 1].id == gid);
                        }
                    }
                    if qa.contains(x) {
                        let k = choose|k: int| 0 <= k < n0.len() && (#[trigger] n0[k]).id == gid && n0[k].store@.contains(x.1);
                        let k1 = if k < i { k } else { k + 1 };
                        assert(n1[k1] == n0[k]);
                    }
                    if x == q@ {
                        assert(n1[i as int].id == id && n1[i as int].store@.contains(t));
                    }
                }
            }
            assert(qb =~= qa.insert(q@));
            if qa.contains(q@) {
                let k = choose|k: int| 0 <= k < n0.len() && (#[trigger] n0[k]).id == id && n0[k].store@.contains(t);
                if k < i {
                    assert(n0[k].id < id);
                } else if k > i {
                    assert(n0[i as int].id < n0[k].id);
                    assert(n0[i as int].id >= id);
                }
            }
        }
        true
    }
}

/// Take a triple out of a named graph. The graph stays, even if it is empty then.
fn named_remove(named: &mut Vec<NamedGraph>, id: u32, t: IdTriple, default: Ghost<Set<IdTriple>>) -> (changed: bool)
    requires
        graphs_wf(old(named)@),
    ensures
        graphs_wf(final(named)@),
        changed == quads_of(default@, old(named)@).contains((Some(id), t)),
        quads_of(default@, final(named)@) == quads_of(default@, old(named)@).remove((Some(id), t)),
        graph_ids(final(named)@) == graph_ids(old(named)@),
{
    let i: usize = graph_place(named, id);
    let ghost n0 = named@;
    let q: Ghost<Quad> = Ghost((Some(id), t));
    if i < named.len() && named[i].id == id {
        let mut g: NamedGraph = named.remove(i);
        let ghost s0 = g.store@;
        let changed: bool = g.store.remove(t);
        named.insert(i, g);
        proof {
            let n1 = named@;
            assert(n1 =~= n0.update(i as int, n1[i as int]));
            assert forall|k: int| 0 <= k < n1.len() implies (#[trigger] n1[k]).id == n0[k].id && (k != i ==> n1[k] == n0[k]) by {
            }
            lemma_same_ids(n0, n1);
            assert(n0[i as int].id == id);
            assert(graphs_wf(n1)) by {
                assert forall|a: int, b: int| 0 <= a < b < n1.len() implies (#[trigger] n1[a]).id < (#[trigger] n1[b]).id by {
                    assert(n0[a].id < n0[b].id);
                }
                assert forall|k: int| 0 <= k < n1.len() implies (#[trigger] n1[k]).store.wf() by {
                    if k != i {
                        assert(n0[k].store.wf());
                    }
                }
            }
            assert(s0 == n0[i as int].store@);
            let qa = quads_of(default@, n0);
            let qb = quads_of(default@, n1);
            assert forall|x: Quad| #[trigger] qb.contains(x) <==> qa.remove(q@).contains(x) by {
                if let Some(gid) = x.0 {
                    if qb.contains(x) {
                        let k = choose|k: int| 0 <= k < n1.len() && (#[trigger] n1[k]).id == gid && n1[k].store@.contains(x.1);
                        assert(n0[k].id == gid && n0[k].store@.contains(x.1));
                        if x == q@ {
                            assert(k == i) by {
                                if k < i {
                                    assert(n0[k].id < n0[i as int].id);
                                }
                                if k > i {
                                    assert(n0[i as int].id < n0[k].id);
                                }
                            }
                        }
                    }
                    if qa.contains(x) && x != q@ {
                        let k = choose|k: int| 0 <= k < n0.len() && (#[trigger] n0[k]).id == gid && n0[k].store@.contains(x.1);
                        assert(n1[k].id == gid && n1[k].store@.contains(x.1));
                    }
                }
            }
            assert(qb =~= qa.remove(q@));
            if qa.contains(q@) {
                let k = choose|k: int| 0 <= k < n0.len() && (#[trigger] n0[k]).id == id && n0[k].store@.contains(t);
                if k < i {
                    assert(n0[k].id < n0[i as int].id);
                }
                if k > i {
                    assert(n0[i as int].id < n0[k].id);
                }
            }
            if s0.contains(t) {
                assert(n0[i as int].id == id && n0[i as int].store@.contains(t));
            }
        }
        changed
    } else {
        proof {
            let qa = quads_of(default@, n0);
            if qa.contains(q@) {
                let k = choose|k: int| 0 <= k < n0.len() && (#[trigger] n0[k]).id == id && n0[k].store@.contains(t);
                if k < i {
                    assert(n0[k].id < id);
                } else if k > i {
                    assert(n0[i as int].id < n0[k].id);
                    assert(n0[i as int].id >= id);
                }
            }
            assert(qa.remove(q@) =~= qa);
        }
        false
    }
}

/// A copy of some named graphs.
pub(crate) fn copy_graphs(named: &Vec<NamedGraph>) -> (r: Vec<NamedGraph>)
    requires
        graphs_wf(named@),
    ensures
        graphs_wf(r@),
        forall|default: Set<IdTriple>| #[trigger] quads_of(default, r@) == quads_of(default, named@),
        graph_ids(r@) == graph_ids(named@),
{
    let mut r: Vec<NamedGraph> = Vec::new();
    let mut i: usize = 0;
    while i < named.len()
        invariant
            graphs_wf(named@),
            i <= named@.len(),
            r@.len() == i,
            forall|k: int| 0 <= k < i ==> (#[trigger] r@[k]).id == named@[k].id && r@[k].store@ == named@[k].store@ && r@[k].store.wf(),
        decreases named.len() - i,
    {
        assert(named@[i as int].store.wf());
        r.push(NamedGraph { id: named[i].id, store: named[i].store.duplicate() });
        i = i + 1;
    }
    proof {
        lemma_same_ids(named@, r@);
        assert forall|a: int, b: int| 0 <= a < b < r@.len() implies (#[trigger] r@[a]).id < (#[trigger] r@[b]).id by {
            assert(named@[a].id < named@[b].id);
        }
        assert forall|default: Set<IdTriple>| #[trigger] quads_of(default, r@) == quads_of(default, named@) by {
            let x = quads_of(default, r@);
            let y = quads_of(default, named@);
            assert forall|q: Quad| #[trigger] x.contains(q) <==> y.contains(q) by {
                if q.0 is Some {
                    let g = q.0->0;
                    if x.contains(q) {
                        let k = choose|k: int| 0 <= k < r@.len() && (#[trigger] r@[k]).id == g && r@[k].store@.contains(q.1);
                        assert(named@[k].id == g);
                    }
                    if y.contains(q) {
                        let k = choose|k: int| 0 <= k < named@.len() && (#[trigger] named@[k]).id == g && named@[k].store@.contains(q.1);
                        assert(r@[k].id == g);
                    }
                }
            }
            assert(x =~= y);
        }
    }
    r
}

/// The default graph is a part of the quads.
proof fn lemma_quads_default(a: Set<IdTriple>, b: Set<IdTriple>, named: Seq<NamedGraph>, t: IdTriple)
    ensures
        quads_of(a, named).contains((None::<u32>, t)) == a.contains(t),
        b == a.insert(t) ==> quads_of(b, named) == quads_of(a, named).insert((None::<u32>, t)),
        b == a.remove(t) ==> quads_of(b, named) == quads_of(a, named).remove((None::<u32>, t)),
{
    let q: Quad = (None::<u32>, t);
    if b == a.insert(t) {
        assert forall|x: Quad| quads_of(b, named).contains(x) <==> quads_of(a, named).insert(q).contains(x) by {
            assert(x == (x.0, x.1));
        }
        assert(quads_of(b, named) =~= quads_of(a, named).insert(q));
    }
    if b == a.remove(t) {
        assert forall|x: Quad| quads_of(b, named).contains(x) <==> quads_of(a, named).remove(q).contains(x) by {
            assert(x == (x.0, x.1));
        }
        assert(quads_of(b, named) =~= quads_of(a, named).remove(q));
    }
}

/// Take the angle brackets off an IRI in surface syntax.
fn strip_angle(s: &str) -> (r: String)
    ensures
        r@ == stripped(s@),
{
    let c: Vec<char> = chars_of(s);
    let n: usize = c.len();
    if n >= 2 && c[0] == '<' && c[n - 1] == '>' {
        crate::text::string_of(&c, 1, n - 1)
    } else {
        s.to_owned()
    }
}

impl Database {
    pub closed spec fn wf(&self) -> bool {
        &&& self.dict.wf()
        &&& self.store.wf()
        &&& graphs_wf(self.named@)
        &&& self.query_cache.wf()
        &&& self.txn matches Some(log) ==> undone_all(log@, self@.quads) == self.base@
    }

    /// The triples of the default graph.
    pub closed spec fn default_graph(&self) -> Set<IdTriple> {
        self.store@
    }

    /// The named graphs.
    pub closed spec fn graphs(&self) -> Seq<NamedGraph> {
        self.named@
    }

    /// An empty database.
    pub fn new(name: &str) -> (r: Database)
        ensures
            r.wf(),
            r@ == open::fresh(name@, open::empty_dict(), Set::empty(), Set::empty(), false),
            r.graphs().len() == 0,
            r.default_graph() == Set::<IdTriple>::empty(),
    {
        let r = Database {
            name: name.to_owned(),
            dict: Dictionary::new(),
            store: TripleStore::new(),
            named: Vec::new(),
            index_valid: true,
            disk_index: false,
            txn: None,
            query_cache: LruCache::new(DEFAULT_QUERY_CACHE_CAP),
            update_log: None,
            update_out: Vec::new(),
            redo_log: None,
            redo_pending: Vec::new(),
            redo_out: Vec::new(),
            rules: Vec::new(),
            functions: Vec::new(),
            base: Ghost(Set::empty()),
        };
        proof {
            assert(r@.quads =~= Set::<Quad>::empty());
            assert(r@.graphs =~= Set::<u32>::empty());
            assert(r@.redo_pending =~= Seq::<RedoSpec>::empty());
            assert(r@.rules =~= Seq::empty());
            assert(r@.functions =~= Seq::empty());
            assert(r@.dict =~= open::empty_dict());
            assert(r@ =~= open::fresh(name@, open::empty_dict(), Set::empty(), Set::empty(), false));
        }
        r
    }

    /// The ids of a triple, newly assigned where a term has none.
    fn encode_triple(&mut self, t: &Triple) -> (id: IdTriple)
        requires
            old(self).wf(),
            dict_fits(encoded(old(self)@.dict, *t)),
        ensures
            final(self).wf(),
            known(final(self)@.dict, *t),
            id == id_of(final(self)@.dict, *t),
            final(self)@ == (DbSpec { dict: encoded(old(self)@.dict, *t), ..old(self)@ }),
            final(self).store@ == old(self).store@,
            final(self).named@ == old(self).named@,
    {
        let sk: String = t.subject.dict_key();
        let pk: String = t.predicate.dict_key();
        proof {
            self.dict.lemma_ok();
            lemma_encoded(self.dict@, *t);
            lemma_interning_room(self.dict@, *t);
        }
        let sub: u32 = self.dict.intern_entity(sk.as_str());
        let pred: u32 = self.dict.intern_predicate(pk.as_str());
        let obj: u32 = self.dict.intern_term(&t.object);
        assert(self@ =~= (DbSpec { dict: encoded(old(self)@.dict, *t), ..old(self)@ }));
        IdTriple::new(sub, pred, obj)
    }

    /// Keep a change for the redo log, if that is enabled.
    fn record_redo(&mut self, op: char, graph: Option<u32>, id: IdTriple)
        requires
            old(self).wf(),
        ensures
            final(self).wf(),
            final(self)@ == (match quad_record(old(self)@.dict, op, (graph, id)) {
                Some(rec) => noted(old(self)@, rec),
                None => old(self)@,
            }),
    {
        if self.redo_log.is_none() {
            return;
        }
        let ghost d = self@.dict;
        proof {
            self.dict.lemma_ok();
        }
        let s: &str = match self.dict.id_to_string(id.sub) {
            Some(s) => s,
            None => {
                return;
            },
        };
        let p: &str = match self.dict.predicate_to_string(id.pred) {
            Some(p) => p,
            None => {
                return;
            },
        };
        let o: &str = match self.dict.id_to_string(id.obj) {
            Some(o) => o,
            None => {
                return;
            },
        };
        proof {
            lemma_name_of(d, s@);
            lemma_name_of(d, o@);
            lemma_key_with(d.predicates, p@);
            reveal_strlit(" ");
            reveal_strlit(" .");
        }
        let mut text: String = s.to_owned();
        text.push(' ');
        text.append(p);
        text.push(' ');
        text.append(o);
        text.push(' ');
        text.push('.');
        assert(text@ =~= s@ + " "@ + p@ + " "@ + o@ + " ."@);
        let name: Option<String> = match graph {
            None => None,
            Some(gid) => match self.dict.id_to_string(gid) {
                Some(k) => {
                    proof {
                        lemma_name_of(d, k@);
                    }
                    Some(strip_angle(k))
                },
                None => None,
            },
        };
        let rec: RedoRec = RedoRec { op, graph: name, triple: text };
        let ghost rv = rec@;
        assert(Some(rv) == quad_record(d, op, (graph, id)));
        let ghost p0 = redo_views(self.redo_pending@);
        self.redo_pending.push(rec);
        assert(redo_views(self.redo_pending@) =~= p0.push(rv));
        if self.txn.is_none() {
            self.flush_redo();
        }
        assert(self@ =~= noted(old(self)@, rv));
    }

    /// Write the kept changes to the redo log, if that is enabled.
    fn flush_redo(&mut self)
        requires
            old(self).wf(),
        ensures
            final(self).wf(),
            final(self)@ == (DbSpec {
                redo_pending: Seq::empty(),
                redo_out: (if old(self)@.redo_log is Some { old(self)@.redo_out + redo_bytes_all(old(self)@.redo_pending) } else { old(self)@.redo_out }),
                ..old(self)@
            }),
    {
        if self.redo_log.is_some() {
            push_redo_all(&mut self.redo_out, &self.redo_pending);
        }
        self.redo_pending = Vec::new();
        proof {
            assert(redo_views(self.redo_pending@) =~= Seq::<RedoSpec>::empty());
            assert(self@ =~= (DbSpec {
                redo_pending: Seq::empty(),
                redo_out: (if old(self)@.redo_log is Some { old(self)@.redo_out + redo_bytes_all(old(self)@.redo_pending) } else { old(self)@.redo_out }),
                ..old(self)@
            }));
        }
    }

    /// Note that a quad was added or removed: the cache goes, the transaction
    /// can undo it.
    fn log_undo(&mut self, op: UndoOp)
        ensures
            final(self)@ == (DbSpec {
                cache: Seq::empty(),
                txn_graphs: (match op {
                    UndoOp::Add(g, t) => if old(self)@.txn is Some {
                        with_graph(old(self)@.txn_graphs, g)
                    } else {
                        old(self)@.txn_graphs
                    },
                    UndoOp::Del(g, t) => old(self)@.txn_graphs,
                }),
                ..old(self)@
            }),
            old(self).txn matches Some(log) ==> final(self).txn is Some && final(self).txn->0@ == log@.push(op),
            old(self).txn is None ==> final(self).txn is None,
            final(self).dict == old(self).dict,
            final(self).store == old(self).store,
            final(self).named == old(self).named,
            final(self).query_cache.wf(),
            final(self).base == old(self).base,
    {
        self.query_cache.clear();
        match self.txn.take() {
            Some(log) => {
                proof {
                    lemma_refilled(log@, op);
                }
                let mut l: Vec<UndoOp> = log;
                l.push(op);
                self.txn = Some(l);
            },
            None => {},
        }
    }

    /// Insert a triple into the default graph. Returns whether it was new.
    pub fn insert_triple(&mut self, t: &Triple) -> (changed: bool)
        requires
            old(self).wf(),
            dict_fits(encoded(old(self)@.dict, *t)),
        ensures
            final(self).wf(),
            changed == insert_changes(old(self)@, *t, None),
            final(self)@ == inserted(old(self)@, *t, None),
    {
        let id: IdTriple = self.encode_triple(t);
        let ghost mid = self@;
        let ghost s0 = self.store@;
        let changed: bool = self.store.insert(id);
        proof {
            lemma_quads_default(s0, self.store@, self.named@, id);
            if !changed {
                assert(s0.insert(id) =~= s0);
            }
        }
        if changed {
            if self.index_valid && self.disk_index {
                self.index_valid = false;
            }
            let ghost log0 = self.txn;
            self.log_undo(UndoOp::Del(None, id));
            proof {
                let q: Quad = (None::<u32>, id);
                if log0 is Some {
                    let l = log0->0@;
                    assert(l.push(UndoOp::Del(None, id)).drop_last() =~= l);
                    assert(mid.quads.insert(q).remove(q) =~= mid.quads);
                }
            }
            proof {
                self.dict.lemma_ok();
                lemma_quad_record(self@.dict, 'I', *t, None);
            }
            self.record_redo('I', None, id);
            proof {
                let q: Quad = (None::<u32>, id);
                assert(self@ =~= quad_added(mid, q, redo_of('I', None, *t)));
            }
        } else {
            assert(self@ =~= mid);
        }
        changed
    }

    /// Remove a triple from the default graph. Returns whether it was there. No
    /// term gets an id: a triple with an unknown term cannot be there.
    pub fn remove_triple(&mut self, t: &Triple) -> (changed: bool)
        requires
            old(self).wf(),
        ensures
            final(self).wf(),
            changed == present(old(self)@, *t, None),
            final(self)@ == deleted(old(self)@, *t, None),
    {
        let sub: u32 = match self.dict.entity_id(t.subject.dict_key().as_str()) {
            Some(i) => i,
            None => {
                return false;
            },
        };
        let pred: u32 = match self.dict.predicate_id(t.predicate.dict_key().as_str()) {
            Some(i) => i,
            None => {
                return false;
            },
        };
        let obj: u32 = match self.dict.term_id(&t.object) {
            Some(i) => i,
            None => {
                return false;
            },
        };
        let id: IdTriple = IdTriple::new(sub, pred, obj);
        let ghost s0 = self.store@;
        let ghost mid = self@;
        let changed: bool = self.store.remove(id);
        proof {
            lemma_quads_default(s0, self.store@, self.named@, id);
            if !changed {
                assert(s0.remove(id) =~= s0);
            }
        }
        if changed {
            self.index_valid = false;
            let ghost log0 = self.txn;
            self.log_undo(UndoOp::Add(None, id));
            proof {
                let q: Quad = (None::<u32>, id);
                if log0 is Some {
                    let l = log0->0@;
                    assert(l.push(UndoOp::Add(None, id)).drop_last() =~= l);
                    assert(mid.quads.remove(q).insert(q) =~= mid.quads);
                }
            }
            proof {
                self.dict.lemma_ok();
                lemma_quad_record(self@.dict, 'D', *t, None);
            }
            self.record_redo('D', None, id);
            proof {
                let q: Quad = (None::<u32>, id);
                assert(self@ =~= quad_removed(mid, q, redo_of('D', None, *t)));
            }
        } else {
            assert(self@ =~= mid);
        }
        changed
    }

    /// Insert a triple into the default graph or a named graph. Returns whether
    /// it was new there.
    fn insert_quad(&mut self, t: &Triple, graph: Option<&str>) -> (changed: bool)
        requires
            old(self).wf(),
            dict_fits(encoded_in(old(self)@.dict, *t, str_view(graph))),
        ensures
            final(self).wf(),
            changed == insert_changes(old(self)@, *t, str_view(graph)),
            final(self)@ == inserted(old(self)@, *t, str_view(graph)),
    {
        let g: &str = match graph {
            None => {
                return self.insert_triple(t);
            },
            Some(g) => g,
        };
        let gk: String = Term::iri(g).dict_key();
        assert(gk@ == graph_key(g@));
        let ghost before = self@;
        proof {
            self.dict.lemma_ok();
            lemma_encoded_sizes(self.dict@, *t, Some(g@));
            lemma_with_entity(self.dict@, gk@);
        }
        let gid: u32 = self.dict.intern_entity(gk.as_str());
        assert(self@ =~= (DbSpec { dict: with_entity(before.dict, gk@), ..before }));
        let id: IdTriple = self.encode_triple(t);
        let ghost mid = self@;
        assert(mid.dict == encoded_in(before.dict, *t, Some(g@)));
        let ghost store = self.store@;
        let ghost q: Quad = (Some(gid), id);
        assert(q == quad_of(mid.dict, *t, Some(g@)));
        let changed: bool = named_insert(&mut self.named, gid, id, Ghost(store));
        proof {
            if !changed {
                assert(mid.quads.insert(q) =~= mid.quads);
            }
        }
        if changed {
            let ghost log0 = self.txn;
            self.log_undo(UndoOp::Del(Some(gid), id));
            proof {
                if log0 is Some {
                    let l = log0->0@;
                    assert(l.push(UndoOp::Del(Some(gid), id)).drop_last() =~= l);
                    assert(mid.quads.insert(q).remove(q) =~= mid.quads);
                }
            }
            proof {
                self.dict.lemma_ok();
                lemma_quad_record(self@.dict, 'I', *t, Some(g@));
            }
            self.record_redo('I', Some(gid), id);
            assert(self@ =~= quad_added(mid, q, redo_of('I', Some(g@), *t)));
        } else {
            assert(self@ =~= mid);
        }
        changed
    }

    /// Remove a triple from the default graph or a named graph. Returns whether
    /// it was there.
    fn delete_quad(&mut self, t: &Triple, graph: Option<&str>) -> (changed: bool)
        requires
            old(self).wf(),
        ensures
            final(self).wf(),
            changed == present(old(self)@, *t, str_view(graph)),
            final(self)@ == deleted(old(self)@, *t, str_view(graph)),
    {
        let g: &str = match graph {
            None => {
                return self.remove_triple(t);
            },
            Some(g) => g,
        };
        let gid: u32 = match self.dict.entity_id(Term::iri(g).dict_key().as_str()) {
            Some(i) => i,
            None => {
                return false;
            },
        };
        let sub: u32 = match self.dict.entity_id(t.subject.dict_key().as_str()) {
            Some(i) => i,
            None => {
                return false;
            },
        };
        let pred: u32 = match self.dict.predicate_id(t.predicate.dict_key().as_str()) {
            Some(i) => i,
            None => {
                return false;
            },
        };
        let obj: u32 = match self.dict.term_id(&t.object) {
            Some(i) => i,
            None => {
                return false;
            },
        };
        let id: IdTriple = IdTriple::new(sub, pred, obj);
        let ghost mid = self@;
        let ghost store = self.store@;
        let ghost q: Quad = (Some(gid), id);
        let changed: bool = named_remove(&mut self.named, gid, id, Ghost(store));
        proof {
            if !changed {
                assert(mid.quads.remove(q) =~= mid.quads);
            }
        }
        if changed {
            let ghost log0 = self.txn;
            self.log_undo(UndoOp::Add(Some(gid), id));
            proof {
                if log0 is Some {
                    let l = log0->0@;
                    assert(l.push(UndoOp::Add(Some(gid), id)).drop_last() =~= l);
                    assert(mid.quads.remove(q).insert(q) =~= mid.quads);
                }
            }
            proof {
                self.dict.lemma_ok();
                lemma_quad_record(self@.dict, 'D', *t, Some(g@));
            }
            self.record_redo('D', Some(gid), id);
            assert(self@ =~= quad_removed(mid, q, redo_of('D', Some(g@), *t)));
        } else {
            assert(self@ =~= mid);
        }
        changed
    }

    /// Start a transaction.
    pub fn begin(&mut self) -> (r: Result<()>)
        requires
            old(self).wf(),
        ensures
            final(self).wf(),
            r is Ok <==> old(self)@.txn is None,
            r matches Err(e) ==> is_database_error(e, "a transaction is already active"@) && final(self)@ == old(self)@,
            r is Ok ==> final(self)@ == begun(old(self)@),
    {
        if self.txn.is_some() {
            return Err(GStoreError::Database("a transaction is already active".to_owned()));
        }
        let ghost q = self@.quads;
        self.txn = Some(Vec::new());
        self.base = Ghost(q);
        assert(self@.txn_graphs =~= Set::<u32>::empty());
        assert(self@ =~= begun(old(self)@));
        Ok(())
    }

    /// Keep the changes of the open transaction, and write them to the redo log.
    pub fn commit(&mut self) -> (r: Result<()>)
        requires
            old(self).wf(),
        ensures
            final(self).wf(),
            r is Ok <==> old(self)@.txn is Some,
            r matches Err(e) ==> is_database_error(e, "no active transaction"@) && final(self)@ == old(self)@,
            r is Ok ==> final(self)@ == committed(old(self)@),
    {
        match self.txn.take() {
            None => {
                assert(self@ =~= old(self)@);
                return Err(GStoreError::Database("no active transaction".to_owned()));
            },
            Some(log) => {},
        }
        assert(self@ =~= (DbSpec { txn: None, txn_graphs: Set::empty(), ..old(self)@ }));
        self.flush_redo();
        assert(self@ =~= committed(old(self)@));
        Ok(())
    }

    /// Undo the changes of the open transaction, the last first. The quads are
    /// then what they were when it started. Named graphs that were made in it stay, and
    /// those that it took a triple from are there.
    pub fn rollback(&mut self) -> (r: Result<()>)
        requires
            old(self).wf(),
        ensures
            final(self).wf(),
            r is Ok <==> old(self)@.txn is Some,
            r matches Err(e) ==> is_database_error(e, "no active transaction"@) && final(self)@ == old(self)@,
            r is Ok ==> final(self)@ == rolled_back(old(self)@),
    {
        let log: Vec<UndoOp> = match self.txn.take() {
            None => {
                assert(self@ =~= old(self)@);
                return Err(GStoreError::Database("no active transaction".to_owned()));
            },
            Some(log) => log,
        };
        self.redo_pending = Vec::new();
        let ghost base = self.base@;
        let ghost mid = self@;
        assert(redo_views(self.redo_pending@) =~= Seq::<RedoSpec>::empty());
        let mut i: usize = log.len();
        assert(log@.subrange(0, log@.len() as int) =~= log@);
        assert(mid.graphs.union(refilled(log@.skip(i as int))) =~= mid.graphs);
        while i > 0
            invariant
                i <= log@.len(),
                self.wf(),
                self@ == (DbSpec { quads: self@.quads, graphs: mid.graphs.union(refilled(log@.skip(i as int))), ..mid }),
                mid.txn is None,
                undone_all(log@.subrange(0, i as int), self@.quads) == base,
            decreases i,
        {
            i = i - 1;
            let op: UndoOp = log[i];
            let ghost part = log@.subrange(0, i + 1);
            let ghost q0 = self@.quads;
            let ghost s0 = self.store@;
            proof {
                assert(part.drop_last() =~= log@.subrange(0, i as int));
                assert(part.last() == op);
                assert(log@.skip(i as int) =~= seq![op] + log@.skip(i + 1));
                lemma_refilled_front(op, log@.skip(i + 1));
            }
            match op {
                UndoOp::Add(None, t) => {
                    self.store.insert(t);
                    proof {
                        lemma_quads_default(s0, self.store@, self.named@, t);
                    }
                },
                UndoOp::Del(None, t) => {
                    self.store.remove(t);
                    proof {
                        lemma_quads_default(s0, self.store@, self.named@, t);
                    }
                },
                UndoOp::Add(Some(g), t) => {
                    named_insert(&mut self.named, g, t, Ghost(s0));
                },
                UndoOp::Del(Some(g), t) => {
                    named_remove(&mut self.named, g, t, Ghost(s0));
                },
            }
            proof {
                assert(self@.quads == undone(op, q0));
                assert(self@.graphs =~= mid.graphs.union(refilled(log@.skip(i as int))));
                assert(self@ =~= (DbSpec { quads: self@.quads, graphs: mid.graphs.union(refilled(log@.skip(i as int))), ..mid }));
            }
        }
        self.index_valid = false;
        self.query_cache.clear();
        proof {
            assert(log@.subrange(0, 0) =~= Seq::<UndoOp>::empty());
            assert(log@.skip(0) =~= log@);
            assert(self@ =~= rolled_back(old(self)@));
        }
        Ok(())
    }

    /// An independent copy.
    pub fn duplicate(&self) -> (r: Database)
        requires
            self.wf(),
        ensures
            r.wf(),
            r@ == self@,
    {
        let txn: Option<Vec<UndoOp>> = match &self.txn {
            Some(log) => Some(copied(log)),
            None => None,
        };
        let r = Database {
            name: self.name.clone(),
            dict: self.dict.duplicate(),
            store: self.store.duplicate(),
            named: copy_graphs(&self.named),
            index_valid: self.index_valid,
            disk_index: self.disk_index,
            txn,
            query_cache: self.query_cache.duplicate(),
            update_log: self.update_log.clone(),
            update_out: copied(&self.update_out),
            redo_log: self.redo_log.clone(),
            redo_pending: copy_records(&self.redo_pending),
            redo_out: copied(&self.redo_out),
            rules: copy_rules(&self.rules),
            functions: copy_strings(&self.functions),
            base: Ghost(self.base@),
        };
        assert(r@ =~= self@);
        r
    }

    /// Is a transaction open?
    pub fn in_transaction(&self) -> (b: bool)
        ensures
            b == (self@.txn is Some),
    {
        self.txn.is_some()
    }
}

} // verus!
