//! Graph analytics for the entity graph embedded in the RDF triple store.
//!
//! Predicates are ignored; every triple (s, p, o) is projected to a directed
//! edge s to o. The central type is [`GraphView`], a compressed-sparse-row
//! adjacency built from a [`TripleStore`], with graph algorithms over the
//! entity ids: degrees, breadth-first search and shortest paths, weakly and
//! strongly connected components, triangle count and core decomposition.

pub mod bfs;
pub mod closeness;
pub mod components;
pub mod graph;
pub mod groups;
pub mod kcore;
pub mod laws;
pub mod louvain;
pub mod modularity;
pub mod scc;
pub mod sums;
pub mod triangles;

use crate::model::{EntityLiteralId, IdTriple};
use crate::order::{ascending, lemma_lists_len, lists, sort_dedup, Ranked};
use crate::store::{spo_triple, TripleStore};
use graph::{predecessors, successors, Digraph};
use std::collections::HashMap;
use vstd::prelude::*;

verus! {

broadcast use vstd::std_specs::hash::group_hash_axioms;

/// Compressed sparse rows over `n` nodes: row `u` is `adj[ptr[u]..ptr[u + 1]]`,
/// strictly ascending.
pub open spec fn csr_wf(n: int, ptr: Seq<usize>, adj: Seq<usize>) -> bool {
    &&& ptr.len() == n + 1
    &&& ptr[0] == 0
    &&& ptr[n] == adj.len()
    &&& forall|i: int, j: int| 0 <= i <= j <= n ==> #[trigger] ptr[i] <= #[trigger] ptr[j]
    &&& forall|k: int| 0 <= k < adj.len() ==> #[trigger] adj[k] < n
    &&& forall|u: int, j: int, k: int|
        0 <= u < n && ptr[u] <= j < k < ptr[u + 1] ==> #[trigger] row_at(ptr, adj, u, j) < #[trigger] row_at(ptr, adj, u, k)
}

/// The entry at position `k`, which lies in row `u`.
pub open spec fn row_at(ptr: Seq<usize>, adj: Seq<usize>, u: int, k: int) -> usize {
    adj[k]
}

/// Row `u` holds `v`.
pub open spec fn csr_edge(ptr: Seq<usize>, adj: Seq<usize>, u: int, v: int) -> bool {
    exists|k: int| ptr[u] <= k < ptr[u + 1] && #[trigger] row_at(ptr, adj, u, k) == v
}

/// The graph of a set of triples: an edge from each subject to each of its
/// objects, whatever the predicate.
pub open spec fn graph_of(ts: Set<IdTriple>) -> Digraph {
    Digraph {
        nodes: Set::new(
            |x: u32| exists|t: IdTriple| #[trigger] ts.contains(t) && (t.sub == x || t.obj == x),
        ),
        edges: Set::new(|e: (u32, u32)| exists|p: u32| ts.contains(#[trigger] spo_triple(e.0, p, e.1))),
    }
}

/// The nodes of a graph are the subjects and objects of the triples, and its edges are the
/// (subject, object) pairs of the triples, whatever their predicates are.
pub proof fn law_triples_are_edges(ts: Set<IdTriple>)
    ensures
        forall|s: u32, p: u32, o: u32| #[trigger] ts.contains(IdTriple { sub: s, pred: p, obj: o }) ==> {
            &&& graph_of(ts).nodes.contains(s)
            &&& graph_of(ts).nodes.contains(o)
            &&& graph_of(ts).edges.contains((s, o))
        },
        forall|s: u32, o: u32| #[trigger] graph_of(ts).edges.contains((s, o)) ==> exists|p: u32| #[trigger] ts.contains(IdTriple { sub: s, pred: p, obj: o }),
        forall|x: u32| #[trigger] graph_of(ts).nodes.contains(x) ==> exists|t: IdTriple| #[trigger] ts.contains(t) && (x == t.sub || x == t.obj),
{
    assert forall|s: u32, p: u32, o: u32| #[trigger] ts.contains(IdTriple { sub: s, pred: p, obj: o }) implies graph_of(ts).edges.contains((s, o)) by {
        let e = (s, o);
        assert(ts.contains(spo_triple(e.0, p, e.1)));
    }
    assert forall|s: u32, o: u32| #[trigger] graph_of(ts).edges.contains((s, o)) implies exists|p: u32| #[trigger] ts.contains(IdTriple { sub: s, pred: p, obj: o }) by {
        let p = choose|p: u32| ts.contains(#[trigger] spo_triple(s, p, o));
        assert(ts.contains(IdTriple { sub: s, pred: p, obj: o }));
    }
}

/// The ends of every triple are nodes with an edge between them, and there are no other
/// nodes and edges.
pub open spec fn projection(g: Digraph, ts: Set<IdTriple>) -> bool {
    &&& forall|t: IdTriple| #[trigger] ts.contains(t) ==> g.nodes.contains(t.sub) && g.nodes.contains(t.obj) && g.edges.contains((t.sub, t.obj))
    &&& forall|x: u32| #[trigger] g.nodes.contains(x) ==> exists|t: IdTriple| #[trigger] ts.contains(t) && (x == t.sub || x == t.obj)
    &&& forall|a: u32, b: u32| #[trigger] g.edges.contains((a, b)) ==> exists|t: IdTriple| #[trigger] ts.contains(t) && a == t.sub && b == t.obj
}

proof fn lemma_projection(g: Digraph, ts: Set<IdTriple>)
    requires
        g == graph_of(ts),
    ensures
        projection(g, ts),
{
    law_triples_are_edges(ts);
    assert forall|t: IdTriple| #[trigger] ts.contains(t) implies g.nodes.contains(t.sub) && g.nodes.contains(t.obj) && g.edges.contains((t.sub, t.obj)) by {
        assert(ts.contains(IdTriple { sub: t.sub, pred: t.pred, obj: t.obj }));
    }
    assert forall|a: u32, b: u32| #[trigger] g.edges.contains((a, b)) implies exists|t: IdTriple| #[trigger] ts.contains(t) && a == t.sub && b == t.obj by {
        let p = choose|p: u32| #[trigger] ts.contains(IdTriple { sub: a, pred: p, obj: b });
        assert(ts.contains(IdTriple { sub: a, pred: p, obj: b }));
    }
}

/// Predicates do not matter: stores that relate the same subjects to the same objects, by
/// whatever predicates, have the same graph.
pub proof fn law_predicates_do_not_matter(a: Set<IdTriple>, b: Set<IdTriple>)
    requires
        forall|t: IdTriple| #[trigger] a.contains(t) ==> exists|p: u32| #[trigger] b.contains(IdTriple { sub: t.sub, pred: p, obj: t.obj }),
        forall|t: IdTriple| #[trigger] b.contains(t) ==> exists|p: u32| #[trigger] a.contains(IdTriple { sub: t.sub, pred: p, obj: t.obj }),
    ensures
        graph_of(a) == graph_of(b),
{
    lemma_projects(a, b);
    lemma_projects(b, a);
    assert(graph_of(a).nodes =~= graph_of(b).nodes);
    assert(graph_of(a).edges =~= graph_of(b).edges);
}

proof fn lemma_projects(a: Set<IdTriple>, b: Set<IdTriple>)
    requires
        forall|t: IdTriple| #[trigger] a.contains(t) ==> exists|p: u32| #[trigger] b.contains(IdTriple { sub: t.sub, pred: p, obj: t.obj }),
    ensures
        graph_of(a).nodes.subset_of(graph_of(b).nodes),
        graph_of(a).edges.subset_of(graph_of(b).edges),
{
    law_triples_are_edges(a);
    law_triples_are_edges(b);
    assert forall|x: u32| graph_of(a).nodes.contains(x) implies graph_of(b).nodes.contains(x) by {
        let t = choose|t: IdTriple| #[trigger] a.contains(t) && (x == t.sub || x == t.obj);
        let p = choose|p: u32| #[trigger] b.contains(IdTriple { sub: t.sub, pred: p, obj: t.obj });
        assert(b.contains(IdTriple { sub: t.sub, pred: p, obj: t.obj }));
    }
    assert forall|e: (u32, u32)| graph_of(a).edges.contains(e) implies graph_of(b).edges.contains(e) by {
        assert(graph_of(a).edges.contains((e.0, e.1)));
        let p = choose|p: u32| #[trigger] a.contains(IdTriple { sub: e.0, pred: p, obj: e.1 });
        let t = IdTriple { sub: e.0, pred: p, obj: e.1 };
        assert(a.contains(t));
        let q = choose|q: u32| #[trigger] b.contains(IdTriple { sub: t.sub, pred: q, obj: t.obj });
        assert(b.contains(IdTriple { sub: e.0, pred: q, obj: e.1 }));
    }
}

/// One more triple adds its subject, its object and the edge between them, and nothing
/// else. No triples make the empty graph.
pub proof fn law_triple_adds_an_edge(ts: Set<IdTriple>, t: IdTriple)
    ensures
        graph_of(ts.insert(t)).nodes == graph_of(ts).nodes.insert(t.sub).insert(t.obj),
        graph_of(ts.insert(t)).edges == graph_of(ts).edges.insert((t.sub, t.obj)),
        graph_of(Set::empty()).nodes == Set::<u32>::empty(),
        graph_of(Set::empty()).edges == Set::<(u32, u32)>::empty(),
{
    let all = ts.insert(t);
    law_triples_are_edges(ts);
    law_triples_are_edges(all);
    assert(all.contains(IdTriple { sub: t.sub, pred: t.pred, obj: t.obj }));
    assert forall|x: u32| graph_of(all).nodes.contains(x) <==> graph_of(ts).nodes.insert(t.sub).insert(t.obj).contains(x) by {
        if graph_of(all).nodes.contains(x) {
            let u = choose|u: IdTriple| #[trigger] all.contains(u) && (x == u.sub || x == u.obj);
            if u != t {
                assert(ts.contains(IdTriple { sub: u.sub, pred: u.pred, obj: u.obj }));
            }
        }
        if graph_of(ts).nodes.contains(x) {
            let u = choose|u: IdTriple| #[trigger] ts.contains(u) && (x == u.sub || x == u.obj);
            assert(all.contains(IdTriple { sub: u.sub, pred: u.pred, obj: u.obj }));
        }
    }
    assert(graph_of(all).nodes =~= graph_of(ts).nodes.insert(t.sub).insert(t.obj));
    assert forall|e: (u32, u32)| graph_of(all).edges.contains(e) <==> graph_of(ts).edges.insert((t.sub, t.obj)).contains(e) by {
        if graph_of(all).edges.contains((e.0, e.1)) {
            let p = choose|p: u32| #[trigger] all.contains(IdTriple { sub: e.0, pred: p, obj: e.1 });
            let u = IdTriple { sub: e.0, pred: p, obj: e.1 };
            if u != t {
                assert(ts.contains(u));
            }
        }
        if graph_of(ts).edges.contains((e.0, e.1)) {
            let p = choose|p: u32| #[trigger] ts.contains(IdTriple { sub: e.0, pred: p, obj: e.1 });
            assert(all.contains(IdTriple { sub: e.0, pred: p, obj: e.1 }));
        }
    }
    assert(graph_of(all).edges =~= graph_of(ts).edges.insert((t.sub, t.obj)));
    let none = Set::<IdTriple>::empty();
    law_triples_are_edges(none);
    assert forall|e: (u32, u32)| !graph_of(none).edges.contains(e) by {
        if graph_of(none).edges.contains((e.0, e.1)) {
            let p = choose|p: u32| #[trigger] none.contains(IdTriple { sub: e.0, pred: p, obj: e.1 });
            assert(false);
        }
    }
    assert(graph_of(none).nodes =~= Set::<u32>::empty());
    assert(graph_of(none).edges =~= Set::<(u32, u32)>::empty());
}

/// A compact directed-graph view of the entity graph embedded in a
/// [`TripleStore`].
///
/// Sparse entity ids are mapped to a contiguous index space `[0, n)`. All
/// public results are keyed by the entity ids.
pub struct GraphView {
    /// Dense to sparse: the ids, ascending.
    nodes: Vec<EntityLiteralId>,
    /// Sparse to dense.
    id_to_idx: HashMap<EntityLiteralId, usize>,
    out_ptr: Vec<usize>,
    out_adj: Vec<usize>,
    in_ptr: Vec<usize>,
    in_adj: Vec<usize>,
}

impl View for GraphView {
    type V = Digraph;

    closed spec fn view(&self) -> Digraph {
        Digraph {
            nodes: self.nodes@.to_set(),
            edges: Set::new(
                |e: (u32, u32)|
                    exists|u: int, v: int| #[trigger] self.dense_edge(u, v) && self.nodes@[u] == e.0 && self.nodes@[v] == e.1,
            ),
        }
    }
}

/// Rows from an ascending list of index pairs.
fn build_rows(n: usize, edges: &Vec<(usize, usize)>) -> (r: (Vec<usize>, Vec<usize>))
    requires
        ascending(edges@),
        forall|k: int| 0 <= k < edges.len() ==> (#[trigger] edges@[k]).0 < n && edges@[k].1 < n,
        n < usize::MAX,
    ensures
        csr_wf(n as int, r.0@, r.1@),
        r.1@.len() == edges@.len(),
        forall|u: int, v: int| 0 <= u < n && 0 <= v < n ==> (#[trigger] csr_edge(r.0@, r.1@, u, v) <==> edges@.contains((u as usize, v as usize))),
{
    let m: usize = edges.len();
    let mut ptr: Vec<usize> = Vec::new();
    let mut adj: Vec<usize> = Vec::new();
    ptr.push(0);
    let mut u: usize = 0;
    let mut e: usize = 0;
    while u < n
        invariant
            u <= n,
            e <= m,
            m == edges.len(),
            ascending(edges@),
            forall|k: int| 0 <= k < edges.len() ==> (#[trigger] edges@[k]).0 < n && edges@[k].1 < n,
            ptr.len() == u + 1,
            ptr@[0] == 0,
            ptr@[u as int] == e,
            adj.len() == e,
            forall|i: int, j: int| 0 <= i <= j <= u ==> #[trigger] ptr@[i] <= #[trigger] ptr@[j],
            forall|k: int| 0 <= k < e ==> #[trigger] adj@[k] == edges@[k].1,
            forall|k: int| e <= k < m ==> (#[trigger] edges@[k]).0 >= u,
            forall|i: int, k: int| 0 <= i < u && ptr@[i] <= k < ptr@[i + 1] ==> (#[trigger] edges@[k]).0 == i && (#[trigger] ptr@[i]) <= k,
            forall|k: int| 0 <= k < e ==> (#[trigger] edges@[k]).0 < u && ptr@[edges@[k].0 as int] <= k < ptr@[edges@[k].0 + 1],
        decreases n - u,
    {
        let ghost start = e;
        while e < m && edges[e].0 == u
            invariant
                start <= e <= m,
                u < n,
                m == edges.len(),
                ascending(edges@),
                adj.len() == e,
                forall|k: int| 0 <= k < e ==> #[trigger] adj@[k] == edges@[k].1,
                forall|k: int| start <= k < e ==> (#[trigger] edges@[k]).0 == u,
                forall|k: int| e <= k < m ==> (#[trigger] edges@[k]).0 >= u,
            decreases m - e,
        {
            adj.push(edges[e].1);
            e = e + 1;
        }
        proof {
            assert forall|k: int| e <= k < m implies (#[trigger] edges@[k]).0 >= u + 1 by {
                assert(edges@[e as int].rank() <= edges@[k].rank());
            }
        }
        let ghost ptr0 = ptr@;
        ptr.push(e);
        proof {
            assert forall|i: int, k: int| 0 <= i < u + 1 && ptr@[i] <= k < ptr@[i + 1] implies (#[trigger] edges@[k]).0 == i && (#[trigger] ptr@[i]) <= k by {
                if i < u {
                    assert(ptr0[i] == ptr@[i] && ptr0[i + 1] == ptr@[i + 1]);
                    assert(edges@[k].0 == i && ptr0[i] <= k);
                }
            }
            assert forall|k: int| 0 <= k < e implies (#[trigger] edges@[k]).0 < u + 1 && ptr@[edges@[k].0 as int] <= k < ptr@[edges@[k].0 + 1] by {
                if k < start {
                    let i = edges@[k].0 as int;
                    assert(ptr0[i] == ptr@[i] && ptr0[i + 1] == ptr@[i + 1]);
                }
            }
        }
        u = u + 1;
    }
    proof {
        assert(e == m) by {
            if e < m {
                assert(edges@[e as int].0 >= u);
            }
        }
        assert forall|w: int, j: int, k: int|
            0 <= w < n && ptr@[w] <= j < k < ptr@[w + 1] implies #[trigger] row_at(ptr@, adj@, w, j) < #[trigger] row_at(ptr@, adj@, w, k) by {
            assert(ptr@[w + 1] <= ptr@[n as int]);
            assert(edges@[j].0 == w && edges@[k].0 == w && ptr@[w] <= j && ptr@[w] <= k);
            assert(edges@[j].rank() < edges@[k].rank());
            assert(adj@[j] == edges@[j].1 && adj@[k] == edges@[k].1);
        }
        assert forall|a: int, b: int| 0 <= a < n && 0 <= b < n implies (#[trigger] csr_edge(ptr@, adj@, a, b) <==> edges@.contains((a as usize, b as usize))) by {
            if csr_edge(ptr@, adj@, a, b) {
                let k = choose|k: int| ptr@[a] <= k < ptr@[a + 1] && #[trigger] row_at(ptr@, adj@, a, k) == b;
                assert(ptr@[a + 1] <= ptr@[n as int]);
                assert(edges@[k].0 == a && ptr@[a] <= k);
                assert(adj@[k] == edges@[k].1);
                assert(edges@[k] == (a as usize, b as usize));
            }
            if edges@.contains((a as usize, b as usize)) {
                let k = choose|k: int| 0 <= k < edges@.len() && edges@[k] == (a as usize, b as usize);
                assert(edges@[k].0 == a);
                assert(adj@[k] == edges@[k].1);
                assert(row_at(ptr@, adj@, a, k) == b);
            }
        }
    }
    (ptr, adj)
}

/// The ids of a row are the ascending list of what the row stands for.
proof fn lemma_row(nodes: Seq<u32>, ptr: Seq<usize>, adj: Seq<usize>, u: int, ids: Seq<u32>, set: Set<u32>)
    requires
        ascending(nodes),
        csr_wf(nodes.len() as int, ptr, adj),
        0 <= u < nodes.len(),
        ids.len() == ptr[u + 1] - ptr[u],
        forall|k: int| 0 <= k < ids.len() ==> #[trigger] ids[k] == nodes[adj[ptr[u] + k] as int],
        forall|x: u32| #[trigger] set.contains(x) <==> exists|v: int| 0 <= v < nodes.len() && #[trigger] csr_edge(ptr, adj, u, v) && nodes[v] == x,
    ensures
        lists(ids, set),
        set.finite(),
        set.len() == ids.len(),
{
    let n = nodes.len() as int;
    assert(ptr[u] <= ptr[u + 1] <= ptr[n]);
    assert forall|j: int, k: int| 0 <= j < k < ids.len() implies (#[trigger] ids[j]).rank() < (#[trigger] ids[k]).rank() by {
        assert(row_at(ptr, adj, u, ptr[u] + j) < row_at(ptr, adj, u, ptr[u] + k));
        assert(adj[ptr[u] + k] < n);
        assert(nodes[adj[ptr[u] + j] as int].rank() < nodes[adj[ptr[u] + k] as int].rank());
    }
    assert forall|x: u32| #[trigger] set.contains(x) <==> ids.contains(x) by {
        if set.contains(x) {
            let v = choose|v: int| 0 <= v < nodes.len() && #[trigger] csr_edge(ptr, adj, u, v) && nodes[v] == x;
            let k = choose|k: int| ptr[u] <= k < ptr[u + 1] && #[trigger] row_at(ptr, adj, u, k) == v;
            assert(ids[k - ptr[u]] == x);
        }
        if ids.contains(x) {
            let k = choose|k: int| 0 <= k < ids.len() && ids[k] == x;
            let v = adj[ptr[u] + k] as int;
            assert(adj[ptr[u] + k] < n);
            assert(row_at(ptr, adj, u, ptr[u] + k) == v);
            assert(csr_edge(ptr, adj, u, v));
        }
    }
    lemma_lists_len(ids, set);
}

impl GraphView {
    /// The out-rows hold the edge from index `u` to index `v`.
    pub closed spec fn dense_edge(&self, u: int, v: int) -> bool {
        &&& 0 <= u < self.nodes@.len()
        &&& 0 <= v < self.nodes@.len()
        &&& csr_edge(self.out_ptr@, self.out_adj@, u, v)
    }

    /// Ids and indexes correspond, and both adjacencies hold the same edges.
    pub closed spec fn wf(&self) -> bool {
        let n = self.nodes@.len() as int;
        &&& n < usize::MAX
        &&& ascending(self.nodes@)
        &&& csr_wf(n, self.out_ptr@, self.out_adj@)
        &&& csr_wf(n, self.in_ptr@, self.in_adj@)
        &&& self.in_adj@.len() == self.out_adj@.len()
        &&& forall|u: int, v: int|
            0 <= u < n && 0 <= v < n ==> (#[trigger] csr_edge(self.in_ptr@, self.in_adj@, v, u) <==> csr_edge(self.out_ptr@, self.out_adj@, u, v))
        &&& forall|x: u32| #[trigger] self.id_to_idx@.contains_key(x) <==> self.nodes@.contains(x)
        &&& forall|i: int| 0 <= i < n ==> self.id_to_idx@.contains_key(#[trigger] self.nodes@[i]) && self.id_to_idx@[self.nodes@[i]] == i
    }

    /// An edge between two ids is an edge between their indexes.
    proof fn lemma_edge(&self, u: int, v: int)
        requires
            self.wf(),
            0 <= u < self.nodes@.len(),
            0 <= v < self.nodes@.len(),
        ensures
            self@.edges.contains((self.nodes@[u], self.nodes@[v])) <==> self.dense_edge(u, v),
    {
        if self@.edges.contains((self.nodes@[u], self.nodes@[v])) {
            let (a, b) = choose|a: int, b: int| #[trigger] self.dense_edge(a, b) && self.nodes@[a] == self.nodes@[u] && self.nodes@[b] == self.nodes@[v];
            assert(self.id_to_idx@[self.nodes@[a]] == a);
            assert(self.id_to_idx@[self.nodes@[u]] == u);
            assert(self.id_to_idx@[self.nodes@[b]] == b);
            assert(self.id_to_idx@[self.nodes@[v]] == v);
        }
    }

    /// Edges join nodes.
    pub proof fn lemma_edges_join_nodes(&self)
        requires
            self.wf(),
        ensures
            forall|a: u32, b: u32| #[trigger] self@.edges.contains((a, b)) ==> self@.nodes.contains(a) && self@.nodes.contains(b),
            self@.nodes.finite(),
    {
        vstd::seq_lib::seq_to_set_is_finite(self.nodes@);
    }

    /// What row `u` of the out-adjacency stands for.
    proof fn lemma_out_row(&self, u: int, ids: Seq<u32>)
        requires
            self.wf(),
            0 <= u < self.nodes@.len(),
            ids.len() == self.out_ptr@[u + 1] - self.out_ptr@[u],
            forall|k: int| 0 <= k < ids.len() ==> #[trigger] ids[k] == self.nodes@[self.out_adj@[self.out_ptr@[u] + k] as int],
        ensures
            lists(ids, successors(self@, self.nodes@[u])),
            successors(self@, self.nodes@[u]).finite(),
            successors(self@, self.nodes@[u]).len() == ids.len(),
    {
        let set = successors(self@, self.nodes@[u]);
        assert forall|x: u32| #[trigger] set.contains(x) <==> exists|v: int| 0 <= v < self.nodes@.len() && #[trigger] csr_edge(self.out_ptr@, self.out_adj@, u, v) && self.nodes@[v] == x by {
            if set.contains(x) {
                let (a, v) = choose|a: int, v: int| #[trigger] self.dense_edge(a, v) && self.nodes@[a] == self.nodes@[u] && self.nodes@[v] == x;
                assert(self.id_to_idx@[self.nodes@[a]] == a);
                assert(self.id_to_idx@[self.nodes@[u]] == u);
                assert(csr_edge(self.out_ptr@, self.out_adj@, u, v));
            }
            if exists|v: int| 0 <= v < self.nodes@.len() && #[trigger] csr_edge(self.out_ptr@, self.out_adj@, u, v) && self.nodes@[v] == x {
                let v = choose|v: int| 0 <= v < self.nodes@.len() && #[trigger] csr_edge(self.out_ptr@, self.out_adj@, u, v) && self.nodes@[v] == x;
                assert(self.dense_edge(u, v));
            }
        }
        lemma_row(self.nodes@, self.out_ptr@, self.out_adj@, u, ids, set);
    }

    /// What row `u` of the in-adjacency stands for.
    proof fn lemma_in_row(&self, u: int, ids: Seq<u32>)
        requires
            self.wf(),
            0 <= u < self.nodes@.len(),
            ids.len() == self.in_ptr@[u + 1] - self.in_ptr@[u],
            forall|k: int| 0 <= k < ids.len() ==> #[trigger] ids[k] == self.nodes@[self.in_adj@[self.in_ptr@[u] + k] as int],
        ensures
            lists(ids, predecessors(self@, self.nodes@[u])),
            predecessors(self@, self.nodes@[u]).finite(),
            predecessors(self@, self.nodes@[u]).len() == ids.len(),
    {
        let set = predecessors(self@, self.nodes@[u]);
        assert forall|x: u32| #[trigger] set.contains(x) <==> exists|v: int| 0 <= v < self.nodes@.len() && #[trigger] csr_edge(self.in_ptr@, self.in_adj@, u, v) && self.nodes@[v] == x by {
            if set.contains(x) {
                let (v, a) = choose|v: int, a: int| #[trigger] self.dense_edge(v, a) && self.nodes@[v] == x && self.nodes@[a] == self.nodes@[u];
                assert(self.id_to_idx@[self.nodes@[a]] == a);
                assert(self.id_to_idx@[self.nodes@[u]] == u);
                assert(csr_edge(self.in_ptr@, self.in_adj@, u, v));
            }
            if exists|v: int| 0 <= v < self.nodes@.len() && #[trigger] csr_edge(self.in_ptr@, self.in_adj@, u, v) && self.nodes@[v] == x {
                let v = choose|v: int| 0 <= v < self.nodes@.len() && #[trigger] csr_edge(self.in_ptr@, self.in_adj@, u, v) && self.nodes@[v] == x;
                assert(self.dense_edge(v, u));
            }
        }
        lemma_row(self.nodes@, self.in_ptr@, self.in_adj@, u, ids, set);
    }

    /// Build the graph of a triple store.
    ///
    /// Every triple `(s, p, o)` becomes a directed edge from `s` to `o`; two
    /// triples that differ in the predicate only give one edge.
    pub fn from_store(store: &TripleStore) -> (g: GraphView)
        requires
            store.wf(),
            store@.len() < usize::MAX / 2,
        ensures
            g.wf(),
            g@ == graph_of(store@),
            projection(g@, store@),
    {
        let triples: Vec<IdTriple> = store.iter_all();
        let mut ends: Vec<u32> = Vec::new();
        let mut i: usize = 0;
        while i < triples.len()
            invariant
                i <= triples.len(),
                ends.len() == 2 * i,
                triples.len() < usize::MAX / 2,
                forall|k: int| 0 <= k < i ==> ends@[2 * k] == (#[trigger] triples@[k]).sub && ends@[2 * k + 1] == triples@[k].obj,
                forall|k: int| 0 <= k < ends.len() ==> triples@[k / 2].sub == #[trigger] ends@[k] || triples@[k / 2].obj == ends@[k],
            decreases triples.len() - i,
        {
            ends.push(triples[i].sub);
            ends.push(triples[i].obj);
            i = i + 1;
        }
        let nodes: Vec<u32> = sort_dedup(&ends);
        proof {
            lemma_lists_len(nodes@, ends@.to_set());
            vstd::seq_lib::seq_to_set_is_finite(ends@);
            ends@.lemma_cardinality_of_set();
        }
        let n: usize = nodes.len();
        let mut id_to_idx: HashMap<u32, usize> = HashMap::new();
        let mut j: usize = 0;
        while j < n
            invariant
                j <= n,
                n == nodes.len(),
                ascending(nodes@),
                forall|x: u32| #[trigger] id_to_idx@.contains_key(x) <==> nodes@.subrange(0, j as int).contains(x),
                forall|k: int| 0 <= k < j ==> id_to_idx@.contains_key(#[trigger] nodes@[k]) && id_to_idx@[nodes@[k]] == k,
            decreases n - j,
        {
            let ghost m0 = id_to_idx@;
            id_to_idx.insert(nodes[j], j);
            proof {
                let s0 = nodes@.subrange(0, j as int);
                let s1 = nodes@.subrange(0, j + 1);
                assert(s1 =~= s0.push(nodes@[j as int]));
                assert forall|x: u32| #[trigger] id_to_idx@.contains_key(x) <==> s1.contains(x) by {
                    if s0.contains(x) {
                        let k = choose|k: int| 0 <= k < s0.len() && s0[k] == x;
                        assert(s1[k] == x);
                    }
                    assert(s1[j as int] == nodes@[j as int]);
                    if s1.contains(x) && x != nodes@[j as int] {
                        let k = choose|k: int| 0 <= k < s1.len() && s1[k] == x;
                        assert(s0[k] == x);
                    }
                }
                assert forall|k: int| 0 <= k < j implies id_to_idx@.contains_key(#[trigger] nodes@[k]) && id_to_idx@[nodes@[k]] == k by {
                    assert(nodes@[k].rank() < nodes@[j as int].rank());
                    assert(m0.contains_key(nodes@[k]) && m0[nodes@[k]] == k);
                }
            }
            j = j + 1;
        }
        assert(nodes@.subrange(0, n as int) =~= nodes@);
        let mut fwd: Vec<(usize, usize)> = Vec::new();
        let mut bwd: Vec<(usize, usize)> = Vec::new();
        let mut i2: usize = 0;
        while i2 < triples.len()
            invariant
                i2 <= triples.len(),
                n == nodes.len(),
                fwd.len() == i2,
                bwd.len() == i2,
                ends.len() == 2 * triples.len(),
                forall|k: int| 0 <= k < triples.len() ==> ends@[2 * k] == (#[trigger] triples@[k]).sub && ends@[2 * k + 1] == triples@[k].obj,
                forall|x: u32| #[trigger] nodes@.contains(x) <==> ends@.contains(x),
                forall|x: u32| #[trigger] id_to_idx@.contains_key(x) <==> nodes@.contains(x),
                forall|k: int| 0 <= k < n ==> id_to_idx@.contains_key(#[trigger] nodes@[k]) && id_to_idx@[nodes@[k]] == k,
                forall|k: int| 0 <= k < i2 ==> {
                    &&& (#[trigger] fwd@[k]).0 < n
                    &&& fwd@[k].1 < n
                    &&& nodes@[fwd@[k].0 as int] == triples@[k].sub
                    &&& nodes@[fwd@[k].1 as int] == triples@[k].obj
                    &&& bwd@[k] == (fwd@[k].1, fwd@[k].0)
                },
            decreases triples.len() - i2,
        {
            let t: IdTriple = triples[i2];
            proof {
                assert(ends@[2 * i2] == t.sub);
                assert(ends@.contains(t.sub));
                assert(nodes@.contains(t.sub));
                assert(ends@[2 * i2 + 1] == t.obj);
                assert(ends@.contains(t.obj));
                assert(nodes@.contains(t.obj));
                assert(id_to_idx@.contains_key(t.sub) && id_to_idx@.contains_key(t.obj));
                let ks = choose|k: int| 0 <= k < nodes@.len() && nodes@[k] == t.sub;
                let ko = choose|k: int| 0 <= k < nodes@.len() && nodes@[k] == t.obj;
                assert(id_to_idx@[nodes@[ks]] == ks);
                assert(id_to_idx@[nodes@[ko]] == ko);
            }
            let s: usize = *id_to_idx.get(&t.sub).unwrap();
            let o: usize = *id_to_idx.get(&t.obj).unwrap();
            fwd.push((s, o));
            bwd.push((o, s));
            i2 = i2 + 1;
        }
        let fwd_sorted: Vec<(usize, usize)> = sort_dedup(&fwd);
        let bwd_sorted: Vec<(usize, usize)> = sort_dedup(&bwd);
        proof {
            assert forall|k: int| 0 <= k < fwd_sorted.len() implies (#[trigger] fwd_sorted@[k]).0 < n && fwd_sorted@[k].1 < n by {
                assert(fwd_sorted@.contains(fwd_sorted@[k]));
                let l = choose|l: int| 0 <= l < fwd@.len() && fwd@[l] == fwd_sorted@[k];
                assert(fwd@[l].0 < n);
            }
            assert forall|k: int| 0 <= k < bwd_sorted.len() implies (#[trigger] bwd_sorted@[k]).0 < n && bwd_sorted@[k].1 < n by {
                assert(bwd_sorted@.contains(bwd_sorted@[k]));
                let l = choose|l: int| 0 <= l < bwd@.len() && bwd@[l] == bwd_sorted@[k];
                assert(fwd@[l].0 < n);
            }
            assert forall|a: usize, b: usize| #[trigger] fwd@.contains((a, b)) <==> bwd@.contains((b, a)) by {
                if fwd@.contains((a, b)) {
                    let l = choose|l: int| 0 <= l < fwd@.len() && fwd@[l] == (a, b);
                    assert(bwd@[l] == (b, a));
                }
                if bwd@.contains((b, a)) {
                    let l = choose|l: int| 0 <= l < bwd@.len() && bwd@[l] == (b, a);
                    assert(fwd@[l].0 == a && fwd@[l].1 == b);
                    assert(fwd@[l] == (a, b));
                }
            }
            lemma_swapped_len(fwd_sorted@, bwd_sorted@);
        }
        let (out_ptr, out_adj) = build_rows(n, &fwd_sorted);
        let (in_ptr, in_adj) = build_rows(n, &bwd_sorted);
        let g = GraphView { nodes, id_to_idx, out_ptr, out_adj, in_ptr, in_adj };
        proof {
            assert forall|u: int, v: int| 0 <= u < n && 0 <= v < n implies (#[trigger] csr_edge(g.in_ptr@, g.in_adj@, v, u) <==> csr_edge(g.out_ptr@, g.out_adj@, u, v)) by {
                assert(fwd@.contains((u as usize, v as usize)) <==> bwd@.contains((v as usize, u as usize)));
                assert(fwd_sorted@.contains((u as usize, v as usize)) <==> fwd@.contains((u as usize, v as usize)));
                assert(bwd_sorted@.contains((v as usize, u as usize)) <==> bwd@.contains((v as usize, u as usize)));
            }
            assert(g.wf());
            let target = graph_of(store@);
            assert forall|x: u32| #[trigger] g@.nodes.contains(x) <==> target.nodes.contains(x) by {
                if g@.nodes.contains(x) {
                    assert(g.nodes@.contains(x));
                    assert(ends@.contains(x));
                    let k = choose|k: int| 0 <= k < ends@.len() && ends@[k] == x;
                    assert(triples@.contains(triples@[k / 2]));
                    assert(store@.contains(triples@[k / 2]));
                }
                if target.nodes.contains(x) {
                    let t = choose|t: IdTriple| #[trigger] store@.contains(t) && (t.sub == x || t.obj == x);
                    assert(triples@.contains(t));
                    let k = choose|k: int| 0 <= k < triples@.len() && triples@[k] == t;
                    assert(ends@[2 * k] == t.sub && ends@[2 * k + 1] == t.obj);
                    assert(ends@.contains(x));
                    assert(g.nodes@.contains(x));
                }
            }
            assert forall|e: (u32, u32)| #[trigger] g@.edges.contains(e) <==> target.edges.contains(e) by {
                if g@.edges.contains(e) {
                    let (u, v) = choose|u: int, v: int| #[trigger] g.dense_edge(u, v) && g.nodes@[u] == e.0 && g.nodes@[v] == e.1;
                    assert(fwd_sorted@.contains((u as usize, v as usize)));
                    assert(fwd@.contains((u as usize, v as usize)));
                    let l = choose|l: int| 0 <= l < fwd@.len() && fwd@[l] == (u as usize, v as usize);
                    assert(fwd@[l].0 < n);
                    assert(triples@.contains(triples@[l]));
                    assert(store@.contains(triples@[l]));
                    assert(triples@[l] == spo_triple(e.0, triples@[l].pred, e.1));
                }
                if target.edges.contains(e) {
                    let p = choose|p: u32| store@.contains(#[trigger] spo_triple(e.0, p, e.1));
                    let t = spo_triple(e.0, p, e.1);
                    assert(triples@.contains(t));
                    let l = choose|l: int| 0 <= l < triples@.len() && triples@[l] == t;
                    assert(fwd@[l].0 < n);
                    let (u, v) = (fwd@[l].0 as int, fwd@[l].1 as int);
                    assert(fwd@[l] == (u as usize, v as usize));
                    assert(fwd@.contains((u as usize, v as usize)));
                    assert(fwd_sorted@.contains((u as usize, v as usize)));
                    assert(csr_edge(g.out_ptr@, g.out_adj@, u, v));
                    assert(g.dense_edge(u, v));
                }
            }
            assert(g@.nodes =~= target.nodes);
            assert(g@.edges =~= target.edges);
            lemma_projection(g@, store@);
        }
        g
    }

    /// Number of nodes in the graph.
    pub fn node_count(&self) -> (n: usize)
        requires
            self.wf(),
        ensures
            n == self@.nodes.len(),
    {
        proof {
            lemma_lists_len(self.nodes@, self@.nodes);
        }
        self.nodes.len()
    }

    /// Out-degree of `id`: the number of edges that leave it. `None` if `id`
    /// is not a node.
    pub fn out_degree(&self, id: EntityLiteralId) -> (r: Option<usize>)
        requires
            self.wf(),
        ensures
            r is Some <==> self@.nodes.contains(id),
            r matches Some(d) ==> d == successors(self@, id).len(),
    {
        match self.id_to_idx.get(&id) {
            None => None,
            Some(iref) => {
                let i: usize = *iref;
                proof {
                    assert(self.nodes@.contains(id));
                    let k = choose|k: int| 0 <= k < self.nodes@.len() && self.nodes@[k] == id;
                    assert(self.id_to_idx@[self.nodes@[k]] == k);
                    let ids = Seq::new((self.out_ptr@[k + 1] - self.out_ptr@[k]) as nat, |j: int| self.nodes@[self.out_adj@[self.out_ptr@[k] + j] as int]);
                    assert(self.out_ptr@[k] <= self.out_ptr@[k + 1]);
                    self.lemma_out_row(k, ids);
                }
                Some(self.out_ptr[i + 1] - self.out_ptr[i])
            },
        }
    }

    /// In-degree of `id`: the number of edges that enter it. `None` if `id` is
    /// not a node.
    pub fn in_degree(&self, id: EntityLiteralId) -> (r: Option<usize>)
        requires
            self.wf(),
        ensures
            r is Some <==> self@.nodes.contains(id),
            r matches Some(d) ==> d == predecessors(self@, id).len(),
    {
        match self.id_to_idx.get(&id) {
            None => None,
            Some(iref) => {
                let i: usize = *iref;
                proof {
                    assert(self.nodes@.contains(id));
                    let k = choose|k: int| 0 <= k < self.nodes@.len() && self.nodes@[k] == id;
                    assert(self.id_to_idx@[self.nodes@[k]] == k);
                    let ids = Seq::new((self.in_ptr@[k + 1] - self.in_ptr@[k]) as nat, |j: int| self.nodes@[self.in_adj@[self.in_ptr@[k] + j] as int]);
                    assert(self.in_ptr@[k] <= self.in_ptr@[k + 1]);
                    self.lemma_in_row(k, ids);
                }
                Some(self.in_ptr[i + 1] - self.in_ptr[i])
            },
        }
    }
}

/// Swapping the sides of all pairs keeps their number.
proof fn lemma_swapped_len(a: Seq<(usize, usize)>, b: Seq<(usize, usize)>)
    requires
        ascending(a),
        ascending(b),
        forall|x: usize, y: usize| #[trigger] a.contains((x, y)) <==> b.contains((y, x)),
    ensures
        a.len() == b.len(),
{
    let f = |q: (usize, usize)| (q.1, q.0);
    assert(a.no_duplicates() && b.no_duplicates());
    a.unique_seq_to_set();
    b.unique_seq_to_set();
    vstd::seq_lib::seq_to_set_is_finite(a);
    assert(a.to_set().map(f) =~= b.to_set()) by {
        assert forall|q: (usize, usize)| a.to_set().map(f).contains(q) <==> b.to_set().contains(q) by {
            if b.contains(q) {
                assert(a.contains((q.1, q.0)));
                assert(a.to_set().contains((q.1, q.0)));
                assert(f((q.1, q.0)) == q);
            }
            if a.to_set().map(f).contains(q) {
                let w = choose|w: (usize, usize)| a.to_set().contains(w) && f(w) == q;
                assert(a.contains((w.0, w.1)));
            }
        }
    }
    vstd::set_lib::lemma_map_size(a.to_set(), b.to_set(), f);
}

} // verus!
