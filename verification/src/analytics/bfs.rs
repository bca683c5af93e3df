//! Degrees of all nodes, breadth-first search and shortest paths.

use super::graph::{distance_is, is_walk, joined_at, joins, reaches, reaches_in};
use super::graph::{predecessors, successors, Digraph};
use super::graph::{lemma_distinct_below, lemma_reaches_in_step, lemma_reaches_self};
use super::{csr_edge, csr_wf, row_at, GraphView};
use crate::model::EntityLiteralId;
use crate::order::{lemma_lists_len, lists};
use std::collections::HashMap;
use vstd::prelude::*;

verus! {

broadcast use vstd::std_specs::hash::group_hash_axioms;

/// A shortest walk from `a` to `b`.
pub open spec fn shortest_walk(e: Set<(u32, u32)>, p: Seq<u32>, a: u32, b: u32) -> bool {
    &&& joins(e, p, a, b)
    &&& forall|q: Seq<u32>| #[trigger] joins(e, q, a, b) ==> p.len() <= q.len()
}

/// The distances from a node, for every node that can be reached; none if it is no node.
pub open spec fn distances_are(g: Digraph, src: u32, r: Option<Map<u32, u32>>) -> bool {
    &&& r is Some <==> g.nodes.contains(src)
    &&& r matches Some(m) ==> forall|x: u32| #[trigger] m.contains_key(x) <==> reaches(g.edges, src, x)
    &&& r matches Some(m) ==> forall|x: u32| #[trigger] m.contains_key(x) ==> distance_is(g.edges, src, x, m[x] as int)
}

/// A shortest path from one node to another, if there is any.
pub open spec fn path_is(g: Digraph, src: u32, dst: u32, r: Option<Seq<u32>>) -> bool {
    &&& r is Some <==> g.nodes.contains(src) && g.nodes.contains(dst) && reaches(g.edges, src, dst)
    &&& r matches Some(p) ==> shortest_walk(g.edges, p, src, dst)
}

/// A shortest walk passes each node once: what lies between two visits could be left out.
proof fn lemma_shortest_is_simple(e: Set<(u32, u32)>, p: Seq<u32>, a: u32, b: u32)
    requires
        shortest_walk(e, p, a, b),
    ensures
        p.no_duplicates(),
{
    assert forall|i: int, j: int| 0 <= i < j < p.len() implies p[i] != p[j] by {
        if p[i] == p[j] {
            let q = p.take(i + 1) + p.skip(j + 1);
            assert forall|k: int| 0 <= k < q.len() - 1 implies #[trigger] joined_at(e, q, k) by {
                if k < i {
                    assert(joined_at(e, p, k));
                    assert(q[k] == p[k] && q[k + 1] == p[k + 1]);
                } else {
                    assert(joined_at(e, p, k + j - i));
                    assert(q[k] == p[k + j - i] && q[k + 1] == p[k + 1 + j - i]);
                }
            }
            assert(q[0] == p[0]);
            assert(q[q.len() - 1] == p[p.len() - 1]) by {
                if j == p.len() - 1 {
                    assert(q[q.len() - 1] == p[i]);
                } else {
                    assert(q[q.len() - 1] == p[p.len() - 1]);
                }
            }
            assert(joins(e, q, a, b));
            assert(q.len() < p.len());
        }
    }
}

/// A path starts and ends where it is to, goes along edges, and passes no node twice. It
/// has as many steps as the distance says, and is the node itself from a node to itself.
/// There is none exactly if an end is no node or the target has no distance.
pub proof fn law_path_is_shortest(g: Digraph, src: u32, dst: u32, path: Option<Seq<u32>>, dist: Option<Map<u32, u32>>)
    requires
        path_is(g, src, dst, path),
        distances_are(g, src, dist),
    ensures
        path is None <==> !g.nodes.contains(src) || !g.nodes.contains(dst) || !dist->0.contains_key(dst),
        path matches Some(p) ==> {
            &&& p.len() > 0
            &&& p[0] == src
            &&& p.last() == dst
            &&& forall|i: int| 0 <= i < p.len() - 1 ==> predecessors(g, p[i + 1]).contains(#[trigger] p[i])
            &&& p.no_duplicates()
            &&& p.len() - 1 == dist->0[dst]
            &&& src == dst ==> p == seq![src]
        },
{
    if let Some(p) = path {
        let e = g.edges;
        lemma_shortest_is_simple(e, p, src, dst);
        assert forall|i: int| 0 <= i < p.len() - 1 implies predecessors(g, p[i + 1]).contains(#[trigger] p[i]) by {
            assert(joined_at(e, p, i));
        }
        let m = dist->0;
        assert(m.contains_key(dst));
        let d = m[dst] as int;
        assert(distance_is(e, src, dst, d));
        let q = choose|q: Seq<u32>| joins(e, q, src, dst) && q.len() == d + 1;
        assert(joins(e, q, src, dst));
        assert(joins(e, p, src, dst));
        if src == dst {
            let one = seq![src];
            assert(joins(e, one, src, dst));
            assert(p =~= one);
        }
    }
}

/// What a breadth-first search from index `src` has found: `order` lists the
/// discovered indexes, of which the first `done` have had their edges followed.
spec fn bfs_inv(g: GraphView, src: int, order: Seq<usize>, done: int, dist: Seq<u32>, prev: Seq<usize>) -> bool {
    let n = g.nodes@.len() as int;
    &&& dist.len() == n
    &&& prev.len() == n
    &&& 0 <= src < n
    &&& 0 <= done <= order.len()
    &&& order.len() > 0
    &&& order[0] == src
    &&& dist[src] == 0
    &&& order.no_duplicates()
    &&& forall|i: int| 0 <= i < order.len() ==> #[trigger] order[i] < n && dist[order[i] as int] <= i
    &&& forall|v: int| 0 <= v < n ==> ((#[trigger] dist[v]) != u32::MAX <==> order.contains(v as usize))
    &&& forall|i: int, j: int| 0 <= i <= j < order.len() ==> dist[#[trigger] order[i] as int] <= dist[#[trigger] order[j] as int]
    &&& done < order.len() ==> forall|j: int| 0 <= j < order.len() ==> dist[#[trigger] order[j] as int] <= dist[order[done] as int] + 1
    &&& forall|v: int| 0 <= v < n && (#[trigger] dist[v]) != u32::MAX ==> reaches_in(g@.edges, g.nodes@[src], g.nodes@[v], dist[v] as int)
    &&& forall|v: int| 0 <= v < n && (#[trigger] dist[v]) != u32::MAX && v != src ==> {
        &&& prev[v] < n
        &&& dist[prev[v] as int] != u32::MAX
        &&& dist[v] == dist[prev[v] as int] + 1
        &&& g.dense_edge(prev[v] as int, v)
    }
    &&& forall|i: int, v: int| 0 <= i < done && #[trigger] g.dense_edge(order[i] as int, v) ==> dist[v] != u32::MAX && dist[v] <= dist[order[i] as int] + 1
}

impl GraphView {
    /// The length of any walk bounds the distance that a finished search found.
    proof fn lemma_bfs_minimal(&self, src: int, order: Seq<usize>, dist: Seq<u32>, prev: Seq<usize>, p: Seq<u32>, k: int)
        requires
            self.wf(),
            bfs_inv(*self, src, order, order.len() as int, dist, prev),
            is_walk(self@.edges, p),
            p[0] == self.nodes@[src],
            0 <= k < p.len(),
        ensures
            exists|v: int| 0 <= v < self.nodes@.len() && self.nodes@[v] == p[k] && (#[trigger] dist[v]) != u32::MAX && dist[v] <= k,
        decreases k,
    {
        if k == 0 {
            assert(dist[src] == 0);
            assert(order.contains(src as usize));
        } else {
            self.lemma_bfs_minimal(src, order, dist, prev, p, k - 1);
            let u = choose|u: int| 0 <= u < self.nodes@.len() && self.nodes@[u] == p[k - 1] && (#[trigger] dist[u]) != u32::MAX && dist[u] <= k - 1;
            assert(joined_at(self@.edges, p, k - 1));
            let (a, b) = choose|a: int, b: int| #[trigger] self.dense_edge(a, b) && self.nodes@[a] == p[k - 1] && self.nodes@[b] == p[k];
            assert(self.id_to_idx@[self.nodes@[a]] == a && self.id_to_idx@[self.nodes@[u]] == u);
            assert(order.contains(u as usize));
            let i = choose|i: int| 0 <= i < order.len() && order[i] == u as usize;
            assert(self.dense_edge(order[i] as int, b));
            assert(dist[b] != u32::MAX && dist[b] <= k);
        }
    }

    /// Discovering index `v` over an edge from the index at place `head`.
    #[verifier::rlimit(40)]
    proof fn lemma_discover(&self, src: int, order: Seq<usize>, head: int, dist: Seq<u32>, prev: Seq<usize>, v: int)
        requires
            self.wf(),
            bfs_inv(*self, src, order, head, dist, prev),
            head < order.len(),
            self.nodes@.len() <= u32::MAX,
            self.dense_edge(order[head] as int, v),
            dist[v] == u32::MAX,
        ensures
            dist[order[head] as int] + 1 < u32::MAX,
            order.len() < self.nodes@.len(),
            bfs_inv(*self, src, order.push(v as usize), head, dist.update(v, (dist[order[head] as int] + 1) as u32), prev.update(v, order[head])),
    {
        let n = self.nodes@.len() as int;
        let u = order[head];
        let order1 = order.push(v as usize);
        assert(!order.contains(v as usize)) by {
            assert(dist[v] == u32::MAX);
        }
        assert(order1.no_duplicates());
        lemma_distinct_below(order1, n as nat);
        assert(dist[order[head] as int] <= head);
        let dist1 = dist.update(v, (dist[u as int] + 1) as u32);
        let prev1 = prev.update(v, u);
        assert forall|i: int| 0 <= i < order.len() implies #[trigger] order1[i] == order[i] && order[i] != v && dist1[order[i] as int] == dist[order[i] as int] by {
        }
        assert(order1[order.len() as int] == v as usize);
        assert forall|w: int| 0 <= w < n implies ((#[trigger] dist1[w]) != u32::MAX <==> order1.contains(w as usize)) by {
            if w == v {
                assert(order1.contains(v as usize));
            } else {
                assert(dist1[w] == dist[w]);
                if order.contains(w as usize) {
                    let i = choose|i: int| 0 <= i < order.len() && order[i] == w as usize;
                    assert(order1[i] == w as usize);
                }
                if order1.contains(w as usize) {
                    let i = choose|i: int| 0 <= i < order1.len() && order1[i] == w as usize;
                    assert(order[i] == w as usize);
                }
            }
        }
        self.lemma_edge(u as int, v);
        lemma_reaches_in_step(self@.edges, self.nodes@[src], self.nodes@[u as int], self.nodes@[v], dist[u as int] as int);
        assert(order.contains(src as usize)) by {
            assert(order[0] == src as usize);
        }
        assert(order.contains(u));
        assert forall|w: int| 0 <= w < n && (#[trigger] dist1[w]) != u32::MAX implies reaches_in(self@.edges, self.nodes@[src], self.nodes@[w], dist1[w] as int) by {
            if w != v {
                assert(dist[w] == dist1[w]);
            }
        }
        assert forall|w: int| 0 <= w < n && (#[trigger] dist1[w]) != u32::MAX && w != src implies {
            &&& prev1[w] < n
            &&& dist1[prev1[w] as int] != u32::MAX
            &&& dist1[w] == dist1[prev1[w] as int] + 1
            &&& self.dense_edge(prev1[w] as int, w)
        } by {
            if w != v {
                assert(dist[w] == dist1[w]);
                assert(prev[w] != v);
            }
        }
        assert forall|i: int, j: int| 0 <= i <= j < order1.len() implies dist1[#[trigger] order1[i] as int] <= dist1[#[trigger] order1[j] as int] by {
            if j == order.len() && i < order.len() {
                assert(order1[i] == order[i]);
                assert(dist[order[i] as int] <= dist[order[head] as int] + 1);
            } else if i < order.len() {
                assert(order1[i] == order[i] && order1[j] == order[j]);
            }
        }
        assert forall|i: int, w: int| 0 <= i < head && #[trigger] self.dense_edge(order1[i] as int, w) implies dist1[w] != u32::MAX && dist1[w] <= dist1[order1[i] as int] + 1 by {
            assert(order1[i] == order[i]);
            assert(self.dense_edge(order[i] as int, w));
        }
    }

    /// All edges of the index at place `head` have been followed.
    #[verifier::rlimit(40)]
    proof fn lemma_advance(&self, src: int, order: Seq<usize>, head: int, dist: Seq<u32>, prev: Seq<usize>)
        requires
            self.wf(),
            bfs_inv(*self, src, order, head, dist, prev),
            head < order.len(),
            forall|j: int| self.out_ptr@[order[head] as int] <= j < self.out_ptr@[order[head] + 1] ==> dist[(#[trigger] row_at(self.out_ptr@, self.out_adj@, order[head] as int, j)) as int] != u32::MAX,
        ensures
            bfs_inv(*self, src, order, head + 1, dist, prev),
    {
        let u = order[head] as int;
        assert forall|v: int| #[trigger] self.dense_edge(u, v) implies dist[v] != u32::MAX && dist[v] <= dist[u] + 1 by {
            let j = choose|j: int| self.out_ptr@[u] <= j < self.out_ptr@[u + 1] && #[trigger] row_at(self.out_ptr@, self.out_adj@, u, j) == v;
            assert(dist[row_at(self.out_ptr@, self.out_adj@, u, j) as int] != u32::MAX);
            assert(order.contains(v as usize));
            let i = choose|i: int| 0 <= i < order.len() && order[i] == v as usize;
            assert(dist[order[i] as int] <= dist[order[head] as int] + 1);
        }
        if head + 1 < order.len() {
            assert forall|j: int| 0 <= j < order.len() implies dist[#[trigger] order[j] as int] <= dist[order[head + 1] as int] + 1 by {
                assert(dist[order[head] as int] <= dist[order[head + 1] as int]);
            }
        }
        assert forall|i: int, v: int| 0 <= i < head + 1 && #[trigger] self.dense_edge(order[i] as int, v) implies dist[v] != u32::MAX && dist[v] <= dist[order[i] as int] + 1 by {
            if i == head {
                assert(self.dense_edge(u, v));
            }
        }
    }

    /// Breadth-first distances and predecessors by index. An index that is not
    /// reached has distance `u32::MAX`.
    fn search(&self, src: usize) -> (r: (Vec<u32>, Vec<usize>, Ghost<Seq<usize>>))
        requires
            self.wf(),
            src < self.nodes@.len(),
            self.nodes@.len() <= u32::MAX,
        ensures
            bfs_inv(*self, src as int, r.2@, r.2@.len() as int, r.0@, r.1@),
    {
        let n: usize = self.nodes.len();
        let mut dist: Vec<u32> = Vec::new();
        let mut prev: Vec<usize> = Vec::new();
        let mut i: usize = 0;
        while i < n
            invariant
                i <= n,
                dist.len() == i,
                prev.len() == i,
                forall|k: int| 0 <= k < i ==> #[trigger] dist@[k] == u32::MAX,
            decreases n - i,
        {
            dist.push(u32::MAX);
            prev.push(0);
            i = i + 1;
        }
        dist.set(src, 0);
        let mut order: Vec<usize> = Vec::new();
        order.push(src);
        let mut head: usize = 0;
        proof {
            lemma_reaches_self(self@.edges, self.nodes@[src as int]);
            assert forall|v: int| 0 <= v < n implies ((#[trigger] dist@[v]) != u32::MAX <==> order@.contains(v as usize)) by {
                if v == src {
                    assert(order@[0] == src);
                }
            }
        }
        while head < order.len()
            invariant
                self.wf(),
                n == self.nodes@.len(),
                n <= u32::MAX,
                bfs_inv(*self, src as int, order@, head as int, dist@, prev@),
            decreases n - head,
        {
            proof {
                lemma_distinct_below(order@, n as nat);
            }
            let u: usize = order[head];
            let d: u32 = dist[u];
            assert(csr_wf(n as int, self.out_ptr@, self.out_adj@));
            assert(self.out_ptr@[u as int] <= self.out_ptr@[u + 1] <= self.out_ptr@[n as int]);
            let end: usize = self.out_ptr[u + 1];
            let mut k: usize = self.out_ptr[u];
            while k < end
                invariant
                    self.wf(),
                    n == self.nodes@.len(),
                    n <= u32::MAX,
                    u < n,
                    head < order.len(),
                    order@[head as int] == u,
                    dist@[u as int] == d,
                    bfs_inv(*self, src as int, order@, head as int, dist@, prev@),
                    self.out_ptr@[u as int] <= k <= end,
                    end == self.out_ptr@[u + 1],
                    end <= self.out_adj@.len(),
                    forall|j: int| self.out_ptr@[u as int] <= j < k ==> dist@[(#[trigger] row_at(self.out_ptr@, self.out_adj@, u as int, j)) as int] != u32::MAX,
                decreases end - k,
            {
                let v: usize = self.out_adj[k];
                proof {
                    assert(csr_wf(n as int, self.out_ptr@, self.out_adj@));
                    assert(self.out_adj@[k as int] < n);
                    assert(row_at(self.out_ptr@, self.out_adj@, u as int, k as int) == v);
                    assert(csr_edge(self.out_ptr@, self.out_adj@, u as int, v as int));
                    assert(self.dense_edge(u as int, v as int));
                }
                if dist[v] == u32::MAX {
                    proof {
                        self.lemma_discover(src as int, order@, head as int, dist@, prev@, v as int);
                    }
                    dist.set(v, d + 1);
                    prev.set(v, u);
                    order.push(v);
                }
                k = k + 1;
            }
            proof {
                self.lemma_advance(src as int, order@, head as int, dist@, prev@);
            }
            head = head + 1;
        }
        (dist, prev, Ghost(order@))
    }

    /// What a finished search says of distances.
    proof fn lemma_search(&self, src: int, order: Seq<usize>, dist: Seq<u32>, prev: Seq<usize>)
        requires
            self.wf(),
            bfs_inv(*self, src, order, order.len() as int, dist, prev),
        ensures
            forall|v: int| 0 <= v < self.nodes@.len() ==> {
                &&& (#[trigger] dist[v] != u32::MAX <==> reaches(self@.edges, self.nodes@[src], self.nodes@[v]))
                &&& dist[v] != u32::MAX ==> distance_is(self@.edges, self.nodes@[src], self.nodes@[v], dist[v] as int)
            },
            forall|x: u32| #[trigger] reaches(self@.edges, self.nodes@[src], x) ==> self.nodes@.contains(x),
    {
        let e = self@.edges;
        let a = self.nodes@[src];
        assert forall|p: Seq<u32>, b: u32| #[trigger] joins(e, p, a, b) implies exists|v: int| 0 <= v < self.nodes@.len() && self.nodes@[v] == b && (#[trigger] dist[v]) != u32::MAX && dist[v] <= p.len() - 1 by {
            self.lemma_bfs_minimal(src, order, dist, prev, p, p.len() - 1);
        }
        assert forall|v: int| 0 <= v < self.nodes@.len() implies {
            &&& (#[trigger] dist[v] != u32::MAX <==> reaches(e, a, self.nodes@[v]))
            &&& dist[v] != u32::MAX ==> distance_is(e, a, self.nodes@[v], dist[v] as int)
        } by {
            let b = self.nodes@[v];
            if dist[v] != u32::MAX {
                assert(reaches_in(e, a, b, dist[v] as int));
            }
            assert forall|p: Seq<u32>| #[trigger] joins(e, p, a, b) implies dist[v] != u32::MAX && p.len() >= dist[v] + 1 by {
                let w = choose|w: int| 0 <= w < self.nodes@.len() && self.nodes@[w] == b && (#[trigger] dist[w]) != u32::MAX && dist[w] <= p.len() - 1;
                assert(self.id_to_idx@[self.nodes@[w]] == w && self.id_to_idx@[self.nodes@[v]] == v);
            }
        }
        assert forall|x: u32| #[trigger] reaches(e, a, x) implies self.nodes@.contains(x) by {
            let p = choose|p: Seq<u32>| joins(e, p, a, x);
            assert(joins(e, p, a, x));
        }
    }

    /// Distances from `src` along directed edges, for every node that can be
    /// reached (with `src` itself at 0). `None` if `src` is not a node.
    pub fn bfs_distances(&self, src: EntityLiteralId) -> (r: Option<HashMap<EntityLiteralId, u32>>)
        requires
            self.wf(),
            self@.nodes.len() <= u32::MAX,
        ensures
            distances_are(
                self@,
                src,
                match r {
                    Some(m) => Some(m@),
                    None => None,
                },
            ),
    {
        proof {
            lemma_lists_len(self.nodes@, self@.nodes);
        }
        let src_i: usize = match self.id_to_idx.get(&src) {
            None => {
                return None;
            },
            Some(i) => *i,
        };
        proof {
            assert(self.nodes@.contains(src));
            let k = choose|k: int| 0 <= k < self.nodes@.len() && self.nodes@[k] == src;
            assert(self.id_to_idx@[self.nodes@[k]] == k);
        }
        let (dist, prev, order) = self.search(src_i);
        proof {
            self.lemma_search(src_i as int, order@, dist@, prev@);
        }
        let n: usize = self.nodes.len();
        let mut m: HashMap<u32, u32> = HashMap::new();
        let mut i: usize = 0;
        while i < n
            invariant
                self.wf(),
                n == self.nodes@.len(),
                dist.len() == n,
                i <= n,
                forall|x: u32| #[trigger] m@.contains_key(x) ==> exists|k: int| 0 <= k < i && self.nodes@[k] == x && (#[trigger] dist@[k]) != u32::MAX && m@[x] == dist@[k],
                forall|k: int| 0 <= k < i && (#[trigger] dist@[k]) != u32::MAX ==> m@.contains_key(self.nodes@[k]),
            decreases n - i,
        {
            if dist[i] != u32::MAX {
                let ghost m0 = m@;
                m.insert(self.nodes[i], dist[i]);
                proof {
                    assert forall|x: u32| #[trigger] m@.contains_key(x) implies exists|k: int| 0 <= k < i + 1 && self.nodes@[k] == x && (#[trigger] dist@[k]) != u32::MAX && m@[x] == dist@[k] by {
                        if x == self.nodes@[i as int] {
                            assert(dist@[i as int] != u32::MAX);
                        } else {
                            assert(m0.contains_key(x));
                        }
                    }
                }
            }
            i = i + 1;
        }
        proof {
            assert forall|x: u32| #[trigger] m@.contains_key(x) <==> reaches(self@.edges, src, x) by {
                if reaches(self@.edges, src, x) {
                    let k = choose|k: int| 0 <= k < self.nodes@.len() && self.nodes@[k] == x;
                    assert(dist@[k] != u32::MAX);
                }
            }
        }
        Some(m)
    }

    /// A shortest directed walk from `src` to `dst`, both ends included.
    /// `None` if either is not a node or `dst` cannot be reached.
    #[verifier::spinoff_prover]
    #[verifier::rlimit(40)]
    pub fn shortest_path(&self, src: EntityLiteralId, dst: EntityLiteralId) -> (r: Option<Vec<EntityLiteralId>>)
        requires
            self.wf(),
            self@.nodes.len() <= u32::MAX,
        ensures
            path_is(
                self@,
                src,
                dst,
                match r {
                    Some(p) => Some(p@),
                    None => None,
                },
            ),
            src == dst ==> (r matches Some(p) ==> p@ == seq![src]),
    {
        proof {
            lemma_lists_len(self.nodes@, self@.nodes);
        }
        let src_i: usize = match self.id_to_idx.get(&src) {
            None => {
                return None;
            },
            Some(i) => *i,
        };
        let dst_i: usize = match self.id_to_idx.get(&dst) {
            None => {
                return None;
            },
            Some(i) => *i,
        };
        proof {
            assert(self.nodes@.contains(src));
            let k = choose|k: int| 0 <= k < self.nodes@.len() && self.nodes@[k] == src;
            assert(self.id_to_idx@[self.nodes@[k]] == k);
            assert(self.nodes@.contains(dst));
            let k2 = choose|k: int| 0 <= k < self.nodes@.len() && self.nodes@[k] == dst;
            assert(self.id_to_idx@[self.nodes@[k2]] == k2);
        }
        let (dist, prev, order) = self.search(src_i);
        proof {
            self.lemma_search(src_i as int, order@, dist@, prev@);
        }
        if dist[dst_i] == u32::MAX {
            return None;
        }
        let ghost e = self@.edges;
        let ghost total = dist@[dst_i as int] as int;
        let mut back: Vec<u32> = Vec::new();
        let mut cur: usize = dst_i;
        back.push(self.nodes[cur]);
        while cur != src_i
            invariant
                self.wf(),
                e == self@.edges,
                bfs_inv(*self, src_i as int, order@, order@.len() as int, dist@, prev@),
                cur < self.nodes@.len(),
                src_i < self.nodes@.len(),
                dist@[cur as int] != u32::MAX,
                back.len() >= 1,
                back@[0] == dst,
                back@[back.len() - 1] == self.nodes@[cur as int],
                back.len() - 1 + dist@[cur as int] == total,
                forall|i: int| 0 <= i < back.len() - 1 ==> #[trigger] e.contains((back@[i + 1], back@[i])),
            decreases dist@[cur as int],
        {
            let p: usize = prev[cur];
            proof {
                self.lemma_edge(p as int, cur as int);
            }
            let ghost back0 = back@;
            back.push(self.nodes[p]);
            proof {
                assert forall|i: int| 0 <= i < back.len() - 1 implies #[trigger] e.contains((back@[i + 1], back@[i])) by {
                    if i < back0.len() - 1 {
                        assert(e.contains((back0[i + 1], back0[i])));
                        assert(back@[i] == back0[i] && back@[i + 1] == back0[i + 1]);
                    }
                }
            }
            cur = p;
        }
        let mut path: Vec<u32> = Vec::new();
        let mut i: usize = back.len();
        while i > 0
            invariant
                i <= back.len(),
                path.len() == back.len() - i,
                forall|k: int| 0 <= k < path.len() ==> #[trigger] path@[k] == back@[back.len() - 1 - k],
            decreases i,
        {
            i = i - 1;
            path.push(back[i]);
        }
        proof {
            assert forall|k: int| 0 <= k < path.len() - 1 implies #[trigger] joined_at(e, path@, k) by {
                let j = back.len() - 2 - k;
                assert(e.contains((back@[j + 1], back@[j])));
            }
            assert(joins(e, path@, src, dst));
            assert(path.len() == total + 1);
            assert(distance_is(e, src, dst, total));
            if src == dst {
                assert(total == 0);
                assert(path@ =~= seq![src]);
            }
        }
        Some(path)
    }

    /// Out-degree of every node.
    pub fn all_out_degrees(&self) -> (m: HashMap<EntityLiteralId, usize>)
        requires
            self.wf(),
        ensures
            forall|x: u32| #[trigger] m@.contains_key(x) <==> self@.nodes.contains(x),
            forall|x: u32| #[trigger] m@.contains_key(x) ==> m@[x] == successors(self@, x).len(),
    {
        let n: usize = self.nodes.len();
        let mut m: HashMap<u32, usize> = HashMap::new();
        let mut i: usize = 0;
        while i < n
            invariant
                self.wf(),
                n == self.nodes@.len(),
                i <= n,
                forall|x: u32| #[trigger] m@.contains_key(x) ==> self.nodes@.contains(x) && m@[x] == successors(self@, x).len(),
                forall|k: int| 0 <= k < i ==> m@.contains_key(#[trigger] self.nodes@[k]),
            decreases n - i,
        {
            let id: u32 = self.nodes[i];
            match self.out_degree(id) {
                Some(d) => {
                    m.insert(id, d);
                },
                None => {
                    assert(self.nodes@.contains(id));
                },
            }
            i = i + 1;
        }
        m
    }

    /// In-degree of every node.
    pub fn all_in_degrees(&self) -> (m: HashMap<EntityLiteralId, usize>)
        requires
            self.wf(),
        ensures
            forall|x: u32| #[trigger] m@.contains_key(x) <==> self@.nodes.contains(x),
            forall|x: u32| #[trigger] m@.contains_key(x) ==> m@[x] == predecessors(self@, x).len(),
    {
        let n: usize = self.nodes.len();
        let mut m: HashMap<u32, usize> = HashMap::new();
        let mut i: usize = 0;
        while i < n
            invariant
                self.wf(),
                n == self.nodes@.len(),
                i <= n,
                forall|x: u32| #[trigger] m@.contains_key(x) ==> self.nodes@.contains(x) && m@[x] == predecessors(self@, x).len(),
                forall|k: int| 0 <= k < i ==> m@.contains_key(#[trigger] self.nodes@[k]),
            decreases n - i,
        {
            let id: u32 = self.nodes[i];
            match self.in_degree(id) {
                Some(d) => {
                    m.insert(id, d);
                },
                None => {
                    assert(self.nodes@.contains(id));
                },
            }
            i = i + 1;
        }
        m
    }

    /// The ids with an edge to `id`, ascending. `None` if `id` is not a node.
    pub fn in_neighbors(&self, id: EntityLiteralId) -> (r: Option<Vec<EntityLiteralId>>)
        requires
            self.wf(),
        ensures
            r is Some <==> self@.nodes.contains(id),
            r matches Some(v) ==> lists(v@, predecessors(self@, id)),
    {
        let i: usize = match self.id_to_idx.get(&id) {
            None => {
                return None;
            },
            Some(i) => *i,
        };
        proof {
            assert(self.nodes@.contains(id));
            let k = choose|k: int| 0 <= k < self.nodes@.len() && self.nodes@[k] == id;
            assert(self.id_to_idx@[self.nodes@[k]] == k);
            assert(csr_wf(self.nodes@.len() as int, self.in_ptr@, self.in_adj@));
            assert(self.in_ptr@[i as int] <= self.in_ptr@[i + 1] <= self.in_ptr@[self.nodes@.len() as int]);
        }
        let start: usize = self.in_ptr[i];
        let end: usize = self.in_ptr[i + 1];
        let mut v: Vec<u32> = Vec::new();
        let mut k: usize = start;
        while k < end
            invariant
                self.wf(),
                start <= k <= end <= self.in_adj@.len(),
                v.len() == k - start,
                forall|j: int| 0 <= j < v.len() ==> #[trigger] v@[j] == self.nodes@[self.in_adj@[start + j] as int],
            decreases end - k,
        {
            assert(csr_wf(self.nodes@.len() as int, self.in_ptr@, self.in_adj@));
            assert(self.in_adj@[k as int] < self.nodes@.len());
            v.push(self.nodes[self.in_adj[k]]);
            k = k + 1;
        }
        proof {
            self.lemma_in_row(i as int, v@);
        }
        Some(v)
    }
}

} // verus!
