//! What the answers about a graph have to do with its edges.

use super::bfs::distances_are;
use super::closeness::{distance, reach_of, steps_to, within_reach};
use super::components::component_map;
use super::graph::{distance_is, joined_at, joins, lemma_closed_reach, lemma_reaches_edge, lemma_reaches_in_step, lemma_reaches_self, lemma_reaches_step, lemma_reaches_trans, neighbours, predecessors, reaches, successors, undirected, Digraph};
use super::kcore::{core_number_is, in_core, is_core};
use super::scc::mutual;
use super::louvain::{entity_net, gain, good_move};
use super::modularity::{degree, degrees, row_of, score, volume, worth_of, worths, Net};
use super::sums::{lemma_sum_ext, sum};
use super::triangles::triangles;
use crate::order::{lists, Ranked};
use vstd::prelude::*;

verus! {

/// The degrees of a node count the edges that leave it and that enter it.
pub proof fn law_degrees_count_edges(g: Digraph, a: u32, b: u32)
    ensures
        successors(g, a).contains(b) <==> g.edges.contains((a, b)),
        predecessors(g, b).contains(a) <==> g.edges.contains((a, b)),
        neighbours(g, a).contains(b) <==> a != b && (g.edges.contains((a, b)) || g.edges.contains((b, a))),
        undirected(g.edges).contains((a, b)) <==> g.edges.contains((a, b)) || g.edges.contains((b, a)),
{
}

/// Reaching is the least relation that joins each node to itself and goes on along edges: a
/// node is reached from another exactly if it lies in every set that holds the other and that
/// no edge leaves.
pub proof fn law_reaching_follows_edges(e: Set<(u32, u32)>, a: u32, b: u32)
    ensures
        reaches(e, a, a),
        e.contains((a, b)) ==> reaches(e, a, b),
        reaches(e, a, b) ==> forall|s: Set<u32>| s.contains(a) && (forall|x: u32, y: u32| s.contains(x) && #[trigger] e.contains((x, y)) ==> s.contains(y)) ==> #[trigger] s.contains(b),
        !reaches(e, a, b) ==> exists|s: Set<u32>| s.contains(a) && (forall|x: u32, y: u32| s.contains(x) && #[trigger] e.contains((x, y)) ==> s.contains(y)) && !#[trigger] s.contains(b),
{
    lemma_reaches_self(e, a);
    if e.contains((a, b)) {
        lemma_reaches_edge(e, a, b);
    }
    if reaches(e, a, b) {
        assert forall|s: Set<u32>| s.contains(a) && (forall|x: u32, y: u32| s.contains(x) && #[trigger] e.contains((x, y)) ==> s.contains(y)) implies #[trigger] s.contains(b) by {
            lemma_closed_reach(e, s, a, b);
        }
    } else {
        let s = Set::new(|x: u32| reaches(e, a, x));
        assert forall|x: u32, y: u32| s.contains(x) && #[trigger] e.contains((x, y)) implies s.contains(y) by {
            lemma_reaches_step(e, a, x, y);
        }
        assert(s.contains(a) && !s.contains(b));
    }
}

/// The distances from a node: it is at 0 itself; an edge leads at most one step farther; and
/// every other node that has a distance has an edge from one that is a step nearer.
pub proof fn law_distances_grow_by_steps(g: Digraph, src: u32, m: Map<u32, u32>)
    requires
        g.nodes.contains(src),
        distances_are(g, src, Some(m)),
    ensures
        m.contains_key(src),
        m[src] == 0,
        forall|a: u32, b: u32| m.contains_key(a) && #[trigger] g.edges.contains((a, b)) ==> m.contains_key(b) && m[b] <= m[a] + 1,
        forall|b: u32| #[trigger] m.contains_key(b) && b != src ==> exists|a: u32| m.contains_key(a) && #[trigger] g.edges.contains((a, b)) && m[b] == m[a] + 1,
{
    let e = g.edges;
    let some = Some(m);
    assert(some->0 == m);
    assert forall|x: u32| #[trigger] m.contains_key(x) <==> reaches(e, src, x) by {
        assert(some->0.contains_key(x) <==> reaches(e, src, x));
    }
    assert forall|x: u32| #[trigger] m.contains_key(x) implies distance_is(e, src, x, m[x] as int) by {
        assert(some->0.contains_key(x));
    }
    lemma_reaches_self(e, src);
    let none = seq![src];
    assert(joins(e, none, src, src));
    assert(m.contains_key(src));
    assert(distance_is(e, src, src, m[src] as int));
    assert forall|a: u32, b: u32| m.contains_key(a) && #[trigger] e.contains((a, b)) implies m.contains_key(b) && m[b] <= m[a] + 1 by {
        lemma_reaches_step(e, src, a, b);
        assert(m.contains_key(b));
        assert(distance_is(e, src, a, m[a] as int));
        assert(distance_is(e, src, b, m[b] as int));
        lemma_reaches_in_step(e, src, a, b, m[a] as int);
        let p = choose|p: Seq<u32>| joins(e, p, src, b) && p.len() == m[a] + 1 + 1;
        assert(joins(e, p, src, b));
    }
    assert forall|b: u32| #[trigger] m.contains_key(b) && b != src implies exists|a: u32| m.contains_key(a) && #[trigger] e.contains((a, b)) && m[b] == m[a] + 1 by {
        let d = m[b] as int;
        assert(distance_is(e, src, b, d));
        let p = choose|p: Seq<u32>| joins(e, p, src, b) && p.len() == d + 1;
        assert(p.len() > 1) by {
            if p.len() == 1 {
                assert(p[0] == b);
            }
        }
        let q = p.drop_last();
        let a = q.last();
        assert forall|i: int| 0 <= i < q.len() - 1 implies #[trigger] joined_at(e, q, i) by {
            assert(joined_at(e, p, i));
        }
        assert(joins(e, q, src, a));
        assert(joined_at(e, p, p.len() - 2));
        assert(e.contains((a, b)));
        assert(reaches(e, src, a));
        assert(m.contains_key(a));
        assert(distance_is(e, src, a, m[a] as int));
        assert(m[a] + 1 <= q.len());
        lemma_reaches_in_step(e, src, a, b, m[a] as int);
        let r = choose|r: Seq<u32>| joins(e, r, src, b) && r.len() == m[a] + 1 + 1;
        assert(joins(e, r, src, b));
    }
}

/// The components: the ends of every edge have the same, and nodes have the same only where
/// every labelling that is the same at the ends of all edges labels them the same.
pub proof fn law_components_join_along_edges(g: Digraph, m: Map<u32, u32>, f: spec_fn(u32) -> int)
    requires
        component_map(g, m),
        forall|a: u32, b: u32| #[trigger] g.edges.contains((a, b)) ==> g.nodes.contains(a) && g.nodes.contains(b),
        forall|a: u32, b: u32| #[trigger] g.edges.contains((a, b)) ==> f(a) == f(b),
    ensures
        forall|a: u32, b: u32| #[trigger] g.edges.contains((a, b)) ==> m[a] == m[b],
        forall|a: u32, b: u32| #[trigger] g.nodes.contains(a) && #[trigger] g.nodes.contains(b) && m[a] == m[b] ==> f(a) == f(b),
        forall|a: u32| #[trigger] g.nodes.contains(a) ==> g.nodes.contains(m[a]) && m[m[a]] == m[a],
{
    let e = undirected(g.edges);
    assert forall|a: u32, b: u32| #[trigger] g.edges.contains((a, b)) implies m[a] == m[b] by {
        assert(m.contains_key(a) && m.contains_key(b));
        assert(e.contains((a, b)));
        lemma_reaches_edge(e, a, b);
    }
    assert forall|a: u32, b: u32| #[trigger] g.nodes.contains(a) && #[trigger] g.nodes.contains(b) && m[a] == m[b] implies f(a) == f(b) by {
        assert(m.contains_key(a) && m.contains_key(b));
        let s = Set::new(|x: u32| f(x) == f(a));
        assert forall|x: u32, y: u32| s.contains(x) && #[trigger] e.contains((x, y)) implies s.contains(y) by {
            if g.edges.contains((x, y)) {
            } else {
                assert(g.edges.contains((y, x)));
            }
        }
        lemma_closed_reach(e, s, a, b);
    }
    assert forall|a: u32| #[trigger] g.nodes.contains(a) implies g.nodes.contains(m[a]) && m[m[a]] == m[a] by {
        assert(m.contains_key(a));
        let r = m[a];
        assert(m.contains_key(r));
        assert(m[a] == m[r] <==> reaches(e, a, r));
    }
}

/// Two nodes are in one strong component exactly if each is reached from the other: an edge
/// there and back joins them, joining goes on, and no set that edges do not leave parts them.
pub proof fn law_strong_components_go_round(e: Set<(u32, u32)>, a: u32, b: u32, c: u32, s: Set<u32>)
    requires
        forall|x: u32, y: u32| s.contains(x) && #[trigger] e.contains((x, y)) ==> s.contains(y),
    ensures
        mutual(e, a, a),
        mutual(e, a, b) ==> mutual(e, b, a),
        mutual(e, a, b) && mutual(e, b, c) ==> mutual(e, a, c),
        e.contains((a, b)) && reaches(e, b, a) ==> mutual(e, a, b),
        mutual(e, a, b) ==> (s.contains(a) <==> s.contains(b)),
{
    lemma_reaches_self(e, a);
    if mutual(e, a, b) && mutual(e, b, c) {
        lemma_reaches_trans(e, a, b, c);
        lemma_reaches_trans(e, c, b, a);
    }
    if e.contains((a, b)) {
        lemma_reaches_edge(e, a, b);
    }
    if mutual(e, a, b) {
        if s.contains(a) {
            lemma_closed_reach(e, s, a, b);
        }
        if s.contains(b) {
            lemma_closed_reach(e, s, b, a);
        }
    }
}

/// A triangle is three nodes, each two of which an edge joins in one direction or the other.
/// Turning all edges round leaves the triangles as they are.
pub proof fn law_triangles_are_three_joined_nodes(g: Digraph, h: Digraph)
    requires
        forall|a: u32, b: u32| #[trigger] h.edges.contains((a, b)) <==> g.edges.contains((b, a)),
    ensures
        forall|a: u32, b: u32, c: u32| #[trigger] triangles(g).contains((a, b, c)) <==> {
            &&& a < b < c
            &&& g.edges.contains((a, b)) || g.edges.contains((b, a))
            &&& g.edges.contains((a, c)) || g.edges.contains((c, a))
            &&& g.edges.contains((b, c)) || g.edges.contains((c, b))
        },
        triangles(h) == triangles(g),
{
    assert forall|t: (u32, u32, u32)| triangles(h).contains(t) <==> triangles(g).contains(t) by {
        assert(h.edges.contains((t.0, t.1)) <==> g.edges.contains((t.1, t.0)));
        assert(h.edges.contains((t.1, t.0)) <==> g.edges.contains((t.0, t.1)));
        assert(h.edges.contains((t.0, t.2)) <==> g.edges.contains((t.2, t.0)));
        assert(h.edges.contains((t.2, t.0)) <==> g.edges.contains((t.0, t.2)));
        assert(h.edges.contains((t.1, t.2)) <==> g.edges.contains((t.2, t.1)));
        assert(h.edges.contains((t.2, t.1)) <==> g.edges.contains((t.1, t.2)));
    }
    assert(triangles(h) =~= triangles(g));
}

/// The neighbours of a node in a set: those that an edge joins to it, in either direction.
pub open spec fn neighbours_in(g: Digraph, s: Set<u32>, a: u32) -> Set<u32> {
    s.filter(|b: u32| a != b && (g.edges.contains((a, b)) || g.edges.contains((b, a))))
}

/// Core numbers: a set in which every node has at least `k` neighbours has no node of a
/// smaller core number; and the nodes of core number `k` or more are such a set.
pub proof fn law_core_numbers_are_of_cores(g: Digraph, m: Map<u32, usize>, s: Set<u32>, k: nat)
    requires
        g.nodes.finite(),
        forall|x: u32| #[trigger] m.contains_key(x) <==> g.nodes.contains(x),
        forall|x: u32| #[trigger] m.contains_key(x) ==> core_number_is(g, x, m[x] as int),
        forall|a: u32, b: u32| #[trigger] g.edges.contains((a, b)) ==> g.nodes.contains(a) && g.nodes.contains(b),
        s.subset_of(g.nodes),
        forall|x: u32| #[trigger] s.contains(x) ==> neighbours_in(g, s, x).len() >= k,
    ensures
        forall|x: u32| #[trigger] s.contains(x) ==> m[x] >= k,
        forall|x: u32| #[trigger] g.nodes.contains(x) && m[x] >= k ==> neighbours_in(g, g.nodes.filter(|y: u32| m[y] >= k), x).len() >= k,
{
    lemma_core_above(g, m, s, k as int);
    let top = g.nodes.filter(|y: u32| m[y] >= k);
    assert forall|x: u32| #[trigger] g.nodes.contains(x) && m[x] >= k implies neighbours_in(g, top, x).len() >= k by {
        assert(m.contains_key(x));
        assert(core_number_is(g, x, m[x] as int));
        let t = choose|t: Set<u32>| t.contains(x) && #[trigger] is_core(g, t, m[x] as int);
        if k > 0 {
            let inner = t.intersect(g.nodes);
            assert forall|y: u32| #[trigger] inner.contains(y) implies neighbours_in(g, inner, y).len() >= k by {
                assert(t.contains(y));
                assert(neighbours(g, y).intersect(t) =~= neighbours_in(g, inner, y));
            }
            lemma_core_above(g, m, inner, k as int);
            assert forall|y: u32| #[trigger] inner.contains(y) implies top.contains(y) by {
                assert(m[y] >= k);
            }
            assert(inner.contains(x));
            let a = neighbours_in(g, inner, x);
            let b = neighbours_in(g, top, x);
            assert(a.subset_of(b));
            g.nodes.lemma_len_filter(|y: u32| m[y] >= k);
            top.lemma_len_filter(|b: u32| x != b && (g.edges.contains((x, b)) || g.edges.contains((b, x))));
            vstd::set_lib::lemma_len_subset(a, b);
        }
    }
}

proof fn lemma_core_above(g: Digraph, m: Map<u32, usize>, s: Set<u32>, k: int)
    requires
        k >= 0,
        forall|x: u32| #[trigger] m.contains_key(x) <==> g.nodes.contains(x),
        forall|x: u32| #[trigger] m.contains_key(x) ==> core_number_is(g, x, m[x] as int),
        s.subset_of(g.nodes),
        forall|x: u32| #[trigger] s.contains(x) ==> neighbours_in(g, s, x).len() >= k,
    ensures
        forall|x: u32| #[trigger] s.contains(x) ==> m[x] >= k,
{
    assert forall|x: u32| #[trigger] s.contains(x) implies m[x] >= k by {
        assert(g.nodes.contains(x));
        assert(m.contains_key(x));
        assert(core_number_is(g, x, m[x] as int));
        if m[x] < k {
            assert(is_core(g, s, m[x] + 1)) by {
                assert forall|y: u32| #[trigger] s.contains(y) implies neighbours(g, y).intersect(s).len() >= m[x] + 1 by {
                    assert(neighbours(g, y).intersect(s) =~= neighbours_in(g, s, y));
                    assert(neighbours_in(g, s, y).len() >= k);
                }
            }
            assert(in_core(g, x, m[x] + 1));
        }
    }
}

/// The sums behind closeness are those of the distances: the number of other nodes that have
/// a distance, and the sum of all distances.
pub proof fn law_sums_are_of_distances(g: Digraph, s: Seq<u32>, a: u32, m: Map<u32, u32>, reach: int, total: int)
    requires
        g.nodes.contains(a),
        lists(s, g.nodes),
        reach_of(g, s, a, reach, total),
        distances_are(g, a, Some(m)),
        m.dom().subset_of(g.nodes),
    ensures
        m.dom().finite(),
        m.dom().len() == reach + 1,
        total == sum(s.len(), |i: int| if m.contains_key(s[i]) { m[s[i]] as int } else { 0 }),
{
    let e = g.edges;
    let some = Some(m);
    assert(some->0 == m);
    assert forall|x: u32| #[trigger] m.contains_key(x) <==> reaches(e, a, x) by {
        assert(some->0.contains_key(x) <==> reaches(e, a, x));
    }
    assert forall|x: u32| #[trigger] m.contains_key(x) implies distance(e, a, x) == m[x] by {
        assert(some->0.contains_key(x));
        assert(distance_is(e, a, x, m[x] as int));
        let c = distance(e, a, x);
        assert(distance_is(e, a, x, c));
        let p = choose|p: Seq<u32>| joins(e, p, a, x) && p.len() == m[x] + 1;
        let q = choose|q: Seq<u32>| joins(e, q, a, x) && q.len() == c + 1;
        assert(joins(e, p, a, x) && joins(e, q, a, x));
    }
    let f = |i: int| if m.contains_key(s[i]) { m[s[i]] as int } else { 0 };
    lemma_same_sum(s.len(), steps_to(e, a, s), f);
    let others = m.dom().remove(a);
    lemma_count(s, others, s.len());
    lemma_same_sum(s.len(), within_reach(e, a, s), |i: int| if others.contains(s[i]) { 1int } else { 0int });
    assert(Set::new(|x: u32| others.contains(x) && exists|i: int| 0 <= i < s.len() && #[trigger] s[i] == x) =~= others) by {
        assert forall|x: u32| others.contains(x) implies exists|i: int| 0 <= i < s.len() && #[trigger] s[i] == x by {
            assert(g.nodes.contains(x));
            assert(s.contains(x));
        }
    }
    lemma_reaches_self(e, a);
    assert(m.contains_key(a));
    assert(m.dom() =~= others.insert(a));
}

proof fn lemma_same_sum(n: nat, f: spec_fn(int) -> int, h: spec_fn(int) -> int)
    requires
        forall|i: int| 0 <= i < n ==> #[trigger] f(i) == h(i),
    ensures
        sum(n, f) == sum(n, h),
    decreases n,
{
    if n > 0 {
        lemma_same_sum((n - 1) as nat, f, h);
        assert(f(n - 1) == h(n - 1));
    }
}

proof fn lemma_count(s: Seq<u32>, d: Set<u32>, n: nat)
    requires
        n <= s.len(),
        forall|i: int, j: int| 0 <= i < j < s.len() ==> (#[trigger] s[i]).rank() < (#[trigger] s[j]).rank(),
    ensures
        Set::new(|x: u32| d.contains(x) && exists|i: int| 0 <= i < n && #[trigger] s[i] == x).finite(),
        Set::new(|x: u32| d.contains(x) && exists|i: int| 0 <= i < n && #[trigger] s[i] == x).len() == sum(n, |i: int| if d.contains(s[i]) { 1int } else { 0int }),
    decreases n,
{
    let f = |i: int| if d.contains(s[i]) { 1int } else { 0int };
    let now = Set::new(|x: u32| d.contains(x) && exists|i: int| 0 <= i < n && #[trigger] s[i] == x);
    if n == 0 {
        assert(now =~= Set::<u32>::empty());
    } else {
        let k = (n - 1) as nat;
        lemma_count(s, d, k);
        let before = Set::new(|x: u32| d.contains(x) && exists|i: int| 0 <= i < k && #[trigger] s[i] == x);
        let y = s[n - 1];
        assert(!before.contains(y)) by {
            if before.contains(y) {
                let i = choose|i: int| 0 <= i < k && #[trigger] s[i] == y;
                assert(s[i].rank() < s[n - 1].rank());
            }
        }
        assert forall|x: u32| now.contains(x) <==> (before.contains(x) || (x == y && d.contains(y))) by {
            if now.contains(x) {
                let i = choose|i: int| 0 <= i < n && #[trigger] s[i] == x;
                if i < k {
                    assert(s[i] == x);
                }
            }
            if before.contains(x) {
                let i = choose|i: int| 0 <= i < k && #[trigger] s[i] == x;
                assert(s[i] == x);
            }
            assert(s[n - 1] == y);
        }
        if d.contains(y) {
            assert(now =~= before.insert(y));
        } else {
            assert(now =~= before);
        }
    }
}

/// In the network of a graph two nodes weigh as many edges as join them, whichever way these
/// go, and a loop weighs twice at its node. So the edges may all be turned round.
pub proof fn law_network_weighs_edges(g: Digraph, turned: Digraph, s: Seq<u32>, i: int, j: int)
    requires
        forall|a: u32, b: u32| #[trigger] turned.edges.contains((a, b)) <==> g.edges.contains((b, a)),
    ensures
        i != j && g.edges.contains((s[i], s[j])) && g.edges.contains((s[j], s[i])) ==> (entity_net(g, s).a)(i, j) == 2,
        i != j && g.edges.contains((s[i], s[j])) && !g.edges.contains((s[j], s[i])) ==> (entity_net(g, s).a)(i, j) == 1,
        i != j && !g.edges.contains((s[i], s[j])) && g.edges.contains((s[j], s[i])) ==> (entity_net(g, s).a)(i, j) == 1,
        i != j && !g.edges.contains((s[i], s[j])) && !g.edges.contains((s[j], s[i])) ==> (entity_net(g, s).a)(i, j) == 0,
        (entity_net(g, s).a)(i, i) == 0,
        (entity_net(g, s).l)(i) == (if g.edges.contains((s[i], s[i])) { 2int } else { 0int }),
        (entity_net(turned, s).a)(i, j) == (entity_net(g, s).a)(i, j),
        (entity_net(turned, s).l)(i) == (entity_net(g, s).l)(i),
        entity_net(g, s).n == s.len(),
{
    assert(turned.edges.contains((s[i], s[j])) <==> g.edges.contains((s[j], s[i])));
    assert(turned.edges.contains((s[j], s[i])) <==> g.edges.contains((s[i], s[j])));
    assert(turned.edges.contains((s[i], s[i])) <==> g.edges.contains((s[i], s[i])));
}

/// What two nodes add to the worth of a partition: if they are in one community, the weight
/// between them times the volume, less the product of their degrees.
pub open spec fn pair_worth(g: Net, v: int, f: spec_fn(int) -> int, a: int, b: int) -> int {
    if f(a) == f(b) {
        v * (g.a)(a, b) - degree(g, a) * degree(g, b)
    } else {
        0
    }
}

/// What a node adds with all nodes.
pub open spec fn row_worth(g: Net, v: int, f: spec_fn(int) -> int, a: int) -> int {
    sum(g.n, |b: int| pair_worth(g, v, f, a, b))
}

/// The worth of a partition is what every two nodes add, so that renaming the communities
/// changes nothing. The degree of a node is the weight that ends there, and the volume that of
/// all nodes.
pub proof fn law_score_counts_pairs(g: Net, v: int, f: spec_fn(int) -> int, h: spec_fn(int) -> int, i: int)
    requires
        forall|a: int, b: int| 0 <= a < g.n && 0 <= b < g.n ==> (#[trigger] f(a) == #[trigger] f(b) <==> h(a) == h(b)),
    ensures
        score(g, v, f) == score(g, v, h),
        score(g, v, f) == sum(g.n, |a: int| row_worth(g, v, f, a)),
        degree(g, i) == sum(g.n, |b: int| (g.a)(i, b)) + (g.l)(i),
        volume(g) == sum(g.n, |a: int| degree(g, a)),
{
    lemma_score_by_pairs(g, v, f);
    lemma_score_by_pairs(g, v, h);
    assert forall|a: int| 0 <= a < g.n implies row_worth(g, v, f, a) == row_worth(g, v, h, a) by {
        assert forall|b: int| 0 <= b < g.n implies #[trigger] pair_worth(g, v, f, a, b) == pair_worth(g, v, h, a, b) by {
            assert(f(a) == f(b) <==> h(a) == h(b));
        }
        lemma_sum_ext(g.n, |b: int| pair_worth(g, v, f, a, b), |b: int| pair_worth(g, v, h, a, b));
    }
    lemma_sum_ext(g.n, |a: int| row_worth(g, v, f, a), |a: int| row_worth(g, v, h, a));
    lemma_sum_ext(g.n, row_of(g, i), |b: int| (g.a)(i, b));
    lemma_sum_ext(g.n, degrees(g), |a: int| degree(g, a));
}

proof fn lemma_score_by_pairs(g: Net, v: int, f: spec_fn(int) -> int)
    ensures
        score(g, v, f) == sum(g.n, |a: int| row_worth(g, v, f, a)),
{
    assert forall|a: int| 0 <= a < g.n implies #[trigger] worth_of(g, v, f)(a) == row_worth(g, v, f, a) by {
        lemma_sum_ext(g.n, worths(g, v, f, a), |b: int| pair_worth(g, v, f, a, b));
    }
    lemma_sum_ext(g.n, worth_of(g, v, f), |a: int| row_worth(g, v, f, a));
}

/// A node stays where it is unless the community of a neighbour gains it more than a part in
/// a million million of what there is.
pub proof fn law_small_gains_move_nothing(g: Net, m: int, comm: Seq<usize>, i: int, c: usize)
    requires
        (gain(g, comm, i, c as int) - gain(g, comm, i, comm[i] as int)) * 1000000000000 <= 2 * m * m,
    ensures
        !good_move(g, m, comm, i, c),
{
}

} // verus!
