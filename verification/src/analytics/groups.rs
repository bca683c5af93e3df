//! Communities do not reach beyond what edges join.

use super::components::component_map;
use super::graph::{lemma_reaches_edge, lemma_reaches_self, lemma_reaches_trans, reaches, undirected, Digraph};
use super::louvain::{apart, climbs, comm_fn, communities, entity_net, good_move, has_label, label_after, label_used, level_follows, level_ok, near_comm, numbered, one_move, rounds, same_net, sweep, sweep_moves, sweeps, visit_at, Level};
use super::modularity::{cut, cuts, net_ok, reaches_into, Net};
use super::sums::lemma_sum_zero;
use vstd::prelude::*;

verus! {

/// A mark of the nodes that is the same at both ends of every edge.
pub open spec fn marks_edges(g: Net, w: spec_fn(int) -> Set<u32>) -> bool {
    forall|i: int, j: int| 0 <= i < g.n && 0 <= j < g.n && #[trigger] (g.a)(i, j) > 0 ==> w(i) == w(j)
}

/// Nodes of one community have one mark.
spec fn within(comm: Seq<usize>, n: nat, w: spec_fn(int) -> Set<u32>) -> bool {
    &&& comm.len() == n
    &&& forall|i: int, j: int| 0 <= i < n && 0 <= j < n && #[trigger] comm[i] == #[trigger] comm[j] ==> w(i) == w(j)
}

/// A move to the community of a neighbour keeps marks apart.
proof fn lemma_move_within(g: Net, m: int, a: Seq<usize>, b: Seq<usize>, i: int, w: spec_fn(int) -> Set<u32>)
    requires
        marks_edges(g, w),
        within(a, g.n, w),
        one_move(g, m, a, b, i),
    ensures
        within(b, g.n, w),
{
    let c = choose|c: usize| #[trigger] good_move(g, m, a, i, c) && b == a.update(i, c);
    assert(near_comm(g, a, i, c));
    let k = choose|k: int| 0 <= k < g.n && #[trigger] (g.a)(i, k) > 0 && a[k] == c;
    assert(w(i) == w(k));
    assert forall|x: int, y: int| 0 <= x < g.n && 0 <= y < g.n && #[trigger] b[x] == #[trigger] b[y] implies w(x) == w(y) by {
        let p = if x == i { k } else { x };
        let q = if y == i { k } else { y };
        assert(a[p] == a[q]);
    }
}

/// A sweep keeps marks apart.
proof fn lemma_sweep_within(g: Net, m: int, s: Seq<Seq<usize>>, t: int, w: spec_fn(int) -> Set<u32>)
    requires
        marks_edges(g, w),
        sweep(g, m, s),
        within(s[0], g.n, w),
        0 <= t <= g.n,
    ensures
        within(s[t], g.n, w),
    decreases t,
{
    if t > 0 {
        lemma_sweep_within(g, m, s, t - 1, w);
        assert(visit_at(g, m, s, t - 1));
        if s[t] != s[t - 1] {
            lemma_move_within(g, m, s[t - 1], s[t], t - 1, w);
        }
    }
}

proof fn lemma_sweeps_within(g: Net, m: int, ss: Seq<Seq<Seq<usize>>>, k: int, w: spec_fn(int) -> Set<u32>)
    requires
        marks_edges(g, w),
        sweeps(g, m, ss),
        ss.len() > 0,
        ss[0][0] == apart(g.n),
        g.n <= usize::MAX + 1,
        0 <= k < ss.len(),
    ensures
        within(ss[k].last(), g.n, w),
    decreases k,
{
    assert(sweep(g, m, ss[k]));
    if k == 0 {
        assert forall|i: int, j: int| 0 <= i < g.n && 0 <= j < g.n && #[trigger] ss[0][0][i] == #[trigger] ss[0][0][j] implies w(i) == w(j) by {
            assert(i == j);
        }
    } else {
        lemma_sweeps_within(g, m, ss, k - 1, w);
        assert(sweep_moves(ss, k - 1));
    }
    lemma_sweep_within(g, m, ss[k], g.n as int, w);
}

/// The communities of a round have one mark each.
proof fn lemma_level_within(l: Level, m: int, w: spec_fn(int) -> Set<u32>)
    requires
        level_ok(l, m),
        l.net.n <= usize::MAX + 1,
        marks_edges(l.net, w),
    ensures
        within(l.labels, l.net.n, w),
{
    let ss = choose|ss: Seq<Seq<Seq<usize>>>| #[trigger] climbs(l.net, m, ss) && ss[0][0] == apart(l.net.n) && ss.last().last() == l.comm;
    lemma_sweeps_within(l.net, m, ss, ss.len() - 1, w);
    assert forall|i: int, j: int| 0 <= i < l.net.n && 0 <= j < l.net.n && #[trigger] l.labels[i] == #[trigger] l.labels[j] implies w(i) == w(j) by {
        assert(l.comm[i] == l.comm[j]);
    }
}

/// A positive weight between two communities comes from an edge between their nodes.
proof fn lemma_cut_edge(g: Net, f: spec_fn(int) -> int, p: int, q: int) -> (e: (int, int))
    requires
        net_ok(g),
        cut(g, f, p, q) > 0,
    ensures
        0 <= e.0 < g.n,
        0 <= e.1 < g.n,
        f(e.0) == p,
        f(e.1) == q,
        (g.a)(e.0, e.1) > 0,
{
    let x = cuts(g, f, p, q);
    if forall|i: int| 0 <= i < g.n ==> #[trigger] x(i) == 0 {
        lemma_sum_zero(g.n, x);
    }
    let i = choose|i: int| 0 <= i < g.n && #[trigger] x(i) != 0;
    let y = reaches_into(g, f, i, q);
    if forall|j: int| 0 <= j < g.n ==> #[trigger] y(j) == 0 {
        lemma_sum_zero(g.n, y);
    }
    let j = choose|j: int| 0 <= j < g.n && #[trigger] y(j) != 0;
    assert((g.a)(i, j) >= 0);
    (i, j)
}

/// The mark of a community: that of its nodes.
spec fn mark_of(labels: Seq<usize>, w: spec_fn(int) -> Set<u32>) -> spec_fn(int) -> Set<u32> {
    |p: int| w(choose|u: int| 0 <= u < labels.len() && #[trigger] labels[u] == p)
}

/// After each round, the nodes under a label have one mark, which is the same at both
/// ends of every edge of the next network.
proof fn lemma_rounds_within(levels: Seq<Level>, m: int, w: spec_fn(int) -> Set<u32>, t: nat) -> (v: spec_fn(int) -> Set<u32>)
    requires
        rounds(levels, m),
        levels[0].net.n <= usize::MAX + 1,
        marks_edges(levels[0].net, w),
        t <= levels.len(),
    ensures
        forall|i: int| 0 <= i < levels[0].net.n ==> v(#[trigger] label_after(levels.take(t as int), i)) == w(i),
        t < levels.len() ==> levels[t as int].net.n <= usize::MAX + 1 && marks_edges(levels[t as int].net, v) && forall|i: int| 0 <= i < levels[0].net.n ==> 0 <= #[trigger] label_after(levels.take(t as int), i) < levels[t as int].net.n,
    decreases t,
{
    if t == 0 {
        assert(levels.take(0).len() == 0);
        w
    } else {
        let k = (t - 1) as nat;
        let v = lemma_rounds_within(levels, m, w, k);
        let l = levels[k as int];
        assert(level_ok(l, m) && net_ok(l.net));
        lemma_level_within(l, m, v);
        let next = mark_of(l.labels, v);
        assert(levels.take(t as int).drop_last() =~= levels.take(k as int));
        assert(levels.take(t as int).last() == l);
        assert forall|u: int| 0 <= u < l.net.n implies next(#[trigger] l.labels[u] as int) == v(u) by {
            let p = l.labels[u] as int;
            let c = choose|c: int| 0 <= c < l.labels.len() && #[trigger] l.labels[c] == p;
            assert(l.labels[c] == l.labels[u]);
        }
        assert forall|i: int| 0 <= i < levels[0].net.n implies next(#[trigger] label_after(levels.take(t as int), i)) == w(i) by {
            let u = label_after(levels.take(k as int), i);
            assert(next(l.labels[u] as int) == v(u));
        }
        if t < levels.len() {
            let h = levels[t as int].net;
            assert(level_follows(levels, k as int));
            if h.n > 0 {
                assert(label_used(l.labels, h.n - 1));
            }
            let f = comm_fn(l.labels);
            assert(level_ok(levels[t as int], m) && net_ok(levels[t as int].net));
            assert forall|p: int, q: int| 0 <= p < h.n && 0 <= q < h.n && #[trigger] (h.a)(p, q) > 0 implies next(p) == next(q) by {
                if p != q {
                    let e = lemma_cut_edge(l.net, f, p, q);
                    assert(next(l.labels[e.0] as int) == v(e.0));
                    assert(next(l.labels[e.1] as int) == v(e.1));
                }
            }
            assert forall|i: int| 0 <= i < levels[0].net.n implies 0 <= #[trigger] label_after(levels.take(t as int), i) < h.n by {
                let u = label_after(levels.take(k as int), i);
                assert(0 <= l.labels[u] < l.count);
            }
        }
        next
    }
}

/// The nodes that a node is joined with, over any number of edges.
pub open spec fn component(g: Digraph, a: u32) -> Set<u32> {
    Set::new(|b: u32| reaches(undirected(g.edges), a, b))
}

/// No community spans two weak components: nodes with the same label are joined, over
/// edges read without directions.
pub proof fn law_communities_are_joined(g: Digraph, s: Seq<u32>, m: int, labels: Map<u32, usize>, i: int, j: int)
    requires
        communities(g, s, m, labels),
        s.len() <= usize::MAX + 1,
        0 <= i < s.len(),
        0 <= j < s.len(),
        labels[s[i]] == labels[s[j]],
    ensures
        reaches(undirected(g.edges), s[i], s[j]),
{
    let e = undirected(g.edges);
    let levels = choose|levels: Seq<Level>| {
        &&& #[trigger] rounds(levels, m)
        &&& super::louvain::finished(levels)
        &&& same_net(entity_net(g, s), levels[0].net)
        &&& forall|i: int| 0 <= i < s.len() ==> labels[#[trigger] s[i]] == label_after(levels, i)
    };
    let h = levels[0].net;
    let w = |x: int| component(g, s[x]);
    assert forall|x: int, y: int| 0 <= x < h.n && 0 <= y < h.n && #[trigger] (h.a)(x, y) > 0 implies w(x) == w(y) by {
        assert((entity_net(g, s).a)(x, y) == (h.a)(x, y));
        assert(e.contains((s[x], s[y])) && e.contains((s[y], s[x])));
        lemma_reaches_edge(e, s[x], s[y]);
        lemma_reaches_edge(e, s[y], s[x]);
        assert forall|b: u32| #[trigger] component(g, s[x]).contains(b) <==> component(g, s[y]).contains(b) by {
            if component(g, s[x]).contains(b) {
                lemma_reaches_trans(e, s[y], s[x], b);
            }
            if component(g, s[y]).contains(b) {
                lemma_reaches_trans(e, s[x], s[y], b);
            }
        }
        assert(component(g, s[x]) =~= component(g, s[y]));
    }
    let v = lemma_rounds_within(levels, m, w, levels.len());
    assert(levels.take(levels.len() as int) =~= levels);
    assert(labels[s[i]] == label_after(levels, i) && labels[s[j]] == label_after(levels, j));
    assert(v(label_after(levels, i)) == w(i));
    assert(v(label_after(levels, j)) == w(j));
    lemma_reaches_self(e, s[j]);
    assert(component(g, s[j]).contains(s[j]));
    assert(component(g, s[i]).contains(s[j]));
}

/// Nodes with the same label are joined, over edges read without directions.
pub open spec fn labels_joined(g: Digraph, labels: Map<u32, usize>) -> bool {
    forall|a: u32, b: u32| #[trigger] labels.contains_key(a) && #[trigger] labels.contains_key(b) && labels[a] == labels[b] ==> reaches(undirected(g.edges), a, b)
}

/// The labels of communities are of joined nodes.
pub(super) proof fn lemma_labels_joined(g: Digraph, s: Seq<u32>, m: int, labels: Map<u32, usize>)
    requires
        communities(g, s, m, labels),
        s.len() <= usize::MAX + 1,
        forall|a: u32| #[trigger] labels.contains_key(a) ==> s.contains(a),
    ensures
        labels_joined(g, labels),
{
    assert forall|a: u32, b: u32| #[trigger] labels.contains_key(a) && #[trigger] labels.contains_key(b) && labels[a] == labels[b] implies reaches(undirected(g.edges), a, b) by {
        let i = choose|i: int| 0 <= i < s.len() && s[i] == a;
        let j = choose|j: int| 0 <= j < s.len() && s[j] == b;
        law_communities_are_joined(g, s, m, labels, i, j);
    }
}

/// The labels that are distinct are of joined nodes.
pub(super) proof fn lemma_labels_apart(g: Digraph, labels: Map<u32, usize>)
    requires
        forall|a: u32, b: u32| #[trigger] labels.contains_key(a) && #[trigger] labels.contains_key(b) && a != b ==> labels[a] != labels[b],
    ensures
        labels_joined(g, labels),
{
    assert forall|a: u32, b: u32| #[trigger] labels.contains_key(a) && #[trigger] labels.contains_key(b) && labels[a] == labels[b] implies reaches(undirected(g.edges), a, b) by {
        lemma_reaches_self(undirected(g.edges), a);
    }
}

/// The communities refine the weak components: all nodes have a label, and nodes with
/// the same label are in the same component. The labels are the numbers from 0 without
/// a gap, and there is none exactly if there is no node.
pub proof fn law_communities_refine_components(g: Digraph, labels: Map<u32, usize>, k: nat, parts: Map<u32, u32>)
    requires
        labels.dom() == g.nodes,
        labels_joined(g, labels),
        numbered(labels, k),
        component_map(g, parts),
    ensures
        labels.dom() == parts.dom(),
        forall|a: u32, b: u32| #[trigger] g.nodes.contains(a) && #[trigger] g.nodes.contains(b) && labels[a] == labels[b] ==> parts[a] == parts[b],
        forall|c: usize| #[trigger] labels.contains_value(c) <==> c < k,
        k == 0 <==> (forall|a: u32| !#[trigger] g.nodes.contains(a)),
        k <= usize::MAX + 1,
{
    assert(labels.dom() =~= parts.dom()) by {
        assert forall|a: u32| labels.dom().contains(a) <==> parts.dom().contains(a) by {
            assert(parts.contains_key(a) <==> g.nodes.contains(a));
        }
    }
    assert forall|a: u32, b: u32| #[trigger] g.nodes.contains(a) && #[trigger] g.nodes.contains(b) && labels[a] == labels[b] implies parts[a] == parts[b] by {
        assert(labels.contains_key(a) && labels.contains_key(b));
        assert(parts.contains_key(a) && parts.contains_key(b));
    }
    assert forall|c: usize| #[trigger] labels.contains_value(c) <==> c < k by {
        if c < k {
            assert(has_label(labels, c as int));
        }
        if labels.contains_value(c) {
            let x = choose|x: u32| #[trigger] labels.contains_key(x) && labels[x] == c;
            assert(labels[x] < k);
        }
    }
    if k > 0 {
        assert(has_label(labels, k - 1));
        let x = choose|x: u32| #[trigger] labels.contains_key(x) && labels[x] == k - 1;
        assert(g.nodes.contains(x));
    } else {
        assert forall|a: u32| !#[trigger] g.nodes.contains(a) by {
            if g.nodes.contains(a) {
                assert(labels.contains_key(a));
            }
        }
    }
}

} // verus!
