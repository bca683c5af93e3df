//! The directed graphs that the analytics speak of, as mathematical objects:
//! walks, reachability, distance, connectedness and cores.

use vstd::prelude::*;

verus! {

/// A directed graph on entity ids.
#[verifier::ext_equal]
pub ghost struct Digraph {
    pub nodes: Set<u32>,
    pub edges: Set<(u32, u32)>,
}

/// The targets of the edges that leave `a`.
pub open spec fn successors(g: Digraph, a: u32) -> Set<u32> {
    Set::new(|b: u32| g.edges.contains((a, b)))
}

/// The sources of the edges that enter `b`.
pub open spec fn predecessors(g: Digraph, b: u32) -> Set<u32> {
    Set::new(|a: u32| g.edges.contains((a, b)))
}

/// A non-empty sequence of nodes in which each is joined to the next.
pub open spec fn is_walk(e: Set<(u32, u32)>, p: Seq<u32>) -> bool {
    &&& p.len() > 0
    &&& forall|i: int| 0 <= i < p.len() - 1 ==> #[trigger] joined_at(e, p, i)
}

/// The node at place `i` is joined to the next.
pub open spec fn joined_at(e: Set<(u32, u32)>, p: Seq<u32>, i: int) -> bool {
    e.contains((p[i], p[i + 1]))
}

/// A walk from `a` to `b`.
pub open spec fn joins(e: Set<(u32, u32)>, p: Seq<u32>, a: u32, b: u32) -> bool {
    &&& is_walk(e, p)
    &&& p[0] == a
    &&& p[p.len() - 1] == b
}

/// Some walk leads from `a` to `b`. Every node reaches itself.
pub open spec fn reaches(e: Set<(u32, u32)>, a: u32, b: u32) -> bool {
    exists|p: Seq<u32>| joins(e, p, a, b)
}

/// Some walk of exactly `d` steps leads from `a` to `b`.
pub open spec fn reaches_in(e: Set<(u32, u32)>, a: u32, b: u32, d: int) -> bool {
    exists|p: Seq<u32>| joins(e, p, a, b) && p.len() == d + 1
}

/// The least number of steps from `a` to `b` is `d`.
pub open spec fn distance_is(e: Set<(u32, u32)>, a: u32, b: u32, d: int) -> bool {
    &&& reaches_in(e, a, b, d)
    &&& forall|p: Seq<u32>| #[trigger] joins(e, p, a, b) ==> p.len() >= d + 1
}

/// The edges read in both directions.
pub open spec fn undirected(e: Set<(u32, u32)>) -> Set<(u32, u32)> {
    Set::new(|q: (u32, u32)| e.contains(q) || e.contains((q.1, q.0)))
}

/// The nodes other than `a` that an edge joins to `a`, in either direction.
pub open spec fn neighbours(g: Digraph, a: u32) -> Set<u32> {
    Set::new(|b: u32| b != a && (g.edges.contains((a, b)) || g.edges.contains((b, a))))
}

pub proof fn lemma_reaches_self(e: Set<(u32, u32)>, a: u32)
    ensures
        reaches(e, a, a),
        reaches_in(e, a, a, 0),
{
    let p = seq![a];
    assert(joins(e, p, a, a));
}

pub proof fn lemma_reaches_step(e: Set<(u32, u32)>, a: u32, b: u32, c: u32)
    requires
        reaches(e, a, b),
        e.contains((b, c)),
    ensures
        reaches(e, a, c),
{
    let p = choose|p: Seq<u32>| joins(e, p, a, b);
    let q = p.push(c);
    assert forall|i: int| 0 <= i < q.len() - 1 implies #[trigger] joined_at(e, q, i) by {
        if i < p.len() - 1 {
            assert(joined_at(e, p, i));
        }
    }
    assert(joins(e, q, a, c));
}

pub proof fn lemma_reaches_in_step(e: Set<(u32, u32)>, a: u32, b: u32, c: u32, d: int)
    requires
        reaches_in(e, a, b, d),
        e.contains((b, c)),
    ensures
        reaches_in(e, a, c, d + 1),
{
    let p = choose|p: Seq<u32>| joins(e, p, a, b) && p.len() == d + 1;
    let q = p.push(c);
    assert forall|i: int| 0 <= i < q.len() - 1 implies #[trigger] joined_at(e, q, i) by {
        if i < p.len() - 1 {
            assert(joined_at(e, p, i));
        }
    }
    assert(joins(e, q, a, c));
}

pub proof fn lemma_reaches_edge(e: Set<(u32, u32)>, a: u32, b: u32)
    requires
        e.contains((a, b)),
    ensures
        reaches(e, a, b),
{
    lemma_reaches_self(e, a);
    lemma_reaches_step(e, a, a, b);
}

/// Reachability is transitive.
pub proof fn lemma_reaches_trans(e: Set<(u32, u32)>, a: u32, b: u32, c: u32)
    requires
        reaches(e, a, b),
        reaches(e, b, c),
    ensures
        reaches(e, a, c),
{
    let p = choose|p: Seq<u32>| joins(e, p, a, b);
    let q = choose|q: Seq<u32>| joins(e, q, b, c);
    let r = p + q.subrange(1, q.len() as int);
    assert forall|i: int| 0 <= i < r.len() - 1 implies #[trigger] joined_at(e, r, i) by {
        if i < p.len() - 1 {
            assert(joined_at(e, p, i));
            assert(r[i] == p[i] && r[i + 1] == p[i + 1]);
        } else {
            let j = i - (p.len() - 1);
            assert(joined_at(e, q, j));
            assert(r[i] == q[j] && r[i + 1] == q[j + 1]);
        }
    }
    assert(joins(e, r, a, c));
}

/// In the undirected reading, reachability is symmetric.
pub proof fn lemma_undirected_symmetric(e: Set<(u32, u32)>, a: u32, b: u32)
    requires
        reaches(undirected(e), a, b),
    ensures
        reaches(undirected(e), b, a),
{
    let u = undirected(e);
    let p = choose|p: Seq<u32>| joins(u, p, a, b);
    let n = p.len() as int;
    let q = Seq::new(p.len(), |i: int| p[n - 1 - i]);
    assert forall|i: int| 0 <= i < q.len() - 1 implies #[trigger] joined_at(u, q, i) by {
        let j = n - 2 - i;
        assert(joined_at(u, p, j));
        assert(q[i] == p[j + 1] && q[i + 1] == p[j]);
    }
    assert(joins(u, q, b, a));
}

/// The walk `p` cannot leave a set that is closed under edges.
pub proof fn lemma_walk_stays(e: Set<(u32, u32)>, p: Seq<u32>, s: Set<u32>, k: int)
    requires
        is_walk(e, p),
        s.contains(p[0]),
        forall|a: u32, b: u32| s.contains(a) && #[trigger] e.contains((a, b)) ==> s.contains(b),
        0 <= k < p.len(),
    ensures
        s.contains(p[k]),
    decreases k,
{
    if k > 0 {
        lemma_walk_stays(e, p, s, k - 1);
        assert(joined_at(e, p, k - 1));
    }
}

/// What is reached from a closed set lies in it.
pub proof fn lemma_closed_reach(e: Set<(u32, u32)>, s: Set<u32>, a: u32, b: u32)
    requires
        reaches(e, a, b),
        s.contains(a),
        forall|x: u32, y: u32| s.contains(x) && #[trigger] e.contains((x, y)) ==> s.contains(y),
    ensures
        s.contains(b),
{
    let p = choose|p: Seq<u32>| joins(e, p, a, b);
    lemma_walk_stays(e, p, s, p.len() - 1);
}

/// Distinct numbers below `n` are at most `n` many.
pub proof fn lemma_distinct_below(s: Seq<usize>, n: nat)
    requires
        s.no_duplicates(),
        forall|i: int| 0 <= i < s.len() ==> #[trigger] s[i] < n,
    ensures
        s.len() <= n,
{
    let t = s.map_values(|x: usize| x as int);
    assert(t.no_duplicates());
    t.unique_seq_to_set();
    let r = vstd::set_lib::set_int_range(0, n as int);
    vstd::set_lib::lemma_int_range(0, n as int);
    assert(t.to_set().subset_of(r)) by {
        assert forall|x: int| t.to_set().contains(x) implies r.contains(x) by {
            let i = choose|i: int| 0 <= i < t.len() && t[i] == x;
            assert(s[i] < n);
        }
    }
    vstd::set_lib::lemma_len_subset(t.to_set(), r);
}

} // verus!
