//! Weighted networks and the quality of their partitions.

use super::sums::{lemma_sum_add, lemma_sum_ext, lemma_sum_groups, lemma_sum_le, lemma_sum_nonneg, lemma_sum_point, lemma_sum_scale, lemma_sum_swap, lemma_sum_zero, only_if, sum};
use vstd::prelude::*;

verus! {

/// A network: the weight between two nodes, and twice the weight of the loops at
/// each node.
pub ghost struct Net {
    pub n: nat,
    pub a: spec_fn(int, int) -> int,
    pub l: spec_fn(int) -> int,
}

/// Weights are not negative and the same in both directions; loops are apart.
pub open spec fn net_ok(g: Net) -> bool {
    &&& forall|i: int, j: int| 0 <= i < g.n && 0 <= j < g.n ==> #[trigger] (g.a)(i, j) == (g.a)(j, i)
    &&& forall|i: int, j: int| 0 <= i < g.n && 0 <= j < g.n ==> #[trigger] (g.a)(i, j) >= 0
    &&& forall|i: int| 0 <= i < g.n ==> #[trigger] (g.a)(i, i) == 0
    &&& forall|i: int| 0 <= i < g.n ==> #[trigger] (g.l)(i) >= 0
}

/// The weight that ends at a node; loops end there twice.
pub open spec fn degree(g: Net, i: int) -> int {
    sum(g.n, row_of(g, i)) + (g.l)(i)
}

/// The weights from a node.
pub open spec fn row_of(g: Net, i: int) -> spec_fn(int) -> int {
    |j: int| (g.a)(i, j)
}

/// All degrees.
pub open spec fn degrees(g: Net) -> spec_fn(int) -> int {
    |i: int| degree(g, i)
}

/// Twice the weight of the network.
pub open spec fn volume(g: Net) -> int {
    sum(g.n, degrees(g))
}

/// What it is worth to have two nodes in one community: the weight between them
/// against what their degrees let one expect, times the volume.
pub open spec fn bond(g: Net, v: int, i: int, j: int) -> int {
    v * (g.a)(i, j) - degree(g, i) * degree(g, j)
}

/// What a node has from being with the others of a community.
pub open spec fn pull(g: Net, v: int, comm: spec_fn(int) -> int, i: int, c: int) -> int {
    sum(g.n, pulls(g, v, comm, i, c))
}

pub open spec fn pulls(g: Net, v: int, comm: spec_fn(int) -> int, i: int, c: int) -> spec_fn(int) -> int {
    |j: int| only_if(j != i && comm(j) == c, bond(g, v, i, j))
}

/// The worth of one node in a partition.
pub open spec fn worth(g: Net, v: int, comm: spec_fn(int) -> int, i: int) -> int {
    sum(g.n, worths(g, v, comm, i))
}

pub open spec fn worths(g: Net, v: int, comm: spec_fn(int) -> int, i: int) -> spec_fn(int) -> int {
    |j: int| only_if(comm(i) == comm(j), bond(g, v, i, j))
}

/// The worth of a partition: its modularity, times the square of the volume.
pub open spec fn score(g: Net, v: int, comm: spec_fn(int) -> int) -> int {
    sum(g.n, worth_of(g, v, comm))
}

pub open spec fn worth_of(g: Net, v: int, comm: spec_fn(int) -> int) -> spec_fn(int) -> int {
    |i: int| worth(g, v, comm, i)
}

/// The partition in which node `k` is in community `c`.
pub open spec fn moved(comm: spec_fn(int) -> int, k: int, c: int) -> spec_fn(int) -> int {
    |i: int| if i == k { c } else { comm(i) }
}

pub proof fn lemma_bond_symmetric(g: Net, v: int, i: int, j: int)
    requires
        net_ok(g),
        0 <= i < g.n,
        0 <= j < g.n,
    ensures
        bond(g, v, i, j) == bond(g, v, j, i),
{
    let d = degree(g, i);
    let e = degree(g, j);
    assert(d * e == e * d) by (nonlinear_arith);
    assert((g.a)(i, j) == (g.a)(j, i));
}

/// Moving a node changes the worth of a partition by twice what the node gains.
pub proof fn lemma_move(g: Net, v: int, comm: spec_fn(int) -> int, k: int, c: int)
    requires
        net_ok(g),
        0 <= k < g.n,
    ensures
        score(g, v, moved(comm, k, c)) - score(g, v, comm) == 2 * (pull(g, v, comm, k, c) - pull(g, v, comm, k, comm(k))),
{
    let to = moved(comm, k, c);
    let c0 = comm(k);
    let before = worth_of(g, v, comm);
    let after = worth_of(g, v, to);
    // What the other nodes gain and lose.
    let gain = pulls(g, v, comm, k, c);
    let loss = pulls(g, v, comm, k, c0);
    let change = |i: int| gain(i) - loss(i);
    // The change of each node's worth, but for the moved one.
    let mid = |i: int| if i == k { worth(g, v, comm, k) } else { worth(g, v, to, i) };
    assert forall|i: int| 0 <= i < g.n implies #[trigger] mid(i) == before(i) + change(i) by {
        if i != k {
            let f = worths(g, v, comm, i);
            let h = worths(g, v, to, i);
            assert forall|j: int| 0 <= j < g.n && j != k implies #[trigger] f(j) == h(j) by {}
            lemma_sum_point(g.n, f, h, k);
            lemma_bond_symmetric(g, v, i, k);
        }
    }
    lemma_sum_add(g.n, before, change, mid);
    let minus = |i: int| -loss(i);
    assert forall|i: int| 0 <= i < g.n implies #[trigger] minus(i) == (-1) * loss(i) by {}
    lemma_sum_scale(g.n, loss, -1, minus);
    assert forall|i: int| 0 <= i < g.n implies #[trigger] change(i) == gain(i) + minus(i) by {}
    lemma_sum_add(g.n, gain, minus, change);
    // The moved node.
    assert forall|i: int| 0 <= i < g.n && i != k implies #[trigger] mid(i) == after(i) by {}
    lemma_sum_point(g.n, mid, after, k);
    let own0 = worths(g, v, comm, k);
    let own1 = worths(g, v, to, k);
    assert forall|j: int| 0 <= j < g.n && j != k implies #[trigger] loss(j) == own0(j) by {}
    lemma_sum_point(g.n, loss, own0, k);
    assert forall|j: int| 0 <= j < g.n && j != k implies #[trigger] gain(j) == own1(j) by {}
    lemma_sum_point(g.n, gain, own1, k);
}

pub proof fn lemma_degree_nonneg(g: Net, i: int)
    requires
        net_ok(g),
        0 <= i < g.n,
    ensures
        0 <= degree(g, i) <= volume(g),
        (g.l)(i) <= degree(g, i),
{
    let row = row_of(g, i);
    assert forall|j: int| 0 <= j < g.n implies #[trigger] row(j) >= 0 by {
        assert((g.a)(i, j) >= 0);
    }
    lemma_sum_nonneg(g.n, row);
    assert((g.l)(i) >= 0);
    let d = degrees(g);
    assert forall|k: int| 0 <= k < g.n implies #[trigger] d(k) >= 0 by {
        let r = row_of(g, k);
        assert forall|j: int| 0 <= j < g.n implies #[trigger] r(j) >= 0 by {
            assert((g.a)(k, j) >= 0);
        }
        lemma_sum_nonneg(g.n, r);
        assert((g.l)(k) >= 0);
    }
    lemma_sum_nonneg(g.n, d);
    assert(d(i) <= sum(g.n, d));
}

/// No partition is worth more than the square of the volume.
pub proof fn lemma_score_bound(g: Net, comm: spec_fn(int) -> int)
    requires
        net_ok(g),
    ensures
        score(g, volume(g), comm) <= volume(g) * volume(g),
        volume(g) >= 0,
{
    let v = volume(g);
    let d = degrees(g);
    assert forall|i: int| 0 <= i < g.n implies #[trigger] d(i) >= 0 by {
        lemma_degree_nonneg(g, i);
    }
    lemma_sum_nonneg(g.n, d);
    let w = worth_of(g, v, comm);
    let u = |i: int| v * degree(g, i);
    assert forall|i: int| 0 <= i < g.n implies #[trigger] w(i) <= u(i) by {
        let f = worths(g, v, comm, i);
        let row = row_of(g, i);
        let h = |j: int| v * (g.a)(i, j);
        lemma_degree_nonneg(g, i);
        assert forall|j: int| 0 <= j < g.n implies #[trigger] f(j) <= h(j) by {
            lemma_degree_nonneg(g, j);
            let x = degree(g, i);
            let y = degree(g, j);
            let z = (g.a)(i, j);
            assert(z >= 0);
            assert(x * y >= 0) by (nonlinear_arith)
                requires
                    x >= 0,
                    y >= 0,
            ;
            assert(v * z >= 0) by (nonlinear_arith)
                requires
                    v >= 0,
                    z >= 0,
            ;
        }
        lemma_sum_le(g.n, f, h);
        assert forall|j: int| 0 <= j < g.n implies #[trigger] h(j) == v * row(j) by {}
        lemma_sum_scale(g.n, row, v, h);
        let a = sum(g.n, row);
        let b = degree(g, i);
        assert(v * a <= v * b) by (nonlinear_arith)
            requires
                v >= 0,
                a <= b,
        ;
    }
    lemma_sum_le(g.n, w, u);
    assert forall|i: int| 0 <= i < g.n implies #[trigger] u(i) == v * d(i) by {}
    lemma_sum_scale(g.n, d, v, u);
}

/// The weight from a node to the others of a community.
pub open spec fn weight_into(g: Net, comm: spec_fn(int) -> int, i: int, c: int) -> int {
    sum(g.n, weights_into(g, comm, i, c))
}

pub open spec fn weights_into(g: Net, comm: spec_fn(int) -> int, i: int, c: int) -> spec_fn(int) -> int {
    |j: int| only_if(j != i && comm(j) == c, (g.a)(i, j))
}

/// The degrees of a community without one node.
pub open spec fn others_degree(g: Net, comm: spec_fn(int) -> int, i: int, c: int) -> int {
    sum(g.n, others(g, comm, i, c))
}

pub open spec fn others(g: Net, comm: spec_fn(int) -> int, i: int, c: int) -> spec_fn(int) -> int {
    |j: int| only_if(j != i && comm(j) == c, degree(g, j))
}

/// The pull of a community by its weight and its degrees.
pub proof fn lemma_pull(g: Net, v: int, comm: spec_fn(int) -> int, i: int, c: int)
    ensures
        pull(g, v, comm, i, c) == v * weight_into(g, comm, i, c) - others_degree(g, comm, i, c) * degree(g, i),
{
    let w = weights_into(g, comm, i, c);
    let e = others(g, comm, i, c);
    let vw = |j: int| v * w(j);
    let d = degree(g, i);
    let de = |j: int| (-d) * e(j);
    let p = pulls(g, v, comm, i, c);
    assert forall|j: int| 0 <= j < g.n implies #[trigger] p(j) == vw(j) + de(j) by {
        let x = degree(g, j);
        if j != i && comm(j) == c {
            assert((-d) * x == -(d * x)) by (nonlinear_arith);
        } else {
            assert(v * 0 == 0) by (nonlinear_arith);
            assert((-d) * 0 == 0) by (nonlinear_arith);
        }
    }
    lemma_sum_scale(g.n, w, v, vw);
    lemma_sum_scale(g.n, e, -d, de);
    lemma_sum_add(g.n, vw, de, p);
    let s = sum(g.n, e);
    assert((-d) * s == -(s * d)) by (nonlinear_arith);
}

/// The weight between two communities.
pub open spec fn cut(g: Net, comm: spec_fn(int) -> int, p: int, q: int) -> int {
    sum(g.n, cuts(g, comm, p, q))
}

pub open spec fn cuts(g: Net, comm: spec_fn(int) -> int, p: int, q: int) -> spec_fn(int) -> int {
    |i: int| only_if(comm(i) == p, reach_into(g, comm, i, q))
}

/// The weight from a node to a community.
pub open spec fn reach_into(g: Net, comm: spec_fn(int) -> int, i: int, q: int) -> int {
    sum(g.n, reaches_into(g, comm, i, q))
}

pub open spec fn reaches_into(g: Net, comm: spec_fn(int) -> int, i: int, q: int) -> spec_fn(int) -> int {
    |j: int| only_if(comm(j) == q, (g.a)(i, j))
}

/// The degrees of a community.
pub open spec fn mass(g: Net, comm: spec_fn(int) -> int, p: int) -> int {
    sum(g.n, masses(g, comm, p))
}

pub open spec fn masses(g: Net, comm: spec_fn(int) -> int, p: int) -> spec_fn(int) -> int {
    |i: int| only_if(comm(i) == p, degree(g, i))
}

/// The network whose nodes are the communities of another.
pub open spec fn condensed(g: Net, comm: spec_fn(int) -> int, h: Net) -> bool {
    &&& forall|i: int| 0 <= i < g.n ==> 0 <= #[trigger] comm(i) < h.n
    &&& forall|p: int, q: int| 0 <= p < h.n && 0 <= q < h.n && p != q ==> #[trigger] (h.a)(p, q) == cut(g, comm, p, q)
    &&& forall|p: int| 0 <= p < h.n ==> #[trigger] degree(h, p) == mass(g, comm, p)
}

/// One partition after another.
pub open spec fn then_by(comm: spec_fn(int) -> int, next: spec_fn(int) -> int) -> spec_fn(int) -> int {
    |i: int| next(comm(i))
}

/// Condensing twice is condensing by the combined partition.
pub proof fn lemma_condensed_twice(g: Net, comm: spec_fn(int) -> int, h: Net, next: spec_fn(int) -> int, k: Net)
    requires
        condensed(g, comm, h),
        condensed(h, next, k),
        net_ok(h),
    ensures
        condensed(g, then_by(comm, next), k),
{
    let both = then_by(comm, next);
    assert forall|i: int| 0 <= i < g.n implies 0 <= #[trigger] both(i) < k.n by {
        let c = comm(i);
        assert(0 <= next(c) < k.n);
    }
    assert forall|p: int| 0 <= p < k.n implies #[trigger] degree(k, p) == mass(g, both, p) by {
        let f = degrees(g);
        let cond = |u: int| next(u) == p;
        lemma_sum_groups(g.n, h.n, comm, cond, f);
        let lhs = |u: int| only_if(cond(u), sum(g.n, |i: int| only_if(comm(i) == u, f(i))));
        let mh = masses(h, next, p);
        assert forall|u: int| 0 <= u < h.n implies #[trigger] lhs(u) == mh(u) by {
            assert(degree(h, u) == mass(g, comm, u));
            lemma_sum_ext(g.n, |i: int| only_if(comm(i) == u, f(i)), masses(g, comm, u));
        }
        lemma_sum_ext(h.n, lhs, mh);
        lemma_sum_ext(g.n, |i: int| only_if(cond(comm(i)), f(i)), masses(g, both, p));
    }
    assert forall|p: int, q: int| 0 <= p < k.n && 0 <= q < k.n && p != q implies #[trigger] (k.a)(p, q) == cut(g, both, p, q) by {
        lemma_cut_twice(g, comm, h, next, p, q);
        assert((k.a)(p, q) == cut(h, next, p, q));
    }
}

proof fn lemma_cut_twice(g: Net, comm: spec_fn(int) -> int, h: Net, next: spec_fn(int) -> int, p: int, q: int)
    requires
        condensed(g, comm, h),
        p != q,
    ensures
        cut(h, next, p, q) == cut(g, then_by(comm, next), p, q),
{
    let both = then_by(comm, next);
    // The weight from node i to the nodes of each community, and to those in q.
    let to = |i: int, u: int| reach_into(g, comm, i, u);
    let toq = |i: int| reach_into(g, both, i, q);
    let inp = |u: int| next(u) == p;
    let inq = |u: int| next(u) == q;
    assert forall|i: int| 0 <= i < g.n implies #[trigger] toq(i) == sum(h.n, |u: int| only_if(inq(u), to(i, u))) by {
        let f = row_of(g, i);
        lemma_sum_groups(g.n, h.n, comm, inq, f);
        lemma_sum_ext(g.n, |j: int| only_if(inq(comm(j)), f(j)), reaches_into(g, both, i, q));
        let x = |u: int| only_if(inq(u), sum(g.n, |j: int| only_if(comm(j) == u, f(j))));
        let y = |u: int| only_if(inq(u), to(i, u));
        assert forall|u: int| 0 <= u < h.n implies #[trigger] x(u) == y(u) by {
            lemma_sum_ext(g.n, |j: int| only_if(comm(j) == u, f(j)), reaches_into(g, comm, i, u));
        }
        lemma_sum_ext(h.n, x, y);
    }
    // The rows of the condensed network.
    let hrow = cuts(h, next, p, q);
    let grow = |u: int| only_if(inp(u), sum(g.n, |i: int| only_if(comm(i) == u, toq(i))));
    assert forall|u: int| 0 <= u < h.n implies #[trigger] hrow(u) == grow(u) by {
        if next(u) == p {
            let t = |w: int, i: int| only_if(comm(i) == u && next(w) == q, to(i, w));
            let a = reaches_into(h, next, u, q);
            let rows = |w: int| sum(g.n, |i: int| t(w, i));
            assert forall|w: int| 0 <= w < h.n implies #[trigger] a(w) == rows(w) by {
                let tw = |i: int| t(w, i);
                if next(w) == q {
                    assert(w != u);
                    assert((h.a)(u, w) == cut(g, comm, u, w));
                    let cr = cuts(g, comm, u, w);
                    assert forall|i: int| 0 <= i < g.n implies #[trigger] cr(i) == tw(i) by {}
                    lemma_sum_ext(g.n, cr, tw);
                } else {
                    assert forall|i: int| 0 <= i < g.n implies #[trigger] tw(i) == 0 by {}
                    lemma_sum_zero(g.n, tw);
                }
            }
            lemma_sum_ext(h.n, a, rows);
            lemma_sum_swap(h.n, g.n, t);
            let cols = |i: int| sum(h.n, |w: int| t(w, i));
            let want = |i: int| only_if(comm(i) == u, toq(i));
            assert forall|i: int| 0 <= i < g.n implies #[trigger] cols(i) == want(i) by {
                let c = |w: int| t(w, i);
                if comm(i) == u {
                    let y = |w: int| only_if(inq(w), to(i, w));
                    assert forall|w: int| 0 <= w < h.n implies #[trigger] c(w) == y(w) by {}
                    lemma_sum_ext(h.n, c, y);
                    assert(toq(i) == sum(h.n, |u: int| only_if(inq(u), to(i, u))));
                } else {
                    assert forall|w: int| 0 <= w < h.n implies #[trigger] c(w) == 0 by {}
                    lemma_sum_zero(h.n, c);
                }
            }
            lemma_sum_ext(g.n, cols, want);
        }
    }
    lemma_sum_ext(h.n, hrow, grow);
    lemma_sum_groups(g.n, h.n, comm, inp, toq);
    let fin = |i: int| only_if(inp(comm(i)), toq(i));
    let def = cuts(g, both, p, q);
    assert forall|i: int| 0 <= i < g.n implies #[trigger] fin(i) == def(i) by {}
    lemma_sum_ext(g.n, fin, def);
    assert(sum(h.n, grow) == sum(h.n, |u: int| only_if(inp(u), sum(g.n, |i: int| only_if(comm(i) == u, toq(i))))));
}

} // verus!
