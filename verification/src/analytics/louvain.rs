//! Communities by modularity, after Louvain: nodes move to the neighbouring
//! community with the largest gain until none moves, the communities become the
//! nodes of a smaller network, and so on until no two join.
//!
//! With all weights whole, so are the gains times twice the square of the total
//! weight, and they are compared without rounding.

use super::graph::Digraph;
use super::groups::{labels_joined, lemma_labels_apart, lemma_labels_joined};
use super::modularity::{condensed, cut, degree, degrees, lemma_condensed_twice, lemma_degree_nonneg, lemma_move, lemma_pull, lemma_score_bound, mass, masses, moved, net_ok, others, others_degree, pull, pulls, row_of, score, then_by, volume, weights_into, Net};
use super::sums::{lemma_sum_add, lemma_sum_ext, lemma_sum_le, lemma_sum_nonneg, lemma_sum_one, lemma_sum_point, lemma_sum_zero, only_if, sum};
use super::GraphView;
use crate::model::EntityLiteralId;
use crate::order::{lemma_ascending_unique, lists};
use std::collections::HashMap;
use vstd::prelude::*;

verus! {

broadcast use vstd::std_specs::hash::group_hash_axioms;

/// The largest total weight for which the comparison of gains does not overflow.
pub const MAX_WEIGHT: u64 = 0x100_0000_0000;

/// A move must gain more than one part in this many.
pub const GAIN_PARTS: i128 = 1000000000000;

/// The weight to a node in a list of neighbours.
pub open spec fn weight_to(l: Seq<(usize, u64)>, j: int) -> int
    decreases l.len(),
{
    if l.len() == 0 {
        0
    } else {
        weight_to(l.drop_last(), j) + only_if(l.last().0 == j, l.last().1 as int)
    }
}

/// The weight in a list of neighbours.
pub open spec fn weight_in(l: Seq<(usize, u64)>) -> int
    decreases l.len(),
{
    if l.len() == 0 {
        0
    } else {
        weight_in(l.drop_last()) + l.last().1
    }
}

/// The weight to a community in a list of neighbours.
pub open spec fn weight_to_comm(l: Seq<(usize, u64)>, comm: Seq<usize>, c: int) -> int
    decreases l.len(),
{
    if l.len() == 0 {
        0
    } else {
        weight_to_comm(l.drop_last(), comm, c) + only_if(comm[l.last().0 as int] == c, l.last().1 as int)
    }
}

/// The network of lists of neighbours.
pub open spec fn net_of(adj: Seq<Vec<(usize, u64)>>, loops: Seq<u64>) -> Net {
    Net { n: adj.len(), a: |i: int, j: int| weight_to(adj[i]@, j), l: |i: int| loops[i] as int }
}

/// Communities as a function.
pub open spec fn comm_fn(comm: Seq<usize>) -> spec_fn(int) -> int {
    |i: int| comm[i] as int
}

/// The neighbours are nodes, none is its own neighbour, and no weight is 0.
pub open spec fn lists_ok(adj: Seq<Vec<(usize, u64)>>) -> bool {
    forall|i: int, k: int| 0 <= i < adj.len() && 0 <= k < adj[i]@.len() ==> (#[trigger] adj[i]@[k]).0 < adj.len() && adj[i]@[k].0 != i && adj[i]@[k].1 > 0
}

proof fn lemma_weight_nonneg(l: Seq<(usize, u64)>, j: int)
    ensures
        weight_to(l, j) >= 0,
        weight_in(l) >= 0,
        weight_to(l, j) <= weight_in(l),
    decreases l.len(),
{
    if l.len() > 0 {
        lemma_weight_nonneg(l.drop_last(), j);
    }
}

proof fn lemma_weight_take(l: Seq<(usize, u64)>, k: int)
    requires
        0 <= k <= l.len(),
    ensures
        weight_in(l.take(k)) <= weight_in(l),
    decreases l.len() - k,
{
    if k < l.len() {
        assert(l.take(k + 1).drop_last() =~= l.take(k));
        lemma_weight_take(l, k + 1);
    } else {
        assert(l.take(k) =~= l);
    }
}

/// Nodes that are not listed have no weight.
proof fn lemma_weight_absent(l: Seq<(usize, u64)>, j: int)
    requires
        forall|k: int| 0 <= k < l.len() ==> (#[trigger] l[k]).0 != j,
    ensures
        weight_to(l, j) == 0,
    decreases l.len(),
{
    if l.len() > 0 {
        let d = l.drop_last();
        assert forall|k: int| 0 <= k < d.len() implies (#[trigger] d[k]).0 != j by {
            assert(d[k] == l[k]);
        }
        lemma_weight_absent(d, j);
        assert(l[l.len() - 1].0 != j);
    }
}

/// The weights to all nodes add up to that of the list.
proof fn lemma_weight_total(l: Seq<(usize, u64)>, n: nat, f: spec_fn(int) -> int)
    requires
        forall|k: int| 0 <= k < l.len() ==> (#[trigger] l[k]).0 < n,
        forall|j: int| 0 <= j < n ==> #[trigger] f(j) == weight_to(l, j),
    ensures
        sum(n, f) == weight_in(l),
    decreases l.len(),
{
    if l.len() == 0 {
        lemma_sum_zero(n, f);
    } else {
        let d = l.drop_last();
        let e = l[l.len() - 1];
        assert forall|k: int| 0 <= k < d.len() implies (#[trigger] d[k]).0 < n by {
            assert(d[k] == l[k]);
        }
        let g = |j: int| weight_to(d, j);
        lemma_weight_total(d, n, g);
        assert forall|j: int| 0 <= j < n && j != e.0 implies #[trigger] g(j) == f(j) by {}
        lemma_sum_point(n, g, f, e.0 as int);
    }
}

/// The weights to the nodes of a community add up to that to the community.
proof fn lemma_comm_total(l: Seq<(usize, u64)>, n: nat, comm: Seq<usize>, i: int, c: int, f: spec_fn(int) -> int)
    requires
        forall|k: int| 0 <= k < l.len() ==> (#[trigger] l[k]).0 < n && l[k].0 != i,
        forall|j: int| 0 <= j < n ==> #[trigger] f(j) == only_if(j != i && comm[j] == c, weight_to(l, j)),
    ensures
        sum(n, f) == weight_to_comm(l, comm, c),
    decreases l.len(),
{
    if l.len() == 0 {
        lemma_sum_zero(n, f);
    } else {
        let d = l.drop_last();
        let e = l[l.len() - 1];
        assert forall|k: int| 0 <= k < d.len() implies (#[trigger] d[k]).0 < n && d[k].0 != i by {
            assert(d[k] == l[k]);
        }
        let g = |j: int| only_if(j != i && comm[j] == c, weight_to(d, j));
        lemma_comm_total(d, n, comm, i, c, g);
        assert forall|j: int| 0 <= j < n && j != e.0 implies #[trigger] g(j) == f(j) by {}
        lemma_sum_point(n, g, f, e.0 as int);
    }
}

proof fn lemma_comm_bound(l: Seq<(usize, u64)>, comm: Seq<usize>, c: int)
    ensures
        0 <= weight_to_comm(l, comm, c) <= weight_in(l),
    decreases l.len(),
{
    if l.len() > 0 {
        lemma_comm_bound(l.drop_last(), comm, c);
    }
}

/// The network of the working lists, with its degrees.
pub open spec fn working(adj: Seq<Vec<(usize, u64)>>, loops: Seq<u64>, deg: Seq<u64>, m: int) -> bool {
    &&& loops.len() == adj.len()
    &&& deg.len() == adj.len()
    &&& lists_ok(adj)
    &&& net_ok(net_of(adj, loops))
    &&& forall|i: int| 0 <= i < deg.len() ==> #[trigger] deg[i] == degree(net_of(adj, loops), i)
    &&& volume(net_of(adj, loops)) == 2 * m
    &&& 0 < m <= MAX_WEIGHT
}

/// The gain of a node from a community, times twice the square of the total weight.
pub open spec fn gain(g: Net, comm: Seq<usize>, i: int, c: int) -> int {
    pull(g, volume(g), comm_fn(comm), i, c)
}

/// The node gains nothing worth a move from the communities of its neighbours.
pub open spec fn settled(g: Net, m: int, comm: Seq<usize>, i: int) -> bool {
    forall|j: int| 0 <= j < g.n && #[trigger] (g.a)(i, j) > 0 ==> (gain(g, comm, i, comm[j] as int) - gain(g, comm, i, comm[i] as int)) * GAIN_PARTS <= 2 * m * m
}

/// A neighbour of the node is in the community.
pub open spec fn near_comm(g: Net, comm: Seq<usize>, i: int, c: usize) -> bool {
    exists|j: int| 0 <= j < g.n && #[trigger] (g.a)(i, j) > 0 && comm[j] == c
}

/// A node moves to the community of a neighbour, for a gain that is worth it, and from
/// no other community of a neighbour it would gain more, by as much as is worth a move.
pub open spec fn good_move(g: Net, m: int, comm: Seq<usize>, i: int, c: usize) -> bool {
    &&& 0 <= i < g.n
    &&& near_comm(g, comm, i, c)
    &&& (gain(g, comm, i, c as int) - gain(g, comm, i, comm[i] as int)) * GAIN_PARTS > 2 * m * m
    &&& forall|j: int| 0 <= j < g.n && #[trigger] (g.a)(i, j) > 0 ==> (gain(g, comm, i, comm[j] as int) - gain(g, comm, i, c as int)) * GAIN_PARTS <= 2 * m * m
}

/// One partition comes from another by such a move of one node.
pub open spec fn one_move(g: Net, m: int, a: Seq<usize>, b: Seq<usize>, i: int) -> bool {
    exists|c: usize| #[trigger] good_move(g, m, a, i, c) && b == a.update(i, c)
}

/// What becomes of a partition when a node is visited: it moves if that is worth it.
pub open spec fn visited(g: Net, m: int, a: Seq<usize>, b: Seq<usize>, i: int) -> bool {
    if b == a {
        settled(g, m, a, i)
    } else {
        one_move(g, m, a, b, i)
    }
}

/// A sweep: all nodes are visited, one after the other in ascending order.
pub open spec fn sweep(g: Net, m: int, s: Seq<Seq<usize>>) -> bool {
    &&& s.len() == g.n + 1
    &&& forall|i: int| 0 <= i < g.n ==> #[trigger] visit_at(g, m, s, i)
}

pub open spec fn visit_at(g: Net, m: int, s: Seq<Seq<usize>>, i: int) -> bool {
    visited(g, m, s[i], s[i + 1], i)
}

/// Sweeps, each from where the one before ended. Each but the last moves a node.
pub open spec fn sweeps(g: Net, m: int, ss: Seq<Seq<Seq<usize>>>) -> bool {
    &&& forall|k: int| 0 <= k < ss.len() ==> sweep(g, m, #[trigger] ss[k])
    &&& forall|k: int| 0 <= k < ss.len() - 1 ==> #[trigger] sweep_moves(ss, k)
}

pub open spec fn sweep_moves(ss: Seq<Seq<Seq<usize>>>, k: int) -> bool {
    ss[k + 1][0] == ss[k].last() && ss[k].last() != ss[k][0]
}

/// Sweeps until one moves nothing.
pub open spec fn climbs(g: Net, m: int, ss: Seq<Seq<Seq<usize>>>) -> bool {
    &&& ss.len() > 0
    &&& sweeps(g, m, ss)
    &&& ss.last().last() == ss.last()[0]
}

/// Each node is a community of its own.
pub open spec fn apart(n: nat) -> Seq<usize> {
    Seq::new(n, |i: int| i as usize)
}

/// Labels of nodes are nodes.
pub open spec fn labels_ok(comm: Seq<usize>, n: nat) -> bool {
    comm.len() == n && forall|i: int| 0 <= i < n ==> #[trigger] comm[i] < n
}

/// The weight to each community is that in the list so far.
pub open spec fn tallied(kin: Seq<u64>, l: Seq<(usize, u64)>, comm: Seq<usize>) -> bool {
    forall|c: int| 0 <= c < kin.len() ==> #[trigger] kin[c] == weight_to_comm(l, comm, c)
}

/// The degrees of each community without one node.
pub open spec fn sigma_ok(g: Net, comm: Seq<usize>, sigma: Seq<u64>, i: int) -> bool {
    forall|c: int| 0 <= c < g.n ==> #[trigger] sigma[c] == others_degree(g, comm_fn(comm), i, c)
}

fn add_weights(list: &Vec<(usize, u64)>, comm: &Vec<usize>, kin: &mut Vec<u64>)
    requires
        old(kin)@.len() == comm@.len(),
        forall|c: int| 0 <= c < old(kin)@.len() ==> #[trigger] old(kin)@[c] == 0,
        forall|k: int| 0 <= k < list@.len() ==> (#[trigger] list@[k]).0 < comm@.len(),
        labels_ok(comm@, comm@.len()),
        weight_in(list@) <= u64::MAX,
    ensures
        final(kin)@.len() == comm@.len(),
        tallied(final(kin)@, list@, comm@),
{
    let mut k: usize = 0;
    assert(list@.take(0) =~= Seq::<(usize, u64)>::empty());
    while k < list.len()
        invariant
            k <= list@.len(),
            kin@.len() == comm@.len(),
            forall|k: int| 0 <= k < list@.len() ==> (#[trigger] list@[k]).0 < comm@.len(),
            labels_ok(comm@, comm@.len()),
            weight_in(list@) <= u64::MAX,
            tallied(kin@, list@.take(k as int), comm@),
        decreases list.len() - k,
    {
        let j: usize = list[k].0;
        let w: u64 = list[k].1;
        assert(list@[k as int].0 < comm@.len());
        let c: usize = comm[j];
        let ghost l0 = list@.take(k as int);
        let ghost l1 = list@.take(k + 1);
        proof {
            assert(l1.drop_last() =~= l0);
            lemma_comm_bound(l1, comm@, c as int);
            lemma_weight_take(list@, k + 1);
            assert(kin@[c as int] == weight_to_comm(l0, comm@, c as int));
            assert(weight_to_comm(l1, comm@, c as int) == weight_to_comm(l0, comm@, c as int) + w);
        }
        let ghost kin0 = kin@;
        let t: u64 = kin[c] + w;
        kin.set(c, t);
        proof {
            assert forall|x: int| 0 <= x < kin@.len() implies #[trigger] kin@[x] == weight_to_comm(l1, comm@, x) by {
                assert(kin0[x] == weight_to_comm(l0, comm@, x));
            }
        }
        k = k + 1;
    }
    assert(list@.take(k as int) =~= list@);
}

fn clear_weights(list: &Vec<(usize, u64)>, comm: &Vec<usize>, kin: &mut Vec<u64>)
    requires
        old(kin)@.len() == comm@.len(),
        forall|k: int| 0 <= k < list@.len() ==> (#[trigger] list@[k]).0 < comm@.len(),
        labels_ok(comm@, comm@.len()),
        tallied(old(kin)@, list@, comm@),
    ensures
        final(kin)@.len() == comm@.len(),
        forall|c: int| 0 <= c < final(kin)@.len() ==> #[trigger] final(kin)@[c] == 0,
{
    let ghost k0 = kin@;
    let mut k: usize = 0;
    while k < list.len()
        invariant
            k <= list@.len(),
            kin@.len() == comm@.len(),
            k0.len() == comm@.len(),
            forall|k: int| 0 <= k < list@.len() ==> (#[trigger] list@[k]).0 < comm@.len(),
            labels_ok(comm@, comm@.len()),
            forall|c: int| 0 <= c < kin@.len() ==> #[trigger] kin@[c] == 0 || kin@[c] == k0[c],
            forall|e: int| 0 <= e < k ==> kin@[comm@[(#[trigger] list@[e]).0 as int] as int] == 0,
        decreases list.len() - k,
    {
        assert(list@[k as int].0 < comm@.len());
        let c: usize = comm[list[k].0];
        let ghost before = kin@;
        kin.set(c, 0);
        proof {
            assert forall|e: int| 0 <= e < k + 1 implies kin@[comm@[(#[trigger] list@[e]).0 as int] as int] == 0 by {
                if e < k {
                    assert(before[comm@[list@[e].0 as int] as int] == 0);
                    assert(comm@[list@[e].0 as int] < comm@.len());
                }
            }
            assert forall|x: int| 0 <= x < kin@.len() implies #[trigger] kin@[x] == 0 || kin@[x] == k0[x] by {
                assert(before[x] == 0 || before[x] == k0[x]);
            }
        }
        k = k + 1;
    }
    proof {
        assert forall|c: int| 0 <= c < kin@.len() implies #[trigger] kin@[c] == 0 by {
            if kin@[c] != 0 {
                assert(k0[c] == weight_to_comm(list@, comm@, c));
                lemma_comm_absent(list@, comm@, c, kin@);
            }
        }
    }
}

proof fn lemma_comm_absent(l: Seq<(usize, u64)>, comm: Seq<usize>, c: int, kin: Seq<u64>)
    requires
        0 <= c < kin.len(),
        kin[c] != 0,
        forall|e: int| 0 <= e < l.len() ==> kin[comm[(#[trigger] l[e]).0 as int] as int] == 0,
    ensures
        weight_to_comm(l, comm, c) == 0,
    decreases l.len(),
{
    if l.len() > 0 {
        let d = l.drop_last();
        assert forall|e: int| 0 <= e < d.len() implies kin[comm[(#[trigger] d[e]).0 as int] as int] == 0 by {
            assert(d[e] == l[e]);
        }
        lemma_comm_absent(d, comm, c, kin);
        assert(kin[comm[l[l.len() - 1].0 as int] as int] == 0);
    }
}

/// The degrees of a community, with and without a node.
proof fn lemma_mass_split(g: Net, comm: spec_fn(int) -> int, i: int, c: int)
    requires
        0 <= i < g.n,
    ensures
        mass(g, comm, c) == others_degree(g, comm, i, c) + only_if(comm(i) == c, degree(g, i)),
{
    let f = others(g, comm, i, c);
    let h = masses(g, comm, c);
    assert forall|j: int| 0 <= j < g.n && j != i implies #[trigger] f(j) == h(j) by {}
    lemma_sum_point(g.n, f, h, i);
}

proof fn lemma_mass_bound(g: Net, comm: spec_fn(int) -> int, c: int)
    requires
        net_ok(g),
    ensures
        0 <= mass(g, comm, c) <= volume(g),
{
    let f = masses(g, comm, c);
    let d = degrees(g);
    assert forall|j: int| 0 <= j < g.n implies 0 <= #[trigger] f(j) <= d(j) by {
        lemma_degree_nonneg(g, j);
    }
    lemma_sum_nonneg(g.n, f);
    lemma_sum_le(g.n, f, d);
}

/// Moving a node does not change the others.
proof fn lemma_others_moved(g: Net, comm: Seq<usize>, i: int, c: usize, x: int)
    requires
        comm.len() == g.n,
        0 <= i < g.n,
    ensures
        others_degree(g, comm_fn(comm.update(i, c)), i, x) == others_degree(g, comm_fn(comm), i, x),
{
    lemma_sum_ext(g.n, others(g, comm_fn(comm.update(i, c)), i, x), others(g, comm_fn(comm), i, x));
}

/// The gain from what was tallied.
proof fn lemma_gain(adj: Seq<Vec<(usize, u64)>>, loops: Seq<u64>, comm: Seq<usize>, i: int, c: int)
    requires
        lists_ok(adj),
        0 <= i < adj.len(),
        comm.len() == adj.len(),
    ensures
        ({
            let g = net_of(adj, loops);
            gain(g, comm, i, c) == volume(g) * weight_to_comm(adj[i]@, comm, c) - others_degree(g, comm_fn(comm), i, c) * degree(g, i)
        }),
{
    let g = net_of(adj, loops);
    lemma_pull(g, volume(g), comm_fn(comm), i, c);
    let f = weights_into(g, comm_fn(comm), i, c);
    let l = adj[i]@;
    assert forall|k: int| 0 <= k < l.len() implies (#[trigger] l[k]).0 < g.n && l[k].0 != i by {
        assert(adj[i]@[k].0 < adj.len());
    }
    assert forall|j: int| 0 <= j < g.n implies #[trigger] f(j) == only_if(j != i && comm[j] == c, weight_to(l, j)) by {}
    lemma_comm_total(l, g.n, comm, i, c, f);
}

/// The degree of a node is at least the weight in its list.
proof fn lemma_list_degree(adj: Seq<Vec<(usize, u64)>>, loops: Seq<u64>, i: int)
    requires
        lists_ok(adj),
        net_ok(net_of(adj, loops)),
        loops.len() == adj.len(),
        0 <= i < adj.len(),
    ensures
        degree(net_of(adj, loops), i) == weight_in(adj[i]@) + loops[i],
{
    let g = net_of(adj, loops);
    let l = adj[i]@;
    let f = row_of(g, i);
    assert forall|k: int| 0 <= k < l.len() implies (#[trigger] l[k]).0 < g.n by {
        assert(adj[i]@[k].0 < adj.len());
    }
    assert forall|j: int| 0 <= j < g.n implies #[trigger] f(j) == weight_to(l, j) by {}
    lemma_weight_total(l, g.n, f);
}

proof fn lemma_listed_weight(l: Seq<(usize, u64)>, k: int)
    requires
        0 <= k < l.len(),
        l[k].1 > 0,
    ensures
        weight_to(l, l[k].0 as int) > 0,
    decreases l.len(),
{
    let d = l.drop_last();
    lemma_weight_nonneg(d, l[k].0 as int);
    if k < l.len() - 1 {
        assert(d[k] == l[k]);
        lemma_listed_weight(d, k);
    }
}

/// Neighbours with a weight are listed.
proof fn lemma_listed(l: Seq<(usize, u64)>, j: int)
    requires
        weight_to(l, j) > 0,
    ensures
        exists|k: int| 0 <= k < l.len() && (#[trigger] l[k]).0 == j,
    decreases l.len(),
{
    if l.len() > 0 {
        let d = l.drop_last();
        if l.last().0 == j {
            assert(l[l.len() - 1].0 == j);
        } else {
            lemma_listed(d, j);
            let k = choose|k: int| 0 <= k < d.len() && (#[trigger] d[k]).0 == j;
            assert(l[k].0 == j);
        }
    }
}

/// The community to which a node moves, or its own.
#[verifier::spinoff_prover]
fn best_community(adj: &Vec<Vec<(usize, u64)>>, Ghost(loops): Ghost<Seq<u64>>, deg: &Vec<u64>, m: u64, comm: &Vec<usize>, kin: &Vec<u64>, sigma: &Vec<u64>, i: usize) -> (r: usize)
    requires
        working(adj@, loops, deg@, m as int),
        labels_ok(comm@, adj@.len()),
        i < adj@.len(),
        kin@.len() == adj@.len(),
        sigma@.len() == adj@.len(),
        tallied(kin@, adj@[i as int]@, comm@),
        sigma_ok(net_of(adj@, loops), comm@, sigma@, i as int),
    ensures
        r < adj@.len(),
        ({
            let g = net_of(adj@, loops);
            let ci = comm@[i as int] as int;
            if r == ci {
                forall|k: int| 0 <= k < adj@[i as int]@.len() ==> (gain(g, comm@, i as int, comm@[(#[trigger] adj@[i as int]@[k]).0 as int] as int) - gain(g, comm@, i as int, ci)) * GAIN_PARTS <= 2 * m * m
            } else {
                good_move(g, m as int, comm@, i as int, r)
            }
        }),
{
    let ghost g = net_of(adj@, loops);
    let ghost v = volume(g);
    let list: &Vec<(usize, u64)> = &adj[i];
    let d: u64 = deg[i];
    let ci: usize = comm[i];
    proof {
        lemma_list_degree(adj@, loops, i as int);
        lemma_degree_nonneg(g, i as int);
        assert(deg@[i as int] == degree(g, i as int));
        assert forall|c: int| 0 <= c < g.n implies #[trigger] gain(g, comm@, i as int, c) == v * kin@[c] - sigma@[c] * d && 0 <= kin@[c] <= v && 0 <= sigma@[c] <= v by {
            lemma_gain(adj@, loops, comm@, i as int, c);
            lemma_comm_bound(list@, comm@, c);
            assert(kin@[c] == weight_to_comm(list@, comm@, c));
            assert(sigma@[c] == others_degree(g, comm_fn(comm@), i as int, c));
            lemma_mass_split(g, comm_fn(comm@), i as int, c);
            lemma_mass_bound(g, comm_fn(comm@), c);
        }
    }
    let v2: i128 = 2 * m as i128;
    assert(v2 * m <= 0x200_0000_0000 * 0x100_0000_0000) by (nonlinear_arith)
        requires
            v2 == 2 * m,
            0 < m <= 0x100_0000_0000,
    ;
    let bar: i128 = v2 * m as i128;
    assert(bar == 2 * m * m) by (nonlinear_arith)
        requires
            bar == v2 * m,
            v2 == 2 * m,
    ;
    assert(0 < bar <= 0x200_0000_0000 * 0x100_0000_0000) by (nonlinear_arith)
        requires
            bar == 2 * m * m,
            0 < m <= 0x100_0000_0000,
    ;
    let mut best: usize = ci;
    assert(comm@[i as int] < adj@.len());
    assert(gain(g, comm@, i as int, ci as int) == v * kin@[ci as int] - sigma@[ci as int] * d);
    let mut best_gain: i128 = gain_of(v2, kin[ci], sigma[ci], d);
    let ghost base = best_gain as int;
    assert(base == gain(g, comm@, i as int, ci as int));
    let mut k: usize = 0;
    while k < list.len()
        invariant
            g == net_of(adj@, loops),
            v == volume(g),
            v == v2,
            v2 == 2 * m,
            bar == 2 * m * m,
            0 < bar <= 0x200_0000_0000 * 0x100_0000_0000,
            0 < m <= 0x100_0000_0000,
            d <= v2,
            i < adj@.len(),
            g.n == adj@.len(),
            list@ == adj@[i as int]@,
            lists_ok(adj@),
            labels_ok(comm@, adj@.len()),
            kin@.len() == adj@.len(),
            sigma@.len() == adj@.len(),
            forall|c: int| 0 <= c < g.n ==> #[trigger] gain(g, comm@, i as int, c) == v * kin@[c] - sigma@[c] * d && 0 <= kin@[c] <= v && 0 <= sigma@[c] <= v,
            k <= list@.len(),
            ci == comm@[i as int],
            best < adj@.len(),
            base == gain(g, comm@, i as int, ci as int),
            best_gain == gain(g, comm@, i as int, best as int),
            -0x400_0000_0000 * 0x400_0000_0000 <= best_gain <= 0x400_0000_0000 * 0x400_0000_0000,
            best_gain >= base,
            forall|e: int| 0 <= e < k ==> (gain(g, comm@, i as int, comm@[(#[trigger] list@[e]).0 as int] as int) - best_gain) * GAIN_PARTS <= bar,
            if best == ci {
                best_gain == base
            } else {
                &&& (best_gain - base) * GAIN_PARTS > bar
                &&& near_comm(g, comm@, i as int, best)
            },
        decreases list.len() - k,
    {
        assert(adj@[i as int]@[k as int].0 < adj@.len());
        let c: usize = comm[list[k].0];
        assert(comm@[list@[k as int].0 as int] < adj@.len());
        assert(gain(g, comm@, i as int, c as int) == v * kin@[c as int] - sigma@[c as int] * d);
        let x: i128 = gain_of(v2, kin[c], sigma[c], d);
        if (x - best_gain) * GAIN_PARTS > bar {
            assert(x > best_gain) by (nonlinear_arith)
                requires
                    (x - best_gain) * GAIN_PARTS > bar,
                    bar > 0,
                    GAIN_PARTS > 0,
            ;
            proof {
                assert((x - base) * GAIN_PARTS > bar) by (nonlinear_arith)
                    requires
                        (x - best_gain) * GAIN_PARTS > bar,
                        best_gain >= base,
                        GAIN_PARTS > 0,
                ;
                let j = list@[k as int].0 as int;
                lemma_listed_weight(list@, k as int);
                assert((g.a)(i as int, j) > 0);
                assert(near_comm(g, comm@, i as int, c));
                if c == ci {
                    assert(x == base);
                }
                assert forall|e: int| 0 <= e < k implies (gain(g, comm@, i as int, comm@[(#[trigger] list@[e]).0 as int] as int) - x) * GAIN_PARTS <= bar by {
                    let y = gain(g, comm@, i as int, comm@[list@[e].0 as int] as int);
                    let b = best_gain as int;
                    assert((y - x) * GAIN_PARTS <= (y - b) * GAIN_PARTS) by (nonlinear_arith)
                        requires
                            x > b,
                            GAIN_PARTS > 0,
                    ;
                }
            }
            best = c;
            best_gain = x;
        }
        k = k + 1;
    }
    proof {
        if best != ci {
            assert forall|j: int| 0 <= j < g.n && #[trigger] (g.a)(i as int, j) > 0 implies (gain(g, comm@, i as int, comm@[j] as int) - gain(g, comm@, i as int, best as int)) * GAIN_PARTS <= 2 * m * m by {
                assert((g.a)(i as int, j) == weight_to(list@, j));
                lemma_listed(list@, j);
                let e = choose|e: int| 0 <= e < list@.len() && (#[trigger] list@[e]).0 == j;
                assert(comm@[list@[e].0 as int] == comm@[j]);
            }
        }
    }
    best
}

fn gain_of(v2: i128, w: u64, sigma: u64, d: u64) -> (r: i128)
    requires
        0 < v2 <= 0x200_0000_0000,
        w <= v2,
        sigma <= v2,
        d <= v2,
    ensures
        r == v2 * w - sigma * d,
        -0x400_0000_0000 * 0x400_0000_0000 <= r <= 0x400_0000_0000 * 0x400_0000_0000,
{
    assert(0 <= v2 * w <= 0x200_0000_0000 * 0x200_0000_0000) by (nonlinear_arith)
        requires
            0 < v2 <= 0x200_0000_0000,
            0 <= w <= v2,
    ;
    assert(0 <= sigma * d <= 0x200_0000_0000 * 0x200_0000_0000) by (nonlinear_arith)
        requires
            0 < v2 <= 0x200_0000_0000,
            0 <= sigma <= v2,
            0 <= d <= v2,
    ;
    v2 * w as i128 - sigma as i128 * d as i128
}

/// Only the communities of nodes count.
proof fn lemma_score_ext(g: Net, v: int, f: spec_fn(int) -> int, h: spec_fn(int) -> int)
    requires
        forall|i: int| 0 <= i < g.n ==> #[trigger] f(i) == h(i),
    ensures
        score(g, v, f) == score(g, v, h),
{
    let a = super::modularity::worth_of(g, v, f);
    let b = super::modularity::worth_of(g, v, h);
    assert forall|i: int| 0 <= i < g.n implies #[trigger] a(i) == b(i) by {
        let x = super::modularity::worths(g, v, f, i);
        let y = super::modularity::worths(g, v, h, i);
        assert forall|j: int| 0 <= j < g.n implies #[trigger] x(j) == y(j) by {
            assert(f(i) == h(i) && f(j) == h(j));
        }
        lemma_sum_ext(g.n, x, y);
    }
    lemma_sum_ext(g.n, a, b);
}

/// Every move raises the modularity.
pub proof fn law_moves_raise_modularity(g: Net, m: int, comm: Seq<usize>, i: int, c: usize)
    requires
        net_ok(g),
        comm.len() == g.n,
        0 <= i < g.n,
        good_move(g, m, comm, i, c),
    ensures
        score(g, volume(g), comm_fn(comm.update(i, c))) > score(g, volume(g), comm_fn(comm)),
{
    let v = volume(g);
    let f = comm_fn(comm);
    assert(gain(g, comm, i, c as int) > gain(g, comm, i, comm[i] as int)) by {
        let x = gain(g, comm, i, c as int) - gain(g, comm, i, comm[i] as int);
        assert(x > 0) by (nonlinear_arith)
            requires
                x * GAIN_PARTS > 2 * m * m,
                GAIN_PARTS > 0,
        ;
    }
    lemma_move(g, v, f, i, c as int);
    let to = moved(f, i, c as int);
    let h = comm_fn(comm.update(i, c));
    assert forall|x: int| 0 <= x < g.n implies #[trigger] to(x) == h(x) by {}
    lemma_score_ext(g, v, to, h);
}

/// The score that is still to be had.
pub open spec fn headroom(g: Net, comm: Seq<usize>) -> int {
    volume(g) * volume(g) - score(g, volume(g), comm_fn(comm))
}

/// The degrees of all communities.
pub open spec fn sums_ok(g: Net, comm: Seq<usize>, sigma: Seq<u64>) -> bool {
    forall|c: int| 0 <= c < g.n ==> #[trigger] sigma[c] == mass(g, comm_fn(comm), c)
}

/// Let one node move. Its community changes only for a gain.
#[verifier::spinoff_prover]
fn move_node(adj: &Vec<Vec<(usize, u64)>>, Ghost(loops): Ghost<Seq<u64>>, deg: &Vec<u64>, m: u64, comm: &mut Vec<usize>, kin: &mut Vec<u64>, sigma: &mut Vec<u64>, i: usize) -> (moved: bool)
    requires
        working(adj@, loops, deg@, m as int),
        labels_ok(old(comm)@, adj@.len()),
        i < adj@.len(),
        old(kin)@.len() == adj@.len(),
        old(sigma)@.len() == adj@.len(),
        forall|c: int| 0 <= c < old(kin)@.len() ==> #[trigger] old(kin)@[c] == 0,
        sums_ok(net_of(adj@, loops), old(comm)@, old(sigma)@),
    ensures
        labels_ok(final(comm)@, adj@.len()),
        final(kin)@.len() == adj@.len(),
        final(sigma)@.len() == adj@.len(),
        forall|c: int| 0 <= c < final(kin)@.len() ==> #[trigger] final(kin)@[c] == 0,
        sums_ok(net_of(adj@, loops), final(comm)@, final(sigma)@),
        if moved {
            &&& headroom(net_of(adj@, loops), final(comm)@) < headroom(net_of(adj@, loops), old(comm)@)
            &&& one_move(net_of(adj@, loops), m as int, old(comm)@, final(comm)@, i as int)
        } else {
            final(comm)@ == old(comm)@ && settled(net_of(adj@, loops), m as int, old(comm)@, i as int)
        },
{
    let ghost g = net_of(adj@, loops);
    let ghost c0 = comm@;
    let ghost s0 = sigma@;
    let ci: usize = comm[i];
    let d: u64 = deg[i];
    proof {
        assert(comm@[i as int] < adj@.len());
        assert(deg@[i as int] == degree(g, i as int));
        lemma_mass_split(g, comm_fn(c0), i as int, ci as int);
        assert(sigma@[ci as int] == mass(g, comm_fn(c0), ci as int));
        lemma_degree_nonneg(g, i as int);
        assert(others_degree(g, comm_fn(c0), i as int, ci as int) >= 0) by {
            let f = others(g, comm_fn(c0), i as int, ci as int);
            assert forall|j: int| 0 <= j < g.n implies #[trigger] f(j) >= 0 by {
                lemma_degree_nonneg(g, j);
            }
            lemma_sum_nonneg(g.n, f);
        }
        lemma_list_degree(adj@, loops, i as int);
        assert forall|k: int| 0 <= k < adj@[i as int]@.len() implies (#[trigger] adj@[i as int]@[k]).0 < comm@.len() by {}
    }
    let less: u64 = sigma[ci] - d;
    sigma.set(ci, less);
    proof {
        assert forall|c: int| 0 <= c < g.n implies #[trigger] sigma@[c] == others_degree(g, comm_fn(c0), i as int, c) by {
            lemma_mass_split(g, comm_fn(c0), i as int, c);
            assert(s0[c] == mass(g, comm_fn(c0), c));
        }
    }
    let ghost s1 = sigma@;
    add_weights(&adj[i], comm, kin);
    let best: usize = best_community(adj, Ghost(loops), deg, m, comm, kin, sigma, i);
    clear_weights(&adj[i], comm, kin);
    proof {
        lemma_others_moved(g, c0, i as int, best, best as int);
        lemma_mass_split(g, comm_fn(c0.update(i as int, best)), i as int, best as int);
        lemma_mass_bound(g, comm_fn(c0.update(i as int, best)), best as int);
        assert(s1[best as int] == others_degree(g, comm_fn(c0), i as int, best as int));
    }
    let more: u64 = sigma[best] + d;
    sigma.set(best, more);
    comm.set(i, best);
    proof {
        let c1 = comm@;
        assert forall|c: int| 0 <= c < g.n implies #[trigger] sigma@[c] == mass(g, comm_fn(c1), c) by {
            lemma_others_moved(g, c0, i as int, best, c);
            lemma_mass_split(g, comm_fn(c1), i as int, c);
            assert(s1[c] == others_degree(g, comm_fn(c0), i as int, c));
        }
        if best != ci {
            law_moves_raise_modularity(g, m as int, c0, i as int, best);
        } else {
            assert(c1 =~= c0);
            assert forall|j: int| 0 <= j < g.n && #[trigger] (g.a)(i as int, j) > 0 implies (gain(g, c0, i as int, c0[j] as int) - gain(g, c0, i as int, c0[i as int] as int)) * GAIN_PARTS <= 2 * m * m by {
                lemma_listed(adj@[i as int]@, j);
                let k = choose|k: int| 0 <= k < adj@[i as int]@.len() && (#[trigger] adj@[i as int]@[k]).0 == j;
                assert(adj@[i as int]@[k].0 == j);
            }
        }
    }
    best != ci
}

/// Let all nodes move, again and again, until none does.
#[verifier::spinoff_prover]
fn louvain_one_level(adj: &Vec<Vec<(usize, u64)>>, Ghost(loops): Ghost<Seq<u64>>, deg: &Vec<u64>, m: u64) -> (comm: Vec<usize>)
    requires
        working(adj@, loops, deg@, m as int),
    ensures
        labels_ok(comm@, adj@.len()),
        forall|i: int| 0 <= i < adj@.len() ==> #[trigger] settled(net_of(adj@, loops), m as int, comm@, i),
        exists|ss: Seq<Seq<Seq<usize>>>| #[trigger] climbs(net_of(adj@, loops), m as int, ss) && ss[0][0] == apart(adj@.len()) && ss.last().last() == comm@,
{
    let ghost g = net_of(adj@, loops);
    let n: usize = adj.len();
    let mut comm: Vec<usize> = Vec::new();
    let mut kin: Vec<u64> = Vec::new();
    let mut sigma: Vec<u64> = Vec::new();
    let mut i: usize = 0;
    while i < n
        invariant
            i <= n,
            n == deg@.len(),
            comm@.len() == i,
            kin@.len() == i,
            sigma@.len() == i,
            forall|k: int| 0 <= k < i ==> #[trigger] comm@[k] == k,
            forall|k: int| 0 <= k < i ==> #[trigger] kin@[k] == 0,
            forall|k: int| 0 <= k < i ==> #[trigger] sigma@[k] == deg@[k],
        decreases n - i,
    {
        comm.push(i);
        kin.push(0);
        sigma.push(deg[i]);
        i = i + 1;
    }
    proof {
        assert forall|c: int| 0 <= c < g.n implies #[trigger] sigma@[c] == mass(g, comm_fn(comm@), c) by {
            let f = masses(g, comm_fn(comm@), c);
            assert forall|j: int| 0 <= j < g.n && j != c implies #[trigger] f(j) == 0 by {
                assert(comm@[j] == j);
            }
            lemma_sum_one(g.n, f, c);
            assert(comm@[c] == c);
            assert(deg@[c] == degree(g, c));
        }
    }
    let ghost mut ss: Seq<Seq<Seq<usize>>> = Seq::empty();
    assert(comm@ =~= apart(n as nat));
    loop
        invariant
            sweeps(g, m as int, ss),
            ss.len() == 0 ==> comm@ == apart(n as nat),
            ss.len() > 0 ==> ss[0][0] == apart(n as nat) && ss.last().last() == comm@ && ss.last().last() != ss.last()[0],
            g == net_of(adj@, loops),
            n == adj@.len(),
            working(adj@, loops, deg@, m as int),
            labels_ok(comm@, n as nat),
            kin@.len() == n,
            sigma@.len() == n,
            forall|c: int| 0 <= c < kin@.len() ==> #[trigger] kin@[c] == 0,
            sums_ok(g, comm@, sigma@),
        decreases headroom(g, comm@),
    {
        let ghost start = comm@;
        let ghost mut walk: Seq<Seq<usize>> = seq![start];
        let mut any: bool = false;
        let mut i: usize = 0;
        proof {
            lemma_score_bound(g, comm_fn(start));
        }
        while i < n
            invariant
                i <= n,
                walk.len() == i + 1,
                walk[0] == start,
                walk.last() == comm@,
                forall|k: int| 0 <= k < i ==> #[trigger] visit_at(g, m as int, walk, k),
                g == net_of(adj@, loops),
                n == adj@.len(),
                working(adj@, loops, deg@, m as int),
                labels_ok(comm@, n as nat),
                kin@.len() == n,
                sigma@.len() == n,
                forall|c: int| 0 <= c < kin@.len() ==> #[trigger] kin@[c] == 0,
                sums_ok(g, comm@, sigma@),
                if any {
                    headroom(g, comm@) < headroom(g, start)
                } else {
                    &&& comm@ == start
                    &&& forall|k: int| 0 <= k < i ==> #[trigger] settled(g, m as int, start, k)
                },
            decreases n - i,
        {
            let ghost before = comm@;
            let went: bool = move_node(adj, Ghost(loops), deg, m, &mut comm, &mut kin, &mut sigma, i);
            if went {
                any = true;
            }
            proof {
                let longer = walk.push(comm@);
                assert(visit_at(g, m as int, longer, i as int)) by {
                    assert(longer[i as int] == before && longer[i + 1] == comm@);
                }
                assert forall|k: int| 0 <= k < i + 1 implies #[trigger] visit_at(g, m as int, longer, k) by {
                    if k < i {
                        assert(visit_at(g, m as int, walk, k));
                        assert(longer[k] == walk[k] && longer[k + 1] == walk[k + 1]);
                    }
                }
                walk = longer;
            }
            i = i + 1;
        }
        proof {
            let more = ss.push(walk);
            assert forall|k: int| 0 <= k < more.len() implies sweep(g, m as int, #[trigger] more[k]) by {
                if k < ss.len() {
                    assert(sweep(g, m as int, ss[k]));
                }
            }
            assert forall|k: int| 0 <= k < more.len() - 1 implies #[trigger] sweep_moves(more, k) by {
                if k < ss.len() - 1 {
                    assert(sweep_moves(ss, k));
                }
            }
            ss = more;
            lemma_score_bound(g, comm_fn(comm@));
        }
        if !any {
            assert(climbs(g, m as int, ss));
            return comm;
        }
    }
}

/// The labels are those of `comm`, numbered in the order in which they come up.
pub open spec fn relabelled(comm: Seq<usize>, out: Seq<usize>, k: int) -> bool {
    &&& out.len() == comm.len()
    &&& forall|i: int| 0 <= i < out.len() ==> 0 <= #[trigger] out[i] < k
    &&& forall|i: int, j: int| 0 <= i < out.len() && 0 <= j < out.len() ==> (#[trigger] out[i] == #[trigger] out[j] <==> comm[i] == comm[j])
    &&& forall|c: int| 0 <= c < k ==> #[trigger] label_used(out, c)
    &&& forall|i: int, c: int| 0 <= i < out.len() && 0 <= c < out[i] ==> #[trigger] label_before(out, i, c)
}

/// Some earlier node has the label.
pub open spec fn label_before(out: Seq<usize>, i: int, c: int) -> bool {
    exists|j: int| 0 <= j < i && #[trigger] out[j] == c
}

/// Some node has the label.
pub open spec fn label_used(out: Seq<usize>, c: int) -> bool {
    exists|i: int| 0 <= i < out.len() && #[trigger] out[i] == c
}

/// Number labels from 0, without gaps, and say how many there are.
fn renumber(comm: &Vec<usize>) -> (r: (Vec<usize>, usize))
    ensures
        relabelled(comm@, r.0@, r.1 as int),
        r.1 <= comm@.len(),
{
    let mut map: HashMap<usize, usize> = HashMap::new();
    let mut out: Vec<usize> = Vec::new();
    let mut k: usize = 0;
    let mut i: usize = 0;
    while i < comm.len()
        invariant
            i <= comm@.len(),
            out@.len() == i,
            k <= i,
            forall|x: int| 0 <= x < i ==> map@.contains_key(#[trigger] comm@[x]) && out@[x] == map@[comm@[x]],
            forall|c: usize| #[trigger] map@.contains_key(c) ==> map@[c] < k,
            forall|c: usize, d: usize| #[trigger] map@.contains_key(c) && #[trigger] map@.contains_key(d) && map@[c] == map@[d] ==> c == d,
            forall|c: int| 0 <= c < k ==> #[trigger] label_used(out@, c),
            forall|x: int, c: int| 0 <= x < i && 0 <= c < out@[x] ==> #[trigger] label_before(out@, x, c),
            forall|c: usize| #[trigger] map@.contains_key(c) ==> label_used(out@, map@[c] as int),
        decreases comm.len() - i,
    {
        let c: usize = comm[i];
        let ghost out0 = out@;
        let ghost map0 = map@;
        let ghost k0 = k as int;
        let found: Option<usize> = match map.get(&c) {
            Some(v) => Some(*v),
            None => None,
        };
        let label: usize = match found {
            Some(v) => v,
            None => {
                map.insert(c, k);
                k = k + 1;
                k - 1
            },
        };
        out.push(label);
        proof {
            assert forall|x: int, y: int| 0 <= x < i + 1 && 0 <= y < out@[x] implies #[trigger] label_before(out@, x, y) by {
                if x < i {
                    assert(label_before(out0, x, y));
                    let z = choose|z: int| 0 <= z < x && #[trigger] out0[z] == y;
                    assert(out@[z] == y);
                } else if found is Some {
                    assert(label_used(out0, label as int));
                    let first = choose|f: int| 0 <= f < out0.len() && #[trigger] out0[f] == label;
                    assert(label_before(out0, first, y));
                    let z = choose|z: int| 0 <= z < first && #[trigger] out0[z] == y;
                    assert(out@[z] == y);
                } else {
                    assert(label_used(out0, y));
                    let z = choose|z: int| 0 <= z < out0.len() && #[trigger] out0[z] == y;
                    assert(out@[z] == y);
                }
            }
            assert forall|y: int| 0 <= y < k implies #[trigger] label_used(out@, y) by {
                if y < k0 {
                    assert(label_used(out0, y));
                    let x = choose|x: int| 0 <= x < i && #[trigger] out0[x] == y;
                    assert(out@[x] == y);
                } else {
                    assert(out@[i as int] == y);
                }
            }
            assert forall|x: int| 0 <= x < i + 1 implies map@.contains_key(#[trigger] comm@[x]) && out@[x] == map@[comm@[x]] by {
                if x < i {
                    assert(map0.contains_key(comm@[x]) && out0[x] == map0[comm@[x]]);
                }
            }
        }
        i = i + 1;
    }
    proof {
        assert forall|a: int, b: int| 0 <= a < out@.len() && 0 <= b < out@.len() implies (#[trigger] out@[a] == #[trigger] out@[b] <==> comm@[a] == comm@[b]) by {
            assert(map@.contains_key(comm@[a]) && map@.contains_key(comm@[b]));
        }
        assert forall|x: int| 0 <= x < out@.len() implies 0 <= #[trigger] out@[x] < k by {
            assert(map@.contains_key(comm@[x]));
        }
    }
    (out, k)
}

/// The weight from the first nodes, where they are in one community, to another.
pub open spec fn gathered(adj: Seq<Vec<(usize, u64)>>, lab: Seq<usize>, p: int, q: int) -> spec_fn(int) -> int {
    |u: int| only_if(lab[u] == p, weight_to_comm(adj[u]@, lab, q))
}

/// The loops of the first nodes, where they are in one community, with the weight
/// inside of it.
pub open spec fn looped(adj: Seq<Vec<(usize, u64)>>, loops: Seq<u64>, lab: Seq<usize>, p: int) -> spec_fn(int) -> int {
    |u: int| only_if(lab[u] == p, loops[u] + weight_to_comm(adj[u]@, lab, p))
}

proof fn lemma_looped_bound(adj: Seq<Vec<(usize, u64)>>, loops: Seq<u64>, lab: Seq<usize>, p: int, n: nat)
    requires
        lists_ok(adj),
        net_ok(net_of(adj, loops)),
        loops.len() == adj.len(),
        lab.len() == adj.len(),
        n < adj.len(),
    ensures
        sum(n, looped(adj, loops, lab, p)) + looped(adj, loops, lab, p)(n as int) <= volume(net_of(adj, loops)),
        0 <= sum(n, looped(adj, loops, lab, p)),
{
    let g = net_of(adj, loops);
    let f = looped(adj, loops, lab, p);
    let d = degrees(g);
    assert forall|i: int| 0 <= i < g.n implies 0 <= #[trigger] f(i) <= d(i) by {
        lemma_list_degree(adj, loops, i);
        lemma_comm_bound(adj[i]@, lab, p);
        lemma_degree_nonneg(g, i);
    }
    lemma_sum_prefix(g.n, f, (n + 1) as nat);
    lemma_sum_le(g.n, f, d);
    lemma_sum_nonneg(n, f);
}

proof fn lemma_sum_prefix(n: nat, f: spec_fn(int) -> int, k: nat)
    requires
        k <= n,
        forall|i: int| 0 <= i < n ==> #[trigger] f(i) >= 0,
    ensures
        sum(k, f) <= sum(n, f),
    decreases n,
{
    if k < n {
        lemma_sum_prefix((n - 1) as nat, f, k);
        assert(f(n - 1) >= 0);
    }
}

/// Put the neighbours of one node to its community.
#[verifier::spinoff_prover]
fn gather_node(list: &Vec<(usize, u64)>, loop_weight: u64, c: usize, lab: &Vec<usize>, out: &mut Vec<Vec<(usize, u64)>>, lout: &mut Vec<u64>)
    requires
        forall|k: int| 0 <= k < list@.len() ==> (#[trigger] list@[k]).0 < lab@.len() && list@[k].1 > 0,
        forall|i: int| 0 <= i < lab@.len() ==> #[trigger] lab@[i] < old(out)@.len(),
        c < old(out)@.len(),
        old(out)@.len() == old(lout)@.len(),
        lists_ok(old(out)@),
        old(lout)@[c as int] + loop_weight + weight_in(list@) <= u64::MAX,
    ensures
        final(out)@.len() == old(out)@.len(),
        final(lout)@.len() == old(lout)@.len(),
        lists_ok(final(out)@),
        forall|p: int, q: int| 0 <= p < final(out)@.len() && p != q ==> #[trigger] weight_to(final(out)@[p]@, q) == weight_to(old(out)@[p]@, q) + only_if(p == c, weight_to_comm(list@, lab@, q)),
        forall|p: int| 0 <= p < final(lout)@.len() ==> #[trigger] final(lout)@[p] == old(lout)@[p] + only_if(p == c, loop_weight + weight_to_comm(list@, lab@, p)),
{
    let ghost out0 = out@;
    let ghost lout0 = lout@;
    let t: u64 = {
        proof {
            lemma_weight_nonneg(list@, 0);
        }
        lout[c] + loop_weight
    };
    lout.set(c, t);
    let mut k: usize = 0;
    assert(list@.take(0) =~= Seq::<(usize, u64)>::empty());
    while k < list.len()
        invariant
            k <= list@.len(),
            forall|k: int| 0 <= k < list@.len() ==> (#[trigger] list@[k]).0 < lab@.len() && list@[k].1 > 0,
            forall|i: int| 0 <= i < lab@.len() ==> #[trigger] lab@[i] < out@.len(),
            c < out@.len(),
            out@.len() == lout@.len(),
            out0.len() == out@.len(),
            lout0.len() == out@.len(),
            lists_ok(out@),
            lout0[c as int] + loop_weight + weight_in(list@) <= u64::MAX,
            forall|p: int, q: int| 0 <= p < out@.len() && p != q ==> #[trigger] weight_to(out@[p]@, q) == weight_to(out0[p]@, q) + only_if(p == c, weight_to_comm(list@.take(k as int), lab@, q)),
            forall|p: int| 0 <= p < lout@.len() ==> #[trigger] lout@[p] == lout0[p] + only_if(p == c, loop_weight + weight_to_comm(list@.take(k as int), lab@, p)),
        decreases list.len() - k,
    {
        let ghost l0 = list@.take(k as int);
        let ghost l1 = list@.take(k + 1);
        assert(list@[k as int].0 < lab@.len());
        let d: usize = lab[list[k].0];
        let w: u64 = list[k].1;
        let ghost outa = out@;
        let ghost louta = lout@;
        proof {
            assert(l1.drop_last() =~= l0);
            assert(lab@[list@[k as int].0 as int] < out@.len());
        }
        if d == c {
            proof {
                lemma_comm_bound(l1, lab@, c as int);
                lemma_weight_take(list@, k + 1);
                assert(lout@[c as int] == lout0[c as int] + loop_weight + weight_to_comm(l0, lab@, c as int));
                assert(weight_to_comm(l1, lab@, c as int) == weight_to_comm(l0, lab@, c as int) + w);
            }
            let s: u64 = lout[c] + w;
            lout.set(c, s);
            proof {
                assert forall|p: int| 0 <= p < lout@.len() implies #[trigger] lout@[p] == lout0[p] + only_if(p == c, loop_weight + weight_to_comm(l1, lab@, p)) by {
                    assert(louta[p] == lout0[p] + only_if(p == c, loop_weight + weight_to_comm(l0, lab@, p)));
                }
                assert forall|p: int, q: int| 0 <= p < out@.len() && p != q implies #[trigger] weight_to(out@[p]@, q) == weight_to(out0[p]@, q) + only_if(p == c, weight_to_comm(l1, lab@, q)) by {
                    assert(weight_to(outa[p]@, q) == weight_to(out0[p]@, q) + only_if(p == c, weight_to_comm(l0, lab@, q)));
                }
            }
        } else {
            out[c].push((d, w));
            proof {
                let row0 = outa[c as int]@;
                let row1 = out@[c as int]@;
                assert(row1 =~= row0.push((d, w)));
                assert(row1.drop_last() =~= row0);
                assert forall|p: int| 0 <= p < lout@.len() implies #[trigger] lout@[p] == lout0[p] + only_if(p == c, loop_weight + weight_to_comm(l1, lab@, p)) by {
                    assert(louta[p] == lout0[p] + only_if(p == c, loop_weight + weight_to_comm(l0, lab@, p)));
                }
                assert forall|p: int, q: int| 0 <= p < out@.len() && p != q implies #[trigger] weight_to(out@[p]@, q) == weight_to(out0[p]@, q) + only_if(p == c, weight_to_comm(l1, lab@, q)) by {
                    assert(weight_to(outa[p]@, q) == weight_to(out0[p]@, q) + only_if(p == c, weight_to_comm(l0, lab@, q)));
                    if p != c {
                        assert(out@[p] == outa[p]);
                    }
                }
                assert forall|i: int, e: int| 0 <= i < out@.len() && 0 <= e < out@[i]@.len() implies (#[trigger] out@[i]@[e]).0 < out@.len() && out@[i]@[e].0 != i && out@[i]@[e].1 > 0 by {
                    if i == c {
                        if e < row0.len() {
                            assert(outa[i]@[e].0 < outa.len());
                            assert(row1[e] == row0[e]);
                        }
                    } else {
                        assert(out@[i] == outa[i]);
                        assert(outa[i]@[e].0 < outa.len());
                    }
                }
            }
        }
        k = k + 1;
    }
    assert(list@.take(k as int) =~= list@);
}

/// A network of communities: lists of neighbours, loops, and degrees.
struct Condensed {
    adj: Vec<Vec<(usize, u64)>>,
    loops: Vec<u64>,
    deg: Vec<u64>,
}

/// What the lists of the communities hold after all nodes.
spec fn gathered_all(adj: Seq<Vec<(usize, u64)>>, loops: Seq<u64>, lab: Seq<usize>, out: Seq<Vec<(usize, u64)>>, lout: Seq<u64>, n: nat) -> bool {
    &&& out.len() == lout.len()
    &&& lists_ok(out)
    &&& forall|p: int, q: int| 0 <= p < out.len() && p != q ==> #[trigger] weight_to(out[p]@, q) == sum(n, gathered(adj, lab, p, q))
    &&& forall|p: int| 0 <= p < out.len() ==> #[trigger] lout[p] == sum(n, looped(adj, loops, lab, p))
}

proof fn lemma_reach(adj: Seq<Vec<(usize, u64)>>, loops: Seq<u64>, lab: Seq<usize>, i: int, q: int)
    requires
        lists_ok(adj),
        lab.len() == adj.len(),
        0 <= i < adj.len(),
    ensures
        super::modularity::reach_into(net_of(adj, loops), comm_fn(lab), i, q) == weight_to_comm(adj[i]@, lab, q),
{
    let g = net_of(adj, loops);
    let l = adj[i]@;
    assert forall|k: int| 0 <= k < l.len() implies (#[trigger] l[k]).0 < g.n && l[k].0 != i by {
        assert(adj[i]@[k].0 < adj.len());
    }
    lemma_weight_absent(l, i);
    let f = super::modularity::reaches_into(g, comm_fn(lab), i, q);
    assert forall|j: int| 0 <= j < g.n implies #[trigger] f(j) == only_if(j != i && lab[j] == q, weight_to(l, j)) by {}
    lemma_comm_total(l, g.n, lab, i, q, f);
}

proof fn lemma_comm_sum(l: Seq<(usize, u64)>, lab: Seq<usize>, k: nat, f: spec_fn(int) -> int)
    requires
        forall|e: int| 0 <= e < l.len() ==> lab[(#[trigger] l[e]).0 as int] < k,
        forall|q: int| 0 <= q < k ==> #[trigger] f(q) == weight_to_comm(l, lab, q),
    ensures
        sum(k, f) == weight_in(l),
    decreases l.len(),
{
    if l.len() == 0 {
        lemma_sum_zero(k, f);
    } else {
        let d = l.drop_last();
        let e = l[l.len() - 1];
        assert forall|x: int| 0 <= x < d.len() implies lab[(#[trigger] d[x]).0 as int] < k by {
            assert(d[x] == l[x]);
        }
        let g = |q: int| weight_to_comm(d, lab, q);
        lemma_comm_sum(d, lab, k, g);
        let c = lab[e.0 as int] as int;
        assert forall|q: int| 0 <= q < k && q != c implies #[trigger] g(q) == f(q) by {}
        lemma_sum_point(k, g, f, c);
    }
}

/// The lists of the communities are those of the condensed network.
#[verifier::spinoff_prover]
#[verifier::rlimit(40)]
proof fn lemma_condensed(adj: Seq<Vec<(usize, u64)>>, loops: Seq<u64>, lab: Seq<usize>, out: Seq<Vec<(usize, u64)>>, lout: Seq<u64>)
    requires
        lists_ok(adj),
        net_ok(net_of(adj, loops)),
        loops.len() == adj.len(),
        lab.len() == adj.len(),
        forall|i: int| 0 <= i < lab.len() ==> #[trigger] lab[i] < out.len(),
        gathered_all(adj, loops, lab, out, lout, adj.len()),
    ensures
        net_ok(net_of(out, lout)),
        condensed(net_of(adj, loops), comm_fn(lab), net_of(out, lout)),
        volume(net_of(out, lout)) == volume(net_of(adj, loops)),
{
    let g = net_of(adj, loops);
    let h = net_of(out, lout);
    let f = comm_fn(lab);
    assert forall|p: int, q: int| 0 <= p < h.n && 0 <= q < h.n && p != q implies #[trigger] (h.a)(p, q) == cut(g, f, p, q) by {
        let x = gathered(adj, lab, p, q);
        let y = super::modularity::cuts(g, f, p, q);
        assert forall|i: int| 0 <= i < g.n implies #[trigger] x(i) == y(i) by {
            lemma_reach(adj, loops, lab, i, q);
        }
        lemma_sum_ext(g.n, x, y);
        assert(weight_to(out[p]@, q) == sum(g.n, x));
    }
    assert forall|p: int| 0 <= p < h.n implies #[trigger] (h.a)(p, p) == 0 by {
        let l = out[p]@;
        assert forall|k: int| 0 <= k < l.len() implies (#[trigger] l[k]).0 != p by {
            assert(out[p]@[k].0 != p);
        }
        lemma_weight_absent(l, p);
    }
    assert forall|p: int, q: int| 0 <= p < h.n && 0 <= q < h.n implies #[trigger] (h.a)(p, q) >= 0 by {
        lemma_weight_nonneg(out[p]@, q);
    }
    assert forall|p: int, q: int| 0 <= p < h.n && 0 <= q < h.n implies #[trigger] (h.a)(p, q) == (h.a)(q, p) by {
        if p != q {
            assert((h.a)(p, q) == cut(g, f, p, q));
            assert((h.a)(q, p) == cut(g, f, q, p));
            lemma_cut_symmetric(g, f, p, q);
        }
    }
    assert(net_ok(h));
    assert forall|p: int| 0 <= p < h.n implies #[trigger] degree(h, p) == mass(g, f, p) by {
        lemma_condensed_degree(adj, loops, lab, out, lout, p);
    }
    let all = |u: int| true;
    let d = degrees(g);
    assert forall|i: int| 0 <= i < g.n implies 0 <= #[trigger] f(i) < h.n by {
        assert(lab[i] < out.len());
    }
    super::sums::lemma_sum_groups(g.n, h.n, f, all, d);
    let lhs = |u: int| only_if(all(u), sum(g.n, |i: int| only_if(f(i) == u, d(i))));
    let dh = degrees(h);
    assert forall|u: int| 0 <= u < h.n implies #[trigger] lhs(u) == dh(u) by {
        assert(degree(h, u) == mass(g, f, u));
        lemma_sum_ext(g.n, |i: int| only_if(f(i) == u, d(i)), masses(g, f, u));
    }
    lemma_sum_ext(h.n, lhs, dh);
    lemma_sum_ext(g.n, |i: int| only_if(all(f(i)), d(i)), d);
}

proof fn lemma_cut_symmetric(g: Net, f: spec_fn(int) -> int, p: int, q: int)
    requires
        net_ok(g),
    ensures
        cut(g, f, p, q) == cut(g, f, q, p),
{
    let t = |i: int, j: int| only_if(f(i) == p && f(j) == q, (g.a)(i, j));
    super::sums::lemma_sum_swap(g.n, g.n, t);
    let a = |i: int| sum(g.n, |j: int| t(i, j));
    let b = |j: int| sum(g.n, |i: int| t(i, j));
    let x = super::modularity::cuts(g, f, p, q);
    let y = super::modularity::cuts(g, f, q, p);
    assert forall|i: int| 0 <= i < g.n implies #[trigger] x(i) == a(i) by {
        let u = super::modularity::reaches_into(g, f, i, q);
        let w = |j: int| t(i, j);
        if f(i) == p {
            assert forall|j: int| 0 <= j < g.n implies #[trigger] u(j) == w(j) by {}
            lemma_sum_ext(g.n, u, w);
        } else {
            assert forall|j: int| 0 <= j < g.n implies #[trigger] w(j) == 0 by {}
            lemma_sum_zero(g.n, w);
        }
    }
    assert forall|j: int| 0 <= j < g.n implies #[trigger] y(j) == b(j) by {
        let u = super::modularity::reaches_into(g, f, j, p);
        let w = |i: int| t(i, j);
        if f(j) == q {
            assert forall|i: int| 0 <= i < g.n implies #[trigger] u(i) == w(i) by {
                assert((g.a)(i, j) == (g.a)(j, i));
            }
            lemma_sum_ext(g.n, u, w);
        } else {
            assert forall|i: int| 0 <= i < g.n implies #[trigger] w(i) == 0 by {}
            lemma_sum_zero(g.n, w);
        }
    }
    lemma_sum_ext(g.n, x, a);
    lemma_sum_ext(g.n, y, b);
}

#[verifier::spinoff_prover]
proof fn lemma_condensed_degree(adj: Seq<Vec<(usize, u64)>>, loops: Seq<u64>, lab: Seq<usize>, out: Seq<Vec<(usize, u64)>>, lout: Seq<u64>, p: int)
    requires
        lists_ok(adj),
        net_ok(net_of(adj, loops)),
        loops.len() == adj.len(),
        lab.len() == adj.len(),
        forall|i: int| 0 <= i < lab.len() ==> #[trigger] lab[i] < out.len(),
        gathered_all(adj, loops, lab, out, lout, adj.len()),
        0 <= p < out.len(),
    ensures
        degree(net_of(out, lout), p) == mass(net_of(adj, loops), comm_fn(lab), p),
{
    let g = net_of(adj, loops);
    let h = net_of(out, lout);
    let k = h.n;
    let t = |q: int, u: int| only_if(lab[u] == p && q != p, weight_to_comm(adj[u]@, lab, q));
    super::sums::lemma_sum_swap(k, g.n, t);
    let rows = |q: int| sum(g.n, |u: int| t(q, u));
    let cols = |u: int| sum(k, |q: int| t(q, u));
    let row = row_of(h, p);
    assert forall|q: int| 0 <= q < k implies #[trigger] row(q) == rows(q) by {
        let w = |u: int| t(q, u);
        if q == p {
            let l = out[p]@;
            assert forall|e: int| 0 <= e < l.len() implies (#[trigger] l[e]).0 != p by {
                assert(out[p]@[e].0 != p);
            }
            lemma_weight_absent(l, p);
            assert forall|u: int| 0 <= u < g.n implies #[trigger] w(u) == 0 by {}
            lemma_sum_zero(g.n, w);
        } else {
            let x = gathered(adj, lab, p, q);
            assert forall|u: int| 0 <= u < g.n implies #[trigger] x(u) == w(u) by {}
            lemma_sum_ext(g.n, x, w);
            assert(weight_to(out[p]@, q) == sum(g.n, x));
        }
    }
    lemma_sum_ext(k, row, rows);
    let lo = looped(adj, loops, lab, p);
    let ms = masses(g, comm_fn(lab), p);
    assert forall|u: int| 0 <= u < g.n implies #[trigger] ms(u) == cols(u) + lo(u) by {
        let c = |q: int| t(q, u);
        let l = adj[u]@;
        if lab[u] == p {
            let full = |q: int| weight_to_comm(l, lab, q);
            assert forall|e: int| 0 <= e < l.len() implies lab[(#[trigger] l[e]).0 as int] < k by {
                assert(adj[u]@[e].0 < adj.len());
            }
            lemma_comm_sum(l, lab, k, full);
            assert forall|q: int| 0 <= q < k && q != p implies #[trigger] c(q) == full(q) by {}
            lemma_sum_point(k, c, full, p);
            lemma_list_degree(adj, loops, u);
        } else {
            assert forall|q: int| 0 <= q < k implies #[trigger] c(q) == 0 by {}
            lemma_sum_zero(k, c);
        }
    }
    lemma_sum_add(g.n, cols, lo, ms);
    assert(lout[p] == sum(g.n, lo));
}

/// The degrees of a network.
fn degrees_of(adj: &Vec<Vec<(usize, u64)>>, loops: &Vec<u64>) -> (deg: Vec<u64>)
    requires
        lists_ok(adj@),
        net_ok(net_of(adj@, loops@)),
        loops@.len() == adj@.len(),
        volume(net_of(adj@, loops@)) <= u64::MAX,
    ensures
        deg@.len() == adj@.len(),
        forall|i: int| 0 <= i < deg@.len() ==> #[trigger] deg@[i] == degree(net_of(adj@, loops@), i),
{
    let ghost g = net_of(adj@, loops@);
    let mut deg: Vec<u64> = Vec::new();
    let mut i: usize = 0;
    while i < adj.len()
        invariant
            i <= adj@.len(),
            g == net_of(adj@, loops@),
            lists_ok(adj@),
            net_ok(g),
            loops@.len() == adj@.len(),
            volume(g) <= u64::MAX,
            deg@.len() == i,
            forall|k: int| 0 <= k < i ==> #[trigger] deg@[k] == degree(g, k),
        decreases adj.len() - i,
    {
        proof {
            lemma_list_degree(adj@, loops@, i as int);
            lemma_degree_nonneg(g, i as int);
        }
        let list: &Vec<(usize, u64)> = &adj[i];
        let mut d: u64 = loops[i];
        let mut k: usize = 0;
        assert(list@.take(0) =~= Seq::<(usize, u64)>::empty());
        while k < list.len()
            invariant
                k <= list@.len(),
                d == loops@[i as int] + weight_in(list@.take(k as int)),
                weight_in(list@) + loops@[i as int] <= u64::MAX,
            decreases list.len() - k,
        {
            proof {
                assert(list@.take(k + 1).drop_last() =~= list@.take(k as int));
                lemma_weight_take(list@, k + 1);
            }
            d = d + list[k].1;
            k = k + 1;
        }
        assert(list@.take(k as int) =~= list@);
        deg.push(d);
        i = i + 1;
    }
    deg
}

/// Make the communities the nodes of a network.
#[verifier::spinoff_prover]
fn condense(adj: &Vec<Vec<(usize, u64)>>, loops: &Vec<u64>, lab: &Vec<usize>, k: usize, m: u64) -> (r: Condensed)
    requires
        lists_ok(adj@),
        net_ok(net_of(adj@, loops@)),
        volume(net_of(adj@, loops@)) == 2 * m,
        0 < m <= MAX_WEIGHT,
        loops@.len() == adj@.len(),
        lab@.len() == adj@.len(),
        forall|i: int| 0 <= i < lab@.len() ==> #[trigger] lab@[i] < k,
    ensures
        working(r.adj@, r.loops@, r.deg@, m as int),
        r.adj@.len() == k,
        condensed(net_of(adj@, loops@), comm_fn(lab@), net_of(r.adj@, r.loops@)),
{
    let ghost g = net_of(adj@, loops@);
    let mut out: Vec<Vec<(usize, u64)>> = Vec::new();
    let mut lout: Vec<u64> = Vec::new();
    let mut c: usize = 0;
    while c < k
        invariant
            c <= k,
            out@.len() == c,
            lout@.len() == c,
            forall|p: int| 0 <= p < c ==> (#[trigger] out@[p])@.len() == 0,
            forall|p: int| 0 <= p < c ==> #[trigger] lout@[p] == 0,
        decreases k - c,
    {
        out.push(Vec::new());
        lout.push(0);
        c = c + 1;
    }
    let mut u: usize = 0;
    while u < adj.len()
        invariant
            u <= adj@.len(),
            g == net_of(adj@, loops@),
            lists_ok(adj@),
            net_ok(g),
            volume(g) == 2 * m,
            0 < m <= MAX_WEIGHT,
            loops@.len() == adj@.len(),
            lab@.len() == adj@.len(),
            forall|i: int| 0 <= i < lab@.len() ==> #[trigger] lab@[i] < k,
            out@.len() == k,
            gathered_all(adj@, loops@, lab@, out@, lout@, u as nat),
        decreases adj.len() - u,
    {
        let ghost out0 = out@;
        let ghost lout0 = lout@;
        let cu: usize = lab[u];
        proof {
            assert(lab@[u as int] < k);
            lemma_looped_bound(adj@, loops@, lab@, cu as int, u as nat);
            lemma_list_degree(adj@, loops@, u as int);
            lemma_degree_nonneg(g, u as int);
            lemma_comm_bound(adj@[u as int]@, lab@, cu as int);
            assert(lout@[cu as int] == sum(u as nat, looped(adj@, loops@, lab@, cu as int)));
            assert forall|e: int| 0 <= e < adj@[u as int]@.len() implies (#[trigger] adj@[u as int]@[e]).0 < lab@.len() && adj@[u as int]@[e].1 > 0 by {}
        }
        gather_node(&adj[u], loops[u], cu, lab, &mut out, &mut lout);
        proof {
            assert forall|p: int, q: int| 0 <= p < out@.len() && p != q implies #[trigger] weight_to(out@[p]@, q) == sum((u + 1) as nat, gathered(adj@, lab@, p, q)) by {
                assert(weight_to(out0[p]@, q) == sum(u as nat, gathered(adj@, lab@, p, q)));
            }
            assert forall|p: int| 0 <= p < out@.len() implies #[trigger] lout@[p] == sum((u + 1) as nat, looped(adj@, loops@, lab@, p)) by {
                assert(lout0[p] == sum(u as nat, looped(adj@, loops@, lab@, p)));
            }
        }
        u = u + 1;
    }
    proof {
        lemma_condensed(adj@, loops@, lab@, out@, lout@);
    }
    let deg: Vec<u64> = degrees_of(&out, &lout);
    Condensed { adj: out, loops: lout, deg }
}

/// One round: the network, the communities to which its nodes moved, and the labels
/// of those.
pub ghost struct Level {
    pub net: Net,
    pub comm: Seq<usize>,
    pub labels: Seq<usize>,
    pub count: nat,
}

/// The communities of a round come from single nodes by sweeps over the nodes in
/// ascending order, up to the first that moves none; no further move is worth it then.
pub open spec fn level_ok(l: Level, m: int) -> bool {
    &&& exists|ss: Seq<Seq<Seq<usize>>>| #[trigger] climbs(l.net, m, ss) && ss[0][0] == apart(l.net.n) && ss.last().last() == l.comm
    &&& forall|i: int| 0 <= i < l.net.n ==> #[trigger] settled(l.net, m, l.comm, i)
    &&& labels_ok(l.comm, l.net.n)
    &&& relabelled(l.comm, l.labels, l.count as int)
}

/// The communities of a round are the nodes of the next.
pub open spec fn level_follows(levels: Seq<Level>, t: int) -> bool {
    condensed(levels[t].net, comm_fn(levels[t].labels), levels[t + 1].net) && levels[t + 1].net.n == levels[t].count
}

/// Rounds, each on the communities of the one before.
pub open spec fn rounds(levels: Seq<Level>, m: int) -> bool {
    &&& levels.len() > 0
    &&& forall|t: int| 0 <= t < levels.len() ==> level_ok(#[trigger] levels[t], m) && net_ok(levels[t].net)
    &&& forall|t: int| 0 <= t < levels.len() - 1 ==> #[trigger] level_follows(levels, t)
}

/// The label of a node of the first round after all rounds.
pub open spec fn label_after(levels: Seq<Level>, i: int) -> int
    decreases levels.len(),
{
    if levels.len() == 0 {
        i
    } else {
        levels.last().labels[label_after(levels.drop_last(), i)] as int
    }
}

/// The labels after all rounds.
pub open spec fn labels_after(levels: Seq<Level>) -> spec_fn(int) -> int {
    |i: int| label_after(levels, i)
}

/// In the last round no two communities joined.
pub open spec fn finished(levels: Seq<Level>) -> bool {
    levels.last().count == levels.last().net.n
}

/// The same network.
pub open spec fn same_net(g: Net, h: Net) -> bool {
    &&& g.n == h.n
    &&& forall|i: int, j: int| 0 <= i < g.n && 0 <= j < g.n ==> #[trigger] (g.a)(i, j) == (h.a)(i, j)
    &&& forall|i: int| 0 <= i < g.n ==> #[trigger] (g.l)(i) == (h.l)(i)
}

/// One if the statement holds, else nothing.
pub open spec fn one(b: bool) -> int {
    if b {
        1
    } else {
        0
    }
}

/// The network of a graph whose nodes are listed: an edge counts in both
/// directions.
pub open spec fn entity_net(g: Digraph, s: Seq<u32>) -> Net {
    Net {
        n: s.len(),
        a: |i: int, j: int| if i != j { one(g.edges.contains((s[i], s[j]))) + one(g.edges.contains((s[j], s[i]))) } else { 0 },
        l: |i: int| 2 * one(g.edges.contains((s[i], s[i]))),
    }
}

/// The labels of the nodes come from such rounds on the network of the graph.
pub open spec fn communities(g: Digraph, s: Seq<u32>, m: int, labels: Map<u32, usize>) -> bool {
    exists|levels: Seq<Level>| {
        &&& #[trigger] rounds(levels, m)
        &&& finished(levels)
        &&& same_net(entity_net(g, s), levels[0].net)
        &&& forall|i: int| 0 <= i < s.len() ==> labels[#[trigger] s[i]] == label_after(levels, i)
    }
}

/// A network is condensed from itself.
proof fn lemma_condensed_self(g: Net, f: spec_fn(int) -> int)
    requires
        forall|i: int| 0 <= i < g.n ==> #[trigger] f(i) == i,
    ensures
        condensed(g, f, g),
{
    assert forall|p: int, q: int| 0 <= p < g.n && 0 <= q < g.n && p != q implies #[trigger] (g.a)(p, q) == cut(g, f, p, q) by {
        let x = super::modularity::cuts(g, f, p, q);
        let y = super::modularity::reaches_into(g, f, p, q);
        assert forall|i: int| 0 <= i < g.n && i != p implies #[trigger] x(i) == 0 by {
            assert(f(i) == i);
        }
        lemma_sum_one(g.n, x, p);
        assert forall|j: int| 0 <= j < g.n && j != q implies #[trigger] y(j) == 0 by {
            assert(f(j) == j);
        }
        lemma_sum_one(g.n, y, q);
        assert(f(p) == p && f(q) == q);
    }
    assert forall|p: int| 0 <= p < g.n implies #[trigger] degree(g, p) == mass(g, f, p) by {
        let x = masses(g, f, p);
        assert forall|i: int| 0 <= i < g.n && i != p implies #[trigger] x(i) == 0 by {
            assert(f(i) == i);
        }
        lemma_sum_one(g.n, x, p);
        assert(f(p) == p);
    }
}

/// The network of each round is condensed from the first.
proof fn lemma_rounds_condense(levels: Seq<Level>, m: int)
    requires
        rounds(levels, m),
    ensures
        condensed(levels[0].net, labels_after(levels.drop_last()), levels.last().net),
    decreases levels.len(),
{
    let before = levels.drop_last();
    let f = labels_after(before);
    if before.len() == 0 {
        assert forall|i: int| 0 <= i < levels[0].net.n implies #[trigger] f(i) == i by {}
        lemma_condensed_self(levels[0].net, f);
    } else {
        assert(rounds(before, m)) by {
            assert forall|t: int| 0 <= t < before.len() implies level_ok(#[trigger] before[t], m) && net_ok(before[t].net) by {
                assert(before[t] == levels[t]);
            }
            assert forall|t: int| 0 <= t < before.len() - 1 implies #[trigger] level_follows(before, t) by {
                assert(level_follows(levels, t));
            }
        }
        lemma_rounds_condense(before, m);
        let k = levels.len() - 2;
        assert(level_follows(levels, k));
        let mid = levels[k].net;
        assert(before.last() == levels[k]);
        let e = labels_after(before.drop_last());
        let next = comm_fn(levels[k].labels);
        lemma_condensed_twice(levels[0].net, e, mid, next, levels.last().net);
        let both = then_by(e, next);
        assert forall|i: int| 0 <= i < levels[0].net.n implies #[trigger] both(i) == f(i) by {}
        lemma_condensed_ext(levels[0].net, both, f, levels.last().net);
    }
}

proof fn lemma_condensed_ext(g: Net, a: spec_fn(int) -> int, b: spec_fn(int) -> int, h: Net)
    requires
        condensed(g, a, h),
        forall|i: int| 0 <= i < g.n ==> #[trigger] a(i) == b(i),
    ensures
        condensed(g, b, h),
{
    assert forall|i: int| 0 <= i < g.n implies 0 <= #[trigger] b(i) < h.n by {
        assert(a(i) == b(i));
    }
    assert forall|p: int, q: int| 0 <= p < h.n && 0 <= q < h.n && p != q implies #[trigger] (h.a)(p, q) == cut(g, b, p, q) by {
        let x = super::modularity::cuts(g, a, p, q);
        let y = super::modularity::cuts(g, b, p, q);
        assert forall|i: int| 0 <= i < g.n implies #[trigger] x(i) == y(i) by {
            let u = super::modularity::reaches_into(g, a, i, q);
            let w = super::modularity::reaches_into(g, b, i, q);
            assert forall|j: int| 0 <= j < g.n implies #[trigger] u(j) == w(j) by {
                assert(a(j) == b(j));
            }
            lemma_sum_ext(g.n, u, w);
            assert(a(i) == b(i));
        }
        lemma_sum_ext(g.n, x, y);
        assert((h.a)(p, q) == cut(g, a, p, q));
    }
    assert forall|p: int| 0 <= p < h.n implies #[trigger] degree(h, p) == mass(g, b, p) by {
        let x = masses(g, a, p);
        let y = masses(g, b, p);
        assert forall|i: int| 0 <= i < g.n implies #[trigger] x(i) == y(i) by {
            assert(a(i) == b(i));
        }
        lemma_sum_ext(g.n, x, y);
        assert(degree(h, p) == mass(g, a, p));
    }
}

/// Where no two joined, all nodes are in communities of their own.
proof fn lemma_finished_apart(l: Level, i: int, j: int)
    requires
        relabelled(l.comm, l.labels, l.count as int),
        l.count == l.labels.len(),
        0 <= i < l.labels.len(),
        0 <= j < l.labels.len(),
        i != j,
    ensures
        l.comm[i] != l.comm[j],
{
    let s = l.labels;
    let ints = Seq::new(s.len(), |k: int| s[k] as int);
    let all = vstd::set_lib::set_int_range(0, l.count as int);
    assert forall|c: int| all.contains(c) <==> #[trigger] ints.to_set().contains(c) by {
        if all.contains(c) {
            assert(label_used(s, c));
            let k = choose|k: int| 0 <= k < s.len() && #[trigger] s[k] == c;
            assert(ints[k] == c);
        }
        if ints.contains(c) {
            let k = choose|k: int| 0 <= k < ints.len() && ints[k] == c;
            assert(0 <= s[k] < l.count);
        }
    }
    assert(ints.to_set() =~= all);
    vstd::set_lib::lemma_int_range(0, l.count as int);
    ints.lemma_no_dup_set_cardinality();
    assert(ints[i] != ints[j]);
    assert(s[i] != s[j]);
}

/// No two of the communities that are found, between which there is an edge, can be
/// joined for a gain that is worth it: the weight between them is no more than what
/// their degrees let one expect, but for the margin.
pub proof fn law_no_join_gains(levels: Seq<Level>, m: int, p: int, q: int)
    requires
        rounds(levels, m),
        finished(levels),
        volume(levels.last().net) == volume(levels[0].net),
        0 <= p < levels.last().net.n,
        0 <= q < levels.last().net.n,
        p != q,
        cut(levels[0].net, labels_after(levels.drop_last()), p, q) > 0,
    ensures
        ({
            let g = levels[0].net;
            let f = labels_after(levels.drop_last());
            (volume(g) * cut(g, f, p, q) - mass(g, f, p) * mass(g, f, q)) * GAIN_PARTS <= 2 * m * m
        }),
{
    let g = levels[0].net;
    let f = labels_after(levels.drop_last());
    let l = levels.last();
    let h = l.net;
    lemma_rounds_condense(levels, m);
    assert((h.a)(p, q) == cut(g, f, p, q));
    assert(degree(h, p) == mass(g, f, p));
    assert(degree(h, q) == mass(g, f, q));
    assert(level_ok(levels[levels.len() - 1], m));
    assert(settled(h, m, l.comm, p));
    let v = volume(h);
    // Alone, the node has nothing; with the other, it has their bond.
    let own = pulls(h, v, comm_fn(l.comm), p, l.comm[p] as int);
    assert forall|j: int| 0 <= j < h.n implies #[trigger] own(j) == 0 by {
        if j != p {
            lemma_finished_apart(l, j, p);
        }
    }
    lemma_sum_zero(h.n, own);
    let other = pulls(h, v, comm_fn(l.comm), p, l.comm[q] as int);
    assert forall|j: int| 0 <= j < h.n && j != q implies #[trigger] other(j) == 0 by {
        if j != p {
            lemma_finished_apart(l, j, q);
        }
    }
    lemma_sum_one(h.n, other, q);
    assert((gain(h, l.comm, p, l.comm[q] as int) - gain(h, l.comm, p, l.comm[p] as int)) * GAIN_PARTS <= 2 * m * m);
}

/// Add a row of neighbours; the result says whether the node is one of its own.
#[verifier::spinoff_prover]
fn add_row(list: &mut Vec<(usize, u64)>, n: usize, ptr: &Vec<usize>, adj: &Vec<usize>, u: usize) -> (own: bool)
    requires
        super::csr_wf(n as int, ptr@, adj@),
        u < n,
        n < usize::MAX,
        forall|k: int| 0 <= k < old(list)@.len() ==> (#[trigger] old(list)@[k]).0 < n && old(list)@[k].0 != u && old(list)@[k].1 > 0,
    ensures
        forall|k: int| 0 <= k < final(list)@.len() ==> (#[trigger] final(list)@[k]).0 < n && final(list)@[k].0 != u && final(list)@[k].1 > 0,
        forall|v: int| 0 <= v < n && v != u ==> #[trigger] weight_to(final(list)@, v) == weight_to(old(list)@, v) + one(super::csr_edge(ptr@, adj@, u as int, v)),
        own == super::csr_edge(ptr@, adj@, u as int, u as int),
        weight_in(final(list)@) == weight_in(old(list)@) + (ptr@[u + 1] - ptr@[u as int]) - one(own),
{
    let ghost l0 = list@;
    let start: usize = ptr[u];
    let end: usize = ptr[u + 1];
    proof {
        assert(ptr@[u as int] <= ptr@[u + 1]);
        assert(ptr@[u + 1] <= ptr@[n as int]);
    }
    let mut own: bool = false;
    let mut k: usize = start;
    while k < end
        invariant
            super::csr_wf(n as int, ptr@, adj@),
            u < n,
            start == ptr@[u as int],
            end == ptr@[u + 1],
            start <= k <= end <= adj@.len(),
            forall|e: int| 0 <= e < list@.len() ==> (#[trigger] list@[e]).0 < n && list@[e].0 != u && list@[e].1 > 0,
            own == row_has(ptr@, adj@, u as int, k as int, u as int),
            forall|v: int| 0 <= v < n && v != u ==> #[trigger] weight_to(list@, v) == weight_to(l0, v) + one(row_has(ptr@, adj@, u as int, k as int, v)),
            weight_in(list@) == weight_in(l0) + (k - start) - one(own),
        decreases end - k,
    {
        let v: usize = adj[k];
        let ghost la = list@;
        proof {
            assert(adj@[k as int] < n);
            assert forall|x: int| #[trigger] row_has(ptr@, adj@, u as int, k + 1, x) <==> row_has(ptr@, adj@, u as int, k as int, x) || x == v by {
                if row_has(ptr@, adj@, u as int, k + 1, x) && x != v {
                    let j = choose|j: int| ptr@[u as int] <= j < k + 1 && #[trigger] super::row_at(ptr@, adj@, u as int, j) == x;
                    assert(super::row_at(ptr@, adj@, u as int, j) == x);
                    assert(j < k);
                }
                if row_has(ptr@, adj@, u as int, k as int, x) {
                    let j = choose|j: int| ptr@[u as int] <= j < k && #[trigger] super::row_at(ptr@, adj@, u as int, j) == x;
                    assert(super::row_at(ptr@, adj@, u as int, j) == x);
                }
                assert(super::row_at(ptr@, adj@, u as int, k as int) == v);
            }
            assert(!row_has(ptr@, adj@, u as int, k as int, v as int)) by {
                if row_has(ptr@, adj@, u as int, k as int, v as int) {
                    let j = choose|j: int| ptr@[u as int] <= j < k && #[trigger] super::row_at(ptr@, adj@, u as int, j) == v;
                    assert(super::row_at(ptr@, adj@, u as int, j) < super::row_at(ptr@, adj@, u as int, k as int));
                }
            }
        }
        if v == u {
            own = true;
        } else {
            list.push((v, 1));
            proof {
                assert(list@.drop_last() =~= la);
            }
        }
        proof {
            assert forall|x: int| 0 <= x < n && x != u implies #[trigger] weight_to(list@, x) == weight_to(l0, x) + one(row_has(ptr@, adj@, u as int, k + 1, x)) by {
                assert(weight_to(la, x) == weight_to(l0, x) + one(row_has(ptr@, adj@, u as int, k as int, x)));
            }
        }
        k = k + 1;
    }
    proof {
        assert forall|v: int| #[trigger] row_has(ptr@, adj@, u as int, end as int, v) == super::csr_edge(ptr@, adj@, u as int, v) by {}
    }
    own
}

/// The first entries of a row hold the index.
spec fn row_has(ptr: Seq<usize>, adj: Seq<usize>, u: int, k: int, v: int) -> bool {
    exists|j: int| ptr[u] <= j < k && #[trigger] super::row_at(ptr, adj, u, j) == v
}

/// The row that holds a position.
spec fn row_with(ptr: Seq<usize>, n: int, k: int) -> int {
    choose|u: int| 0 <= u < n && in_row(ptr, u, k)
}

spec fn in_row(ptr: Seq<usize>, u: int, k: int) -> bool {
    ptr[u] <= k < ptr[u + 1]
}

proof fn lemma_row_with(ptr: Seq<usize>, n: int, k: int)
    requires
        n >= 0,
        ptr.len() > n,
        ptr[0] == 0,
        0 <= k < ptr[n],
    ensures
        exists|u: int| 0 <= u < n && in_row(ptr, u, k),
    decreases n,
{
    if n > 0 {
        if k >= ptr[n - 1] {
            assert(in_row(ptr, n - 1, k));
        } else {
            lemma_row_with(ptr, n - 1, k);
            let u = choose|u: int| 0 <= u < n - 1 && in_row(ptr, u, k);
            assert(in_row(ptr, u, k));
        }
    }
}

/// The lengths of the rows add up.
proof fn lemma_row_lengths(ptr: Seq<usize>, n: nat, f: spec_fn(int) -> int)
    requires
        ptr.len() > n,
        ptr[0] == 0,
        forall|u: int| 0 <= u < n ==> #[trigger] f(u) == ptr[u + 1] - ptr[u],
    ensures
        sum(n, f) == ptr[n as int],
    decreases n,
{
    if n > 0 {
        lemma_row_lengths(ptr, (n - 1) as nat, f);
        assert(f(n - 1) == ptr[n as int] - ptr[n - 1]);
    }
}

impl GraphView {
    /// The edges, by their positions in the rows.
    spec fn edge_at(&self, k: int) -> (u32, u32) {
        (self.nodes@[row_with(self.out_ptr@, self.nodes@.len() as int, k)], self.nodes@[self.out_adj@[k] as int])
    }

    proof fn lemma_edge_count(&self)
        requires
            self.wf(),
        ensures
            self@.edges.finite(),
            self@.edges.len() == self.out_adj@.len(),
    {
        let n = self.nodes@.len() as int;
        let ptr = self.out_ptr@;
        let adj = self.out_adj@;
        let s = Seq::new(adj.len(), |k: int| self.edge_at(k));
        assert forall|k: int| 0 <= k < adj.len() implies 0 <= #[trigger] row_with(ptr, n, k) < n && in_row(ptr, row_with(ptr, n, k), k) && adj[k] < n by {
            lemma_row_with(ptr, n, k);
            assert(adj[k] < n);
        }
        assert(s.no_duplicates()) by {
            assert forall|a: int, b: int| 0 <= a < b < s.len() implies s[a] != s[b] by {
                let u = row_with(ptr, n, a);
                let w = row_with(ptr, n, b);
                assert(in_row(ptr, u, a) && in_row(ptr, w, b));
                assert(adj[a] < n && adj[b] < n);
                if s[a] == s[b] {
                    assert(self.id_to_idx@[self.nodes@[u]] == u);
                    assert(self.id_to_idx@[self.nodes@[w]] == w);
                    assert(self.id_to_idx@[self.nodes@[adj[a] as int]] == adj[a]);
                    assert(self.id_to_idx@[self.nodes@[adj[b] as int]] == adj[b]);
                    assert(super::row_at(ptr, adj, u, a) < super::row_at(ptr, adj, u, b));
                }
            }
        }
        assert(s.to_set() =~= self@.edges) by {
            assert forall|e: (u32, u32)| #[trigger] s.to_set().contains(e) <==> self@.edges.contains(e) by {
                if s.contains(e) {
                    let k = choose|k: int| 0 <= k < s.len() && s[k] == e;
                    let u = row_with(ptr, n, k);
                    assert(in_row(ptr, u, k));
                    assert(super::row_at(ptr, adj, u, k) == adj[k]);
                    assert(super::csr_edge(ptr, adj, u, adj[k] as int));
                    assert(adj[k] < n);
                    assert(self.dense_edge(u, adj[k] as int));
                }
                if self@.edges.contains(e) {
                    let (u, v) = choose|u: int, v: int| #[trigger] self.dense_edge(u, v) && self.nodes@[u] == e.0 && self.nodes@[v] == e.1;
                    let k = choose|k: int| ptr[u] <= k < ptr[u + 1] && #[trigger] super::row_at(ptr, adj, u, k) == v;
                    assert(super::row_at(ptr, adj, u, k) == v);
                    assert(ptr[u + 1] <= ptr[n]);
                    let w = row_with(ptr, n, k);
                    assert(in_row(ptr, w, k));
                    if w < u {
                        assert(ptr[w + 1] <= ptr[u]);
                    } else if w > u {
                        assert(ptr[u + 1] <= ptr[w]);
                    }
                    assert(s[k] == e);
                }
            }
        }
        s.unique_seq_to_set();
        vstd::seq_lib::seq_to_set_is_finite(s);
    }

    /// Number of edges in the graph.
    pub fn edge_count(&self) -> (n: usize)
        requires
            self.wf(),
        ensures
            n == self@.edges.len(),
    {
        proof {
            self.lemma_edge_count();
        }
        self.out_adj.len()
    }

    /// The network of the graph as lists.
    #[verifier::spinoff_prover]
    fn first_net(&self) -> (r: Condensed)
        requires
            self.wf(),
            0 < self.out_adj@.len() <= MAX_WEIGHT,
        ensures
            working(r.adj@, r.loops@, r.deg@, self.out_adj@.len() as int),
            same_net(entity_net(self@, self.nodes@), net_of(r.adj@, r.loops@)),
    {
        let n: usize = self.nodes.len();
        let mut adj: Vec<Vec<(usize, u64)>> = Vec::new();
        let mut loops: Vec<u64> = Vec::new();
        let mut u: usize = 0;
        while u < n
            invariant
                u <= n,
                n == self.nodes@.len(),
                self.wf(),
                adj@.len() == u,
                loops@.len() == u,
                forall|i: int, k: int| 0 <= i < u && 0 <= k < adj@[i]@.len() ==> (#[trigger] adj@[i]@[k]).0 < n && adj@[i]@[k].0 != i && adj@[i]@[k].1 > 0,
                forall|i: int, j: int| 0 <= i < u && 0 <= j < n && i != j ==> #[trigger] weight_to(adj@[i]@, j) == one(self.dense_edge(i, j)) + one(self.dense_edge(j, i)),
                forall|i: int| 0 <= i < u ==> #[trigger] loops@[i] == 2 * one(self.dense_edge(i, i)),
                forall|i: int| 0 <= i < u ==> weight_in(adj@[i]@) + #[trigger] loops@[i] == (self.out_ptr@[i + 1] - self.out_ptr@[i]) + (self.in_ptr@[i + 1] - self.in_ptr@[i]),
            decreases n - u,
        {
            let ghost adj0 = adj@;
            let ghost loops0 = loops@;
            let mut list: Vec<(usize, u64)> = Vec::new();
            let a: bool = add_row(&mut list, n, &self.out_ptr, &self.out_adj, u);
            let ghost mid = list@;
            let b: bool = add_row(&mut list, n, &self.in_ptr, &self.in_adj, u);
            proof {
                assert(super::csr_edge(self.in_ptr@, self.in_adj@, u as int, u as int) == super::csr_edge(self.out_ptr@, self.out_adj@, u as int, u as int));
                assert(a == self.dense_edge(u as int, u as int));
                assert(a == b);
                assert forall|j: int| 0 <= j < n && j != u implies #[trigger] weight_to(list@, j) == one(self.dense_edge(u as int, j)) + one(self.dense_edge(j, u as int)) by {
                    assert(weight_to(mid, j) == weight_to(Seq::<(usize, u64)>::empty(), j) + one(super::csr_edge(self.out_ptr@, self.out_adj@, u as int, j)));
                    assert(super::csr_edge(self.in_ptr@, self.in_adj@, u as int, j) == super::csr_edge(self.out_ptr@, self.out_adj@, j, u as int));
                }
            }
            let ghost row = list@;
            let lw: u64 = if a { 2 } else { 0 };
            adj.push(list);
            loops.push(lw);
            proof {
                assert forall|i: int, k: int| 0 <= i < u + 1 && 0 <= k < adj@[i]@.len() implies (#[trigger] adj@[i]@[k]).0 < n && adj@[i]@[k].0 != i && adj@[i]@[k].1 > 0 by {
                    if i < u {
                        assert(adj@[i] == adj0[i]);
                        assert(adj0[i]@[k].0 < n);
                    } else {
                        assert(row[k].0 < n);
                    }
                }
                assert forall|i: int, j: int| 0 <= i < u + 1 && 0 <= j < n && i != j implies #[trigger] weight_to(adj@[i]@, j) == one(self.dense_edge(i, j)) + one(self.dense_edge(j, i)) by {
                    if i < u {
                        assert(adj@[i] == adj0[i]);
                        assert(weight_to(adj0[i]@, j) == one(self.dense_edge(i, j)) + one(self.dense_edge(j, i)));
                    }
                }
                assert forall|i: int| 0 <= i < u + 1 implies weight_in(adj@[i]@) + #[trigger] loops@[i] == (self.out_ptr@[i + 1] - self.out_ptr@[i]) + (self.in_ptr@[i + 1] - self.in_ptr@[i]) by {
                    if i < u {
                        assert(adj@[i] == adj0[i]);
                        assert(loops@[i] == loops0[i]);
                    }
                }
            }
            u = u + 1;
        }
        let ghost g = net_of(adj@, loops@);
        proof {
            assert forall|i: int| 0 <= i < n implies #[trigger] (g.a)(i, i) == 0 by {
                let l = adj@[i]@;
                assert forall|k: int| 0 <= k < l.len() implies (#[trigger] l[k]).0 != i by {
                    assert(adj@[i]@[k].0 != i);
                }
                lemma_weight_absent(l, i);
            }
            assert forall|i: int, j: int| 0 <= i < g.n && 0 <= j < g.n implies #[trigger] (g.a)(i, j) == (g.a)(j, i) by {
                if i != j {
                    assert(weight_to(adj@[i]@, j) == one(self.dense_edge(i, j)) + one(self.dense_edge(j, i)));
                    assert(weight_to(adj@[j]@, i) == one(self.dense_edge(j, i)) + one(self.dense_edge(i, j)));
                }
            }
            assert forall|i: int, j: int| 0 <= i < g.n && 0 <= j < g.n implies #[trigger] (g.a)(i, j) >= 0 by {
                lemma_weight_nonneg(adj@[i]@, j);
            }
            assert(net_ok(g));
            let fo = |i: int| self.out_ptr@[i + 1] - self.out_ptr@[i];
            let fi = |i: int| self.in_ptr@[i + 1] - self.in_ptr@[i];
            lemma_row_lengths(self.out_ptr@, n as nat, fo);
            lemma_row_lengths(self.in_ptr@, n as nat, fi);
            let d = degrees(g);
            assert forall|i: int| 0 <= i < g.n implies #[trigger] d(i) == fo(i) + fi(i) by {
                lemma_list_degree(adj@, loops@, i);
                assert(weight_in(adj@[i]@) + loops@[i] == (self.out_ptr@[i + 1] - self.out_ptr@[i]) + (self.in_ptr@[i + 1] - self.in_ptr@[i]));
            }
            lemma_sum_add(g.n, fo, fi, d);
            assert(volume(g) == 2 * self.out_adj@.len());
            let e = entity_net(self@, self.nodes@);
            assert forall|i: int, j: int| 0 <= i < e.n && 0 <= j < e.n implies #[trigger] (e.a)(i, j) == (g.a)(i, j) by {
                self.lemma_edge(i, j);
                self.lemma_edge(j, i);
                if i != j {
                    assert(weight_to(adj@[i]@, j) == one(self.dense_edge(i, j)) + one(self.dense_edge(j, i)));
                } else {
                    assert((g.a)(i, i) == 0);
                }
            }
            assert forall|i: int| 0 <= i < e.n implies #[trigger] (e.l)(i) == (g.l)(i) by {
                self.lemma_edge(i, i);
                assert(loops@[i] == 2 * one(self.dense_edge(i, i)));
            }
        }
        let deg: Vec<u64> = degrees_of(&adj, &loops);
        Condensed { adj, loops, deg }
    }

    /// Communities of densely joined nodes, numbered from 0 without gaps. Edges
    /// count in both directions. Without edges, each node is a community of its own.
    #[verifier::spinoff_prover]
    #[verifier::rlimit(40)]
    pub fn louvain(&self) -> (r: HashMap<EntityLiteralId, usize>)
        requires
            self.wf(),
            self@.edges.len() <= MAX_WEIGHT,
        ensures
            r@.dom() == self@.nodes,
            exists|k: nat| #[trigger] numbered(r@, k),
            labels_joined(self@, r@),
            self@.edges.len() == 0 ==> (forall|a: u32, b: u32| #[trigger] r@.contains_key(a) && #[trigger] r@.contains_key(b) && a != b ==> r@[a] != r@[b]),
            self@.edges.len() > 0 ==> (forall|s: Seq<u32>| lists(s, self@.nodes) ==> #[trigger] communities(self@, s, self@.edges.len() as int, r@)),
    {
        let n: usize = self.nodes.len();
        proof {
            self.lemma_edge_count();
        }
        let total: usize = self.out_adj.len();
        let mut to: Vec<usize> = Vec::new();
        let mut i: usize = 0;
        while i < n
            invariant
                i <= n,
                to@.len() == i,
                forall|k: int| 0 <= k < i ==> #[trigger] to@[k] == k,
            decreases n - i,
        {
            to.push(i);
            i = i + 1;
        }
        if total == 0 {
            let r: HashMap<EntityLiteralId, usize> = self.by_id(&to);
            proof {
                assert(numbered(r@, n as nat)) by {
                    assert forall|c: int| 0 <= c < n implies #[trigger] has_label(r@, c) by {
                        assert(r@.contains_key(self.nodes@[c]) && r@[self.nodes@[c]] == c);
                    }
                    assert forall|x: u32| #[trigger] r@.contains_key(x) implies r@[x] < n by {
                        assert(self.nodes@.contains(x));
                        let k = choose|k: int| 0 <= k < n && self.nodes@[k] == x;
                        assert(r@[self.nodes@[k]] == to@[k]);
                    }
                }
                assert forall|a: u32, b: u32| #[trigger] r@.contains_key(a) && #[trigger] r@.contains_key(b) && a != b implies r@[a] != r@[b] by {
                    assert(self.nodes@.contains(a) && self.nodes@.contains(b));
                    let x = choose|x: int| 0 <= x < n && self.nodes@[x] == a;
                    let y = choose|y: int| 0 <= y < n && self.nodes@[y] == b;
                    assert(r@[self.nodes@[x]] == to@[x] && r@[self.nodes@[y]] == to@[y]);
                }
                lemma_labels_apart(self@, r@);
            }
            return r;
        }
        let m: u64 = total as u64;
        let first: Condensed = self.first_net();
        let mut adj: Vec<Vec<(usize, u64)>> = first.adj;
        let mut loops: Vec<u64> = first.loops;
        let mut deg: Vec<u64> = first.deg;
        let ghost net0 = net_of(adj@, loops@);
        let ghost mut levels: Seq<Level> = Seq::empty();
        proof {
            assert forall|c: int| 0 <= c < adj@.len() implies #[trigger] label_used(to@, c) by {
                assert(to@[c] == c);
            }
        }
        loop
            invariant
                self.wf(),
                n == self.nodes@.len(),
                m == self@.edges.len(),
                m > 0,
                working(adj@, loops@, deg@, m as int),
                same_net(entity_net(self@, self.nodes@), net0),
                to@.len() == n,
                forall|k: int| 0 <= k < n ==> #[trigger] to@[k] == label_after(levels, k) && to@[k] < adj@.len(),
                forall|c: int| 0 <= c < adj@.len() ==> #[trigger] label_used(to@, c),
                so_far(levels, m as int, net0, net_of(adj@, loops@)),
            decreases adj@.len(),
        {
            let ghost g = net_of(adj@, loops@);
            let comm: Vec<usize> = louvain_one_level(&adj, Ghost(loops@), &deg, m);
            let (lab, k) = renumber(&comm);
            let ghost level = Level { net: g, comm: comm@, labels: lab@, count: k as nat };
            let ghost before = levels;
            let ghost to0 = to@;
            proof {
                levels = levels.push(level);
                lemma_more_rounds(before, m as int, net0, level);
                assert(levels.drop_last() =~= before);
            }
            let mut x: usize = 0;
            while x < n
                invariant
                    x <= n,
                    to@.len() == n,
                    to0.len() == n,
                    lab@.len() == adj@.len(),
                    forall|y: int| 0 <= y < n ==> #[trigger] to0[y] < adj@.len(),
                    forall|y: int| 0 <= y < x ==> #[trigger] to@[y] == lab@[to0[y] as int],
                    forall|y: int| x <= y < n ==> #[trigger] to@[y] == to0[y],
                decreases n - x,
            {
                assert(to@[x as int] == to0[x as int]);
                assert(to0[x as int] < adj@.len());
                let c: usize = lab[to[x]];
                to.set(x, c);
                x = x + 1;
            }
            proof {
                assert forall|y: int| 0 <= y < n implies #[trigger] to@[y] == label_after(levels, y) && to@[y] < k by {
                    assert(to0[y] == label_after(before, y));
                    assert(0 <= lab@[to0[y] as int] < k);
                }
                assert forall|c: int| 0 <= c < k implies #[trigger] label_used(to@, c) by {
                    assert(label_used(lab@, c));
                    let a = choose|a: int| 0 <= a < lab@.len() && #[trigger] lab@[a] == c;
                    assert(label_used(to0, a));
                    let y = choose|y: int| 0 <= y < to0.len() && #[trigger] to0[y] == a;
                    assert(to@[y] == c);
                }
            }
            if k == adj.len() {
                let r: HashMap<EntityLiteralId, usize> = self.by_id(&to);
                proof {
                    assert(numbered(r@, k as nat)) by {
                        assert forall|c: int| 0 <= c < k implies #[trigger] has_label(r@, c) by {
                            assert(label_used(to@, c));
                            let y = choose|y: int| 0 <= y < to@.len() && #[trigger] to@[y] == c;
                            assert(r@.contains_key(self.nodes@[y]) && r@[self.nodes@[y]] == c);
                        }
                        assert forall|id: u32| #[trigger] r@.contains_key(id) implies r@[id] < k by {
                            assert(self.nodes@.contains(id));
                            let y = choose|y: int| 0 <= y < n && self.nodes@[y] == id;
                            assert(r@[self.nodes@[y]] == to@[y]);
                        }
                    }
                    assert forall|s: Seq<u32>| lists(s, self@.nodes) implies #[trigger] communities(self@, s, m as int, r@) by {
                        assert forall|x: u32| s.contains(x) <==> self.nodes@.contains(x) by {
                            assert(self@.nodes.contains(x) <==> s.contains(x));
                        }
                        lemma_ascending_unique(s, self.nodes@);
                        assert(rounds(levels, m as int));
                        assert(levels[0].net == net0);
                        assert forall|i: int| 0 <= i < s.len() implies r@[#[trigger] s[i]] == label_after(levels, i) by {
                            assert(r@[self.nodes@[i]] == to@[i]);
                        }
                    }
                    assert(lists(self.nodes@, self@.nodes));
                    lemma_labels_joined(self@, self.nodes@, m as int, r@);
                }
                return r;
            }
            let next: Condensed = condense(&adj, &loops, &lab, k, m);
            proof {
                lemma_rounds_follow(levels, m as int, net0, net_of(next.adj@, next.loops@));
            }
            adj = next.adj;
            loops = next.loops;
            deg = next.deg;
        }
    }

    /// Labels by id.
    fn by_id(&self, labels: &Vec<usize>) -> (r: HashMap<EntityLiteralId, usize>)
        requires
            self.wf(),
            labels@.len() == self.nodes@.len(),
        ensures
            r@.dom() == self@.nodes,
            forall|k: int| 0 <= k < labels@.len() ==> r@[#[trigger] self.nodes@[k]] == labels@[k],
    {
        let mut r: HashMap<EntityLiteralId, usize> = HashMap::new();
        let mut i: usize = 0;
        let ghost ids = self.nodes@;
        assert(ids.take(0).to_set() =~= r@.dom());
        while i < self.nodes.len()
            invariant
                i <= ids.len(),
                ids == self.nodes@,
                self.wf(),
                labels@.len() == ids.len(),
                forall|x: u32| #[trigger] r@.contains_key(x) <==> ids.take(i as int).contains(x),
                forall|k: int| 0 <= k < i ==> r@.contains_key(#[trigger] ids[k]) && r@[ids[k]] == labels@[k],
            decreases self.nodes.len() - i,
        {
            let ghost r0 = r@;
            r.insert(self.nodes[i], labels[i]);
            proof {
                assert(ids.take(i + 1) =~= ids.take(i as int).push(ids[i as int]));
                assert forall|x: u32| #[trigger] r@.contains_key(x) <==> ids.take(i + 1).contains(x) by {
                    let a = ids.take(i as int);
                    let b = ids.take(i + 1);
                    if a.contains(x) {
                        let k = choose|k: int| 0 <= k < a.len() && a[k] == x;
                        assert(b[k] == x);
                    }
                    if b.contains(x) && x != ids[i as int] {
                        let k = choose|k: int| 0 <= k < b.len() && b[k] == x;
                        assert(a[k] == x);
                    }
                    assert(b[i as int] == ids[i as int]);
                    assert(r0.contains_key(x) <==> a.contains(x));
                }
                assert forall|k: int| 0 <= k < i + 1 implies r@.contains_key(#[trigger] ids[k]) && r@[ids[k]] == labels@[k] by {
                    if k < i {
                        assert(self.id_to_idx@[ids[k]] == k);
                        assert(self.id_to_idx@[ids[i as int]] == i);
                    }
                }
            }
            i = i + 1;
        }
        proof {
            assert(ids.take(i as int) =~= ids);
            assert forall|x: u32| r@.dom().contains(x) <==> self@.nodes.contains(x) by {
                assert(r@.contains_key(x) <==> ids.contains(x));
            }
            assert(r@.dom() =~= self@.nodes);
        }
        r
    }
}

/// Some node has the label.
pub open spec fn has_label(m: Map<u32, usize>, c: int) -> bool {
    exists|x: u32| #[trigger] m.contains_key(x) && m[x] == c
}

/// The labels are the numbers below `k`, and each is used.
pub open spec fn numbered(m: Map<u32, usize>, k: nat) -> bool {
    &&& forall|x: u32| #[trigger] m.contains_key(x) ==> m[x] < k
    &&& forall|c: int| 0 <= c < k ==> #[trigger] has_label(m, c)
}

/// The rounds so far led from the first network to the current one.
spec fn so_far(levels: Seq<Level>, m: int, net0: Net, g: Net) -> bool {
    if levels.len() == 0 {
        g == net0 && net_ok(g)
    } else {
        &&& rounds(levels, m)
        &&& levels[0].net == net0
        &&& condensed(levels.last().net, comm_fn(levels.last().labels), g)
        &&& g.n == levels.last().count
        &&& net_ok(g)
    }
}

proof fn lemma_more_rounds(levels: Seq<Level>, m: int, net0: Net, l: Level)
    requires
        so_far(levels, m, net0, l.net),
        level_ok(l, m),
    ensures
        rounds(levels.push(l), m),
        levels.push(l)[0].net == net0,
{
    let more = levels.push(l);
    assert forall|t: int| 0 <= t < more.len() implies level_ok(#[trigger] more[t], m) && net_ok(more[t].net) by {
        if t < levels.len() {
            assert(more[t] == levels[t]);
        }
    }
    assert forall|t: int| 0 <= t < more.len() - 1 implies #[trigger] level_follows(more, t) by {
        if t < levels.len() - 1 {
            assert(level_follows(levels, t));
        }
    }
}

proof fn lemma_rounds_follow(levels: Seq<Level>, m: int, net0: Net, g: Net)
    requires
        rounds(levels, m),
        levels[0].net == net0,
        condensed(levels.last().net, comm_fn(levels.last().labels), g),
        g.n == levels.last().count,
        net_ok(g),
    ensures
        so_far(levels, m, net0, g),
{
}

} // verus!
