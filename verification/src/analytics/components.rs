//! Weakly connected components by union-find.

use super::graph::{lemma_closed_reach, lemma_reaches_edge, lemma_reaches_self, lemma_reaches_trans};
use super::graph::{lemma_undirected_symmetric, reaches, undirected, Digraph};
use super::{csr_edge, csr_wf, row_at, GraphView};
use crate::model::EntityLiteralId;
use crate::order::Ranked;
use std::collections::HashMap;
use vstd::prelude::*;

verus! {

/// Each node is mapped to a node that it is joined with over edges read without
/// directions, and two nodes to the same one exactly if they are joined.
pub open spec fn component_map(g: Digraph, m: Map<u32, u32>) -> bool {
    &&& forall|x: u32| #[trigger] m.contains_key(x) <==> g.nodes.contains(x)
    &&& forall|x: u32| #[trigger] m.contains_key(x) ==> g.nodes.contains(m[x]) && reaches(undirected(g.edges), x, m[x])
    &&& forall|x: u32, y: u32| #[trigger] m.contains_key(x) && #[trigger] m.contains_key(y) ==> (m[x] == m[y] <==> reaches(undirected(g.edges), x, y))
}

broadcast use vstd::std_specs::hash::group_hash_axioms;

/// A forest of parent links in which `rep` names the root of each element. The
/// heights, which never exceed `bound`, grow along every link.
spec fn forest(parent: Seq<usize>, rep: Seq<int>, height: Seq<int>, bound: int) -> bool {
    let n = parent.len();
    &&& rep.len() == n
    &&& height.len() == n
    &&& forall|x: int| 0 <= x < n ==> {
        &&& #[trigger] parent[x] < n
        &&& 0 <= rep[x] < n
        &&& rep[parent[x] as int] == rep[x]
        &&& parent[rep[x]] == rep[x]
        &&& (parent[x] == x ==> rep[x] == x)
        &&& (parent[x] != x ==> height[x] < height[parent[x] as int])
        &&& 0 <= height[x] <= bound
    }
}

/// The root of `x`; on the way every element passed is linked to its
/// grandparent.
fn uf_find(parent: &mut Vec<usize>, x: usize, Ghost(rep): Ghost<Seq<int>>, Ghost(height): Ghost<Seq<int>>, Ghost(bound): Ghost<int>) -> (r: usize)
    requires
        forest(old(parent)@, rep, height, bound),
        x < old(parent)@.len(),
    ensures
        forest(final(parent)@, rep, height, bound),
        final(parent)@.len() == old(parent)@.len(),
        r == rep[x as int],
{
    let mut cur: usize = x;
    while parent[cur] != cur
        invariant
            forest(parent@, rep, height, bound),
            parent@.len() == old(parent)@.len(),
            cur < parent@.len(),
            rep[cur as int] == rep[x as int],
        decreases bound - height[cur as int],
    {
        let p: usize = parent[cur];
        assert(parent@[p as int] < parent@.len());
        let g: usize = parent[p];
        let ghost before = parent@;
        parent.set(cur, g);
        proof {
            assert forall|y: int| 0 <= y < parent@.len() implies {
                &&& #[trigger] parent@[y] < parent@.len()
                &&& rep[parent@[y] as int] == rep[y]
                &&& parent@[rep[y]] == rep[y]
                &&& (parent@[y] == y ==> rep[y] == y)
                &&& (parent@[y] != y ==> height[y] < height[parent@[y] as int])
            } by {
                assert(before[y] < before.len());
                assert(before[g as int] < before.len());
            }
        }
        cur = g;
    }
    cur
}

/// Join the classes of `a` and `b`: the root of lower rank is linked to the
/// other. Gives the new naming of roots and its heights.
fn uf_union(parent: &mut Vec<usize>, rank: &mut Vec<u8>, a: usize, b: usize, Ghost(rep): Ghost<Seq<int>>, Ghost(height): Ghost<Seq<int>>, Ghost(bound): Ghost<int>) -> (r: Ghost<(Seq<int>, Seq<int>, int)>)
    requires
        forest(old(parent)@, rep, height, bound),
        old(rank)@.len() == old(parent)@.len(),
        a < old(parent)@.len(),
        b < old(parent)@.len(),
    ensures
        forest(final(parent)@, r@.0, r@.1, r@.2),
        final(parent)@.len() == old(parent)@.len(),
        final(rank)@.len() == old(rank)@.len(),
        r@.0[a as int] == r@.0[b as int],
        forall|x: int, y: int| 0 <= x < rep.len() && 0 <= y < rep.len() && #[trigger] rep[x] == #[trigger] rep[y] ==> r@.0[x] == r@.0[y],
        forall|x: int, y: int| 0 <= x < rep.len() && 0 <= y < rep.len() && r@.0[x] == r@.0[y] ==> {
            ||| #[trigger] rep[x] == #[trigger] rep[y]
            ||| rep[x] == rep[a as int] && rep[y] == rep[b as int]
            ||| rep[x] == rep[b as int] && rep[y] == rep[a as int]
        },
{
    let ra: usize = uf_find(parent, a, Ghost(rep), Ghost(height), Ghost(bound));
    let rb: usize = uf_find(parent, b, Ghost(rep), Ghost(height), Ghost(bound));
    assert(parent@[a as int] < parent@.len() && parent@[b as int] < parent@.len());
    if ra == rb {
        return Ghost((rep, height, bound));
    }
    let low: bool = rank[ra] < rank[rb];
    let (child, root): (usize, usize) = if low { (ra, rb) } else { (rb, ra) };
    if rank[ra] == rank[rb] && rank[ra] < 255 {
        let up: u8 = rank[ra] + 1;
        rank.set(ra, up);
    }
    let ghost before = parent@;
    parent.set(child, root);
    let ghost rep2 = Seq::new(rep.len(), |y: int| if rep[y] == child { root as int } else { rep[y] });
    let ghost lift = if height[root as int] > height[child as int] { height[root as int] } else { height[child as int] + 1 };
    let ghost height2 = height.update(root as int, lift);
    proof {
        assert(before[ra as int] == ra && before[rb as int] == rb);
        assert forall|y: int| 0 <= y < parent@.len() implies {
            &&& #[trigger] parent@[y] < parent@.len()
            &&& 0 <= rep2[y] < parent@.len()
            &&& rep2[parent@[y] as int] == rep2[y]
            &&& parent@[rep2[y]] == rep2[y]
            &&& (parent@[y] == y ==> rep2[y] == y)
            &&& (parent@[y] != y ==> height2[y] < height2[parent@[y] as int])
            &&& 0 <= height2[y] <= bound + 1
        } by {
            assert(before[y] < before.len());
            assert(before[root as int] < before.len() && before[child as int] < before.len());
        }
    }
    Ghost((rep2, height2, bound + 1))
}

impl GraphView {
    /// Weakly connected component of every node.
    ///
    /// Gives for each node the id of a representative of its component, and
    /// the number of components. Two nodes have the same representative exactly
    /// if the graph, read without directions, joins them.
    pub fn weakly_connected_components(&self) -> (r: (HashMap<EntityLiteralId, EntityLiteralId>, usize))
        requires
            self.wf(),
        ensures
            component_map(self@, r.0@),
            r.1 == r.0@.values().len(),
    {
        let n: usize = self.nodes.len();
        let ghost ids = self.nodes@;
        let ghost e = undirected(self@.edges);
        let mut parent: Vec<usize> = Vec::new();
        let mut rank: Vec<u8> = Vec::new();
        let mut i: usize = 0;
        while i < n
            invariant
                i <= n,
                parent.len() == i,
                rank.len() == i,
                forall|k: int| 0 <= k < i ==> #[trigger] parent@[k] == k,
            decreases n - i,
        {
            parent.push(i);
            rank.push(0);
            i = i + 1;
        }
        let ghost mut rep = Seq::new(n as nat, |k: int| k);
        let ghost mut height = Seq::new(n as nat, |k: int| 0int);
        let ghost mut bound = 0int;
        proof {
            assert forall|x: int, y: int| 0 <= x < n && 0 <= y < n && #[trigger] rep[x] == #[trigger] rep[y] implies reaches(e, ids[x], ids[y]) by {
                lemma_reaches_self(e, ids[x]);
            }
        }
        let mut u: usize = 0;
        while u < n
            invariant
                self.wf(),
                n == self.nodes@.len(),
                ids == self.nodes@,
                e == undirected(self@.edges),
                u <= n,
                parent@.len() == n,
                rank@.len() == n,
                rep.len() == n,
                forest(parent@, rep, height, bound),
                forall|x: int, y: int| 0 <= x < n && 0 <= y < n && #[trigger] rep[x] == #[trigger] rep[y] ==> reaches(e, ids[x], ids[y]),
                forall|x: int, y: int| 0 <= x < u && #[trigger] self.dense_edge(x, y) ==> rep[x] == rep[y],
            decreases n - u,
        {
            assert(csr_wf(n as int, self.out_ptr@, self.out_adj@));
            assert(self.out_ptr@[u as int] <= self.out_ptr@[u + 1] <= self.out_ptr@[n as int]);
            let end: usize = self.out_ptr[u + 1];
            let mut k: usize = self.out_ptr[u];
            while k < end
                invariant
                    self.wf(),
                    n == self.nodes@.len(),
                    ids == self.nodes@,
                    e == undirected(self@.edges),
                    u < n,
                    self.out_ptr@[u as int] <= k <= end,
                    end == self.out_ptr@[u + 1],
                    end <= self.out_adj@.len(),
                    parent@.len() == n,
                    rank@.len() == n,
                    rep.len() == n,
                    forest(parent@, rep, height, bound),
                    forall|x: int, y: int| 0 <= x < n && 0 <= y < n && #[trigger] rep[x] == #[trigger] rep[y] ==> reaches(e, ids[x], ids[y]),
                    forall|x: int, y: int| 0 <= x < u && #[trigger] self.dense_edge(x, y) ==> rep[x] == rep[y],
                    forall|j: int| self.out_ptr@[u as int] <= j < k ==> rep[u as int] == rep[(#[trigger] row_at(self.out_ptr@, self.out_adj@, u as int, j)) as int],
                decreases end - k,
            {
                let v: usize = self.out_adj[k];
                proof {
                    assert(csr_wf(n as int, self.out_ptr@, self.out_adj@));
                    assert(self.out_adj@[k as int] < n);
                    assert(row_at(self.out_ptr@, self.out_adj@, u as int, k as int) == v);
                    assert(csr_edge(self.out_ptr@, self.out_adj@, u as int, v as int));
                    assert(self.dense_edge(u as int, v as int));
                    self.lemma_edge(u as int, v as int);
                    lemma_reaches_edge(e, ids[u as int], ids[v as int]);
                    lemma_undirected_symmetric(self@.edges, ids[u as int], ids[v as int]);
                }
                let ghost rep0 = rep;
                let next = uf_union(&mut parent, &mut rank, u, v, Ghost(rep), Ghost(height), Ghost(bound));
                proof {
                    rep = next@.0;
                    height = next@.1;
                    bound = next@.2;
                    assert forall|x: int, y: int| 0 <= x < n && 0 <= y < n && #[trigger] rep[x] == #[trigger] rep[y] implies reaches(e, ids[x], ids[y]) by {
                        let a = u as int;
                        let b = v as int;
                        if rep0[x] == rep0[y] {
                        } else if rep0[x] == rep0[a] && rep0[y] == rep0[b] {
                            lemma_reaches_trans(e, ids[x], ids[a], ids[b]);
                            assert(rep0[b] == rep0[y]);
                            lemma_reaches_trans(e, ids[x], ids[b], ids[y]);
                        } else {
                            assert(rep0[x] == rep0[b] && rep0[y] == rep0[a]);
                            lemma_reaches_trans(e, ids[x], ids[b], ids[a]);
                            assert(rep0[a] == rep0[y]);
                            lemma_reaches_trans(e, ids[x], ids[a], ids[y]);
                        }
                    }
                    assert forall|x: int, y: int| 0 <= x < u && #[trigger] self.dense_edge(x, y) implies rep[x] == rep[y] by {
                        assert(rep0[x] == rep0[y]);
                    }
                    assert forall|j: int| self.out_ptr@[u as int] <= j < k implies rep[u as int] == rep[(#[trigger] row_at(self.out_ptr@, self.out_adj@, u as int, j)) as int] by {
                        assert(self.out_adj@[j] < n);
                        assert(rep0[u as int] == rep0[row_at(self.out_ptr@, self.out_adj@, u as int, j) as int]);
                    }
                }
                k = k + 1;
            }
            proof {
                assert forall|x: int, y: int| 0 <= x < u + 1 && #[trigger] self.dense_edge(x, y) implies rep[x] == rep[y] by {
                    if x == u {
                        let j = choose|j: int| self.out_ptr@[x] <= j < self.out_ptr@[x + 1] && #[trigger] row_at(self.out_ptr@, self.out_adj@, x, j) == y;
                        assert(rep[u as int] == rep[row_at(self.out_ptr@, self.out_adj@, u as int, j) as int]);
                    }
                }
            }
            u = u + 1;
        }
        proof {
            assert forall|x: int, y: int| 0 <= x < n && 0 <= y < n && reaches(e, ids[x], ids[y]) implies #[trigger] rep[x] == #[trigger] rep[y] by {
                let s = Set::new(|a: u32| exists|z: int| 0 <= z < n && ids[z] == a && #[trigger] rep[z] == rep[x]);
                assert(s.contains(ids[x])) by {
                    assert(rep[x] == rep[x]);
                }
                assert forall|a: u32, b: u32| s.contains(a) && #[trigger] e.contains((a, b)) implies s.contains(b) by {
                    let z = choose|z: int| 0 <= z < n && ids[z] == a && #[trigger] rep[z] == rep[x];
                    if self@.edges.contains((a, b)) {
                        let (p, q) = choose|p: int, q: int| #[trigger] self.dense_edge(p, q) && ids[p] == a && ids[q] == b;
                        assert(self.id_to_idx@[ids[p]] == p && self.id_to_idx@[ids[z]] == z);
                        assert(rep[p] == rep[q]);
                    } else {
                        let (p, q) = choose|p: int, q: int| #[trigger] self.dense_edge(p, q) && ids[p] == b && ids[q] == a;
                        assert(self.id_to_idx@[ids[q]] == q && self.id_to_idx@[ids[z]] == z);
                        assert(rep[p] == rep[q]);
                    }
                }
                lemma_closed_reach(e, s, ids[x], ids[y]);
                let z = choose|z: int| 0 <= z < n && ids[z] == ids[y] && #[trigger] rep[z] == rep[x];
                assert(self.id_to_idx@[ids[z]] == z && self.id_to_idx@[ids[y]] == y);
            }
        }
        let mut m: HashMap<u32, u32> = HashMap::new();
        let mut count: usize = 0;
        let ghost mut roots: Set<u32> = Set::empty();
        let mut i2: usize = 0;
        while i2 < n
            invariant
                self.wf(),
                n == self.nodes@.len(),
                ids == self.nodes@,
                parent@.len() == n,
                rep.len() == n,
                i2 <= n,
                count <= i2,
                forest(parent@, rep, height, bound),
                roots.finite(),
                roots.len() == count,
                forall|a: u32| #[trigger] roots.contains(a) <==> exists|x: int| 0 <= x < i2 && ids[x] == a && #[trigger] rep[x] == x,
                forall|a: u32| #[trigger] m@.contains_key(a) ==> exists|x: int| 0 <= x < i2 && ids[x] == a && m@[a] == ids[#[trigger] rep[x]],
                forall|x: int| 0 <= x < i2 ==> m@.contains_key(#[trigger] ids[x]),
            decreases n - i2,
        {
            let root: usize = uf_find(&mut parent, i2, Ghost(rep), Ghost(height), Ghost(bound));
            let ghost m0 = m@;
            let ghost roots0 = roots;
            assert(parent@[i2 as int] < n);
            m.insert(self.nodes[i2], self.nodes[root]);
            proof {
                assert forall|a: u32| #[trigger] m@.contains_key(a) implies exists|x: int| 0 <= x < i2 + 1 && ids[x] == a && m@[a] == ids[#[trigger] rep[x]] by {
                    if a == ids[i2 as int] {
                        assert(rep[i2 as int] == root);
                    } else {
                        assert(m0.contains_key(a));
                    }
                }
                if root == i2 {
                    assert(!roots.contains(ids[i2 as int])) by {
                        if roots.contains(ids[i2 as int]) {
                            let x = choose|x: int| 0 <= x < i2 && ids[x] == ids[i2 as int] && #[trigger] rep[x] == x;
                            assert(ids[x].rank() < ids[i2 as int].rank());
                        }
                    }
                    roots = roots.insert(ids[i2 as int]);
                }
                assert forall|a: u32| #[trigger] roots.contains(a) <==> exists|x: int| 0 <= x < i2 + 1 && ids[x] == a && #[trigger] rep[x] == x by {
                    if roots.contains(a) {
                        if roots0.contains(a) {
                            let x = choose|x: int| 0 <= x < i2 && ids[x] == a && #[trigger] rep[x] == x;
                            assert(rep[x] == x);
                        } else {
                            assert(rep[i2 as int] == i2);
                        }
                    }
                    if exists|x: int| 0 <= x < i2 + 1 && ids[x] == a && #[trigger] rep[x] == x {
                        let x = choose|x: int| 0 <= x < i2 + 1 && ids[x] == a && #[trigger] rep[x] == x;
                        if x < i2 {
                            assert(roots0.contains(a));
                        }
                    }
                }
            }
            if root == i2 {
                count = count + 1;
            }
            i2 = i2 + 1;
        }
        proof {
            assert forall|x: u32| #[trigger] m@.contains_key(x) implies self@.nodes.contains(m@[x]) && reaches(e, x, m@[x]) by {
                let k = choose|k: int| 0 <= k < n && ids[k] == x && m@[x] == ids[#[trigger] rep[k]];
                assert(parent@[k] < n);
                assert(parent@[rep[k]] < n);
                assert(rep[k] == rep[rep[k]]);
            }
            assert forall|x: u32, y: u32| #[trigger] m@.contains_key(x) && #[trigger] m@.contains_key(y) implies (m@[x] == m@[y] <==> reaches(e, x, y)) by {
                let k = choose|k: int| 0 <= k < n && ids[k] == x && m@[x] == ids[#[trigger] rep[k]];
                let l = choose|l: int| 0 <= l < n && ids[l] == y && m@[y] == ids[#[trigger] rep[l]];
                assert(parent@[k] < n && parent@[l] < n);
                assert(self.id_to_idx@[ids[rep[k]]] == rep[k] && self.id_to_idx@[ids[rep[l]]] == rep[l]);
            }
            assert(m@.values() =~= roots) by {
                assert forall|a: u32| #[trigger] m@.values().contains(a) <==> roots.contains(a) by {
                    if m@.values().contains(a) {
                        let x = choose|x: u32| #[trigger] m@.contains_key(x) && m@[x] == a;
                        let k = choose|k: int| 0 <= k < n && ids[k] == x && m@[x] == ids[#[trigger] rep[k]];
                        assert(parent@[k] < n);
                        let z = rep[k];
                        assert(parent@[z] < n);
                        assert(rep[z] == z);
                    }
                    if roots.contains(a) {
                        let x = choose|x: int| 0 <= x < n && ids[x] == a && #[trigger] rep[x] == x;
                        assert(m@.contains_key(ids[x]));
                        let k = choose|k: int| 0 <= k < n && ids[k] == ids[x] && m@[ids[x]] == ids[#[trigger] rep[k]];
                        assert(self.id_to_idx@[ids[k]] == k && self.id_to_idx@[ids[x]] == x);
                        assert(m@[a] == a);
                    }
                }
            }
        }
        (m, count)
    }
}

} // verus!
