//! Core decomposition: peeling nodes in order of residual degree.

use super::graph::{neighbours, Digraph};
use super::triangles::{lemma_ids_bounded, row_ok, undirected_rows_of};
use super::GraphView;
use crate::model::EntityLiteralId;
use crate::order::{ascending, sort_dedup, Ranked};
use std::collections::HashMap;
use vstd::prelude::*;

verus! {

broadcast use vstd::std_specs::hash::group_hash_axioms;

/// Within `s`, every member has at least `k` neighbours.
pub open spec fn is_core(g: Digraph, s: Set<u32>, k: int) -> bool {
    forall|y: u32| #[trigger] s.contains(y) ==> neighbours(g, y).intersect(s).len() >= k
}

/// Node `x` lies in a set of nodes each with at least `k` neighbours in the set.
pub open spec fn in_core(g: Digraph, x: u32, k: int) -> bool {
    exists|s: Set<u32>| s.contains(x) && #[trigger] is_core(g, s, k)
}

/// The core number of `x`: the largest `k` for which `x` lies in a `k`-core.
pub open spec fn core_number_is(g: Digraph, x: u32, k: int) -> bool {
    in_core(g, x, k) && !in_core(g, x, k + 1)
}

/// The state of the peeling: residual degrees, the nodes ordered by them with
/// the place of each, and for each degree the first place that holds it or more.
ghost struct Peel {
    deg: Seq<usize>,
    vert: Seq<usize>,
    pos: Seq<usize>,
    bin: Seq<usize>,
}

/// `vert` and `pos` are inverse permutations.
#[verifier::opaque]
spec fn inverse(vert: Seq<usize>, pos: Seq<usize>) -> bool {
    &&& vert.len() == pos.len()
    &&& forall|x: int| 0 <= x < pos.len() ==> (#[trigger] pos[x]) < pos.len() && vert[pos[x] as int] == x
    &&& forall|j: int| 0 <= j < vert.len() ==> (#[trigger] vert[j]) < pos.len() && pos[vert[j] as int] == j
}

proof fn lemma_at(vert: Seq<usize>, pos: Seq<usize>, j: int)
    requires
        inverse(vert, pos),
        0 <= j < pos.len(),
    ensures
        vert.len() == pos.len(),
        vert[j] < pos.len(),
        pos[vert[j] as int] == j,
{
    reveal(inverse);
}

proof fn lemma_place(vert: Seq<usize>, pos: Seq<usize>, x: int)
    requires
        inverse(vert, pos),
        0 <= x < pos.len(),
    ensures
        vert.len() == pos.len(),
        pos[x] < pos.len(),
        vert[pos[x] as int] == x,
{
    reveal(inverse);
}

proof fn lemma_apart(vert: Seq<usize>, pos: Seq<usize>, x: int, y: int)
    requires
        inverse(vert, pos),
        0 <= x < pos.len(),
        0 <= y < pos.len(),
        pos[x] == pos[y],
    ensures
        x == y,
{
    lemma_place(vert, pos, x);
    lemma_place(vert, pos, y);
}

/// Places are ordered by degree, and the bins above `cur` are the boundaries.
spec fn ordered(st: Peel, cur: int, top: int) -> bool {
    let n = st.pos.len();
    &&& st.deg.len() == n
    &&& st.bin.len() == top + 1
    &&& inverse(st.vert, st.pos)
    &&& forall|x: int| 0 <= x < n ==> (#[trigger] st.deg[x]) <= top
    &&& forall|x: int, y: int| 0 <= x < n && 0 <= y < n && (#[trigger] st.pos[x]) <= (#[trigger] st.pos[y]) ==> st.deg[x] <= st.deg[y]
    &&& forall|d: int, x: int| 0 <= x < n && cur < d <= top ==> ((#[trigger] st.pos[x]) < (#[trigger] st.bin[d]) <==> st.deg[x] < d)
    &&& forall|d: int| cur < d <= top ==> (#[trigger] st.bin[d]) <= n
}

/// Index `u` loses one degree: it moves to the front of its bucket, which then
/// starts one place later.
spec fn lowered(st: Peel, u: int) -> Peel {
    let du = st.deg[u] as int;
    let pw = st.bin[du];
    let w = st.vert[pw as int];
    Peel {
        deg: st.deg.update(u, (du - 1) as usize),
        vert: st.vert.update(st.pos[u] as int, w).update(pw as int, u as usize),
        pos: st.pos.update(w as int, st.pos[u]).update(u, pw),
        bin: st.bin.update(du, (pw + 1) as usize),
    }
}

#[verifier::spinoff_prover]
#[verifier::rlimit(40)]
proof fn lemma_lower(st: Peel, cur: int, top: int, u: int, at: int)
    requires
        ordered(st, cur, top),
        0 <= u < st.pos.len(),
        0 <= cur < st.deg[u],
        0 <= at < st.pos.len(),
        st.deg[st.vert[at] as int] <= cur,
        st.pos.len() <= usize::MAX,
    ensures
        st.deg[u] <= top,
        st.bin[st.deg[u] as int] < st.pos.len(),
        st.vert[st.bin[st.deg[u] as int] as int] < st.pos.len(),
        st.pos[u] < st.pos.len(),
        ordered(lowered(st, u), cur, top),
        lowered(st, u).pos.len() == st.pos.len(),
        at < st.pos[u],
        forall|x: int| 0 <= x < st.pos.len() ==> ((#[trigger] st.pos[x]) <= at <==> lowered(st, u).pos[x] <= at),
        forall|x: int| 0 <= x < st.pos.len() && (#[trigger] st.pos[x]) <= at ==> lowered(st, u).pos[x] == st.pos[x],
        forall|j: int| 0 <= j <= at ==> #[trigger] lowered(st, u).vert[j] == st.vert[j],
        forall|x: int| 0 <= x < st.pos.len() && x != u ==> #[trigger] lowered(st, u).deg[x] == st.deg[x],
{
    let n = st.pos.len() as int;
    let du = st.deg[u] as int;
    let pu = st.pos[u] as int;
    let pw = st.bin[du] as int;
    lemma_place(st.vert, st.pos, u);
    assert(pu >= pw);
    lemma_at(st.vert, st.pos, pw);
    let w = st.vert[pw] as int;
    assert(st.pos[w] == pw);
    assert(st.deg[w] == du);
    lemma_at(st.vert, st.pos, at);
    let v = st.vert[at] as int;
    assert(st.pos[v] < st.bin[du]);
    let s2 = lowered(st, u);
    assert(s2.pos[u] == pw);
    if u != w {
        assert(s2.pos[w] == pu);
        assert(pu > pw) by {
            if pu == pw {
                lemma_apart(st.vert, st.pos, u, w);
            }
        }
    }
    assert forall|x: int| 0 <= x < n && x != u && x != w implies #[trigger] s2.pos[x] == st.pos[x] && st.pos[x] != pw && st.pos[x] != pu by {
        if st.pos[x] == pw {
            lemma_apart(st.vert, st.pos, x, w);
        }
        if st.pos[x] == pu {
            lemma_apart(st.vert, st.pos, x, u);
        }
    }
    assert(inverse(s2.vert, s2.pos)) by {
        reveal(inverse);
        assert forall|x: int| 0 <= x < n implies (#[trigger] s2.pos[x]) < n && s2.vert[s2.pos[x] as int] == x by {
            lemma_place(st.vert, st.pos, x);
        }
        assert forall|j: int| 0 <= j < n implies (#[trigger] s2.vert[j]) < n && s2.pos[s2.vert[j] as int] == j by {
            lemma_at(st.vert, st.pos, j);
        }
    }
    assert forall|d: int, x: int| 0 <= x < n && cur < d <= top implies ((#[trigger] s2.pos[x]) < (#[trigger] s2.bin[d]) <==> s2.deg[x] < d) by {
        assert(st.pos[x] < st.bin[d] <==> st.deg[x] < d);
        assert(st.pos[w] < st.bin[d] <==> st.deg[w] < d);
        assert(st.pos[u] < st.bin[d] <==> st.deg[u] < d);
        assert(st.pos[x] < st.bin[du] <==> st.deg[x] < du);
    }
    assert forall|x: int, y: int| 0 <= x < n && 0 <= y < n && (#[trigger] s2.pos[x]) <= (#[trigger] s2.pos[y]) implies s2.deg[x] <= s2.deg[y] by {
        assert(st.pos[x] < st.bin[du] <==> st.deg[x] < du);
        assert(st.pos[y] < st.bin[du] <==> st.deg[y] < du);
        assert(st.pos[x] <= st.pos[y] ==> st.deg[x] <= st.deg[y]);
        assert(st.pos[w] <= st.pos[y] ==> st.deg[w] <= st.deg[y]);
        assert(st.pos[x] <= st.pos[w] ==> st.deg[x] <= st.deg[w]);
        assert(st.pos[u] <= st.pos[y] ==> st.deg[u] <= st.deg[y]);
        assert(st.pos[x] <= st.pos[u] ==> st.deg[x] <= st.deg[u]);
    }
}

/// The ids of the indexes at place `i` or later.
spec fn rest(ids: Seq<u32>, pos: Seq<usize>, i: int) -> Set<u32> {
    Set::new(|a: u32| exists|x: int| 0 <= x < ids.len() && ids[x] == a && #[trigger] pos[x] >= i)
}

/// The ids of the indexes that are not peeled yet or have core number `k` or more.
spec fn level(ids: Seq<u32>, pos: Seq<usize>, core: Seq<usize>, i: int, k: int) -> Set<u32> {
    Set::new(|a: u32| exists|x: int| 0 <= x < ids.len() && ids[x] == a && (#[trigger] pos[x] >= i || core[x] >= k))
}

/// Residual degrees bound the neighbours that are left, and are their number
/// where they exceed `cur`.
spec fn tracks(g: Digraph, deg: usize, a: u32, left: Set<u32>, cur: int) -> bool {
    &&& deg >= neighbours(g, a).intersect(left).len()
    &&& deg > cur ==> deg == neighbours(g, a).intersect(left).len()
}

impl GraphView {
    proof fn lemma_ids_apart(&self, x: int, y: int)
        requires
            self.wf(),
            0 <= x < self.nodes@.len(),
            0 <= y < self.nodes@.len(),
            self.nodes@[x] == self.nodes@[y],
        ensures
            x == y,
    {
        assert(self.id_to_idx@[self.nodes@[x]] == x && self.id_to_idx@[self.nodes@[y]] == y);
    }

    proof fn lemma_neighbours_finite(&self, a: u32)
        requires
            self.wf(),
        ensures
            neighbours(self@, a).finite(),
    {
        self.lemma_edges_join_nodes();
        assert(neighbours(self@, a).subset_of(self@.nodes));
        vstd::set_lib::lemma_set_subset_finite(self@.nodes, neighbours(self@, a));
    }

    /// Degrees of the undirected rows are the numbers of neighbours.
    proof fn lemma_row_degree(&self, rows: Seq<Vec<usize>>, u: int)
        requires
            self.wf(),
            undirected_rows_of(*self, rows),
            0 <= u < rows.len(),
        ensures
            rows[u]@.len() == neighbours(self@, self.nodes@[u]).len(),
    {
        let row = rows[u]@;
        let ids = self.nodes@;
        let nb = neighbours(self@, ids[u]);
        assert(row_ok(*self, row, u));
        let f = |x: usize| ids[x as int];
        assert(row.no_duplicates());
        row.unique_seq_to_set();
        vstd::seq_lib::seq_to_set_is_finite(row);
        assert forall|x: usize, y: usize| row.to_set().contains(x) && row.to_set().contains(y) && f(x) == f(y) implies x == y by {
            let i = choose|i: int| 0 <= i < row.len() && row[i] == x;
            let j = choose|j: int| 0 <= j < row.len() && row[j] == y;
            assert(row[i] < ids.len() && row[j] < ids.len());
            self.lemma_ids_apart(x as int, y as int);
        }
        assert(row.to_set().map(f) =~= nb) by {
            assert forall|a: u32| row.to_set().map(f).contains(a) <==> nb.contains(a) by {
                if row.to_set().map(f).contains(a) {
                    let x = choose|x: usize| row.to_set().contains(x) && f(x) == a;
                    let i = choose|i: int| 0 <= i < row.len() && row[i] == x;
                    assert(row[i] < ids.len());
                    assert(row.contains((x as int) as usize));
                }
                if nb.contains(a) {
                    self.lemma_neighbour_node(ids[u], a);
                    let x = choose|x: int| 0 <= x < ids.len() && ids[x] == a;
                    assert(row.contains(x as usize));
                    assert(row.to_set().contains(x as usize) && f(x as usize) == a);
                }
            }
        }
        vstd::set_lib::lemma_map_size(row.to_set(), nb, f);
    }

    /// Taking the node at place `i` out of what is left.
    proof fn lemma_rest_step(&self, pos: Seq<usize>, vert: Seq<usize>, i: int, x: int)
        requires
            self.wf(),
            pos.len() == self.nodes@.len(),
            inverse(vert, pos),
            0 <= i < pos.len(),
            0 <= x < pos.len(),
        ensures
            ({
                let ids = self.nodes@;
                let v = vert[i] as int;
                let a = neighbours(self@, ids[x]).intersect(rest(ids, pos, i));
                let b = neighbours(self@, ids[x]).intersect(rest(ids, pos, i + 1));
                &&& a.finite()
                &&& b.finite()
                &&& b.len() == a.len() - (if neighbours(self@, ids[x]).contains(ids[v]) { 1int } else { 0int })
            }),
    {
        let ids = self.nodes@;
        let v = vert[i] as int;
        lemma_at(vert, pos, i);
        let nb = neighbours(self@, ids[x]);
        let a = nb.intersect(rest(ids, pos, i));
        let b = nb.intersect(rest(ids, pos, i + 1));
        self.lemma_neighbours_finite(ids[x]);
        assert(rest(ids, pos, i).contains(ids[v])) by {
            assert(pos[v] >= i);
        }
        assert(b =~= a.remove(ids[v])) by {
            assert forall|c: u32| b.contains(c) <==> a.remove(ids[v]).contains(c) by {
                if rest(ids, pos, i + 1).contains(c) {
                    let y = choose|y: int| 0 <= y < ids.len() && ids[y] == c && #[trigger] pos[y] >= i + 1;
                    assert(pos[y] >= i);
                    assert(rest(ids, pos, i).contains(c));
                    if c == ids[v] {
                        self.lemma_ids_apart(y, v);
                    }
                }
                if rest(ids, pos, i).contains(c) && c != ids[v] {
                    let y = choose|y: int| 0 <= y < ids.len() && ids[y] == c && #[trigger] pos[y] >= i;
                    if pos[y] == i {
                        lemma_apart(vert, pos, y, v);
                    }
                    assert(pos[y] >= i + 1);
                    assert(rest(ids, pos, i + 1).contains(c));
                }
            }
        }
    }

    /// A set in which every member keeps `k` neighbours has a member that comes
    /// first in the peeling order.
    proof fn lemma_first_member(&self, pos: Seq<usize>, s: Set<u32>, x: int) -> (y: int)
        requires
            self.wf(),
            pos.len() == self.nodes@.len(),
            0 <= x < pos.len(),
            s.contains(self.nodes@[x]),
        ensures
            0 <= y < pos.len(),
            s.contains(self.nodes@[y]),
            pos[y] <= pos[x],
            forall|z: int| 0 <= z < pos.len() && s.contains(self.nodes@[z]) ==> pos[y] <= #[trigger] pos[z],
        decreases pos[x],
    {
        if forall|z: int| 0 <= z < pos.len() && s.contains(self.nodes@[z]) ==> pos[x] <= #[trigger] pos[z] {
            x
        } else {
            let z = choose|z: int| 0 <= z < pos.len() && s.contains(self.nodes@[z]) && pos[x] > #[trigger] pos[z];
            self.lemma_first_member(pos, s, z)
        }
    }

    /// When all nodes are peeled, the numbers found are the core numbers.
    proof fn lemma_core_numbers(&self, pos: Seq<usize>, core: Seq<usize>, last: int, x: int)
        requires
            self.wf(),
            pos.len() == self.nodes@.len(),
            core.len() == pos.len(),
            0 <= x < pos.len(),
            forall|y: int| 0 <= y < pos.len() ==> #[trigger] pos[y] < pos.len(),
            forall|y: int| 0 <= y < pos.len() ==> #[trigger] core[y] <= last,
            forall|y: int, z: int| 0 <= y < pos.len() && 0 <= z < pos.len() && #[trigger] pos[y] <= #[trigger] pos[z] ==> core[y] <= core[z],
            forall|y: int| 0 <= y < pos.len() ==> #[trigger] core[y] >= neighbours(self@, self.nodes@[y]).intersect(rest(self.nodes@, pos, pos[y] as int)).len(),
            forall|k: int| 0 <= k <= last ==> is_core(self@, #[trigger] level(self.nodes@, pos, core, pos.len() as int, k), k),
        ensures
            core_number_is(self@, self.nodes@[x], core[x] as int),
    {
        let g = self@;
        let ids = self.nodes@;
        let c = core[x] as int;
        let lv = level(ids, pos, core, pos.len() as int, c);
        assert(lv.contains(ids[x])) by {
            assert(pos[x] >= pos.len() || core[x] >= c);
        }
        assert(in_core(g, ids[x], c));
        if in_core(g, ids[x], c + 1) {
            let s = choose|s: Set<u32>| s.contains(ids[x]) && #[trigger] is_core(g, s, c + 1);
            let y = self.lemma_first_member(pos, s, x);
            let nb = neighbours(g, ids[y]);
            let after = rest(ids, pos, pos[y] as int);
            self.lemma_neighbours_finite(ids[y]);
            assert(nb.intersect(s).subset_of(nb.intersect(after))) by {
                assert forall|a: u32| nb.intersect(s).contains(a) implies nb.intersect(after).contains(a) by {
                    self.lemma_neighbour_node(ids[y], a);
                    let z = choose|z: int| 0 <= z < ids.len() && ids[z] == a;
                    assert(pos[y] <= pos[z]);
                    assert(pos[z] >= pos[y] as int);
                }
            }
            vstd::set_lib::lemma_len_subset(nb.intersect(s), nb.intersect(after));
            assert(core[y] >= nb.intersect(after).len());
            assert(s.contains(ids[y]));
            assert(pos[y] <= pos[x]);
            assert(false);
        }
    }

    /// One node is peeled: what holds of the peeled nodes goes on to hold.
    #[verifier::rlimit(40)]
    #[verifier::spinoff_prover]
    proof fn lemma_peel_levels(&self, vert: Seq<usize>, pos: Seq<usize>, pos2: Seq<usize>, deg: Seq<usize>, core: Seq<usize>, core2: Seq<usize>, i: int, last: int)
        requires
            self.wf(),
            pos.len() == self.nodes@.len(),
            pos2.len() == pos.len(),
            deg.len() == pos.len(),
            core.len() == pos.len(),
            inverse(vert, pos),
            0 <= i < pos.len(),
            0 <= last,
            core2 == core.update(vert[i] as int, deg[vert[i] as int]),
            last <= deg[vert[i] as int],
            forall|x: int| 0 <= x < pos.len() ==> (#[trigger] pos[x] <= i <==> pos2[x] <= i),
            forall|x: int| 0 <= x < pos.len() && #[trigger] pos[x] <= i ==> pos2[x] == pos[x],
            forall|x: int| 0 <= x < pos.len() && #[trigger] pos[x] >= i ==> deg[x] >= deg[vert[i] as int],
            forall|x: int| 0 <= x < pos.len() && #[trigger] pos[x] < i ==> core[x] <= last,
            forall|x: int| 0 <= x < pos.len() && #[trigger] pos[x] >= i ==> tracks(self@, deg[x], self.nodes@[x], rest(self.nodes@, pos, i), last),
            forall|k: int| 0 <= k <= last ==> is_core(self@, #[trigger] level(self.nodes@, pos, core, i, k), k),
        ensures
            forall|k: int| 0 <= k <= deg[vert[i] as int] ==> is_core(self@, #[trigger] level(self.nodes@, pos2, core2, i + 1, k), k),
    {
        let g = self@;
        let ids = self.nodes@;
        let v = vert[i] as int;
        lemma_at(vert, pos, i);
        let cur = deg[v] as int;
        assert forall|k: int| 0 <= k <= cur implies is_core(g, #[trigger] level(ids, pos2, core2, i + 1, k), k) by {
            let new = level(ids, pos2, core2, i + 1, k);
            if k <= last {
                let was = level(ids, pos, core, i, k);
                assert(new =~= was) by {
                    assert forall|a: u32| new.contains(a) <==> was.contains(a) by {
                        if new.contains(a) {
                            let x = choose|x: int| 0 <= x < ids.len() && ids[x] == a && (#[trigger] pos2[x] >= i + 1 || core2[x] >= k);
                            assert(pos[x] <= i <==> pos2[x] <= i);
                            assert(pos[x] >= i || core[x] >= k);
                        }
                        if was.contains(a) {
                            let x = choose|x: int| 0 <= x < ids.len() && ids[x] == a && (#[trigger] pos[x] >= i || core[x] >= k);
                            if pos[x] == i {
                                lemma_apart(vert, pos, x, v);
                            }
                            assert(pos2[x] >= i + 1 || core2[x] >= k);
                        }
                    }
                }
            } else {
                let r = rest(ids, pos, i);
                assert(new =~= r) by {
                    assert forall|a: u32| new.contains(a) <==> r.contains(a) by {
                        if new.contains(a) {
                            let x = choose|x: int| 0 <= x < ids.len() && ids[x] == a && (#[trigger] pos2[x] >= i + 1 || core2[x] >= k);
                            if pos[x] < i {
                                assert(pos2[x] == pos[x]);
                                assert(core[x] <= last);
                                assert(x != v);
                            }
                            assert(pos[x] >= i);
                        }
                        if r.contains(a) {
                            let x = choose|x: int| 0 <= x < ids.len() && ids[x] == a && #[trigger] pos[x] >= i;
                            if pos[x] == i {
                                lemma_apart(vert, pos, x, v);
                            }
                            assert(pos2[x] >= i + 1 || core2[x] >= k);
                        }
                    }
                }
                assert forall|y: u32| #[trigger] r.contains(y) implies neighbours(g, y).intersect(r).len() >= k by {
                    let x = choose|x: int| 0 <= x < ids.len() && ids[x] == y && #[trigger] pos[x] >= i;
                    assert(tracks(g, deg[x], ids[x], r, last));
                }
            }
        }
    }

    /// The neighbours of an index that is peeled off lose a degree each, as far as they
    /// are not below it.
    #[verifier::spinoff_prover]
    #[verifier::rlimit(40)]
    fn settle_row(&self, row: &Vec<usize>, deg: &mut Vec<usize>, vert: &mut Vec<usize>, pos: &mut Vec<usize>, bin: &mut Vec<usize>, v: usize, cur: usize, i: usize, Ghost(top): Ghost<int>)
        requires
            self.wf(),
            i < self.nodes@.len(),
            v < self.nodes@.len(),
            row_ok(*self, row@, v as int),
            old(pos)@.len() == self.nodes@.len(),
            ordered((Peel { deg: old(deg)@, vert: old(vert)@, pos: old(pos)@, bin: old(bin)@ }), cur as int, top),
            old(vert)@[i as int] == v,
            old(deg)@[v as int] == cur,
            forall|x: int| 0 <= x < self.nodes@.len() && #[trigger] old(pos)@[x] <= i ==> old(deg)@[x] <= cur,
            forall|x: int| 0 <= x < self.nodes@.len() && #[trigger] old(pos)@[x] > i ==> old(deg)@[x] >= cur,
            ({
                let st0 = Peel { deg: old(deg)@, vert: old(vert)@, pos: old(pos)@, bin: old(bin)@ };
                forall|x: int| 0 <= x < self.nodes@.len() && #[trigger] old(pos)@[x] > i ==> unsettled(*self, st0, st0, self.nodes@, row@, 0, i as int, cur as int, x)
            }),
        ensures
            ({
                let st0 = Peel { deg: old(deg)@, vert: old(vert)@, pos: old(pos)@, bin: old(bin)@ };
                let st = Peel { deg: final(deg)@, vert: final(vert)@, pos: final(pos)@, bin: final(bin)@ };
                let n = self.nodes@.len();
                &&& st.pos.len() == n
                &&& ordered(st, cur as int, top)
                &&& st.vert[i as int] == v
                &&& st.deg[v as int] == cur
                &&& forall|x: int| 0 <= x < n ==> (#[trigger] st0.pos[x] <= i <==> st.pos[x] <= i)
                &&& forall|x: int| 0 <= x < n && #[trigger] st0.pos[x] <= i ==> st.pos[x] == st0.pos[x] && st.deg[x] == st0.deg[x]
                &&& forall|x: int| 0 <= x < n && #[trigger] st.pos[x] > i ==> st.deg[x] >= cur
                &&& forall|x: int| 0 <= x < n && #[trigger] st.pos[x] > i ==> unsettled(*self, st0, st, self.nodes@, row@, row@.len() as int, i as int, cur as int, x)
            }),
    {
        let ghost n = self.nodes@.len();
        let ghost ids = self.nodes@;
        let ghost st0 = Peel { deg: deg@, vert: vert@, pos: pos@, bin: bin@ };
        let mut t: usize = 0;
        while t < row.len()
            invariant
                self.wf(),
                n == self.nodes@.len(),
                st0 == (Peel { deg: old(deg)@, vert: old(vert)@, pos: old(pos)@, bin: old(bin)@ }),
                ids == self.nodes@,
                i < n,
                v < n,
                row_ok(*self, row@, v as int),
                t <= row.len(),
                pos@.len() == n,
                st0.pos.len() == n,
                st0.deg.len() == n,
                inverse(st0.vert, st0.pos),
                st0.vert[i as int] == v,
                st0.deg[v as int] == cur,
                ordered((Peel { deg: deg@, vert: vert@, pos: pos@, bin: bin@ }), cur as int, top),
                vert@[i as int] == v,
                deg@[v as int] == cur,
                forall|x: int| 0 <= x < n ==> (#[trigger] st0.pos[x] <= i <==> pos@[x] <= i),
                forall|x: int| 0 <= x < n && #[trigger] st0.pos[x] <= i ==> pos@[x] == st0.pos[x] && deg@[x] == st0.deg[x],
                forall|x: int| 0 <= x < n && #[trigger] st0.pos[x] <= i ==> st0.deg[x] <= cur,
                forall|x: int| 0 <= x < n && #[trigger] pos@[x] > i ==> deg@[x] >= cur,
                forall|x: int| 0 <= x < n && #[trigger] pos@[x] > i ==> unsettled(*self, st0, (Peel { deg: deg@, vert: vert@, pos: pos@, bin: bin@ }), ids, row@, t as int, i as int, cur as int, x),
            decreases row.len() - t,
        {
            let u: usize = row[t];
            let ghost st = Peel { deg: deg@, vert: vert@, pos: pos@, bin: bin@ };
            assert(row@[t as int] < n);
            if deg[u] > cur {
                proof {
                    lemma_lower(st, cur as int, top, u as int, i as int);
                }
                let du: usize = deg[u];
                let pu: usize = pos[u];
                let pw: usize = bin[du];
                proof {
                    lemma_at(vert@, pos@, pw as int);
                }
                let w: usize = vert[pw];
                vert.set(pu, w);
                vert.set(pw, u);
                pos.set(w, pu);
                pos.set(u, pw);
                bin.set(du, pw + 1);
                deg.set(u, du - 1);
                assert((Peel { deg: deg@, vert: vert@, pos: pos@, bin: bin@ }) == lowered(st, u as int));
            }
            proof {
                let s2 = Peel { deg: deg@, vert: vert@, pos: pos@, bin: bin@ };
                assert forall|x: int| 0 <= x < n && #[trigger] pos@[x] > i implies deg@[x] >= cur && unsettled(*self, st0, s2, ids, row@, t + 1, i as int, cur as int, x) by {
                    assert(st0.pos[x] <= i <==> pos@[x] <= i);
                    assert(st.pos[x] > i);
                    assert(unsettled(*self, st0, st, ids, row@, t as int, i as int, cur as int, x));
                    self.lemma_settle(st0, st, s2, row@, t as int, i as int, cur as int, x);
                }
                assert forall|x: int| 0 <= x < n && #[trigger] st0.pos[x] <= i implies pos@[x] == st0.pos[x] && deg@[x] == st0.deg[x] by {
                    assert(st.pos[x] == st0.pos[x]);
                    assert(st.deg[x] <= cur);
                }
                assert forall|x: int| 0 <= x < n implies (#[trigger] st0.pos[x] <= i <==> pos@[x] <= i) by {
                    assert(st.pos[x] <= i <==> st0.pos[x] <= i);
                }
            }
            t = t + 1;
        }
    }

    /// Core number of every node: the largest `k` such that the node lies in a
    /// set of nodes that each have at least `k` neighbours in the set, where the
    /// graph is read without directions and self-loops.
    #[verifier::spinoff_prover]
    #[verifier::rlimit(40)]
    pub fn k_core(&self) -> (m: HashMap<EntityLiteralId, usize>)
        requires
            self.wf(),
        ensures
            forall|x: u32| #[trigger] m@.contains_key(x) <==> self@.nodes.contains(x),
            forall|x: u32| #[trigger] m@.contains_key(x) ==> core_number_is(self@, x, m@[x] as int),
    {
        let n: usize = self.nodes.len();
        let ghost ids = self.nodes@;
        let mut m: HashMap<u32, usize> = HashMap::new();
        if n == 0 {
            return m;
        }
        let rows: Vec<Vec<usize>> = self.undirected_rows();
        let (deg0, vert0, pos0, bin0) = self.bucket_order(&rows);
        let mut deg: Vec<usize> = deg0;
        let mut vert: Vec<usize> = vert0;
        let mut pos: Vec<usize> = pos0;
        let mut bin: Vec<usize> = bin0;
        let ghost top = bin@.len() - 1;
        let mut core: Vec<usize> = Vec::new();
        let mut c: usize = 0;
        while c < n
            invariant
                c <= n,
                core.len() == c,
            decreases n - c,
        {
            core.push(0);
            c = c + 1;
        }
        let ghost mut last: int = 0;
        proof {
            assert forall|x: int| 0 <= x < n && #[trigger] pos@[x] >= 0 implies tracks(self@, deg@[x], ids[x], rest(ids, pos@, 0), 0) by {
                self.lemma_row_degree(rows@, x);
                self.lemma_neighbours_finite(ids[x]);
                assert(neighbours(self@, ids[x]).intersect(rest(ids, pos@, 0)) =~= neighbours(self@, ids[x])) by {
                    assert forall|a: u32| neighbours(self@, ids[x]).contains(a) implies rest(ids, pos@, 0).contains(a) by {
                        self.lemma_neighbour_node(ids[x], a);
                        let z = choose|z: int| 0 <= z < ids.len() && ids[z] == a;
                        assert(pos@[z] >= 0);
                    }
                }
            }
            assert(is_core(self@, level(ids, pos@, core@, 0, 0), 0));
        }
        let mut i: usize = 0;
        while i < n
            invariant
                self.wf(),
                n == self.nodes@.len(),
                ids == self.nodes@,
                undirected_rows_of(*self, rows@),
                i <= n,
                core@.len() == n,
                pos@.len() == n,
                0 <= last,
                ordered((Peel { deg: deg@, vert: vert@, pos: pos@, bin: bin@ }), last, top),
                forall|x: int| 0 <= x < n && #[trigger] pos@[x] < i ==> core@[x] <= last && deg@[x] == core@[x],
                forall|x: int| 0 <= x < n && #[trigger] pos@[x] >= i ==> deg@[x] >= last,
                forall|x: int| 0 <= x < n && #[trigger] pos@[x] >= i ==> tracks(self@, deg@[x], ids[x], rest(ids, pos@, i as int), last),
                forall|x: int| 0 <= x < n && #[trigger] pos@[x] < i ==> core@[x] >= neighbours(self@, ids[x]).intersect(rest(ids, pos@, pos@[x] as int)).len(),
                forall|k: int| 0 <= k <= last ==> is_core(self@, #[trigger] level(ids, pos@, core@, i as int, k), k),
            decreases n - i,
        {
            proof {
                lemma_at(vert@, pos@, i as int);
                assert(vert@.len() == n);
            }
            let v: usize = vert[i];
            let cur: usize = deg[v];
            let ghost core0 = core@;
            let ghost st0 = Peel { deg: deg@, vert: vert@, pos: pos@, bin: bin@ };
            core.set(v, cur);
            proof {
                assert(row_ok(*self, rows@[v as int]@, v as int));
                assert(pos@[v as int] == i);
                assert(last <= cur);
                assert(ordered(st0, cur as int, top));
                assert forall|x: int| 0 <= x < n && #[trigger] pos@[x] > i implies unsettled(*self, st0, st0, ids, rows@[v as int]@, 0, i as int, cur as int, x) by {
                    assert(tracks(self@, deg@[x], ids[x], rest(ids, pos@, i as int), last));
                    self.lemma_rest_step(pos@, vert@, i as int, x);
                    assert(rows@[v as int]@.subrange(0, 0).len() == 0);
                    lemma_symmetric(self@, ids[x], ids[v as int]);
                    assert(rows@[v as int]@.contains(x as usize) <==> neighbours(self@, ids[v as int]).contains(ids[x]));
                }
            }
            let row: &Vec<usize> = &rows[v];
            self.settle_row(row, &mut deg, &mut vert, &mut pos, &mut bin, v, cur, i, Ghost(top));
            proof {
                let s2 = Peel { deg: deg@, vert: vert@, pos: pos@, bin: bin@ };
                self.lemma_peel_levels(st0.vert, st0.pos, pos@, st0.deg, core0, core@, i as int, last);
                assert forall|x: int| 0 <= x < n && #[trigger] pos@[x] >= i + 1 implies tracks(self@, deg@[x], ids[x], rest(ids, pos@, i + 1), cur as int) by {
                    assert(unsettled(*self, st0, s2, ids, row@, row@.len() as int, i as int, cur as int, x));
                    assert(row@.subrange(0, row@.len() as int) =~= row@);
                    self.lemma_rest_same(st0.pos, pos@, i as int, i + 1);
                    lemma_symmetric(self@, ids[x], ids[v as int]);
                    assert(row@.contains(x as usize) <==> neighbours(self@, ids[v as int]).contains(ids[x]));
                }
                assert forall|x: int| 0 <= x < n && #[trigger] pos@[x] < i + 1 implies core@[x] <= cur && deg@[x] == core@[x] && core@[x] >= neighbours(self@, ids[x]).intersect(rest(ids, pos@, pos@[x] as int)).len() by {
                    assert(st0.pos[x] <= i <==> pos@[x] <= i);
                    assert(pos@[x] == st0.pos[x]);
                    self.lemma_rest_same(st0.pos, pos@, i as int, pos@[x] as int);
                    if x == v {
                        assert(tracks(self@, st0.deg[x], ids[x], rest(ids, st0.pos, i as int), last));
                    } else {
                        if st0.pos[x] == i {
                            lemma_apart(st0.vert, st0.pos, x, v as int);
                        }
                    }
                }
                last = cur as int;
            }
            i = i + 1;
        }
        proof {
            assert forall|y: int| 0 <= y < n implies #[trigger] pos@[y] < n by {
                lemma_place(vert@, pos@, y);
            }
        }
        let mut j: usize = 0;
        while j < n
            invariant
                self.wf(),
                n == self.nodes@.len(),
                core@.len() == n,
                j <= n,
                forall|a: u32| #[trigger] m@.contains_key(a) ==> exists|x: int| 0 <= x < j && self.nodes@[x] == a && m@[a] == #[trigger] core@[x],
                forall|x: int| 0 <= x < j ==> m@.contains_key(#[trigger] self.nodes@[x]),
            decreases n - j,
        {
            let ghost m0 = m@;
            m.insert(self.nodes[j], core[j]);
            proof {
                assert forall|a: u32| #[trigger] m@.contains_key(a) implies exists|x: int| 0 <= x < j + 1 && self.nodes@[x] == a && m@[a] == #[trigger] core@[x] by {
                    if a == self.nodes@[j as int] {
                        assert(m@[a] == core@[j as int]);
                    } else {
                        assert(m0.contains_key(a));
                    }
                }
            }
            j = j + 1;
        }
        proof {
            assert forall|y: int| 0 <= y < n implies #[trigger] core@[y] <= last && core@[y] >= neighbours(self@, ids[y]).intersect(rest(ids, pos@, pos@[y] as int)).len() by {
                assert(pos@[y] < n);
            }
            assert forall|y: int, z: int| 0 <= y < n && 0 <= z < n && #[trigger] pos@[y] <= #[trigger] pos@[z] implies core@[y] <= core@[z] by {
                assert(deg@[y] == core@[y] && deg@[z] == core@[z]);
            }
            assert forall|a: u32| #[trigger] m@.contains_key(a) implies core_number_is(self@, a, m@[a] as int) by {
                let x = choose|x: int| 0 <= x < n && self.nodes@[x] == a && m@[a] == #[trigger] core@[x];
                self.lemma_core_numbers(pos@, core@, last, x);
            }
        }
        m
    }

    /// A set of later places does not change when places beyond `i` are swapped.
    proof fn lemma_rest_same(&self, a: Seq<usize>, b: Seq<usize>, i: int, k: int)
        requires
            a.len() == self.nodes@.len(),
            b.len() == a.len(),
            k <= i + 1,
            forall|x: int| 0 <= x < a.len() ==> (#[trigger] a[x] <= i <==> b[x] <= i),
            forall|x: int| 0 <= x < a.len() && #[trigger] a[x] <= i ==> b[x] == a[x],
        ensures
            rest(self.nodes@, a, k) == rest(self.nodes@, b, k),
    {
        let ids = self.nodes@;
        assert forall|c: u32| rest(ids, a, k).contains(c) <==> rest(ids, b, k).contains(c) by {
            if rest(ids, a, k).contains(c) {
                let x = choose|x: int| 0 <= x < ids.len() && ids[x] == c && #[trigger] a[x] >= k;
                assert(b[x] >= k);
            }
            if rest(ids, b, k).contains(c) {
                let x = choose|x: int| 0 <= x < ids.len() && ids[x] == c && #[trigger] b[x] >= k;
                assert(a[x] <= i <==> b[x] <= i);
                assert(a[x] >= k);
            }
        }
        assert(rest(ids, a, k) =~= rest(ids, b, k));
    }

    /// One entry of the row of the peeled node is handled.
    #[verifier::spinoff_prover]
    proof fn lemma_settle(&self, st0: Peel, st: Peel, s2: Peel, row: Seq<usize>, t: int, i: int, cur: int, x: int)
        requires
            self.wf(),
            st0.pos.len() == self.nodes@.len(),
            st.deg.len() == st0.pos.len(),
            inverse(st0.vert, st0.pos),
            0 <= i < st0.pos.len(),
            0 <= x < st0.pos.len(),
            0 <= t < row.len(),
            row_ok(*self, row, st0.vert[i] as int),
            unsettled(*self, st0, st, self.nodes@, row, t, i, cur, x),
            st.deg[x] >= cur,
            s2.deg == (if st.deg[row[t] as int] > cur { st.deg.update(row[t] as int, (st.deg[row[t] as int] - 1) as usize) } else { st.deg }),
        ensures
            unsettled(*self, st0, s2, self.nodes@, row, t + 1, i, cur, x),
            s2.deg[x] >= cur,
    {
        let ids = self.nodes@;
        lemma_at(st0.vert, st0.pos, i);
        self.lemma_rest_step(st0.pos, st0.vert, i, x);
        let a = row.subrange(0, t);
        let b = row.subrange(0, t + 1);
        assert(b =~= a.push(row[t]));
        assert(row[t] < ids.len());
        assert(b.contains(x as usize) <==> a.contains(x as usize) || x == row[t]) by {
            if a.contains(x as usize) {
                let k = choose|k: int| 0 <= k < a.len() && a[k] == x as usize;
                assert(b[k] == x as usize);
            }
            assert(b[t] == row[t]);
            if b.contains(x as usize) && x != row[t] {
                let k = choose|k: int| 0 <= k < b.len() && b[k] == x as usize;
                assert(a[k] == x as usize);
            }
        }
        if x == row[t] {
            assert(!a.contains(x as usize)) by {
                if a.contains(x as usize) {
                    let k = choose|k: int| 0 <= k < a.len() && a[k] == x as usize;
                    assert(row[k].rank() < row[t].rank());
                }
            }
            assert(row.contains(x as usize)) by {
                assert(row[t] == x as usize);
            }
            lemma_symmetric(self@, ids[x], ids[st0.vert[i] as int]);
        }
    }

    /// The starting order: degrees, nodes sorted by degree, their places, and
    /// the first place of each degree.
    #[verifier::rlimit(40)]
    fn bucket_order(&self, rows: &Vec<Vec<usize>>) -> (r: (Vec<usize>, Vec<usize>, Vec<usize>, Vec<usize>))
        requires
            self.wf(),
            undirected_rows_of(*self, rows@),
            rows@.len() > 0,
        ensures
            r.2@.len() == rows@.len(),
            r.3@.len() >= 1,
            ordered((Peel { deg: r.0@, vert: r.1@, pos: r.2@, bin: r.3@ }), 0, r.3@.len() - 1),
            forall|x: int| 0 <= x < rows@.len() ==> #[trigger] r.0@[x] == rows@[x]@.len(),
    {
        let n: usize = rows.len();
        proof {
            lemma_ids_bounded(self.nodes@);
        }
        let mut deg: Vec<usize> = Vec::new();
        let mut keys: Vec<(usize, usize)> = Vec::new();
        let mut u: usize = 0;
        while u < n
            invariant
                n == rows.len(),
                u <= n,
                deg.len() == u,
                keys.len() == u,
                forall|x: int| 0 <= x < u ==> #[trigger] deg@[x] == rows@[x]@.len(),
                forall|x: int| 0 <= x < u ==> #[trigger] keys@[x] == (deg@[x], x as usize),
            decreases n - u,
        {
            deg.push(rows[u].len());
            keys.push((rows[u].len(), u));
            u = u + 1;
        }
        let sorted: Vec<(usize, usize)> = sort_dedup(&keys);
        proof {
            keys@.unique_seq_to_set();
            assert(keys@.no_duplicates());
            crate::order::lemma_lists_len(sorted@, keys@.to_set());
        }
        let mut vert: Vec<usize> = Vec::new();
        let mut pos: Vec<usize> = Vec::new();
        let mut p: usize = 0;
        while p < n
            invariant
                p <= n,
                pos.len() == p,
            decreases n - p,
        {
            pos.push(0);
            p = p + 1;
        }
        assert forall|j: int| 0 <= j < n implies (#[trigger] sorted@[j]).1 < n && sorted@[j].0 == deg@[sorted@[j].1 as int] by {
            assert(sorted@.contains(sorted@[j]));
            let x = choose|x: int| 0 <= x < keys@.len() && keys@[x] == sorted@[j];
            assert(keys@[x] == (deg@[x], x as usize));
        }
        let mut j: usize = 0;
        while j < n
            invariant
                n == sorted.len(),
                pos.len() == n,
                j <= n,
                vert.len() == j,
                ascending(sorted@),
                deg.len() == n,
                forall|k: int| 0 <= k < n ==> (#[trigger] sorted@[k]).1 < n && sorted@[k].0 == deg@[sorted@[k].1 as int],
                forall|k: int| 0 <= k < j ==> #[trigger] vert@[k] == sorted@[k].1 && pos@[sorted@[k].1 as int] == k,
            decreases n - j,
        {
            let v: usize = sorted[j].1;
            let ghost vert0 = vert@;
            vert.push(v);
            pos.set(v, j);
            proof {
                assert forall|k: int| 0 <= k < j + 1 implies #[trigger] vert@[k] == sorted@[k].1 && pos@[sorted@[k].1 as int] == k by {
                    if k < j {
                        assert(vert0[k] == sorted@[k].1);
                        assert(sorted@[k].rank() < sorted@[j as int].rank());
                        assert(sorted@[k].1 != v);
                    }
                }
            }
            j = j + 1;
        }
        proof {
            assert forall|x: int| 0 <= x < n implies (#[trigger] pos@[x]) < n && vert@[pos@[x] as int] == x by {
                assert(keys@[x] == (deg@[x], x as usize));
                assert(keys@.contains((deg@[x], x as usize)));
                assert(sorted@.contains((deg@[x], x as usize)));
                let k = choose|k: int| 0 <= k < sorted@.len() && sorted@[k] == (deg@[x], x as usize);
                assert(vert@[k] == sorted@[k].1);
            }
            assert(inverse(vert@, pos@)) by {
                reveal(inverse);
                assert forall|k: int| 0 <= k < n implies (#[trigger] vert@[k]) < n && pos@[vert@[k] as int] == k by {
                    assert(vert@[k] == sorted@[k].1 && pos@[sorted@[k].1 as int] == k);
                }
            }
            assert forall|x: int, y: int| 0 <= x < n && 0 <= y < n && (#[trigger] pos@[x]) <= (#[trigger] pos@[y]) implies deg@[x] <= deg@[y] by {
                let a = pos@[x] as int;
                let b = pos@[y] as int;
                assert(vert@[a] == sorted@[a].1 && vert@[b] == sorted@[b].1);
                if a < b {
                    assert(sorted@[a].rank() < sorted@[b].rank());
                }
            }
        }
        let top: usize = sorted[n - 1].0;
        proof {
            let z = sorted@[n - 1].1 as int;
            assert(vert@[n - 1] == sorted@[n - 1].1 && pos@[z] == n - 1);
            self.lemma_row_len(rows@, z);
            assert(top == deg@[z]);
            assert forall|x: int| 0 <= x < n implies (#[trigger] deg@[x]) <= top by {
                assert(pos@[x] <= pos@[z]);
            }
        }
        let mut bin: Vec<usize> = Vec::new();
        let mut d: usize = 0;
        let mut at: usize = 0;
        while d <= top
            invariant
                n == sorted.len(),
                n == self.nodes@.len(),
                top <= n,
                n < usize::MAX,
                d <= top + 1,
                at <= n,
                bin.len() == d,
                ascending(sorted@),
                forall|k: int| 0 <= k < d ==> (#[trigger] bin@[k]) <= n,
                forall|k: int, l: int| 0 <= k < d && 0 <= l < n ==> (l < (#[trigger] bin@[k]) <==> (#[trigger] sorted@[l]).0 < k),
                forall|l: int| 0 <= l < at ==> (#[trigger] sorted@[l]).0 < d,
            decreases top + 1 - d,
        {
            while at < n && sorted[at].0 < d
                invariant
                    n == sorted.len(),
                    at <= n,
                    forall|l: int| 0 <= l < at ==> (#[trigger] sorted@[l]).0 < d,
                decreases n - at,
            {
                at = at + 1;
            }
            let ghost bin0 = bin@;
            bin.push(at);
            proof {
                assert forall|k: int, l: int| 0 <= k < d + 1 && 0 <= l < n implies (l < (#[trigger] bin@[k]) <==> (#[trigger] sorted@[l]).0 < k) by {
                    if k < d {
                        assert(bin@[k] == bin0[k]);
                    } else if l >= at {
                        if l > at {
                            assert(sorted@[at as int].rank() < sorted@[l].rank());
                        }
                    }
                }
            }
            d = d + 1;
        }
        proof {
            let st = Peel { deg: deg@, vert: vert@, pos: pos@, bin: bin@ };
            assert forall|k: int, x: int| 0 <= x < n && 0 < k <= top implies ((#[trigger] st.pos[x]) < (#[trigger] st.bin[k]) <==> st.deg[x] < k) by {
                let l = pos@[x] as int;
                assert(l < n && vert@[l] == x);
                assert(vert@[l] == sorted@[l].1);
                assert(l < bin@[k] <==> sorted@[l].0 < k);
            }
        }
        (deg, vert, pos, bin)
    }
}

/// Where the residual degree of a node that is still to be peeled stands while
/// the row of the node at place `i` is handled up to entry `t`: the node itself
/// is discounted for the entries handled, and not yet for the others.
spec fn unsettled(g: GraphView, st0: Peel, st: Peel, ids: Seq<u32>, row: Seq<usize>, t: int, i: int, cur: int, x: int) -> bool {
    let waits = neighbours(g@, ids[x]).contains(ids[st0.vert[i] as int]) && !row.subrange(0, t).contains(x as usize);
    tracks(g@, st.deg[x], ids[x], rest(ids, st0.pos, if waits { i } else { i + 1 }), cur)
}

proof fn lemma_symmetric(g: Digraph, a: u32, b: u32)
    ensures
        neighbours(g, a).contains(b) <==> neighbours(g, b).contains(a),
{
}

} // verus!
