//! Strongly connected components: Tarjan's algorithm with an explicit work
//! stack, so that deep graphs need no deep call stack.

use super::graph::{lemma_closed_reach, lemma_reaches_edge, lemma_reaches_self, lemma_reaches_trans};
use super::graph::{lemma_distinct_below, reaches};
use super::{csr_edge, csr_wf, row_at, GraphView};
use crate::model::EntityLiteralId;
use std::collections::HashMap;
use vstd::prelude::*;

verus! {

broadcast use vstd::std_specs::hash::group_hash_axioms;

const UNVISITED: usize = usize::MAX;

/// Each of the two reaches the other.
pub open spec fn mutual(e: Set<(u32, u32)>, a: u32, b: u32) -> bool {
    reaches(e, a, b) && reaches(e, b, a)
}

/// The state of the search. `work` holds the open nodes with the place of the
/// next edge to follow; `disc` lists the discovered nodes in order.
ghost struct Search {
    index: Seq<usize>,
    low: Seq<usize>,
    on: Seq<bool>,
    comp: Seq<usize>,
    stack: Seq<usize>,
    work: Seq<(usize, usize)>,
    disc: Seq<usize>,
    num: int,
}

/// The edge at place `j` of row `x` has been followed.
spec fn explored(g: GraphView, st: Search, x: int, j: int) -> bool {
    &&& g.out_ptr@[x] <= j < g.out_ptr@[x + 1]
    &&& forall|k: int| 0 <= k < st.work.len() && (#[trigger] st.work[k]).0 == x ==> j < st.work[k].1
}

/// The open node at place `k` is the last one discovered no later than `x`.
spec fn owner(st: Search, x: int, k: int) -> bool {
    &&& 0 <= k < st.work.len()
    &&& st.index[st.work[k].0 as int] <= st.index[x]
    &&& k + 1 < st.work.len() ==> st.index[x] < st.index[st.work[k + 1].0 as int]
}

/// Index `x` reaches index `y`.
#[verifier::opaque]
spec fn r(g: GraphView, x: int, y: int) -> bool {
    reaches(g@.edges, g.nodes@[x], g.nodes@[y])
}

proof fn lemma_r_self(g: GraphView, x: int)
    ensures
        r(g, x, x),
{
    reveal(r);
    lemma_reaches_self(g@.edges, g.nodes@[x]);
}

proof fn lemma_r_trans(g: GraphView, x: int, y: int, z: int)
    requires
        r(g, x, y),
        r(g, y, z),
    ensures
        r(g, x, z),
{
    reveal(r);
    lemma_reaches_trans(g@.edges, g.nodes@[x], g.nodes@[y], g.nodes@[z]);
}

/// What is reached from a set of indexes that is closed under edges lies in it.
proof fn lemma_r_closed(g: GraphView, s: Set<int>, x: int, y: int)
    requires
        g.wf(),
        r(g, x, y),
        s.contains(x),
        0 <= x < g.nodes@.len(),
        0 <= y < g.nodes@.len(),
        forall|a: int, b: int| s.contains(a) && #[trigger] g.dense_edge(a, b) ==> s.contains(b),
    ensures
        s.contains(y),
{
    reveal(r);
    let ids = g.nodes@;
    let t = Set::new(|a: u32| exists|z: int| 0 <= z < ids.len() && ids[z] == a && #[trigger] s.contains(z));
    assert(t.contains(ids[x]));
    assert forall|a: u32, b: u32| t.contains(a) && #[trigger] g@.edges.contains((a, b)) implies t.contains(b) by {
        let (p, q) = choose|p: int, q: int| #[trigger] g.dense_edge(p, q) && ids[p] == a && ids[q] == b;
        let z = choose|z: int| 0 <= z < ids.len() && ids[z] == a && #[trigger] s.contains(z);
        assert(g.id_to_idx@[ids[p]] == p && g.id_to_idx@[ids[z]] == z);
        assert(s.contains(q));
    }
    lemma_closed_reach(g@.edges, t, ids[x], ids[y]);
    let z = choose|z: int| 0 <= z < ids.len() && ids[z] == ids[y] && #[trigger] s.contains(z);
    assert(g.id_to_idx@[ids[z]] == z && g.id_to_idx@[ids[y]] == y);
}

/// The places of the discovered nodes are their places in `disc`.
#[verifier::opaque]
spec fn disc_ok(n: nat, disc: Seq<usize>, index: Seq<usize>) -> bool {
    forall|i: int| 0 <= i < disc.len() ==> (#[trigger] disc[i]) < n && index[disc[i] as int] == i
}

/// Index `x` is somewhere on the stack.
#[verifier::opaque]
spec fn stacked(stack: Seq<usize>, x: int) -> bool {
    exists|i: int| 0 <= i < stack.len() && #[trigger] stack[i] == x
}

/// Index `x` is on the stack at place `from` or above.
#[verifier::opaque]
spec fn popped(stack: Seq<usize>, from: int, x: int) -> bool {
    exists|k: int| from <= k < stack.len() && #[trigger] stack[k] == x
}

proof fn lemma_popped_place(stack: Seq<usize>, from: int, x: int) -> (k: int)
    requires
        popped(stack, from, x),
    ensures
        from <= k < stack.len(),
        stack[k] == x,
{
    reveal(popped);
    choose|k: int| from <= k < stack.len() && #[trigger] stack[k] == x
}

proof fn lemma_popped(stack: Seq<usize>, from: int, x: int)
    requires
        0 <= from < stack.len(),
    ensures
        popped(stack, from, x) == (stack[from] == x || popped(stack, from + 1, x)),
        !popped(stack, stack.len() as int, x),
{
    reveal(popped);
    if popped(stack, from, x) {
        let k = lemma_popped_place(stack, from, x);
        if k > from {
            assert(stack[k] == x);
        }
    }
    if popped(stack, from + 1, x) {
        let k = lemma_popped_place(stack, from + 1, x);
        assert(stack[k] == x);
    }
}

/// Index `x` reaches an open node that was discovered no later.
#[verifier::opaque]
spec fn reaches_open(g: GraphView, work: Seq<(usize, usize)>, index: Seq<usize>, x: int) -> bool {
    exists|k: int| 0 <= k < work.len() && index[(#[trigger] work[k]).0 as int] <= index[x] && r(g, x, work[k].0 as int)
}

/// The low link of `v` is the place of a stacked node that `v` reaches.
#[verifier::opaque]
spec fn low_witnessed(g: GraphView, on: Seq<bool>, index: Seq<usize>, low: usize, v: int) -> bool {
    exists|z: int| 0 <= z < g.nodes@.len() && (#[trigger] on[z]) && index[z] == low && r(g, v, z)
}

proof fn lemma_stack_place(st: Search, x: int) -> (i: int)
    requires
        stacked(st.stack, x),
    ensures
        0 <= i < st.stack.len(),
        st.stack[i] == x,
{
    reveal(stacked);
    choose|i: int| 0 <= i < st.stack.len() && #[trigger] st.stack[i] == x
}

proof fn lemma_open_place(g: GraphView, st: Search, x: int) -> (k: int)
    requires
        reaches_open(g, st.work, st.index, x),
    ensures
        0 <= k < st.work.len(),
        st.index[st.work[k].0 as int] <= st.index[x],
        r(g, x, st.work[k].0 as int),
{
    reveal(reaches_open);
    choose|k: int| 0 <= k < st.work.len() && st.index[(#[trigger] st.work[k]).0 as int] <= st.index[x] && r(g, x, st.work[k].0 as int)
}

proof fn lemma_reaches_open(g: GraphView, work: Seq<(usize, usize)>, index: Seq<usize>, x: int, k: int)
    requires
        0 <= k < work.len(),
        index[work[k].0 as int] <= index[x],
        r(g, x, work[k].0 as int),
    ensures
        reaches_open(g, work, index, x),
{
    reveal(reaches_open);
    assert(work[k] == work[k]);
}

proof fn lemma_low_witnessed(g: GraphView, on: Seq<bool>, index: Seq<usize>, low: usize, v: int, z: int)
    requires
        0 <= z < g.nodes@.len(),
        on[z],
        index[z] == low,
        r(g, v, z),
    ensures
        low_witnessed(g, on, index, low, v),
{
    reveal(low_witnessed);
    assert(on[z]);
}

proof fn lemma_low_place(g: GraphView, st: Search, v: int) -> (z: int)
    requires
        low_witnessed(g, st.on, st.index, st.low[v], v),
    ensures
        0 <= z < g.nodes@.len(),
        st.on[z],
        st.index[z] == st.low[v],
        r(g, v, z),
{
    reveal(low_witnessed);
    choose|z: int| 0 <= z < g.nodes@.len() && (#[trigger] st.on[z]) && st.index[z] == st.low[v] && r(g, v, z)
}

spec fn shape(g: GraphView, st: Search) -> bool {
    let n = g.nodes@.len() as int;
    &&& st.index.len() == n
    &&& st.low.len() == n
    &&& st.on.len() == n
    &&& st.comp.len() == n
    &&& st.disc.len() <= n
    &&& 0 <= st.num
    &&& st.num + st.stack.len() <= st.disc.len()
    &&& disc_ok(g.nodes@.len(), st.disc, st.index)
    &&& forall|x: int| 0 <= x < n && (#[trigger] st.index[x]) != UNVISITED ==> st.index[x] < st.disc.len()
    &&& forall|i: int| 0 <= i < st.stack.len() ==> (#[trigger] st.stack[i]) < n && st.on[st.stack[i] as int]
    &&& forall|i: int, j: int| 0 <= i < j < st.stack.len() ==> st.index[(#[trigger] st.stack[i]) as int] < st.index[(#[trigger] st.stack[j]) as int]
    &&& forall|x: int| 0 <= x < n && (#[trigger] st.on[x]) ==> stacked(st.stack, x) && st.index[x] != UNVISITED && st.comp[x] == UNVISITED
    &&& forall|x: int| 0 <= x < n && !(#[trigger] st.on[x]) ==> (st.index[x] != UNVISITED <==> st.comp[x] != UNVISITED)
    &&& forall|x: int| 0 <= x < n && (#[trigger] st.comp[x]) != UNVISITED ==> st.comp[x] < st.num
    &&& forall|k: int| 0 <= k < st.work.len() ==> {
        let v = (#[trigger] st.work[k]).0 as int;
        &&& v < n
        &&& st.on[v]
        &&& g.out_ptr@[v] <= st.work[k].1 <= g.out_ptr@[v + 1]
    }
    &&& forall|k: int, l: int| 0 <= k < l < st.work.len() ==> st.index[(#[trigger] st.work[k]).0 as int] < st.index[(#[trigger] st.work[l]).0 as int]
}

/// Followed edges lead to discovered nodes, and finished components are closed:
/// their edges lead to components finished no later.
spec fn edges_ok(g: GraphView, st: Search) -> bool {
    &&& forall|x: int, j: int| 0 <= x < g.nodes@.len() && st.on[x] && #[trigger] explored(g, st, x, j) ==> st.index[g.out_adj@[j] as int] != UNVISITED
    &&& forall|x: int, y: int| #[trigger] g.dense_edge(x, y) && st.comp[x] != UNVISITED ==> st.comp[y] != UNVISITED && st.comp[y] <= st.comp[x]
}

/// The low link of an open node is the place of a stacked node that it reaches,
/// and bounds the places that the edges of the nodes it owns lead to.
spec fn low_ok(g: GraphView, st: Search) -> bool {
    &&& forall|k: int| 0 <= k < st.work.len() ==> {
        let v = (#[trigger] st.work[k]).0 as int;
        &&& st.low[v] <= st.index[v]
        &&& low_witnessed(g, st.on, st.index, st.low[v], v)
    }
    &&& forall|x: int, k: int, j: int| 0 <= x < g.nodes@.len() && st.on[x] && #[trigger] owner(st, x, k) && #[trigger] explored(g, st, x, j) && st.on[g.out_adj@[j] as int]
        ==> st.index[g.out_adj@[j] as int] >= st.low[st.work[k].0 as int]
}

/// A stacked node reaches an open node no later than itself, and is reached by
/// every open node no later than itself.
spec fn reach_ok(g: GraphView, st: Search) -> bool {
    &&& forall|x: int| 0 <= x < g.nodes@.len() && (#[trigger] st.on[x]) ==> reaches_open(g, st.work, st.index, x)
    &&& forall|x: int, k: int| 0 <= x < g.nodes@.len() && (#[trigger] st.on[x]) && 0 <= k < st.work.len() && st.index[(#[trigger] st.work[k]).0 as int] <= st.index[x] ==> r(g, st.work[k].0 as int, x)
}

/// Finished components are the classes of mutual reachability.
spec fn result_ok(g: GraphView, st: Search) -> bool {
    &&& forall|x: int, y: int| 0 <= x < g.nodes@.len() && 0 <= y < g.nodes@.len() && (#[trigger] st.comp[x]) != UNVISITED && (#[trigger] st.comp[y]) != UNVISITED
        ==> (st.comp[x] == st.comp[y] <==> r(g, x, y) && r(g, y, x))
    &&& forall|c: int| 0 <= c < st.num ==> #[trigger] used(st.comp, c)
}

spec fn used(comp: Seq<usize>, c: int) -> bool {
    exists|x: int| 0 <= x < comp.len() && (#[trigger] comp[x]) == c
}

spec fn inv(g: GraphView, st: Search) -> bool {
    &&& g.wf()
    &&& shape(g, st)
    &&& edges_ok(g, st)
    &&& low_ok(g, st)
    &&& reach_ok(g, st)
    &&& result_ok(g, st)
}

/// Edges left to follow on the open nodes, plus the open nodes themselves.
spec fn left(ptr: Seq<usize>, work: Seq<(usize, usize)>) -> int
    decreases work.len(),
{
    if work.len() == 0 {
        0
    } else {
        let (v, c) = work[work.len() - 1];
        left(ptr, work.drop_last()) + (ptr[v + 1] - c) + 1
    }
}

proof fn lemma_left_nonneg(ptr: Seq<usize>, work: Seq<(usize, usize)>)
    requires
        forall|k: int| 0 <= k < work.len() ==> (#[trigger] work[k]).1 <= ptr[work[k].0 + 1],
    ensures
        left(ptr, work) >= 0,
    decreases work.len(),
{
    if work.len() > 0 {
        assert forall|k: int| 0 <= k < work.drop_last().len() implies (#[trigger] work.drop_last()[k]).1 <= ptr[work.drop_last()[k].0 + 1] by {
            assert(work[k].1 <= ptr[work[k].0 + 1]);
        }
        lemma_left_nonneg(ptr, work.drop_last());
        assert(work[work.len() - 1].1 <= ptr[work[work.len() - 1].0 + 1]);
    }
}

/// The state after opening node `w`, reached from the last open node, or from
/// nowhere if none is open.
spec fn opened(g: GraphView, st: Search, w: int) -> Search {
    let d = st.disc.len() as usize;
    let last = st.work.len() - 1;
    Search {
        index: st.index.update(w, d),
        low: st.low.update(w, d),
        on: st.on.update(w, true),
        comp: st.comp,
        stack: st.stack.push(w as usize),
        work: (if st.work.len() == 0 {
            st.work
        } else {
            st.work.update(last, (st.work[last].0, (st.work[last].1 + 1) as usize))
        }).push((w as usize, g.out_ptr@[w])),
        disc: st.disc.push(w as usize),
        num: st.num,
    }
}

/// The last open node has no edge left and is the root of its component.
spec fn at_root(g: GraphView, st: Search) -> bool {
    &&& st.work.len() > 0
    &&& {
        let (v, c) = st.work[st.work.len() - 1];
        &&& c == g.out_ptr@[v + 1]
        &&& st.low[v as int] == st.index[v as int]
    }
}

/// Index `x` belongs to the component that the last open node is the root of.
spec fn member(st: Search, x: int) -> bool {
    &&& 0 <= x < st.on.len()
    &&& st.on[x]
    &&& st.index[x] >= st.index[st.work[st.work.len() - 1].0 as int]
}

/// The state after the component of the last open node is finished; `at` is the
/// place of that node on the stack.
spec fn finished(st: Search, s2: Search, at: int) -> bool {
    &&& 0 <= at < st.stack.len()
    &&& st.stack[at] == st.work[st.work.len() - 1].0
    &&& st.num < UNVISITED
    &&& s2.index == st.index
    &&& s2.low == st.low
    &&& s2.disc == st.disc
    &&& s2.num == st.num + 1
    &&& s2.work == st.work.drop_last()
    &&& s2.stack == st.stack.subrange(0, at)
    &&& s2.on.len() == st.on.len()
    &&& s2.comp.len() == st.comp.len()
    &&& forall|x: int| 0 <= x < st.on.len() ==> {
        &&& (#[trigger] s2.on[x]) == (st.on[x] && !member(st, x))
        &&& s2.comp[x] == (if member(st, x) { st.num as usize } else { st.comp[x] })
    }
}

impl GraphView {
    proof fn lemma_position_edge(&self, x: int, j: int)
        requires
            self.wf(),
            0 <= x < self.nodes@.len(),
            self.out_ptr@[x] <= j < self.out_ptr@[x + 1],
        ensures
            self.out_adj@[j] < self.nodes@.len(),
            self.dense_edge(x, self.out_adj@[j] as int),
            self@.edges.contains((self.nodes@[x], self.nodes@[self.out_adj@[j] as int])),
            r(*self, x, self.out_adj@[j] as int),
            j < self.out_adj@.len(),
    {
        let n = self.nodes@.len() as int;
        assert(csr_wf(n, self.out_ptr@, self.out_adj@));
        assert(self.out_ptr@[x + 1] <= self.out_ptr@[n]);
        let y = self.out_adj@[j] as int;
        assert(row_at(self.out_ptr@, self.out_adj@, x, j) == y);
        assert(csr_edge(self.out_ptr@, self.out_adj@, x, y));
        self.lemma_edge(x, y);
        lemma_reaches_edge(self@.edges, self.nodes@[x], self.nodes@[y]);
        reveal(r);
    }

    /// Room for one more discovery.
    proof fn lemma_undiscovered(&self, st: Search, w: int)
        requires
            shape(*self, st),
            0 <= w < self.nodes@.len(),
            st.index[w] == UNVISITED,
            self.nodes@.len() < usize::MAX,
        ensures
            st.disc.len() < self.nodes@.len(),
    {
        reveal(disc_ok);
        let d2 = st.disc.push(w as usize);
        assert forall|i: int, j: int| 0 <= i < d2.len() && 0 <= j < d2.len() && i != j implies d2[i] != d2[j] by {
            if i < st.disc.len() {
                assert(st.index[st.disc[i] as int] == i);
            }
            if j < st.disc.len() {
                assert(st.index[st.disc[j] as int] == j);
            }
        }
        assert forall|i: int| 0 <= i < d2.len() implies #[trigger] d2[i] < self.nodes@.len() by {
            if i < st.disc.len() {
                assert(st.disc[i] < self.nodes@.len());
            }
        }
        lemma_distinct_below(d2, self.nodes@.len());
    }

    #[verifier::rlimit(30)]
    #[verifier::spinoff_prover]
    proof fn lemma_open(&self, st: Search, w: int)
        requires
            inv(*self, st),
            0 <= w < self.nodes@.len(),
            st.index[w] == UNVISITED,
            st.work.len() > 0 ==> {
                let (v, c) = st.work[st.work.len() - 1];
                c < self.out_ptr@[v + 1] && self.out_adj@[c as int] == w
            },
        ensures
            inv(*self, opened(*self, st, w)),
            st.disc.len() < self.nodes@.len(),
    {
        let g = *self;
        let n = self.nodes@.len() as int;
        let s2 = opened(g, st, w);
        self.lemma_undiscovered(st, w);
        assert(csr_wf(n, self.out_ptr@, self.out_adj@));
        assert(self.out_ptr@[w] <= self.out_ptr@[w + 1]);
        assert(!st.on[w]);
        let last = st.work.len() - 1;
        assert forall|k: int| 0 <= k < st.work.len() implies (#[trigger] s2.work[k]).0 == st.work[k].0 && (k < last ==> s2.work[k] == st.work[k]) by {
        }
        assert(s2.work[st.work.len() as int] == (w as usize, self.out_ptr@[w]));
        assert forall|x: int| 0 <= x < n && x != w implies #[trigger] s2.index[x] == st.index[x] && s2.on[x] == st.on[x] by {
        }
        assert forall|k: int| 0 <= k < st.work.len() implies (#[trigger] st.work[k]).0 != w && st.index[st.work[k].0 as int] < st.disc.len() by {
            assert(st.on[st.work[k].0 as int]);
        }
        assert forall|i: int| 0 <= i < st.stack.len() implies (#[trigger] st.stack[i]) != w && st.index[st.stack[i] as int] < st.disc.len() by {
            assert(st.on[st.stack[i] as int]);
        }
        assert(shape(g, s2)) by {
            assert forall|x: int| 0 <= x < n && (#[trigger] s2.on[x]) implies stacked(s2.stack, x) && s2.index[x] != UNVISITED && s2.comp[x] == UNVISITED by {
                reveal(stacked);
                if x == w {
                    assert(s2.stack[st.stack.len() as int] == w as usize);
                } else {
                    assert(st.on[x]);
                    reveal(stacked);
            let i = lemma_stack_place(st, x);
                    assert(s2.stack[i] == x as usize);
                }
            }
            assert forall|k: int| 0 <= k < s2.work.len() implies {
                let v = (#[trigger] s2.work[k]).0 as int;
                &&& v < n
                &&& s2.on[v]
                &&& g.out_ptr@[v] <= s2.work[k].1 <= g.out_ptr@[v + 1]
            } by {
                if k < st.work.len() {
                    assert(st.on[st.work[k].0 as int]);
                }
            }
            assert forall|k: int, l: int| 0 <= k < l < s2.work.len() implies s2.index[(#[trigger] s2.work[k]).0 as int] < s2.index[(#[trigger] s2.work[l]).0 as int] by {
                assert(st.work[k].0 != w);
                if l < st.work.len() {
                    assert(st.work[l].0 != w);
                }
            }
            assert forall|i: int, j: int| 0 <= i < j < s2.stack.len() implies s2.index[(#[trigger] s2.stack[i]) as int] < s2.index[(#[trigger] s2.stack[j]) as int] by {
                assert(st.stack[i] != w);
                if j < st.stack.len() {
                    assert(st.stack[j] != w);
                }
            }
            assert(disc_ok(g.nodes@.len(), s2.disc, s2.index)) by {
                reveal(disc_ok);
                assert forall|i: int| 0 <= i < s2.disc.len() implies (#[trigger] s2.disc[i]) < n && s2.index[s2.disc[i] as int] == i by {
                    if i < st.disc.len() {
                        assert(st.index[st.disc[i] as int] == i);
                    }
                }
            }
        }
        // An edge that is followed now was followed before, unless it is the one to `w`.
        assert forall|x: int, j: int| 0 <= x < n && #[trigger] explored(g, s2, x, j) implies x != w && (explored(g, st, x, j) || (last >= 0 && x == st.work[last].0 && j == st.work[last].1)) by {
            if x == w {
                assert(s2.work[st.work.len() as int].0 == w);
            } else if !explored(g, st, x, j) {
                let k = choose|k: int| 0 <= k < st.work.len() && (#[trigger] st.work[k]).0 == x && j >= st.work[k].1;
                assert(s2.work[k].0 == x);
                assert(k == last);
            }
        }
        assert(edges_ok(g, s2)) by {
            assert forall|x: int, j: int| 0 <= x < n && s2.on[x] && #[trigger] explored(g, s2, x, j) implies s2.index[g.out_adj@[j] as int] != UNVISITED by {
                self.lemma_position_edge(x, j);
                if explored(g, st, x, j) {
                    assert(st.on[x]);
                }
            }
        }
        assert(low_ok(g, s2)) by {
            assert forall|k: int| 0 <= k < s2.work.len() implies {
                let v = (#[trigger] s2.work[k]).0 as int;
                &&& s2.low[v] <= s2.index[v]
                &&& low_witnessed(g, s2.on, s2.index, s2.low[v], v)
            } by {
                let v = s2.work[k].0 as int;
                if k < st.work.len() {
                    assert(st.work[k].0 == v);
                    let z = lemma_low_place(g, st, v);
                    assert(s2.on[z]);
                    lemma_low_witnessed(g, s2.on, s2.index, s2.low[v], v, z);
                } else {
                    lemma_r_self(g, w);
                    lemma_low_witnessed(g, s2.on, s2.index, s2.low[v], v, w);
                }
            }
            assert forall|x: int, k: int, j: int| 0 <= x < n && s2.on[x] && #[trigger] owner(s2, x, k) && #[trigger] explored(g, s2, x, j) && s2.on[g.out_adj@[j] as int]
                implies s2.index[g.out_adj@[j] as int] >= s2.low[s2.work[k].0 as int] by {
                self.lemma_position_edge(x, j);
                let y = g.out_adj@[j] as int;
                assert(st.on[x]);
                assert(k < st.work.len()) by {
                    if k == st.work.len() {
                        assert(st.index[x] < st.disc.len());
                    }
                }
                assert(st.work[k].0 != w);
                assert(owner(st, x, k)) by {
                    if k + 1 < st.work.len() {
                        assert(s2.work[k + 1].0 == st.work[k + 1].0);
                        assert(st.work[k + 1].0 != w);
                    }
                }
                if y == w {
                    assert(st.low[st.work[k].0 as int] <= st.index[st.work[k].0 as int]);
                } else {
                    assert(explored(g, st, x, j));
                }
            }
        }
        assert(reach_ok(g, s2)) by {
            assert forall|x: int| 0 <= x < n && (#[trigger] s2.on[x]) implies reaches_open(g, s2.work, s2.index, x) by {
                if x == w {
                    lemma_r_self(g, w);
                    lemma_reaches_open(g, s2.work, s2.index, w, st.work.len() as int);
                } else {
                    assert(st.on[x]);
                    let k = lemma_open_place(g, st, x);
                    assert(s2.work[k].0 == st.work[k].0);
                    lemma_reaches_open(g, s2.work, s2.index, x, k);
                }
            }
            assert forall|x: int, k: int| 0 <= x < n && (#[trigger] s2.on[x]) && 0 <= k < s2.work.len() && s2.index[(#[trigger] s2.work[k]).0 as int] <= s2.index[x] implies r(g, s2.work[k].0 as int, x) by {
                if k == st.work.len() {
                    if x != w {
                        assert(st.on[x]);
                        assert(st.index[x] < st.disc.len());
                    }
                    lemma_r_self(g, w);
                } else {
                    let a = st.work[k].0 as int;
                    assert(a != w);
                    if x == w {
                        let (v, c) = st.work[last];
                        assert(st.on[v as int]);
                        assert(st.index[a] <= st.index[v as int]);
                        assert(r(g, a, v as int));
                        self.lemma_position_edge(v as int, c as int);
                        lemma_r_trans(g, a, v as int, w);
                    } else {
                        assert(st.on[x]);
                    }
                }
            }
        }
        assert(result_ok(g, s2));
    }

    /// Following an edge to a node discovered before.
    #[verifier::rlimit(30)]
    #[verifier::spinoff_prover]
    proof fn lemma_follow(&self, st: Search, s2: Search)
        requires
            inv(*self, st),
            st.work.len() > 0,
            ({
                let last = st.work.len() - 1;
                let (v, c) = st.work[last];
                let w = self.out_adj@[c as int] as int;
                &&& c < self.out_ptr@[v + 1]
                &&& st.index[w] != UNVISITED
                &&& s2 == (Search {
                    work: st.work.update(last, (v, (c + 1) as usize)),
                    low: (if st.on[w] && st.index[w] < st.low[v as int] { st.low.update(v as int, st.index[w]) } else { st.low }),
                    ..st
                })
            }),
        ensures
            inv(*self, s2),
    {
        let g = *self;
        let n = self.nodes@.len() as int;
        let last = st.work.len() - 1;
        let (v, c) = st.work[last];
        let w = self.out_adj@[c as int] as int;
        self.lemma_position_edge(v as int, c as int);
        assert forall|k: int| 0 <= k < st.work.len() implies (#[trigger] s2.work[k]).0 == st.work[k].0 && (k < last ==> s2.work[k] == st.work[k]) by {
        }
        assert forall|k: int| 0 <= k < last implies (#[trigger] st.work[k]).0 != v by {
            assert(st.index[st.work[k].0 as int] < st.index[st.work[last].0 as int]);
        }
        assert forall|x: int, k: int| #[trigger] owner(s2, x, k) implies owner(st, x, k) by {
            assert(s2.work[k].0 == st.work[k].0);
            if k + 1 < st.work.len() {
                assert(s2.work[k + 1].0 == st.work[k + 1].0);
            }
        }
        assert forall|x: int, j: int| 0 <= x < n && #[trigger] explored(g, s2, x, j) implies explored(g, st, x, j) || (x == v && j == c) by {
            if !explored(g, st, x, j) {
                let k = choose|k: int| 0 <= k < st.work.len() && (#[trigger] st.work[k]).0 == x && j >= st.work[k].1;
                assert(s2.work[k].0 == x);
                assert(k == last);
            }
        }
        assert(shape(g, s2)) by {
            assert forall|k: int| 0 <= k < s2.work.len() implies {
                let a = (#[trigger] s2.work[k]).0 as int;
                &&& a < n
                &&& s2.on[a]
                &&& g.out_ptr@[a] <= s2.work[k].1 <= g.out_ptr@[a + 1]
            } by {
                assert(st.on[st.work[k].0 as int]);
            }
            assert forall|k: int, l: int| 0 <= k < l < s2.work.len() implies s2.index[(#[trigger] s2.work[k]).0 as int] < s2.index[(#[trigger] s2.work[l]).0 as int] by {
                assert(st.index[st.work[k].0 as int] < st.index[st.work[l].0 as int]);
            }
        }
        assert(edges_ok(g, s2));
        assert(low_ok(g, s2)) by {
            assert forall|k: int| 0 <= k < s2.work.len() implies {
                let a = (#[trigger] s2.work[k]).0 as int;
                &&& s2.low[a] <= s2.index[a]
                &&& low_witnessed(g, s2.on, s2.index, s2.low[a], a)
            } by {
                let a = st.work[k].0 as int;
                let z = lemma_low_place(g, st, a);
                if k == last && s2.low[a] != st.low[a] {
                    lemma_low_witnessed(g, s2.on, s2.index, s2.low[a], a, w);
                } else {
                    lemma_low_witnessed(g, s2.on, s2.index, s2.low[a], a, z);
                }
            }
            assert forall|x: int, k: int, j: int| 0 <= x < n && s2.on[x] && #[trigger] owner(s2, x, k) && #[trigger] explored(g, s2, x, j) && s2.on[g.out_adj@[j] as int]
                implies s2.index[g.out_adj@[j] as int] >= s2.low[s2.work[k].0 as int] by {
                assert(owner(st, x, k));
                assert(s2.work[k].0 == st.work[k].0);
                if explored(g, st, x, j) {
                } else {
                    assert(x == v && j == c);
                    assert(k == last) by {
                        if k < last {
                            assert(st.index[x] < st.index[st.work[k + 1].0 as int]);
                            if k + 1 < last {
                                assert(st.index[st.work[k + 1].0 as int] < st.index[st.work[last].0 as int]);
                            }
                        }
                    }
                }
            }
        }
        assert(reach_ok(g, s2)) by {
            assert forall|x: int| 0 <= x < n && (#[trigger] s2.on[x]) implies reaches_open(g, s2.work, s2.index, x) by {
                assert(st.on[x]);
                let k = lemma_open_place(g, st, x);
                assert(s2.work[k].0 == st.work[k].0);
                lemma_reaches_open(g, s2.work, s2.index, x, k);
            }
            assert forall|x: int, k: int| 0 <= x < n && (#[trigger] s2.on[x]) && 0 <= k < s2.work.len() && s2.index[(#[trigger] s2.work[k]).0 as int] <= s2.index[x] implies r(g, s2.work[k].0 as int, x) by {
                assert(st.on[x]);
                assert(st.work[k].0 == s2.work[k].0);
            }
        }
    }

    /// Closing the last open node, which is not the root of its component.
    #[verifier::rlimit(30)]
    #[verifier::spinoff_prover]
    proof fn lemma_close(&self, st: Search, s2: Search)
        requires
            inv(*self, st),
            st.work.len() > 0,
            ({
                let last = st.work.len() - 1;
                let (v, c) = st.work[last];
                let p = st.work[last - 1].0 as int;
                &&& c == self.out_ptr@[v + 1]
                &&& st.low[v as int] < st.index[v as int]
                &&& s2 == (Search {
                    work: st.work.drop_last(),
                    low: (if last > 0 && st.low[v as int] < st.low[p] { st.low.update(p, st.low[v as int]) } else { st.low }),
                    ..st
                })
            }),
        ensures
            inv(*self, s2),
            st.work.len() > 1,
    {
        let g = *self;
        let n = self.nodes@.len() as int;
        let last = st.work.len() - 1;
        let (v, c) = st.work[last];
        let vi = v as int;
        assert(st.on[vi]);
                let zv = lemma_low_place(g, st, vi);
        assert(st.on[zv]);
        let kz = lemma_open_place(g, st, zv);
        assert(kz < last);
        let p = st.work[last - 1].0 as int;
        assert(st.on[p]);
        assert forall|k: int| 0 <= k < last implies #[trigger] s2.work[k] == st.work[k] && st.work[k].0 != v by {
            assert(st.index[st.work[k].0 as int] < st.index[st.work[last].0 as int]);
        }
        assert forall|x: int, j: int| 0 <= x < n && #[trigger] explored(g, s2, x, j) implies explored(g, st, x, j) by {
            assert forall|k: int| 0 <= k < st.work.len() && (#[trigger] st.work[k]).0 == x implies j < st.work[k].1 by {
                if k < last {
                    assert(s2.work[k] == st.work[k]);
                }
            }
        }
        assert(shape(g, s2)) by {
            assert forall|k: int| 0 <= k < s2.work.len() implies {
                let a = (#[trigger] s2.work[k]).0 as int;
                &&& a < n
                &&& s2.on[a]
                &&& g.out_ptr@[a] <= s2.work[k].1 <= g.out_ptr@[a + 1]
            } by {
                assert(st.on[st.work[k].0 as int]);
            }
            assert forall|k: int, l: int| 0 <= k < l < s2.work.len() implies s2.index[(#[trigger] s2.work[k]).0 as int] < s2.index[(#[trigger] s2.work[l]).0 as int] by {
                assert(st.index[st.work[k].0 as int] < st.index[st.work[l].0 as int]);
            }
        }
        assert(edges_ok(g, s2));
        assert(low_ok(g, s2)) by {
            assert forall|k: int| 0 <= k < s2.work.len() implies {
                let a = (#[trigger] s2.work[k]).0 as int;
                &&& s2.low[a] <= s2.index[a]
                &&& low_witnessed(g, s2.on, s2.index, s2.low[a], a)
            } by {
                let a = st.work[k].0 as int;
                assert(s2.work[k] == st.work[k]);
                let z = lemma_low_place(g, st, a);
                if s2.low[a] != st.low[a] {
                    assert(a == p);
                    assert(st.index[p] < st.index[vi]);
                    assert(r(g, st.work[last - 1].0 as int, vi));
                    lemma_r_trans(g, p, vi, zv);
                    lemma_low_witnessed(g, s2.on, s2.index, s2.low[a], a, zv);
                } else {
                    lemma_low_witnessed(g, s2.on, s2.index, s2.low[a], a, z);
                }
            }
            assert forall|x: int, k: int, j: int| 0 <= x < n && s2.on[x] && #[trigger] owner(s2, x, k) && #[trigger] explored(g, s2, x, j) && s2.on[g.out_adj@[j] as int]
                implies s2.index[g.out_adj@[j] as int] >= s2.low[s2.work[k].0 as int] by {
                assert(s2.work[k] == st.work[k]);
                assert(explored(g, st, x, j));
                if k < last - 1 {
                    assert(s2.work[k + 1] == st.work[k + 1]);
                    assert(owner(st, x, k));
                } else if st.index[x] < st.index[vi] {
                    assert(owner(st, x, last - 1));
                } else {
                    assert(owner(st, x, last));
                }
            }
        }
        assert(reach_ok(g, s2)) by {
            assert forall|x: int| 0 <= x < n && (#[trigger] s2.on[x]) implies reaches_open(g, s2.work, s2.index, x) by {
                assert(st.on[x]);
                let k = lemma_open_place(g, st, x);
                if k < last {
                    assert(s2.work[k] == st.work[k]);
                    lemma_reaches_open(g, s2.work, s2.index, x, k);
                } else {
                    let y = st.work[kz].0 as int;
                    lemma_r_trans(g, x, vi, zv);
                    lemma_r_trans(g, x, zv, y);
                    assert(s2.work[kz] == st.work[kz]);
                    lemma_reaches_open(g, s2.work, s2.index, x, kz);
                }
            }
            assert forall|x: int, k: int| 0 <= x < n && (#[trigger] s2.on[x]) && 0 <= k < s2.work.len() && s2.index[(#[trigger] s2.work[k]).0 as int] <= s2.index[x] implies r(g, s2.work[k].0 as int, x) by {
                assert(st.on[x]);
                assert(st.work[k] == s2.work[k]);
            }
        }
    }

    /// Every edge of a member has been followed, and stays among the members
    /// and the finished components.
    #[verifier::spinoff_prover]
    proof fn lemma_members_closed(&self, st: Search, x: int, y: int)
        requires
            inv(*self, st),
            at_root(*self, st),
            member(st, x),
            self.dense_edge(x, y),
        ensures
            member(st, y) || (0 <= y < self.nodes@.len() && st.comp[y] != UNVISITED),
    {
        let g = *self;
        let last = st.work.len() - 1;
        let vi = st.work[last].0 as int;
        let j = choose|j: int| g.out_ptr@[x] <= j < g.out_ptr@[x + 1] && #[trigger] row_at(g.out_ptr@, g.out_adj@, x, j) == y;
        assert(explored(g, st, x, j)) by {
            assert forall|k: int| 0 <= k < st.work.len() && (#[trigger] st.work[k]).0 == x implies j < st.work[k].1 by {
                if k < last {
                    assert(st.index[st.work[k].0 as int] < st.index[st.work[last].0 as int]);
                }
            }
        }
        self.lemma_position_edge(x, j);
        assert(st.on[x]);
        assert(st.index[g.out_adj@[j] as int] != UNVISITED);
        assert(owner(st, x, last));
        if st.on[y] {
            assert(st.on[g.out_adj@[j] as int]);
            assert(st.index[y] >= st.low[vi]);
        } else {
            assert(!st.on[y]);
        }
    }

    #[verifier::rlimit(30)]
    #[verifier::spinoff_prover]
    proof fn lemma_finish_shape(&self, st: Search, s2: Search, at: int)
        requires
            inv(*self, st),
            at_root(*self, st),
            finished(st, s2, at),
        ensures
            shape(*self, s2),
    {
        let g = *self;
        let n = self.nodes@.len() as int;
        let last = st.work.len() - 1;
        let vi = st.work[last].0 as int;
        assert(st.on[vi]);
        assert forall|i: int| 0 <= i < s2.stack.len() implies (#[trigger] s2.stack[i]) < n && s2.on[s2.stack[i] as int] by {
            assert(st.index[st.stack[i] as int] < st.index[st.stack[at] as int]);
            assert(st.on[st.stack[i] as int]);
        }
        assert forall|i: int, j: int| 0 <= i < j < s2.stack.len() implies s2.index[(#[trigger] s2.stack[i]) as int] < s2.index[(#[trigger] s2.stack[j]) as int] by {
            assert(st.index[st.stack[i] as int] < st.index[st.stack[j] as int]);
        }
        assert forall|x: int| 0 <= x < n && (#[trigger] s2.on[x]) implies stacked(s2.stack, x) && s2.index[x] != UNVISITED && s2.comp[x] == UNVISITED by {
            assert(st.on[x]);
            reveal(stacked);
            let i = lemma_stack_place(st, x);
            if i > at {
                assert(st.index[st.stack[at] as int] < st.index[st.stack[i] as int]);
            }
            assert(s2.stack[i] == x as usize);
        }
        assert forall|k: int| 0 <= k < s2.work.len() implies {
            let a = (#[trigger] s2.work[k]).0 as int;
            &&& a < n
            &&& s2.on[a]
            &&& g.out_ptr@[a] <= s2.work[k].1 <= g.out_ptr@[a + 1]
        } by {
            assert(st.index[st.work[k].0 as int] < st.index[st.work[last].0 as int]);
            assert(st.on[st.work[k].0 as int]);
            assert(st.work[k] == s2.work[k]);
        }
        assert forall|k: int, l: int| 0 <= k < l < s2.work.len() implies s2.index[(#[trigger] s2.work[k]).0 as int] < s2.index[(#[trigger] s2.work[l]).0 as int] by {
            assert(st.index[st.work[k].0 as int] < st.index[st.work[l].0 as int]);
        }
        assert forall|x: int| 0 <= x < n && !(#[trigger] s2.on[x]) implies (s2.index[x] != UNVISITED <==> s2.comp[x] != UNVISITED) by {
            if st.on[x] {
            } else {
                assert(!st.on[x]);
            }
        }
        assert forall|x: int| 0 <= x < n && (#[trigger] s2.comp[x]) != UNVISITED implies s2.comp[x] < s2.num by {
            assert(s2.on[x] == (st.on[x] && !member(st, x)));
            if !member(st, x) {
                assert(st.comp[x] != UNVISITED);
            }
        }
    }

    #[verifier::rlimit(30)]
    #[verifier::spinoff_prover]
    proof fn lemma_finish_edges(&self, st: Search, s2: Search, at: int)
        requires
            inv(*self, st),
            at_root(*self, st),
            finished(st, s2, at),
        ensures
            edges_ok(*self, s2),
            forall|x: int, j: int| 0 <= x < self.nodes@.len() && s2.on[x] && #[trigger] explored(*self, s2, x, j) ==> explored(*self, st, x, j),
    {
        let g = *self;
        let n = self.nodes@.len() as int;
        let last = st.work.len() - 1;
        let vi = st.work[last].0 as int;
        assert(st.on[vi]);
        assert forall|x: int, j: int| 0 <= x < n && s2.on[x] && #[trigger] explored(g, s2, x, j) implies explored(g, st, x, j) by {
            assert(st.on[x] && !member(st, x));
            assert forall|k: int| 0 <= k < st.work.len() && (#[trigger] st.work[k]).0 == x implies j < st.work[k].1 by {
                if k < last {
                    assert(s2.work[k] == st.work[k]);
                }
            }
        }
        assert forall|x: int, j: int| 0 <= x < n && s2.on[x] && #[trigger] explored(g, s2, x, j) implies s2.index[g.out_adj@[j] as int] != UNVISITED by {
            assert(explored(g, st, x, j));
            assert(st.on[x]);
        }
        assert forall|x: int, y: int| #[trigger] g.dense_edge(x, y) && s2.comp[x] != UNVISITED implies s2.comp[y] != UNVISITED && s2.comp[y] <= s2.comp[x] by {
            assert(s2.on[x] == (st.on[x] && !member(st, x)));
            assert(s2.on[y] == (st.on[y] && !member(st, y)));
            if member(st, x) {
                self.lemma_members_closed(st, x, y);
                if !member(st, y) {
                    assert(st.comp[y] < st.num);
                }
            } else {
                assert(st.comp[x] != UNVISITED);
                assert(st.comp[y] != UNVISITED);
                assert(!member(st, y));
            }
        }
    }

    #[verifier::rlimit(30)]
    #[verifier::spinoff_prover]
    proof fn lemma_finish_low(&self, st: Search, s2: Search, at: int)
        requires
            inv(*self, st),
            at_root(*self, st),
            finished(st, s2, at),
            forall|x: int, j: int| 0 <= x < self.nodes@.len() && s2.on[x] && #[trigger] explored(*self, s2, x, j) ==> explored(*self, st, x, j),
        ensures
            low_ok(*self, s2),
    {
        let g = *self;
        let n = self.nodes@.len() as int;
        let last = st.work.len() - 1;
        let vi = st.work[last].0 as int;
        assert(st.on[vi]);
        assert forall|k: int| 0 <= k < last implies #[trigger] s2.work[k] == st.work[k] && st.index[st.work[k].0 as int] < st.index[vi] by {
            assert(st.index[st.work[k].0 as int] < st.index[st.work[last].0 as int]);
        }
        assert forall|k: int| 0 <= k < s2.work.len() implies {
            let a = (#[trigger] s2.work[k]).0 as int;
            &&& s2.low[a] <= s2.index[a]
            &&& low_witnessed(g, s2.on, s2.index, s2.low[a], a)
        } by {
            let a = st.work[k].0 as int;
            assert(s2.work[k] == st.work[k]);
                let z = lemma_low_place(g, st, a);
            assert(s2.on[z]);
            lemma_low_witnessed(g, s2.on, s2.index, s2.low[a], a, z);
        }
        assert forall|x: int, k: int, j: int| 0 <= x < n && s2.on[x] && #[trigger] owner(s2, x, k) && #[trigger] explored(g, s2, x, j) && s2.on[g.out_adj@[j] as int]
            implies s2.index[g.out_adj@[j] as int] >= s2.low[s2.work[k].0 as int] by {
            assert(s2.work[k] == st.work[k]);
            assert(explored(g, st, x, j));
            self.lemma_position_edge(x, j);
            assert(st.on[x]);
            assert(st.on[g.out_adj@[j] as int]);
            assert(owner(st, x, k)) by {
                if k + 1 < last {
                    assert(s2.work[k + 1] == st.work[k + 1]);
                }
            }
        }
    }

    #[verifier::rlimit(30)]
    #[verifier::spinoff_prover]
    proof fn lemma_finish_reach(&self, st: Search, s2: Search, at: int)
        requires
            inv(*self, st),
            at_root(*self, st),
            finished(st, s2, at),
        ensures
            reach_ok(*self, s2),
    {
        let g = *self;
        let n = self.nodes@.len() as int;
        let last = st.work.len() - 1;
        let vi = st.work[last].0 as int;
        assert(st.on[vi]);
        assert forall|x: int| 0 <= x < n && (#[trigger] s2.on[x]) implies reaches_open(g, s2.work, s2.index, x) by {
            assert(st.on[x]);
            let k = lemma_open_place(g, st, x);
            assert(k < last) by {
                assert(st.index[x] < st.index[vi]);
            }
            assert(s2.work[k] == st.work[k]);
            lemma_reaches_open(g, s2.work, s2.index, x, k);
        }
        assert forall|x: int, k: int| 0 <= x < n && (#[trigger] s2.on[x]) && 0 <= k < s2.work.len() && s2.index[(#[trigger] s2.work[k]).0 as int] <= s2.index[x] implies r(g, s2.work[k].0 as int, x) by {
            assert(st.on[x]);
            assert(st.work[k] == s2.work[k]);
        }
    }

    /// A member and the root reach each other.
    #[verifier::spinoff_prover]
    proof fn lemma_member_root(&self, st: Search, x: int)
        requires
            inv(*self, st),
            at_root(*self, st),
            member(st, x),
        ensures
            r(*self, st.work[st.work.len() - 1].0 as int, x),
            r(*self, x, st.work[st.work.len() - 1].0 as int),
    {
        let g = *self;
        let n = self.nodes@.len() as int;
        let last = st.work.len() - 1;
        let vi = st.work[last].0 as int;
        assert(st.on[x]);
        assert(st.index[st.work[last].0 as int] <= st.index[x]);
        let k = lemma_open_place(g, st, x);
        let y = st.work[k].0 as int;
        assert(st.on[y]);
        let s = Set::new(|z: int| member(st, z) || (0 <= z < n && st.comp[z] != UNVISITED));
        assert forall|a: int, b: int| s.contains(a) && #[trigger] g.dense_edge(a, b) implies s.contains(b) by {
            if member(st, a) {
                self.lemma_members_closed(st, a, b);
            } else {
                assert(st.comp[b] != UNVISITED);
            }
        }
        lemma_r_closed(g, s, x, y);
        assert(member(st, y));
        assert(k == last) by {
            if k < last {
                assert(st.index[st.work[k].0 as int] < st.index[st.work[last].0 as int]);
            }
        }
    }

    /// A node finished before reaches no stacked node.
    #[verifier::spinoff_prover]
    proof fn lemma_done_reaches(&self, st: Search, x: int, y: int)
        requires
            inv(*self, st),
            0 <= x < self.nodes@.len(),
            0 <= y < self.nodes@.len(),
            st.comp[x] != UNVISITED,
            st.on[y],
        ensures
            !r(*self, x, y),
    {
        let g = *self;
        let n = self.nodes@.len() as int;
        if r(g, x, y) {
            let s = Set::new(|z: int| 0 <= z < n && st.comp[z] != UNVISITED);
            assert forall|a: int, b: int| s.contains(a) && #[trigger] g.dense_edge(a, b) implies s.contains(b) by {
                assert(st.comp[b] != UNVISITED);
            }
            lemma_r_closed(g, s, x, y);
            assert(st.comp[y] == UNVISITED);
        }
    }

    /// The members are one class of mutual reachability, apart from all classes
    /// closed before.
    #[verifier::rlimit(30)]
    #[verifier::spinoff_prover]
    proof fn lemma_finish_result(&self, st: Search, s2: Search, at: int)
        requires
            inv(*self, st),
            at_root(*self, st),
            finished(st, s2, at),
        ensures
            result_ok(*self, s2),
    {
        let g = *self;
        let n = self.nodes@.len() as int;
        let last = st.work.len() - 1;
        let vi = st.work[last].0 as int;
        assert(st.on[vi]);
        assert forall|x: int| 0 <= x < n implies (#[trigger] s2.comp[x]) == (if member(st, x) { st.num as usize } else { st.comp[x] }) by {
            assert(s2.on[x] == (st.on[x] && !member(st, x)));
        }
        assert forall|x: int, y: int| 0 <= x < n && 0 <= y < n && (#[trigger] s2.comp[x]) != UNVISITED && (#[trigger] s2.comp[y]) != UNVISITED
            implies (s2.comp[x] == s2.comp[y] <==> r(g, x, y) && r(g, y, x)) by {
            if member(st, x) && member(st, y) {
                self.lemma_member_root(st, x);
                self.lemma_member_root(st, y);
                lemma_r_trans(g, x, vi, y);
                lemma_r_trans(g, y, vi, x);
            } else if member(st, x) {
                assert(st.comp[y] != UNVISITED);
                self.lemma_done_reaches(st, y, x);
            } else if member(st, y) {
                assert(st.comp[x] != UNVISITED);
                self.lemma_done_reaches(st, x, y);
            } else {
                assert(st.comp[x] != UNVISITED && st.comp[y] != UNVISITED);
            }
        }
        assert forall|k: int| 0 <= k < s2.num implies #[trigger] used(s2.comp, k) by {
            if k == st.num {
                assert(member(st, vi));
                assert(s2.comp[vi] == k);
            } else {
                assert(used(st.comp, k));
                let x = choose|x: int| 0 <= x < st.comp.len() && (#[trigger] st.comp[x]) == k;
                assert(!member(st, x)) by {
                    if st.on[x] {
                        assert(st.comp[x] == UNVISITED);
                    }
                }
                assert(s2.comp[x] == k);
            }
        }
    }

    /// Closing the last open node, the root of a component: the stacked nodes
    /// from it on are the component.
    proof fn lemma_finish(&self, st: Search, s2: Search, at: int)
        requires
            inv(*self, st),
            at_root(*self, st),
            finished(st, s2, at),
        ensures
            inv(*self, s2),
    {
        self.lemma_finish_shape(st, s2, at);
        self.lemma_finish_edges(st, s2, at);
        self.lemma_finish_low(st, s2, at);
        self.lemma_finish_reach(st, s2, at);
        self.lemma_finish_result(st, s2, at);
    }

    /// With no node open, every discovered node belongs to a component.
    proof fn lemma_nothing_open(&self, st: Search)
        requires
            inv(*self, st),
            st.work.len() == 0,
        ensures
            forall|x: int| 0 <= x < self.nodes@.len() && (#[trigger] st.index[x]) != UNVISITED ==> st.comp[x] != UNVISITED,
    {
        assert forall|x: int| 0 <= x < self.nodes@.len() && (#[trigger] st.index[x]) != UNVISITED implies st.comp[x] != UNVISITED by {
            if st.on[x] {
                let k = lemma_open_place(*self, st, x);
                assert(false);
            }
        }
    }

    /// Strongly connected components.
    ///
    /// Gives for each node the number of its component, and how many
    /// components there are. Two nodes share a component exactly if each
    /// reaches the other. Components are numbered from 0 in the order in which
    /// they are finished, so an edge between two components leads to the one
    /// with the lower number.
    #[verifier::spinoff_prover]
    #[verifier::rlimit(30)]
    pub fn strongly_connected_components(&self) -> (res: (HashMap<EntityLiteralId, usize>, usize))
        requires
            self.wf(),
        ensures
            forall|x: u32| #[trigger] res.0@.contains_key(x) <==> self@.nodes.contains(x),
            forall|x: u32, y: u32| #[trigger] res.0@.contains_key(x) && #[trigger] res.0@.contains_key(y) ==> (res.0@[x] == res.0@[y] <==> mutual(self@.edges, x, y)),
            forall|x: u32, y: u32| #[trigger] self@.edges.contains((x, y)) ==> res.0@[y] <= res.0@[x],
            forall|x: u32| #[trigger] res.0@.contains_key(x) ==> res.0@[x] < res.1,
            forall|c: usize| c < res.1 ==> #[trigger] res.0@.contains_value(c),
    {
        let n: usize = self.nodes.len();
        let mut index: Vec<usize> = Vec::new();
        let mut low: Vec<usize> = Vec::new();
        let mut on: Vec<bool> = Vec::new();
        let mut comp: Vec<usize> = Vec::new();
        let mut i: usize = 0;
        while i < n
            invariant
                i <= n,
                index.len() == i,
                low.len() == i,
                on.len() == i,
                comp.len() == i,
                forall|k: int| 0 <= k < i ==> #[trigger] index@[k] == UNVISITED,
                forall|k: int| 0 <= k < i ==> !(#[trigger] on@[k]),
                forall|k: int| 0 <= k < i ==> #[trigger] comp@[k] == UNVISITED,
            decreases n - i,
        {
            index.push(UNVISITED);
            low.push(0);
            on.push(false);
            comp.push(UNVISITED);
            i = i + 1;
        }
        let mut stack: Vec<usize> = Vec::new();
        let mut work: Vec<(usize, usize)> = Vec::new();
        let ghost mut disc: Seq<usize> = Seq::empty();
        let mut next_index: usize = 0;
        let mut num: usize = 0;
        let ghost st0 = Search { index: index@, low: low@, on: on@, comp: comp@, stack: stack@, work: work@, disc, num: num as int };
        assert(inv(*self, st0)) by {
            reveal(disc_ok);
        }
        let mut start: usize = 0;
        while start < n
            invariant
                self.wf(),
                n == self.nodes@.len(),
                start <= n,
                work.len() == 0,
                next_index == disc.len(),
                inv(*self, (Search { index: index@, low: low@, on: on@, comp: comp@, stack: stack@, work: work@, disc, num: num as int })),
                forall|x: int| 0 <= x < start ==> #[trigger] comp@[x] != UNVISITED,
            decreases n - start,
        {
            let ghost st = Search { index: index@, low: low@, on: on@, comp: comp@, stack: stack@, work: work@, disc, num: num as int };
            if index[start] == UNVISITED {
                proof {
                    self.lemma_open(st, start as int);
                    disc = disc.push(start);
                }
                index.set(start, next_index);
                low.set(start, next_index);
                next_index = next_index + 1;
                stack.push(start);
                on.set(start, true);
                work.push((start, self.out_ptr[start]));
                assert((Search { index: index@, low: low@, on: on@, comp: comp@, stack: stack@, work: work@, disc, num: num as int }) == opened(*self, st, start as int));
                while work.len() > 0
                    invariant
                        self.wf(),
                        n == self.nodes@.len(),
                        start < n,
                        next_index == disc.len(),
                        inv(*self, (Search { index: index@, low: low@, on: on@, comp: comp@, stack: stack@, work: work@, disc, num: num as int })),
                        forall|x: int| 0 <= x < start ==> #[trigger] comp@[x] != UNVISITED,
                        index@[start as int] != UNVISITED,
                    decreases n - disc.len(), left(self.out_ptr@, work@),
                {
                    let ghost cur = Search { index: index@, low: low@, on: on@, comp: comp@, stack: stack@, work: work@, disc, num: num as int };
                    let last: usize = work.len() - 1;
                    let (v, cursor): (usize, usize) = work[last];
                    proof {
                        assert(inv(*self, cur));
                        assert(cur.work[last as int] == (v, cursor));
                        lemma_left_nonneg(self.out_ptr@, work@);
                        assert(cur.on[v as int]);
                        assert(work@.drop_last() =~= work@.subrange(0, last as int));
                        assert forall|k: int| 0 <= k < last implies (#[trigger] work@.drop_last()[k]).1 <= self.out_ptr@[work@.drop_last()[k].0 + 1] by {
                            assert(cur.work[k].1 <= self.out_ptr@[cur.work[k].0 + 1]);
                        }
                        lemma_left_nonneg(self.out_ptr@, work@.drop_last());
                    }
                    if cursor < self.out_ptr[v + 1] {
                        proof {
                            self.lemma_position_edge(v as int, cursor as int);
                        }
                        let w: usize = self.out_adj[cursor];
                        if index[w] == UNVISITED {
                            proof {
                                self.lemma_open(cur, w as int);
                                disc = disc.push(w);
                            }
                            work.set(last, (v, cursor + 1));
                            index.set(w, next_index);
                            low.set(w, next_index);
                            next_index = next_index + 1;
                            stack.push(w);
                            on.set(w, true);
                            work.push((w, self.out_ptr[w]));
                            assert((Search { index: index@, low: low@, on: on@, comp: comp@, stack: stack@, work: work@, disc, num: num as int }) == opened(*self, cur, w as int));
                        } else {
                            work.set(last, (v, cursor + 1));
                            if on[w] && index[w] < low[v] {
                                low.set(v, index[w]);
                            }
                            proof {
                                let s2 = Search { index: index@, low: low@, on: on@, comp: comp@, stack: stack@, work: work@, disc, num: num as int };
                                self.lemma_follow(cur, s2);
                                assert(work@.drop_last() =~= cur.work.drop_last());
                            }
                        }
                    } else if low[v] == index[v] {
                        let ghost at = lemma_stack_place(cur, v as int);
                        let mut done: bool = false;
                        proof {
                            assert forall|x: int| !popped(cur.stack, cur.stack.len() as int, x) by {
                                reveal(popped);
                            }
                        }
                        while !done
                            invariant
                                inv(*self, cur),
                                n == self.nodes@.len(),
                                0 <= at < cur.stack.len(),
                                cur.stack[at] == v,
                                v < n,
                                cur.num == num,
                                stack@.len() <= cur.stack.len(),
                                stack@ == cur.stack.subrange(0, stack@.len() as int),
                                !done ==> at < stack@.len(),
                                done ==> at == stack@.len(),
                                on@.len() == n,
                                comp@.len() == n,
                                forall|x: int| 0 <= x < n ==> (#[trigger] on@[x]) == (cur.on[x] && !popped(cur.stack, stack@.len() as int, x)),
                                forall|x: int| 0 <= x < n ==> (#[trigger] comp@[x]) == (if popped(cur.stack, stack@.len() as int, x) { num } else { cur.comp[x] }),
                            decreases stack@.len(),
                        {
                            let top: usize = stack.len() - 1;
                            let w: usize = stack[top];
                            stack.pop();
                            proof {
                                assert(cur.stack[top as int] == w);
                                assert(cur.on[cur.stack[top as int] as int]);
                                assert(stack@ =~= cur.stack.subrange(0, top as int));
                            }
                            let ghost on0 = on@;
                            let ghost comp0 = comp@;
                            on.set(w, false);
                            comp.set(w, num);
                            proof {
                                assert forall|x: int| 0 <= x < n implies (#[trigger] on@[x]) == (cur.on[x] && !popped(cur.stack, top as int, x)) by {
                                    lemma_popped(cur.stack, top as int, x);
                                    assert(on0[x] == (cur.on[x] && !popped(cur.stack, top + 1, x)));
                                }
                                assert forall|x: int| 0 <= x < n implies (#[trigger] comp@[x]) == (if popped(cur.stack, top as int, x) { num } else { cur.comp[x] }) by {
                                    lemma_popped(cur.stack, top as int, x);
                                    assert(comp0[x] == (if popped(cur.stack, top + 1, x) { num } else { cur.comp[x] }));
                                }
                                if top == at {
                                    assert(w == v);
                                } else {
                                    assert(cur.index[cur.stack[at] as int] < cur.index[cur.stack[top as int] as int]);
                                    assert(w != v);
                                }
                            }
                            if w == v {
                                done = true;
                            }
                        }
                        num = num + 1;
                        work.pop();
                        proof {
                            let s2 = Search { index: index@, low: low@, on: on@, comp: comp@, stack: stack@, work: work@, disc, num: num as int };
                            assert(work@ =~= cur.work.drop_last());
                            assert forall|x: int| 0 <= x < n implies {
                                &&& (#[trigger] s2.on[x]) == (cur.on[x] && !member(cur, x))
                                &&& s2.comp[x] == (if member(cur, x) { cur.num as usize } else { cur.comp[x] })
                            } by {
                                assert(comp@[x] == (if popped(cur.stack, at, x) { cur.num as usize } else { cur.comp[x] }));
                                if member(cur, x) {
                                    let k = lemma_stack_place(cur, x);
                                    assert(k >= at) by {
                                        if k < at {
                                            assert(cur.index[cur.stack[k] as int] < cur.index[cur.stack[at] as int]);
                                        }
                                    }
                                    assert(popped(cur.stack, at, x)) by {
                                        reveal(popped);
                                        assert(cur.stack[k] == x);
                                    }
                                }
                                if popped(cur.stack, at, x) {
                                    let k = lemma_popped_place(cur.stack, at, x);
                                    assert(cur.on[cur.stack[k] as int]);
                                    if k > at {
                                        assert(cur.index[cur.stack[at] as int] < cur.index[cur.stack[k] as int]);
                                    }
                                    assert(member(cur, x));
                                }
                            }
                            self.lemma_finish(cur, s2, at);
                            assert forall|x: int| 0 <= x < start implies #[trigger] comp@[x] != UNVISITED by {
                                assert(cur.comp[x] != UNVISITED);
                                assert(s2.on[x] == (cur.on[x] && !member(cur, x)));
                            }
                        }
                        if work.len() > 0 {
                            let p: usize = work[work.len() - 1].0;
                            proof {
                                assert(cur.work[work@.len() - 1] == work@[work@.len() - 1]);
                                assert(cur.index[cur.work[work@.len() - 1].0 as int] < cur.index[cur.work[last as int].0 as int]);
                            }
                            if low[v] < low[p] {
                                assert(false);
                            }
                        }
                    } else {
                        work.pop();
                        proof {
                            assert(work@ =~= cur.work.drop_last());
                        }
                        if work.len() > 0 {
                            let p: usize = work[work.len() - 1].0;
                            proof {
                                assert(cur.work[work@.len() - 1] == work@[work@.len() - 1]);
                                assert(cur.on[p as int]);
                            }
                            if low[v] < low[p] {
                                let lv: usize = low[v];
                                low.set(p, lv);
                            }
                        }
                        proof {
                            let s2 = Search { index: index@, low: low@, on: on@, comp: comp@, stack: stack@, work: work@, disc, num: num as int };
                            self.lemma_close(cur, s2);
                        }
                    }
                }
                proof {
                    let fin = Search { index: index@, low: low@, on: on@, comp: comp@, stack: stack@, work: work@, disc, num: num as int };
                    self.lemma_nothing_open(fin);
                    assert(fin.index[start as int] != UNVISITED);
                }
            } else {
                proof {
                    self.lemma_nothing_open(st);
                    assert(st.index[start as int] != UNVISITED);
                }
            }
            start = start + 1;
        }
        let ghost fin = Search { index: index@, low: low@, on: on@, comp: comp@, stack: stack@, work: work@, disc, num: num as int };
        let mut m: HashMap<u32, usize> = HashMap::new();
        let mut j: usize = 0;
        while j < n
            invariant
                self.wf(),
                n == self.nodes@.len(),
                comp@.len() == n,
                j <= n,
                forall|a: u32| #[trigger] m@.contains_key(a) ==> exists|x: int| 0 <= x < j && self.nodes@[x] == a && m@[a] == #[trigger] comp@[x],
                forall|x: int| 0 <= x < j ==> m@.contains_key(#[trigger] self.nodes@[x]),
            decreases n - j,
        {
            let ghost m0 = m@;
            m.insert(self.nodes[j], comp[j]);
            proof {
                assert forall|a: u32| #[trigger] m@.contains_key(a) implies exists|x: int| 0 <= x < j + 1 && self.nodes@[x] == a && m@[a] == #[trigger] comp@[x] by {
                    if a == self.nodes@[j as int] {
                        assert(m@[a] == comp@[j as int]);
                    } else {
                        assert(m0.contains_key(a));
                    }
                }
            }
            j = j + 1;
        }
        proof {
            assert forall|x: int| 0 <= x < n implies m@.contains_key(#[trigger] self.nodes@[x]) && m@[self.nodes@[x]] == comp@[x] by {
                let k = choose|k: int| 0 <= k < n && self.nodes@[k] == self.nodes@[x] && m@[self.nodes@[x]] == #[trigger] comp@[k];
                assert(self.id_to_idx@[self.nodes@[k]] == k && self.id_to_idx@[self.nodes@[x]] == x);
            }
            assert forall|x: u32, y: u32| #[trigger] m@.contains_key(x) && #[trigger] m@.contains_key(y) implies (m@[x] == m@[y] <==> mutual(self@.edges, x, y)) by {
                let k = choose|k: int| 0 <= k < n && self.nodes@[k] == x && m@[x] == #[trigger] comp@[k];
                let l = choose|l: int| 0 <= l < n && self.nodes@[l] == y && m@[y] == #[trigger] comp@[l];
                assert(fin.comp[k] != UNVISITED && fin.comp[l] != UNVISITED);
                reveal(r);
            }
            assert forall|x: u32, y: u32| #[trigger] self@.edges.contains((x, y)) implies m@[y] <= m@[x] by {
                let (p, q) = choose|p: int, q: int| #[trigger] self.dense_edge(p, q) && self.nodes@[p] == x && self.nodes@[q] == y;
                assert(fin.comp[p] != UNVISITED);
                assert(m@[self.nodes@[p]] == comp@[p] && m@[self.nodes@[q]] == comp@[q]);
            }
            assert forall|x: u32| #[trigger] m@.contains_key(x) implies m@[x] < num by {
                let k = choose|k: int| 0 <= k < n && self.nodes@[k] == x && m@[x] == #[trigger] comp@[k];
                assert(fin.comp[k] != UNVISITED);
            }
            assert forall|c: usize| c < num implies #[trigger] m@.contains_value(c) by {
                assert(used(fin.comp, c as int));
                let x = choose|x: int| 0 <= x < fin.comp.len() && (#[trigger] fin.comp[x]) == c as int;
                assert(m@.contains_key(self.nodes@[x]) && m@[self.nodes@[x]] == c);
            }
        }
        (m, num)
    }
}

} // verus!
