//! The undirected reading of the graph, and its triangles.

use super::graph::{neighbours, Digraph};
use super::{csr_edge, csr_wf, row_at, GraphView};
use crate::order::{ascending, sort_dedup, Ranked};
use vstd::prelude::*;

verus! {

/// Three mutually adjacent nodes, in ascending order.
pub open spec fn triangles(g: Digraph) -> Set<(u32, u32, u32)> {
    Set::new(
        |t: (u32, u32, u32)|
            {
                &&& t.0 < t.1 < t.2
                &&& neighbours(g, t.0).contains(t.1)
                &&& neighbours(g, t.0).contains(t.2)
                &&& neighbours(g, t.1).contains(t.2)
            },
    )
}

/// An edge with its ends in order, and a common neighbour of the two.
spec fn wedges(g: Digraph) -> Set<(u32, u32, u32)> {
    Set::new(
        |t: (u32, u32, u32)|
            {
                &&& t.0 < t.1
                &&& neighbours(g, t.0).contains(t.1)
                &&& neighbours(g, t.0).contains(t.2)
                &&& neighbours(g, t.1).contains(t.2)
            },
    )
}

/// Each triangle is found once from each of its three edges.
proof fn lemma_wedges(g: Digraph)
    requires
        wedges(g).finite(),
    ensures
        triangles(g).finite(),
        wedges(g).len() == 3 * triangles(g).len(),
{
    let t = triangles(g);
    let w = wedges(g);
    assert(t.subset_of(w));
    vstd::set_lib::lemma_set_subset_finite(w, t);
    let f1 = |q: (u32, u32, u32)| (q.1, q.2, q.0);
    let f2 = |q: (u32, u32, u32)| (q.0, q.2, q.1);
    let w1 = t.map(f1);
    let w2 = t.map(f2);
    t.lemma_map_finite(f1);
    t.lemma_map_finite(f2);
    vstd::set_lib::lemma_map_size(t, w1, f1);
    vstd::set_lib::lemma_map_size(t, w2, f2);
    assert forall|q: (u32, u32, u32)| #[trigger] w1.contains(q) <==> w.contains(q) && q.2 < q.0 by {
        if w1.contains(q) {
            let p = choose|p: (u32, u32, u32)| t.contains(p) && f1(p) == q;
            assert(t.contains(p));
        }
        if w.contains(q) && q.2 < q.0 {
            let p = (q.2, q.0, q.1);
            assert(t.contains(p) && f1(p) == q);
        }
    }
    assert forall|q: (u32, u32, u32)| #[trigger] w2.contains(q) <==> w.contains(q) && q.0 < q.2 < q.1 by {
        if w2.contains(q) {
            let p = choose|p: (u32, u32, u32)| t.contains(p) && f2(p) == q;
            assert(t.contains(p));
        }
        if w.contains(q) && q.0 < q.2 < q.1 {
            let p = (q.0, q.2, q.1);
            assert(t.contains(p) && f2(p) == q);
        }
    }
    assert(w =~= t.union(w1.union(w2)));
    assert(w1.disjoint(w2));
    assert(t.disjoint(w1.union(w2)));
    vstd::set_lib::lemma_set_disjoint_lens(w1, w2);
    vstd::set_lib::lemma_set_disjoint_lens(t, w1.union(w2));
}

/// Common elements of two ascending sequences.
spec fn common(a: Seq<usize>, b: Seq<usize>) -> Set<usize> {
    Set::new(|x: usize| a.contains(x) && b.contains(x))
}

/// How many elements two ascending vectors share, by a merge.
fn common_count(a: &Vec<usize>, b: &Vec<usize>) -> (count: usize)
    requires
        ascending(a@),
        ascending(b@),
    ensures
        common(a@, b@).finite(),
        count == common(a@, b@).len(),
        count <= a.len(),
{
    let mut i: usize = 0;
    let mut j: usize = 0;
    let mut count: usize = 0;
    let ghost mut found: Set<usize> = Set::empty();
    while i < a.len() && j < b.len()
        invariant
            ascending(a@),
            ascending(b@),
            i <= a.len(),
            j <= b.len(),
            count <= i,
            found.finite(),
            count == found.len(),
            forall|x: usize| #[trigger] found.contains(x) <==> a@.subrange(0, i as int).contains(x) && b@.contains(x),
            forall|k: int, l: int| 0 <= k < j && i <= l < a.len() ==> (#[trigger] b@[k]).rank() < (#[trigger] a@[l]).rank(),
            forall|x: usize| #[trigger] found.contains(x) ==> b@.subrange(0, j as int).contains(x),
        decreases a.len() - i + b.len() - j,
    {
        let ghost a0 = a@.subrange(0, i as int);
        let ghost b0 = b@.subrange(0, j as int);
        proof {
            assert(a@.subrange(0, i + 1) =~= a0.push(a@[i as int]));
            assert(b@.subrange(0, j + 1) =~= b0.push(b@[j as int]));
            assert forall|x: usize| #[trigger] a@.subrange(0, i + 1).contains(x) <==> a0.contains(x) || x == a@[i as int] by {
                lemma_push_contains(a0, a@[i as int], x);
            }
            assert forall|x: usize| #[trigger] b@.subrange(0, j + 1).contains(x) <==> b0.contains(x) || x == b@[j as int] by {
                lemma_push_contains(b0, b@[j as int], x);
            }
        }
        if a[i] < b[j] {
            proof {
                assert(!b@.contains(a@[i as int])) by {
                    if b@.contains(a@[i as int]) {
                        let k = choose|k: int| 0 <= k < b@.len() && b@[k] == a@[i as int];
                        if k >= j {
                            assert(b@[j as int].rank() <= b@[k].rank());
                        }
                    }
                }
            }
            i = i + 1;
        } else if b[j] < a[i] {
            j = j + 1;
        } else {
            proof {
                assert(!found.contains(a@[i as int])) by {
                    if found.contains(a@[i as int]) {
                        let k = choose|k: int| 0 <= k < a0.len() && a0[k] == a@[i as int];
                        assert(a@[k].rank() < a@[i as int].rank());
                    }
                }
                assert(b@.contains(a@[i as int])) by {
                    assert(b@[j as int] == a@[i as int]);
                }
                found = found.insert(a@[i as int]);
            }
            count = count + 1;
            i = i + 1;
            j = j + 1;
        }
    }
    proof {
        assert(found =~= common(a@, b@)) by {
            assert forall|x: usize| #[trigger] found.contains(x) <==> common(a@, b@).contains(x) by {
                if found.contains(x) {
                    let k = choose|k: int| 0 <= k < i && a@.subrange(0, i as int)[k] == x;
                    assert(a@[k] == x);
                }
                if a@.contains(x) && b@.contains(x) {
                    let k = choose|k: int| 0 <= k < a@.len() && a@[k] == x;
                    let l = choose|l: int| 0 <= l < b@.len() && b@[l] == x;
                    assert(k < i) by {
                        if k >= i {
                            assert(j == b.len());
                            assert(b@[l].rank() < a@[k].rank());
                        }
                    }
                    assert(a@.subrange(0, i as int)[k] == x);
                }
            }
        }
    }
    count
}

proof fn lemma_push_contains(s: Seq<usize>, y: usize, x: usize)
    ensures
        s.push(y).contains(x) <==> s.contains(x) || x == y,
{
    let t = s.push(y);
    if s.contains(x) {
        let k = choose|k: int| 0 <= k < s.len() && s[k] == x;
        assert(t[k] == x);
    }
    assert(t[s.len() as int] == y);
    if t.contains(x) && x != y {
        let k = choose|k: int| 0 <= k < t.len() && t[k] == x;
        assert(s[k] == x);
    }
}

/// Ascending ids are no more than there are ids.
pub proof fn lemma_ids_bounded(s: Seq<u32>)
    requires
        ascending(s),
    ensures
        s.len() <= 0x1_0000_0000,
        forall|i: int| 0 <= i < s.len() ==> i <= #[trigger] s[i],
    decreases s.len(),
{
    if s.len() > 0 {
        let t = s.drop_last();
        assert(ascending(t));
        lemma_ids_bounded(t);
        assert forall|i: int| 0 <= i < s.len() implies i <= #[trigger] s[i] by {
            if i < t.len() {
                assert(t[i] == s[i]);
            } else if i > 0 {
                assert(t[i - 1] == s[i - 1]);
                assert(s[i - 1].rank() < s[i].rank());
            }
        }
        assert(s.len() - 1 <= s[s.len() - 1]);
    }
}

/// Rows of the undirected simple reading, by index.
pub(super) open spec fn undirected_rows_of(g: GraphView, rows: Seq<Vec<usize>>) -> bool {
    &&& rows.len() == g.nodes@.len()
    &&& forall|u: int| 0 <= u < rows.len() ==> #[trigger] row_ok(g, rows[u]@, u)
}

/// Row `row` lists the neighbours of index `u`.
pub(super) open spec fn row_ok(g: GraphView, row: Seq<usize>, u: int) -> bool {
    &&& ascending(row)
    &&& forall|k: int| 0 <= k < row.len() ==> #[trigger] row[k] < g.nodes@.len()
    &&& forall|v: int| 0 <= v < g.nodes@.len() ==> (#[trigger] row.contains(v as usize) <==> neighbours(g@, g.nodes@[u]).contains(g.nodes@[v]))
}

impl GraphView {
    /// The undirected adjacency, without self-loops: row `u` holds the indexes
    /// that an edge joins to `u` in either direction, ascending.
    pub(super) fn undirected_rows(&self) -> (rows: Vec<Vec<usize>>)
        requires
            self.wf(),
        ensures
            undirected_rows_of(*self, rows@),
    {
        let n: usize = self.nodes.len();
        let mut rows: Vec<Vec<usize>> = Vec::new();
        let mut u: usize = 0;
        while u < n
            invariant
                self.wf(),
                n == self.nodes@.len(),
                u <= n,
                rows.len() == u,
                forall|w: int| 0 <= w < u ==> #[trigger] row_ok(*self, rows@[w]@, w),
            decreases n - u,
        {
            proof {
                assert(csr_wf(n as int, self.out_ptr@, self.out_adj@));
                assert(csr_wf(n as int, self.in_ptr@, self.in_adj@));
                assert(self.out_ptr@[u as int] <= self.out_ptr@[u + 1] <= self.out_ptr@[n as int]);
                assert(self.in_ptr@[u as int] <= self.in_ptr@[u + 1] <= self.in_ptr@[n as int]);
            }
            let mut all: Vec<usize> = Vec::new();
            let out_end: usize = self.out_ptr[u + 1];
            let mut k: usize = self.out_ptr[u];
            while k < out_end
                invariant
                    self.wf(),
                    n == self.nodes@.len(),
                    u < n,
                    self.out_ptr@[u as int] <= k <= out_end,
                    out_end == self.out_ptr@[u + 1],
                    out_end <= self.out_adj@.len(),
                    forall|j: int| 0 <= j < all.len() ==> #[trigger] all@[j] < n && all@[j] != u && csr_edge(self.out_ptr@, self.out_adj@, u as int, all@[j] as int),
                    forall|j: int| self.out_ptr@[u as int] <= j < k && #[trigger] row_at(self.out_ptr@, self.out_adj@, u as int, j) != u ==> all@.contains(row_at(self.out_ptr@, self.out_adj@, u as int, j)),
                decreases out_end - k,
            {
                proof {
                    assert(csr_wf(n as int, self.out_ptr@, self.out_adj@));
                    assert(self.out_adj@[k as int] < n);
                }
                let v: usize = self.out_adj[k];
                if v != u {
                    let ghost before = all@;
                    all.push(v);
                    proof {
                        assert(row_at(self.out_ptr@, self.out_adj@, u as int, k as int) == v);
                        assert(csr_edge(self.out_ptr@, self.out_adj@, u as int, v as int));
                        assert forall|j: int| self.out_ptr@[u as int] <= j < k + 1 && #[trigger] row_at(self.out_ptr@, self.out_adj@, u as int, j) != u implies all@.contains(row_at(self.out_ptr@, self.out_adj@, u as int, j)) by {
                            lemma_push_contains(before, v, row_at(self.out_ptr@, self.out_adj@, u as int, j));
                        }
                    }
                }
                k = k + 1;
            }
            let in_end: usize = self.in_ptr[u + 1];
            let mut l: usize = self.in_ptr[u];
            while l < in_end
                invariant
                    self.wf(),
                    n == self.nodes@.len(),
                    u < n,
                    self.in_ptr@[u as int] <= l <= in_end,
                    in_end == self.in_ptr@[u + 1],
                    in_end <= self.in_adj@.len(),
                    forall|j: int| 0 <= j < all.len() ==> #[trigger] all@[j] < n && all@[j] != u && (csr_edge(self.out_ptr@, self.out_adj@, u as int, all@[j] as int) || csr_edge(self.in_ptr@, self.in_adj@, u as int, all@[j] as int)),
                    forall|j: int| self.out_ptr@[u as int] <= j < self.out_ptr@[u + 1] && #[trigger] row_at(self.out_ptr@, self.out_adj@, u as int, j) != u ==> all@.contains(row_at(self.out_ptr@, self.out_adj@, u as int, j)),
                    forall|j: int| self.in_ptr@[u as int] <= j < l && #[trigger] row_at(self.in_ptr@, self.in_adj@, u as int, j) != u ==> all@.contains(row_at(self.in_ptr@, self.in_adj@, u as int, j)),
                decreases in_end - l,
            {
                proof {
                    assert(csr_wf(n as int, self.in_ptr@, self.in_adj@));
                    assert(self.in_adj@[l as int] < n);
                }
                let v: usize = self.in_adj[l];
                if v != u {
                    let ghost before = all@;
                    all.push(v);
                    proof {
                        assert(row_at(self.in_ptr@, self.in_adj@, u as int, l as int) == v);
                        assert(csr_edge(self.in_ptr@, self.in_adj@, u as int, v as int));
                        assert forall|j: int| self.in_ptr@[u as int] <= j < l + 1 && #[trigger] row_at(self.in_ptr@, self.in_adj@, u as int, j) != u implies all@.contains(row_at(self.in_ptr@, self.in_adj@, u as int, j)) by {
                            lemma_push_contains(before, v, row_at(self.in_ptr@, self.in_adj@, u as int, j));
                        }
                        assert forall|j: int| self.out_ptr@[u as int] <= j < self.out_ptr@[u + 1] && #[trigger] row_at(self.out_ptr@, self.out_adj@, u as int, j) != u implies all@.contains(row_at(self.out_ptr@, self.out_adj@, u as int, j)) by {
                            lemma_push_contains(before, v, row_at(self.out_ptr@, self.out_adj@, u as int, j));
                        }
                    }
                }
                l = l + 1;
            }
            let row: Vec<usize> = sort_dedup(&all);
            proof {
                assert forall|k2: int| 0 <= k2 < row.len() implies #[trigger] row@[k2] < n by {
                    assert(row@.contains(row@[k2]));
                    let j = choose|j: int| 0 <= j < all@.len() && all@[j] == row@[k2];
                    assert(all@[j] < n);
                }
                assert forall|v: int| 0 <= v < n implies (#[trigger] row@.contains(v as usize) <==> neighbours(self@, self.nodes@[u as int]).contains(self.nodes@[v])) by {
                    self.lemma_edge(u as int, v);
                    self.lemma_edge(v, u as int);
                    assert(self.id_to_idx@[self.nodes@[u as int]] == u && self.id_to_idx@[self.nodes@[v]] == v);
                    assert(csr_edge(self.in_ptr@, self.in_adj@, u as int, v) <==> csr_edge(self.out_ptr@, self.out_adj@, v, u as int));
                    assert(row@.contains(v as usize) <==> all@.contains(v as usize));
                    if all@.contains(v as usize) {
                        let j = choose|j: int| 0 <= j < all@.len() && all@[j] == v as usize;
                        assert(all@[j] < n);
                    }
                    if v != u && self.dense_edge(u as int, v) {
                        let j = choose|j: int| self.out_ptr@[u as int] <= j < self.out_ptr@[u + 1] && #[trigger] row_at(self.out_ptr@, self.out_adj@, u as int, j) == v;
                        assert(all@.contains(row_at(self.out_ptr@, self.out_adj@, u as int, j)));
                    }
                    if v != u && self.dense_edge(v, u as int) {
                        let j = choose|j: int| self.in_ptr@[u as int] <= j < self.in_ptr@[u + 1] && #[trigger] row_at(self.in_ptr@, self.in_adj@, u as int, j) == v;
                        assert(all@.contains(row_at(self.in_ptr@, self.in_adj@, u as int, j)));
                    }
                }
                assert(row_ok(*self, row@, u as int));
            }
            let ghost rows0 = rows@;
            rows.push(row);
            proof {
                assert forall|w: int| 0 <= w < u + 1 implies #[trigger] row_ok(*self, rows@[w]@, w) by {
                    if w < u {
                        assert(rows@[w] == rows0[w]);
                        assert(row_ok(*self, rows0[w]@, w));
                    }
                }
            }
            u = u + 1;
        }
        rows
    }

    /// Number of triangles in the undirected reading of the graph.
    ///
    /// For each edge with its ends in order the common neighbours are counted;
    /// the total is three times the number of triangles.
    #[verifier::rlimit(40)]
    pub fn triangle_count(&self) -> (count: u64)
        requires
            self.wf(),
            triangles(self@).len() <= u64::MAX,
        ensures
            count == triangles(self@).len(),
    {
        let n: usize = self.nodes.len();
        let rows: Vec<Vec<usize>> = self.undirected_rows();
        let ghost ids = self.nodes@;
        proof {
            lemma_ids_bounded(ids);
        }
        let mut raw: u128 = 0;
        let ghost mut seen: Set<(u32, u32, u32)> = Set::empty();
        let mut u: usize = 0;
        while u < n
            invariant
                self.wf(),
                n == self.nodes@.len(),
                ids == self.nodes@,
                n <= 0x1_0000_0000,
                undirected_rows_of(*self, rows@),
                u <= n,
                raw <= u * 0x1_0000_0000_0000_0000,
                seen.finite(),
                raw == seen.len(),
                forall|t: (u32, u32, u32)| #[trigger] seen.contains(t) <==> wedges(self@).contains(t) && exists|x: int| 0 <= x < u && #[trigger] ids[x] == t.0,
            decreases n - u,
        {
            assert(row_ok(*self, rows@[u as int]@, u as int));
            let ghost base = seen;
            let row: &Vec<usize> = &rows[u];
            let mut k: usize = 0;
            proof {
                self.lemma_row_len(rows@, u as int);
                assert(ids[u as int] == ids[u as int]);
            }
            while k < row.len()
                invariant
                    self.wf(),
                    n == self.nodes@.len(),
                    ids == self.nodes@,
                    n <= 0x1_0000_0000,
                    undirected_rows_of(*self, rows@),
                    u < n,
                    row@ == rows@[u as int]@,
                    row_ok(*self, row@, u as int),
                    k <= row.len(),
                    row.len() <= n,
                    raw <= u * 0x1_0000_0000_0000_0000 + k * 0x1_0000_0000,
                    seen.finite(),
                    raw == seen.len(),
                    forall|t: (u32, u32, u32)| #[trigger] base.contains(t) ==> t.0 != ids[u as int],
                    forall|t: (u32, u32, u32)| #[trigger] seen.contains(t) <==> base.contains(t) || (wedges(self@).contains(t) && t.0 == ids[u as int] && exists|x: int| 0 <= x < k && ids[(#[trigger] row@[x]) as int] == t.1),
                decreases row.len() - k,
            {
                let v: usize = row[k];
                let ghost a = ids[u as int];
                let ghost b = ids[v as int];
                let ghost before = seen;
                if u < v {
                    assert(row_ok(*self, rows@[v as int]@, v as int));
                    let c: usize = common_count(row, &rows[v]);
                    proof {
                        let com = common(row@, rows@[v as int]@);
                        let f = |x: usize| (a, b, ids[x as int]);
                        let add = com.map(f);
                        com.lemma_map_finite(f);
                        assert forall|x: usize, y: usize| com.contains(x) && com.contains(y) && f(x) == f(y) implies x == y by {
                            let i = choose|i: int| 0 <= i < row@.len() && row@[i] == x;
                            let j = choose|j: int| 0 <= j < row@.len() && row@[j] == y;
                            assert(row@[i] < n && row@[j] < n);
                            assert(self.id_to_idx@[ids[x as int]] == x && self.id_to_idx@[ids[y as int]] == y);
                        }
                        vstd::set_lib::lemma_map_size(com, add, f);
                        assert(row@.contains(v)) by {
                            assert(row@[k as int] == v);
                        }
                        assert(neighbours(self@, a).contains(b)) by {
                            assert(row@.contains((v as int) as usize));
                        }
                        assert(a < b) by {
                            assert(ids[u as int].rank() < ids[v as int].rank());
                        }
                        assert forall|t: (u32, u32, u32)| #[trigger] add.contains(t) <==> wedges(self@).contains(t) && t.0 == a && t.1 == b by {
                            if add.contains(t) {
                                let x = choose|x: usize| com.contains(x) && f(x) == t;
                                let i = choose|i: int| 0 <= i < row@.len() && row@[i] == x;
                                assert(row@[i] < n);
                                assert(row@.contains((x as int) as usize));
                                assert(rows@[v as int]@.contains((x as int) as usize));
                            }
                            if wedges(self@).contains(t) && t.0 == a && t.1 == b {
                                self.lemma_neighbour_node(a, t.2);
                                let x = choose|x: int| 0 <= x < ids.len() && ids[x] == t.2;
                                assert(row@.contains(x as usize));
                                assert(rows@[v as int]@.contains(x as usize));
                                assert(com.contains(x as usize) && f(x as usize) == t);
                            }
                        }
                        assert(seen.disjoint(add)) by {
                            assert forall|t: (u32, u32, u32)| seen.contains(t) implies !add.contains(t) by {
                                if add.contains(t) {
                                    let x = choose|x: int| 0 <= x < k && ids[(#[trigger] row@[x]) as int] == t.1;
                                    assert(row@[x].rank() < row@[k as int].rank());
                                    assert(row@[x] < n && row@[k as int] < n);
                                    assert(self.id_to_idx@[ids[row@[x] as int]] == row@[x] && self.id_to_idx@[ids[v as int]] == v);
                                }
                            }
                        }
                        vstd::set_lib::lemma_set_disjoint_lens(seen, add);
                        seen = seen.union(add);
                    }
                    raw = raw + c as u128;
                } else {
                    proof {
                        assert(row@[k as int] < n);
                        assert(ids[v as int].rank() <= ids[u as int].rank());
                    }
                }
                proof {
                    assert forall|t: (u32, u32, u32)| #[trigger] seen.contains(t) <==> base.contains(t) || (wedges(self@).contains(t) && t.0 == a && exists|x: int| 0 <= x < k + 1 && ids[(#[trigger] row@[x]) as int] == t.1) by {
                        if before.contains(t) && !base.contains(t) {
                            let x = choose|x: int| 0 <= x < k && ids[(#[trigger] row@[x]) as int] == t.1;
                            assert(ids[row@[x] as int] == t.1);
                        }
                        if wedges(self@).contains(t) && t.0 == a && exists|x: int| 0 <= x < k + 1 && ids[(#[trigger] row@[x]) as int] == t.1 {
                            let x = choose|x: int| 0 <= x < k + 1 && ids[(#[trigger] row@[x]) as int] == t.1;
                            if x < k {
                                assert(before.contains(t));
                            } else {
                                assert(t.1 == b);
                            }
                        }
                        if seen.contains(t) && !before.contains(t) {
                            assert(ids[row@[k as int] as int] == t.1);
                        }
                    }
                }
                k = k + 1;
            }
            proof {
                assert forall|t: (u32, u32, u32)| #[trigger] seen.contains(t) <==> wedges(self@).contains(t) && exists|x: int| 0 <= x < u + 1 && #[trigger] ids[x] == t.0 by {
                    if seen.contains(t) {
                        if base.contains(t) {
                            let x = choose|x: int| 0 <= x < u && #[trigger] ids[x] == t.0;
                            assert(ids[x] == t.0);
                        } else {
                            assert(ids[u as int] == t.0);
                        }
                    }
                    if wedges(self@).contains(t) && exists|x: int| 0 <= x < u + 1 && #[trigger] ids[x] == t.0 {
                        let x = choose|x: int| 0 <= x < u + 1 && #[trigger] ids[x] == t.0;
                        if x < u {
                            assert(base.contains(t));
                        } else {
                            self.lemma_neighbour_node(t.0, t.1);
                            let y = choose|y: int| 0 <= y < ids.len() && ids[y] == t.1;
                            assert(row@.contains(y as usize));
                            let z = choose|z: int| 0 <= z < row@.len() && row@[z] == y as usize;
                            assert(ids[row@[z] as int] == t.1);
                        }
                    }
                }
            }
            u = u + 1;
        }
        proof {
            assert(seen =~= wedges(self@)) by {
                assert forall|t: (u32, u32, u32)| wedges(self@).contains(t) implies seen.contains(t) by {
                    self.lemma_neighbour_node(t.0, t.1);
                    let x = choose|x: int| 0 <= x < ids.len() && ids[x] == t.0;
                    assert(ids[x] == t.0);
                }
            }
            lemma_wedges(self@);
        }
        (raw / 3) as u64
    }

    /// Neighbours are nodes.
    pub(super) proof fn lemma_neighbour_node(&self, a: u32, b: u32)
        requires
            self.wf(),
            neighbours(self@, a).contains(b),
        ensures
            self.nodes@.contains(a),
            self.nodes@.contains(b),
    {
        self.lemma_edges_join_nodes();
        assert(self@.edges.contains((a, b)) || self@.edges.contains((b, a)));
    }

    /// A row is no longer than there are nodes.
    pub(super) proof fn lemma_row_len(&self, rows: Seq<Vec<usize>>, u: int)
        requires
            undirected_rows_of(*self, rows),
            0 <= u < rows.len(),
        ensures
            rows[u]@.len() <= self.nodes@.len(),
    {
        assert(row_ok(*self, rows[u]@, u));
        super::graph::lemma_distinct_below(rows[u]@, self.nodes@.len());
    }
}

} // verus!
