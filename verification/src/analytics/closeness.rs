//! How near each node is to those it reaches.

use super::bfs::distances_are;
use super::graph::{distance_is, joins, reaches, Digraph};
use super::sums::sum;
use super::GraphView;
use crate::model::EntityLiteralId;
use crate::order::{lemma_ascending_unique, lists};
use std::collections::HashMap;
use vstd::prelude::*;

verus! {

/// The least number of steps between two nodes, the second of which can be reached.
pub open spec fn distance(e: Set<(u32, u32)>, a: u32, b: u32) -> int {
    choose|d: int| distance_is(e, a, b, d)
}

proof fn lemma_distance(e: Set<(u32, u32)>, a: u32, b: u32, d: int)
    requires
        distance_is(e, a, b, d),
    ensures
        distance(e, a, b) == d,
{
    let c = distance(e, a, b);
    assert(distance_is(e, a, b, c));
    let p = choose|p: Seq<u32>| joins(e, p, a, b) && p.len() == d + 1;
    let q = choose|q: Seq<u32>| joins(e, q, a, b) && q.len() == c + 1;
    assert(joins(e, p, a, b) && joins(e, q, a, b));
}

/// The distances from `a` to the nodes of a list, 0 for those out of reach.
pub open spec fn steps_to(e: Set<(u32, u32)>, a: u32, s: Seq<u32>) -> spec_fn(int) -> int {
    |i: int|
        if reaches(e, a, s[i]) {
            distance(e, a, s[i])
        } else {
            0
        }
}

/// 1 for the nodes of a list that `a` reaches, other than itself.
pub open spec fn within_reach(e: Set<(u32, u32)>, a: u32, s: Seq<u32>) -> spec_fn(int) -> int {
    |i: int|
        if s[i] != a && reaches(e, a, s[i]) {
            1
        } else {
            0
        }
}

/// How many other nodes `a` reaches, and the sum of the distances to them.
pub open spec fn reach_of(g: Digraph, s: Seq<u32>, a: u32, reach: int, total: int) -> bool {
    &&& reach == sum(s.len(), within_reach(g.edges, a, s))
    &&& total == sum(s.len(), steps_to(g.edges, a, s))
}

impl GraphView {
    /// For each node, how many others it reaches along directed edges, and the sum of
    /// the distances to them.
    pub fn distance_sums(&self) -> (r: HashMap<EntityLiteralId, (u64, u64)>)
        requires
            self.wf(),
            self@.nodes.len() <= u32::MAX,
        ensures
            r@.dom() == self@.nodes,
            forall|s: Seq<u32>, a: u32| #![trigger lists(s, self@.nodes), r@.contains_key(a)] lists(s, self@.nodes) && r@.contains_key(a) ==> reach_of(self@, s, a, r@[a].0 as int, r@[a].1 as int),
    {
        let mut r: HashMap<EntityLiteralId, (u64, u64)> = HashMap::new();
        let ghost ids = self.nodes@;
        let mut i: usize = 0;
        proof {
            super::lemma_lists_len(self.nodes@, self@.nodes);
            assert(lists(ids, self@.nodes));
        }
        while i < self.nodes.len()
            invariant
                i <= ids.len(),
                ids == self.nodes@,
                ids.len() <= u32::MAX,
                self.wf(),
                self@.nodes.len() <= u32::MAX,
                lists(ids, self@.nodes),
                forall|x: u32| #[trigger] r@.contains_key(x) ==> ids.contains(x) && reach_of(self@, ids, x, r@[x].0 as int, r@[x].1 as int),
                forall|k: int| 0 <= k < i ==> r@.contains_key(#[trigger] ids[k]),
            decreases self.nodes.len() - i,
        {
            let a: u32 = self.nodes[i];
            assert(ids.contains(a));
            let found: (u64, u64) = self.sums_from(a);
            r.insert(a, found);
            i = i + 1;
        }
        proof {
            assert forall|x: u32| r@.dom().contains(x) <==> self@.nodes.contains(x) by {
                if ids.contains(x) {
                    let k = choose|k: int| 0 <= k < ids.len() && ids[k] == x;
                    assert(r@.contains_key(ids[k]));
                }
            }
            assert(r@.dom() =~= self@.nodes);
            assert forall|s: Seq<u32>, a: u32| #![trigger lists(s, self@.nodes), r@.contains_key(a)] lists(s, self@.nodes) && r@.contains_key(a) implies reach_of(self@, s, a, r@[a].0 as int, r@[a].1 as int) by {
                assert forall|x: u32| s.contains(x) <==> ids.contains(x) by {
                    assert(self@.nodes.contains(x) <==> s.contains(x));
                    assert(self@.nodes.contains(x) <==> ids.contains(x));
                }
                lemma_ascending_unique(s, ids);
            }
        }
        r
    }

    fn sums_from(&self, a: u32) -> (r: (u64, u64))
        requires
            self.wf(),
            self@.nodes.len() <= u32::MAX,
            self.nodes@.len() <= u32::MAX,
            self@.nodes.contains(a),
        ensures
            reach_of(self@, self.nodes@, a, r.0 as int, r.1 as int),
    {
        let ghost ids = self.nodes@;
        let ghost e = self@.edges;
        let dist: HashMap<EntityLiteralId, u32> = match self.bfs_distances(a) {
            Some(m) => m,
            None => HashMap::new(),
        };
        proof {
            let found = Some(dist@);
            assert(distances_are(self@, a, found));
            assert(found->0 == dist@);
        }
        let mut reach: u64 = 0;
        let mut total: u64 = 0;
        let mut i: usize = 0;
        while i < self.nodes.len()
            invariant
                i <= ids.len(),
                ids == self.nodes@,
                ids.len() <= u32::MAX,
                e == self@.edges,
                forall|x: u32| #[trigger] dist@.contains_key(x) <==> reaches(e, a, x),
                forall|x: u32| #[trigger] dist@.contains_key(x) ==> distance_is(e, a, x, dist@[x] as int),
                reach == sum(i as nat, within_reach(e, a, ids)),
                total == sum(i as nat, steps_to(e, a, ids)),
                reach <= i,
                total <= i * 0xffff_ffff,
            decreases self.nodes.len() - i,
        {
            let y: u32 = self.nodes[i];
            match dist.get(&y) {
                Some(d) => {
                    proof {
                        assert(dist@.contains_key(y));
                        lemma_distance(e, a, y, *d as int);
                        assert(i * 0xffff_ffff + 0xffff_ffff <= 0xffff_ffff * 0xffff_ffff) by (nonlinear_arith)
                            requires
                                i < 0xffff_ffff,
                        ;
                    }
                    total = total + *d as u64;
                    if y != a {
                        reach = reach + 1;
                    }
                },
                None => {
                    assert(!dist@.contains_key(y));
                },
            }
            i = i + 1;
        }
        (reach, total)
    }
}

} // verus!
