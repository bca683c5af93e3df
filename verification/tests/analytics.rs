use std::collections::HashMap;
use gstore::analytics::GraphView;
use gstore::model::IdTriple;
use gstore::store::TripleStore;

/// Three-component test graph:
///
/// ```text
/// Component A (path):      10 → 11 → 12 → 13
/// Component B (triangle):  20 → 21 → 22 → 20
/// Component C (isolated):  30 → 30  (self-loop — appears as a single node)
/// ```
fn make_store() -> TripleStore {
    let mut s = TripleStore::new();
    let p = 1u32;
    s.insert(IdTriple::new(10, p, 11));
    s.insert(IdTriple::new(11, p, 12));
    s.insert(IdTriple::new(12, p, 13));
    s.insert(IdTriple::new(20, p, 21));
    s.insert(IdTriple::new(21, p, 22));
    s.insert(IdTriple::new(22, p, 20));
    s.insert(IdTriple::new(30, p, 30)); // self-loop places 30 in the graph
    s
}

#[test]
fn test_degrees() {
    let store = make_store();
    let g = GraphView::from_store(&store);

    // Path: tail (10) has out=1, in=0; head (13) has out=0, in=1.
    assert_eq!(g.out_degree(10), Some(1));
    assert_eq!(g.in_degree(10), Some(0));
    assert_eq!(g.out_degree(11), Some(1));
    assert_eq!(g.in_degree(11), Some(1));
    assert_eq!(g.out_degree(13), Some(0));
    assert_eq!(g.in_degree(13), Some(1));

    // Triangle: each node has exactly one outgoing and one incoming edge.
    assert_eq!(g.out_degree(20), Some(1));
    assert_eq!(g.in_degree(20), Some(1)); // ← from 22

    // Self-loop on 30: counts as out=1, in=1.
    assert_eq!(g.out_degree(30), Some(1));
    assert_eq!(g.in_degree(30), Some(1));

    // Non-existent node.
    assert_eq!(g.out_degree(999), None);
    assert_eq!(g.in_degree(999), None);
}

#[test]
fn test_bfs_distances() {
    let store = make_store();
    let g = GraphView::from_store(&store);

    let dists = g.bfs_distances(10).expect("node 10 must be in graph");
    assert_eq!(dists[&10], 0);
    assert_eq!(dists[&11], 1);
    assert_eq!(dists[&12], 2);
    assert_eq!(dists[&13], 3);
    // Triangle and isolated node are unreachable from 10.
    assert!(!dists.contains_key(&20));
    assert!(!dists.contains_key(&30));

    // From inside the triangle (directed 3-cycle).
    let d20 = g.bfs_distances(20).expect("node 20 must be in graph");
    assert_eq!(d20[&20], 0);
    assert_eq!(d20[&21], 1);
    assert_eq!(d20[&22], 2);
}

#[test]
fn test_shortest_path() {
    let store = make_store();
    let g = GraphView::from_store(&store);

    let path = g.shortest_path(10, 13).expect("directed path 10→13 exists");
    assert_eq!(path, vec![10, 11, 12, 13]);

    // Trivial same-node path.
    assert_eq!(g.shortest_path(10, 10), Some(vec![10]));

    // No path from path component to triangle component (disconnected).
    assert!(g.shortest_path(10, 20).is_none());

    // No reverse-direction path (directed graph).
    assert!(g.shortest_path(13, 10).is_none());
}

#[test]
fn test_weakly_connected_components() {
    let store = make_store();
    let g = GraphView::from_store(&store);

    let (comp_map, num_components) = g.weakly_connected_components();

    // Expect exactly three WCCs: {10,11,12,13}, {20,21,22}, {30}.
    assert_eq!(num_components, 3);

    // All path nodes share the same representative.
    let rep_path = comp_map[&10];
    assert_eq!(comp_map[&11], rep_path);
    assert_eq!(comp_map[&12], rep_path);
    assert_eq!(comp_map[&13], rep_path);

    // All triangle nodes share the same representative.
    let rep_tri = comp_map[&20];
    assert_eq!(comp_map[&21], rep_tri);
    assert_eq!(comp_map[&22], rep_tri);

    // Isolated node 30 is its own component.
    let rep_iso = comp_map[&30];
    assert_ne!(rep_iso, rep_path);
    assert_ne!(rep_iso, rep_tri);
}


#[test]
fn test_triangle_count() {
    let store = make_store();
    let g = GraphView::from_store(&store);
    // Path contributes 0 triangles; cycle {20,21,22} contributes 1;
    // self-loop on 30 contributes 0.
    assert_eq!(g.triangle_count(), 1);

    // Two triangles sharing edge 1–2: {1,2,3} and {1,2,4}.
    // Directed edges: 1→2, 2→3, 3→1, 2→4, 4→1.
    let mut s2 = TripleStore::new();
    let p = 1u32;
    s2.insert(IdTriple::new(1, p, 2));
    s2.insert(IdTriple::new(2, p, 3));
    s2.insert(IdTriple::new(3, p, 1));
    s2.insert(IdTriple::new(2, p, 4));
    s2.insert(IdTriple::new(4, p, 1));
    let g2 = GraphView::from_store(&s2);
    assert_eq!(g2.triangle_count(), 2);
}

// ---- strongly-connected components ------------------------------------

#[test]
fn test_scc_directed_cycle_is_one() {
    // A directed cycle 1→2→3→4→1 is a single SCC.
    let mut s = TripleStore::new();
    let p = 1u32;
    s.insert(IdTriple::new(1, p, 2));
    s.insert(IdTriple::new(2, p, 3));
    s.insert(IdTriple::new(3, p, 4));
    s.insert(IdTriple::new(4, p, 1));
    let g = GraphView::from_store(&s);

    let (comp, count) = g.strongly_connected_components();
    assert_eq!(count, 1, "directed cycle collapses to one SCC");
    let c = comp[&1];
    assert_eq!(comp[&2], c);
    assert_eq!(comp[&3], c);
    assert_eq!(comp[&4], c);
}

#[test]
fn test_scc_path_is_n_singletons() {
    // An acyclic chain of N nodes yields N singleton SCCs.
    let mut s = TripleStore::new();
    let p = 1u32;
    s.insert(IdTriple::new(1, p, 2));
    s.insert(IdTriple::new(2, p, 3));
    s.insert(IdTriple::new(3, p, 4));
    s.insert(IdTriple::new(4, p, 5));
    let g = GraphView::from_store(&s);

    let (comp, count) = g.strongly_connected_components();
    assert_eq!(count, 5, "a 5-node path has 5 SCCs");
    // Every node must have a distinct component id.
    let ids: std::collections::HashSet<usize> = comp.values().copied().collect();
    assert_eq!(ids.len(), 5);
}

#[test]
fn test_scc_mixed_graph() {
    // make_store(): path 10→11→12→13 (4 SCCs), 3-cycle 20→21→22→20 (1 SCC),
    // self-loop 30 (1 singleton SCC). Total = 6 SCCs.
    let store = make_store();
    let g = GraphView::from_store(&store);
    let (comp, count) = g.strongly_connected_components();
    assert_eq!(count, 6);

    // The 3-cycle is one component.
    let c20 = comp[&20];
    assert_eq!(comp[&21], c20);
    assert_eq!(comp[&22], c20);

    // Path nodes are all distinct, and distinct from the cycle.
    assert_ne!(comp[&10], comp[&11]);
    assert_ne!(comp[&11], comp[&12]);
    assert_ne!(comp[&12], comp[&13]);
    assert_ne!(comp[&10], c20);

    // The self-looping node is its own singleton SCC.
    assert_ne!(comp[&30], c20);
}





// ---- Louvain community detection --------------------------------------

#[test]
fn test_louvain_two_cliques() {
    // Two K5 cliques (ids 1..=5 and 11..=15) joined by a single bridge
    // edge 5→11. Louvain should recover exactly the two cliques.
    let mut s = TripleStore::new();
    let p = 1u32;
    let clique_a = [1u32, 2, 3, 4, 5];
    let clique_b = [11u32, 12, 13, 14, 15];
    for clique in [&clique_a, &clique_b] {
        for i in 0..clique.len() {
            for j in (i + 1)..clique.len() {
                s.insert(IdTriple::new(clique[i], p, clique[j]));
                s.insert(IdTriple::new(clique[j], p, clique[i]));
            }
        }
    }
    s.insert(IdTriple::new(5, p, 11)); // single bridge

    let g = GraphView::from_store(&s);
    let comm = g.louvain();

    let distinct: std::collections::HashSet<usize> = comm.values().copied().collect();
    assert_eq!(distinct.len(), 2, "expected exactly two communities");

    // Every node of clique A shares one community...
    let ca = comm[&1];
    for &id in &clique_a {
        assert_eq!(comm[&id], ca, "clique-A node {id} drifted");
    }
    // ...and every node of clique B shares another.
    let cb = comm[&11];
    for &id in &clique_b {
        assert_eq!(comm[&id], cb, "clique-B node {id} drifted");
    }
    assert_ne!(ca, cb, "the two cliques must be different communities");
}

// ---- k-core decomposition ---------------------------------------------

#[test]
fn test_k_core_known_graph() {
    // K4 on {1,2,3,4} (core 3); node 5 attached to {1,2} (core 2);
    // node 6 attached to {1} (core 1).
    let mut s = TripleStore::new();
    let p = 1u32;
    // K4
    for (a, b) in [(1, 2), (1, 3), (1, 4), (2, 3), (2, 4), (3, 4)] {
        s.insert(IdTriple::new(a, p, b));
    }
    s.insert(IdTriple::new(5, p, 1));
    s.insert(IdTriple::new(5, p, 2));
    s.insert(IdTriple::new(6, p, 1));

    let g = GraphView::from_store(&s);
    let core = g.k_core();

    assert_eq!(core[&1], 3);
    assert_eq!(core[&2], 3);
    assert_eq!(core[&3], 3);
    assert_eq!(core[&4], 3);
    assert_eq!(core[&5], 2);
    assert_eq!(core[&6], 1);
}

#[test]
fn test_k_core_triangle_with_pendant() {
    // Triangle {1,2,3} (core 2) plus pendant 4–1 (core 1).
    let mut s = TripleStore::new();
    let p = 1u32;
    s.insert(IdTriple::new(1, p, 2));
    s.insert(IdTriple::new(2, p, 3));
    s.insert(IdTriple::new(3, p, 1));
    s.insert(IdTriple::new(1, p, 4));
    let g = GraphView::from_store(&s);
    let core = g.k_core();

    assert_eq!(core[&1], 2);
    assert_eq!(core[&2], 2);
    assert_eq!(core[&3], 2);
    assert_eq!(core[&4], 1);
}

#[test]
fn distance_sums_of_a_path() {
    // 1 -> 2 -> 3, and 4 with a loop.
    let mut s = TripleStore::new();
    s.insert(IdTriple::new(1, 1, 2));
    s.insert(IdTriple::new(2, 1, 3));
    s.insert(IdTriple::new(4, 1, 4));
    let g = GraphView::from_store(&s);
    let sums = g.distance_sums();
    assert_eq!(sums[&1], (2, 3));
    assert_eq!(sums[&2], (1, 1));
    assert_eq!(sums[&3], (0, 0));
    assert_eq!(sums[&4], (0, 0));
    assert_eq!(sums.len(), 4);
}

#[test]
fn edges_are_counted_once_per_pair() {
    let g = GraphView::from_store(&make_store());
    let total: usize = g.all_out_degrees().values().sum();
    assert_eq!(g.edge_count(), total);
}

#[test]
fn without_edges_every_node_is_a_community() {
    let g = GraphView::from_store(&TripleStore::new());
    assert!(g.louvain().is_empty());
    assert_eq!(g.edge_count(), 0);
}

/// The modularity of a partition of an undirected graph without loops.
fn modularity(edges: &[(u32, u32)], community: &dyn Fn(u32) -> usize) -> f64 {
    let m = edges.len() as f64;
    let mut inside = 0.0;
    let mut degree: HashMap<usize, f64> = HashMap::new();
    for &(a, b) in edges {
        if community(a) == community(b) {
            inside += 1.0;
        }
        *degree.entry(community(a)).or_default() += 1.0;
        *degree.entry(community(b)).or_default() += 1.0;
    }
    inside / m - degree.values().map(|d| (d / (2.0 * m)).powi(2)).sum::<f64>()
}

#[test]
fn communities_are_better_than_single_nodes() {
    let edges = [(1, 2), (2, 3), (3, 1), (4, 5), (5, 6), (6, 4), (3, 4)];
    let mut s = TripleStore::new();
    for (a, b) in edges {
        s.insert(IdTriple::new(a, 1, b));
    }
    let g = GraphView::from_store(&s);
    let found = g.louvain();
    let q = modularity(&edges, &|x| found[&x]);
    let alone = modularity(&edges, &|x| x as usize);
    let together = modularity(&edges, &|_| 0);
    assert!(q > alone && q > together, "{q} {alone} {together}");
    assert_eq!(found[&1], found[&2]);
    assert_ne!(found[&1], found[&5]);
}

/// A node joins the community that gains most, and none outside its component.
#[test]
fn communities_stay_within_components() {
    // Two triangles and a pair, with nothing between them.
    let edges = [(1, 2), (2, 3), (3, 1), (11, 12), (12, 13), (13, 11), (21, 22)];
    let mut s = TripleStore::new();
    for (a, b) in edges {
        s.insert(IdTriple::new(a, 1, b));
    }
    let found = GraphView::from_store(&s).louvain();
    for (a, b) in edges {
        assert_eq!(found[&a], found[&b]);
    }
    // Numbered as the nodes appear.
    assert_eq!((found[&1], found[&11], found[&21]), (0, 1, 2));
}

#[test]
fn a_path_has_as_many_steps_as_the_distance_and_no_node_twice() {
    let mut s = make_store();
    s.insert(IdTriple::new(10, 2, 12));
    s.insert(IdTriple::new(13, 1, 10));
    let g = GraphView::from_store(&s);
    for src in [10u32, 11, 12, 13, 20, 30, 99] {
        let dist = g.bfs_distances(src);
        for dst in [10u32, 11, 12, 13, 20, 21, 30, 99] {
            let reached = dist.as_ref().and_then(|d| d.get(&dst).copied());
            match g.shortest_path(src, dst) {
                None => assert_eq!(reached, None),
                Some(p) => {
                    assert_eq!((p[0], *p.last().unwrap()), (src, dst));
                    assert_eq!(reached, Some(p.len() as u32 - 1));
                    for w in p.windows(2) {
                        assert!(g.in_neighbors(w[1]).unwrap().contains(&w[0]));
                    }
                    let mut seen = p.clone();
                    seen.sort_unstable();
                    seen.dedup();
                    assert_eq!(seen.len(), p.len());
                }
            }
        }
    }
}

#[test]
fn communities_lie_within_components_and_are_numbered_without_gaps() {
    let mut s = make_store();
    for (a, b) in [(40, 41), (41, 42), (42, 40), (42, 43), (43, 44), (44, 45), (45, 43)] {
        s.insert(IdTriple::new(a, 1, b));
    }
    let g = GraphView::from_store(&s);
    let c = g.louvain();
    let (parts, _) = g.weakly_connected_components();
    assert_eq!(c.len(), parts.len());
    for (a, x) in &c {
        for (b, y) in &c {
            if x == y {
                assert_eq!(parts[a], parts[b]);
            }
        }
    }
    let mut labels: Vec<usize> = c.values().copied().collect();
    labels.sort_unstable();
    labels.dedup();
    assert_eq!(labels, (0..labels.len()).collect::<Vec<_>>());
    // Nodes are visited in ascending order: two triangles on a bridge part there.
    assert_eq!((c[&40], c[&41]), (c[&42], c[&42]));
    assert_eq!((c[&43], c[&44]), (c[&45], c[&45]));
    assert_ne!(c[&42], c[&43]);
    assert!(GraphView::from_store(&TripleStore::new()).louvain().is_empty());
}
