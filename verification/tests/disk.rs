use gstore::kvstore::bptree::{be32, de32, BTree};
use gstore::kvstore::disk::DiskStore;
use gstore::kvstore::disk_dict::DiskDict;
use gstore::kvstore::pager::Pager;
use gstore::kvstore::wal::{PageImage, PAGE_SIZE};
use gstore::model::{IdTriple, Term, Triple};
use gstore::GStoreError;

/// Write committed batches to a file image.
fn apply(file: &mut Vec<u8>, commits: Vec<Vec<PageImage>>) {
    for batch in commits {
        for image in batch {
            let at = image.id as usize * PAGE_SIZE;
            if file.len() < at + PAGE_SIZE {
                file.resize(at + PAGE_SIZE, 0);
            }
            file[at..at + PAGE_SIZE].copy_from_slice(&image.data);
        }
    }
}

fn fresh(capacity: usize) -> Pager {
    Pager::open(&[], None, capacity).unwrap()
}

fn iri3(s: &str, p: &str, o: &str) -> Triple {
    Triple::new(Term::iri(s), Term::iri(p), Term::iri(o))
}

fn small() -> Vec<Triple> {
    vec![
        Triple::new(Term::iri("root"), Term::iri("name"), Term::plain_literal("Bookug Lobert")),
        iri3("root", "contain", "node0"),
        iri3("root", "contain", "node1"),
        iri3("node1", "own", "point0"),
        iri3("node1", "own", "point1"),
    ]
}

fn build(triples: Vec<Triple>) -> DiskStore {
    DiskStore::build_str(&[], None, 64, Ok(triples)).unwrap()
}

fn image(ds: &mut DiskStore) -> Vec<u8> {
    let mut file = Vec::new();
    apply(&mut file, ds.take_commits());
    file
}

#[test]
fn insert_get_basic() {
    let mut pg = fresh(64);
    let t = BTree::new(0);
    t.insert(&mut pg, b"alice", b"1").unwrap();
    t.insert(&mut pg, b"bob", b"2").unwrap();
    t.insert(&mut pg, b"carol", b"3").unwrap();
    assert_eq!(t.get(&mut pg, b"bob").unwrap().as_deref(), Some(&b"2"[..]));
    assert_eq!(t.get(&mut pg, b"alice").unwrap().as_deref(), Some(&b"1"[..]));
    assert_eq!(t.get(&mut pg, b"dave").unwrap(), None);
}

#[test]
fn replace_value() {
    let mut pg = fresh(64);
    let t = BTree::new(0);
    t.insert(&mut pg, b"k", b"1").unwrap();
    t.insert(&mut pg, b"k", b"99").unwrap();
    assert_eq!(t.get(&mut pg, b"k").unwrap().as_deref(), Some(&b"99"[..]));
}

#[test]
fn many_inserts_force_splits_and_stay_correct() {
    let mut pg = fresh(64);
    let t = BTree::new(0);
    let n = 5000u32;
    for i in 0..n {
        t.insert(&mut pg, format!("key{i:08}").as_bytes(), &be32(i)).unwrap();
    }
    for i in 0..n {
        assert_eq!(
            t.get(&mut pg, format!("key{i:08}").as_bytes()).unwrap(),
            Some(be32(i).to_vec()),
            "key {i}"
        );
    }
    assert!(pg.page_count() > 2, "expected splits to allocate pages");
}

#[test]
fn prefix_scan() {
    let mut pg = fresh(64);
    let t = BTree::new(0);
    let key = |s: u32, p: u32, o: u32| {
        let mut k = Vec::with_capacity(12);
        k.extend_from_slice(&be32(s));
        k.extend_from_slice(&be32(p));
        k.extend_from_slice(&be32(o));
        k
    };
    t.insert(&mut pg, &key(1, 10, 100), b"").unwrap();
    t.insert(&mut pg, &key(1, 10, 200), b"").unwrap();
    t.insert(&mut pg, &key(1, 20, 300), b"").unwrap();
    t.insert(&mut pg, &key(2, 10, 100), b"").unwrap();

    let mut p = Vec::new();
    p.extend_from_slice(&be32(1));
    assert_eq!(t.scan_prefix(&mut pg, &p).unwrap().len(), 3);

    let mut p2 = Vec::new();
    p2.extend_from_slice(&be32(1));
    p2.extend_from_slice(&be32(10));
    assert_eq!(t.scan_prefix(&mut pg, &p2).unwrap().len(), 2);
}

#[test]
fn bptree_persists_across_reopen() {
    let mut file = Vec::new();
    {
        let mut pg = fresh(64);
        let t = BTree::new(0);
        for i in 0..1000u32 {
            t.insert(&mut pg, format!("k{i:05}").as_bytes(), &be32(i)).unwrap();
        }
        pg.flush();
        apply(&mut file, pg.take_commits());
    }
    {
        let mut pg = Pager::open(&file, None, 64).unwrap();
        let t = BTree::new(0);
        assert_eq!(t.get(&mut pg, b"k00500").unwrap(), Some(be32(500).to_vec()));
        assert_eq!(t.iter_all(&mut pg).unwrap().len(), 1000);
    }
}

#[test]
fn removed_keys_are_gone_and_the_others_stay() {
    let mut pg = fresh(64);
    let t = BTree::new(0);
    for i in 0..2000u32 {
        t.insert(&mut pg, format!("k{i:05}").as_bytes(), &be32(i)).unwrap();
    }
    for i in (0..2000u32).step_by(2) {
        assert!(t.delete(&mut pg, format!("k{i:05}").as_bytes()).unwrap());
    }
    assert!(!t.delete(&mut pg, b"k00000").unwrap());
    assert!(!t.delete(&mut pg, b"nothing").unwrap());
    let all = t.iter_all(&mut pg).unwrap();
    assert_eq!(all.len(), 1000);
    assert_eq!(all[0].0, b"k00001".to_vec());
    assert_eq!(t.get(&mut pg, b"k01000").unwrap(), None);
    assert_eq!(t.get(&mut pg, b"k01001").unwrap(), Some(be32(1001)));
    t.insert(&mut pg, b"k01000", b"x").unwrap();
    assert_eq!(t.iter_all(&mut pg).unwrap().len(), 1001);
}

#[test]
fn a_tree_in_an_empty_slot_holds_nothing() {
    let mut pg = fresh(8);
    let t = BTree::new(3);
    assert_eq!(t.get(&mut pg, b"k").unwrap(), None);
    assert!(!t.delete(&mut pg, b"k").unwrap());
    assert!(t.iter_all(&mut pg).unwrap().is_empty());
}

#[test]
fn trees_in_two_slots_do_not_meet() {
    let mut pg = fresh(8);
    let (a, b) = (BTree::new(0), BTree::new(1));
    a.insert(&mut pg, b"k", b"a").unwrap();
    b.insert(&mut pg, b"k", b"b").unwrap();
    a.delete(&mut pg, b"k").unwrap();
    assert_eq!(a.get(&mut pg, b"k").unwrap(), None);
    assert_eq!(b.get(&mut pg, b"k").unwrap(), Some(b"b".to_vec()));
}

#[test]
fn big_endian_ids_keep_their_order() {
    assert_eq!(be32(0x01020304), vec![1, 2, 3, 4]);
    assert_eq!(de32(&[0, 0, 1, 0]), 256);
    assert!(be32(255) < be32(256));
}

#[test]
fn build_counts_match() {
    let ds = build(small());
    assert_eq!(ds.triple_count(), 5);
    assert_eq!(ds.entity_num(), 5); // root, node0, node1, point0, point1
    assert_eq!(ds.literal_num(), 1);
    assert_eq!(ds.predicate_num(), 3);
}

#[test]
fn access_patterns_against_memory() {
    // The disk store must answer every access pattern identically to the
    // in-memory store built from the same data.
    let mut ds = build(small());
    let (dict, mem) = ds.to_memory();

    let root = dict.entity_id(&Term::iri("root").dict_key()).unwrap();
    let contain = dict.predicate_id(&Term::iri("contain").dict_key()).unwrap();

    // s p ?
    let mut disk = ds.o_by_sp(root, contain);
    disk.sort_unstable();
    let mut memv = mem.o_by_sp(root, contain);
    memv.sort_unstable();
    assert_eq!(disk, memv);

    // s ? ?
    let mut dp = ds.po_by_s(root);
    dp.sort_unstable();
    let mut mp = mem.po_by_s(root).to_vec();
    mp.sort_unstable();
    assert_eq!(dp, mp);

    // exists
    let node0 = dict.entity_id(&Term::iri("node0").dict_key()).unwrap();
    assert!(ds.contains(root, contain, node0));
    assert!(!ds.contains(node0, contain, root));

    // the other patterns
    assert_eq!(ds.s_by_po(contain, node0), mem.s_by_po(contain, node0));
    assert_eq!(ds.p_by_so(root, node0), mem.p_by_so(root, node0));
    assert_eq!(ds.subs_by_p(contain), mem.subs_by_p(contain));
    assert_eq!(ds.objs_by_p(contain), mem.objs_by_p(contain));
    assert_eq!(ds.subject_keys(), mem.subject_keys());
    assert_eq!(ds.object_keys(), mem.object_keys());
    let mut so = ds.so_by_p(contain);
    so.sort_unstable();
    assert_eq!(so, mem.so_by_p(contain));
    let mut ps = ds.ps_by_o(node0);
    ps.sort_unstable();
    assert_eq!(ps, mem.ps_by_o(node0));
}

#[test]
fn persists_and_reopens() {
    let file = image(&mut build(small()));
    let mut ds = DiskStore::open(&file, None, 64).unwrap();
    assert_eq!(ds.triple_count(), 5);
    // A query-shaped lookup works after reopen.
    let (dict, _mem) = ds.to_memory();
    let node1 = dict.entity_id(&Term::iri("node1").dict_key()).unwrap();
    let own = dict.predicate_id(&Term::iri("own").dict_key()).unwrap();
    assert_eq!(ds.o_by_sp(node1, own).len(), 2);
}

#[test]
fn iter_all_roundtrips() {
    let mut ds = build(small());
    assert_eq!(ds.iter_all().len(), 5);
}

#[test]
fn delete_triple_updates_all_indexes() {
    let mut ds = build(small());
    let t = iri3("node1", "own", "point0");
    assert!(ds.delete_triple(&t).unwrap());
    assert_eq!(ds.triple_count(), 4);
    // deleting again is a no-op
    assert!(!ds.delete_triple(&t).unwrap());

    // the triple is gone from every access pattern
    let node1 = {
        let (dict, _) = ds.to_memory();
        dict.entity_id(&Term::iri("node1").dict_key()).unwrap()
    };
    let own = ds.predicate_id(&Term::iri("own").dict_key()).unwrap();
    let point0 = {
        let (dict, _) = ds.to_memory();
        dict.entity_id(&Term::iri("point0").dict_key()).unwrap()
    };
    assert!(!ds.contains(node1, own, point0));
    let objs = ds.o_by_sp(node1, own);
    assert_eq!(objs.len(), 1, "only point1 remains under (node1, own)");
    assert!(!objs.contains(&point0));
    assert!(!ds.s_by_po(own, point0).contains(&node1));
    assert!(!ds.p_by_so(node1, point0).contains(&own));
}

#[test]
fn delete_then_reopen_persists() {
    let file = {
        let mut ds = build(small());
        let t = iri3("root", "contain", "node0");
        assert!(ds.delete_triple(&t).unwrap());
        ds.flush();
        image(&mut ds)
    };
    let mut ds = DiskStore::open(&file, None, 64).unwrap();
    assert_eq!(ds.triple_count(), 4);
    assert_eq!(ds.iter_all().len(), 4);
}

#[test]
fn deleting_an_unknown_triple_changes_nothing() {
    let mut ds = build(small());
    assert!(!ds.delete_triple(&iri3("nobody", "own", "point0")).unwrap());
    assert!(!ds.delete_triple(&iri3("node1", "lost", "point0")).unwrap());
    assert!(!ds.delete_triple(&iri3("node1", "own", "root")).unwrap());
    assert_eq!(ds.triple_count(), 5);
    // The terms of a deleted triple keep their ids.
    assert!(ds.delete_triple(&iri3("node1", "own", "point0")).unwrap());
    assert_eq!(ds.entity_num(), 5);
    assert!(ds.insert_triple(&iri3("node1", "own", "point0")).unwrap());
    assert_eq!(ds.triple_count(), 5);
}

#[test]
fn a_triple_is_added_once() {
    let mut ds = build(Vec::new());
    let t = iri3("a", "p", "b");
    assert!(ds.insert_triple(&t).unwrap());
    assert!(!ds.insert_triple(&t).unwrap());
    assert_eq!(ds.iter_all(), vec![IdTriple::new(0, 0, 1)]);
    assert_eq!(ds.id_to_string(1), Some("<b>".to_string()));
    assert_eq!(ds.id_to_string(2), None);
    assert_eq!(ds.predicate_to_string(0), Some("<p>".to_string()));
    assert_eq!(ds.term_id(&Term::iri("b")), Some(1));
    assert_eq!(ds.term_id(&Term::plain_literal("b")), None);
}

#[test]
fn many_triples_survive_reopening() {
    let mut triples = Vec::new();
    for i in 0..300 {
        triples.push(iri3(&format!("s{i}"), "p", &format!("o{}", i % 7)));
    }
    let file = image(&mut build(triples));
    let mut ds = DiskStore::open(&file, None, 16).unwrap();
    assert_eq!(ds.triple_count(), 300);
    assert_eq!(ds.distinct_subjects(), 307);
    assert_eq!(ds.object_keys().len(), 7);
    let p = ds.predicate_id("<p>").unwrap();
    let o3 = ds.term_id(&Term::iri("o3")).unwrap();
    assert_eq!(ds.s_by_po(p, o3).len(), 43);
}

#[test]
fn a_document_that_does_not_parse_builds_nothing() {
    let r = DiskStore::build_str(&[], None, 64, Err(GStoreError::Database("no".to_string())));
    assert!(matches!(r, Err(GStoreError::Database(m)) if m == "no"));
    assert!(DiskStore::open(&[1u8; PAGE_SIZE], None, 64).is_err());
}

#[test]
fn keys_stay_in_memory_once_they_were_read() {
    let mut ds = build(small());
    let mut dict = DiskDict::new();
    let root = dict.term_id(&mut ds, &Term::iri("root")).unwrap();
    assert_eq!(dict.resident_string_count(), 0);
    assert_eq!(dict.id_to_string(&mut ds, root), Some("<root>".to_string()));
    assert_eq!(dict.id_to_string(&mut ds, root), Some("<root>".to_string()));
    assert_eq!(dict.resident_string_count(), 1);
    let name = dict.predicate_id(&mut ds, "<name>").unwrap();
    assert_eq!(dict.predicate_to_string(&mut ds, name), Some("<name>".to_string()));
    assert_eq!(dict.resident_string_count(), 2);
    assert_eq!(dict.id_to_string(&mut ds, 4711), None);
}

#[test]
fn a_tree_tells_whether_it_has_room() {
    let mut pg = fresh(64);
    let t = BTree::new(0);
    let most = vec![7u8; PAGE_SIZE - 7 - 2 - 2 - 1];
    let more = vec![7u8; PAGE_SIZE - 7 - 2 - 2];
    assert!(t.has_room(&mut pg, b"k", &most));
    assert!(!t.has_room(&mut pg, b"k", &more));
    t.insert(&mut pg, b"k", &most).unwrap();
    assert_eq!(t.get(&mut pg, b"k").unwrap(), Some(most.clone()));
    assert!(t.has_room(&mut pg, b"k", b"short"));
    assert!(t.has_room(&mut pg, b"l", &most));
    assert!(!t.has_room(&mut pg, b"l", &more));
    t.insert(&mut pg, b"l", &most).unwrap();
    assert_eq!(t.get(&mut pg, b"l").unwrap(), Some(most));
    assert_eq!(t.iter_all(&mut pg).unwrap().len(), 2);
}

#[test]
fn a_term_longer_than_a_page_is_not_added() {
    let long = Triple::new(Term::iri("s"), Term::iri("p"), Term::plain_literal(&"x".repeat(PAGE_SIZE)));
    let wide = Triple::new(Term::iri("s"), Term::iri("p"), Term::plain_literal(&"x".repeat(600)));
    let mut ds = build(small());
    assert!(matches!(ds.try_insert_triple(&long), Ok(None)));
    assert!(ds.term_id(&Term::iri("s")).is_some());
    assert_eq!(ds.triple_count(), 5);
    assert!(matches!(ds.try_insert_triple(&wide), Ok(Some(true))));
    assert!(matches!(ds.try_insert_triple(&wide), Ok(Some(false))));
    assert_eq!(ds.triple_count(), 6);
    assert!(matches!(DiskStore::try_build_str(&[], None, 64, Ok(vec![wide.clone(), long])), Ok(None)));
    let built = DiskStore::try_build_str(&[], None, 64, Ok(vec![wide])).unwrap();
    assert_eq!(built.unwrap().triple_count(), 1);
}

#[test]
fn adding_up_to_a_misfit_keeps_what_came_before() {
    let long = Triple::new(Term::iri(&"x".repeat(PAGE_SIZE)), Term::iri("p"), Term::iri("o"));
    let mut ds = DiskStore::open(&[], None, 64).unwrap();
    assert!(matches!(ds.try_insert_all(&vec![iri3("a", "p", "b"), long, iri3("c", "p", "d")]), Ok(false)));
    assert_eq!(ds.triple_count(), 1);
    assert!(matches!(ds.try_insert_all(&small()), Ok(true)));
    assert_eq!(ds.triple_count(), 6);
}

/// A permutation of the numbers below `n`.
fn scrambled(n: u32, step: u32) -> Vec<u32> {
    (0..n).map(|i| (i * step) % n).collect()
}

#[test]
fn a_tree_stays_right_while_keys_are_removed_in_any_order() {
    let n = 1501u32;
    let orders: Vec<Vec<u32>> = vec![(0..n).collect(), (0..n).rev().collect(), scrambled(n, 607), scrambled(n, 37)];
    for order in orders {
        let mut pg = fresh(64);
        let t = BTree::new(0);
        let mut model = std::collections::BTreeMap::new();
        for i in 0..n {
            let key = format!("k{i:05}").into_bytes();
            let val = vec![b'v'; (i % 40) as usize];
            t.insert(&mut pg, &key, &val).unwrap();
            model.insert(key, val);
        }
        for (k, i) in order.iter().enumerate() {
            let key = format!("k{i:05}").into_bytes();
            assert!(t.delete(&mut pg, &key).unwrap());
            model.remove(&key);
            assert_eq!(t.get(&mut pg, &key).unwrap(), None);
            if k % 100 == 0 || k + 20 > n as usize {
                let all = t.iter_all(&mut pg).unwrap();
                assert_eq!(all, model.iter().map(|(k, v)| (k.clone(), v.clone())).collect::<Vec<_>>());
            }
        }
        assert!(t.iter_all(&mut pg).unwrap().is_empty());
    }
}

#[test]
fn removal_gives_pages_back() {
    let mut pg = fresh(64);
    let t = BTree::new(0);
    let n = 3000u32;
    for i in 0..n {
        t.insert(&mut pg, format!("key{i:08}").as_bytes(), &be32(i)).unwrap();
    }
    let full = pg.page_count();
    for i in 0..n {
        assert!(t.delete(&mut pg, format!("key{i:08}").as_bytes()).unwrap());
    }
    // Another tree takes the pages that the first one gave back.
    let u = BTree::new(1);
    for i in 0..n {
        u.insert(&mut pg, format!("key{i:08}").as_bytes(), &be32(i)).unwrap();
    }
    assert_eq!(pg.page_count(), full);
    // Leaves with few keys are joined, so that a thinned tree takes few pages.
    for i in 0..n {
        if i % 50 != 0 {
            assert!(u.delete(&mut pg, format!("key{i:08}").as_bytes()).unwrap());
        }
    }
    for i in 0..n {
        t.insert(&mut pg, format!("key{i:08}").as_bytes(), &be32(i)).unwrap();
    }
    assert!(pg.page_count() <= full + full / 10 + 2, "{} of {}", pg.page_count(), full);
    assert_eq!(u.iter_all(&mut pg).unwrap().len(), 60);
}

#[test]
fn a_thinned_tree_survives_reopening() {
    let mut file = Vec::new();
    let mut pg = fresh(64);
    let t = BTree::new(0);
    for i in 0..2000u32 {
        t.insert(&mut pg, format!("k{i:05}").as_bytes(), &be32(i)).unwrap();
    }
    for i in scrambled(2000, 3) {
        if i % 7 != 0 {
            assert!(t.delete(&mut pg, format!("k{i:05}").as_bytes()).unwrap());
        }
    }
    pg.flush();
    apply(&mut file, pg.take_commits());
    let mut pg = Pager::open(&file, None, 64).unwrap();
    let all = t.iter_all(&mut pg).unwrap();
    assert_eq!(all.len(), 286);
    assert_eq!(all[1], (b"k00007".to_vec(), be32(7)));
    assert_eq!(t.scan_prefix(&mut pg, b"k0199").unwrap(), vec![(b"k01995".to_vec(), be32(1995))]);
}
