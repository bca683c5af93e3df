use gstore::cluster::ShardedStore;
use gstore::dict::Dictionary;
use gstore::model::{EntityLiteralId, IdTriple, PredId, Term};
use gstore::order::sort_dedup;
use gstore::store::TripleStore;

/// Build a connected graph with enough distinct subjects to spread across
/// several shards, plus shared objects (a common `Person` class and a hub
/// node) so object-/predicate-rooted accesses genuinely span shards.
/// Returns the dictionary, the id-triples, and a few resolved ids.
fn fixture() -> (Dictionary, Vec<IdTriple>) {
    let mut d = Dictionary::new();
    let knows = d.intern_predicate(&Term::iri("http://ex/knows").dict_key());
    let typ = d.intern_predicate(&Term::iri("http://ex/type").dict_key());
    let name = d.intern_predicate(&Term::iri("http://ex/name").dict_key());

    let person = d.intern_term(&Term::iri("http://ex/Person"));
    let hub = d.intern_term(&Term::iri("http://ex/hub"));

    let names = [
        "alice", "bob", "carol", "dave", "eve", "frank", "grace", "heidi", "ivan", "judy",
    ];
    let people: Vec<EntityLiteralId> = names
        .iter()
        .map(|n| d.intern_term(&Term::iri(&format!("http://ex/{n}"))))
        .collect();

    let mut triples = Vec::new();
    for (i, &p) in people.iter().enumerate() {
        // every person is a Person (shared object across many shards)
        triples.push(IdTriple::new(p, typ, person));
        // every person knows the hub (shared object across many shards)
        triples.push(IdTriple::new(p, knows, hub));
        // ring of acquaintances (knows-edges spread over subjects)
        let next = people[(i + 1) % people.len()];
        triples.push(IdTriple::new(p, knows, next));
        // a literal name
        let lit = d.intern_term(&Term::plain_literal(*names.get(i).unwrap()));
        triples.push(IdTriple::new(p, name, lit));
    }
    // give the hub some outgoing edges too, so it is both subject and object
    triples.push(IdTriple::new(hub, typ, person));
    triples.push(IdTriple::new(hub, knows, people[0]));

    (d, triples)
}

fn single(triples: &[IdTriple]) -> TripleStore {
    TripleStore::from_triples(&triples.to_vec())
}

#[test]
fn shards_spread_triples_across_more_than_one_shard() {
    let (_d, triples) = fixture();
    let sharded = ShardedStore::from_triples(4, &triples);
    let nonempty = sharded.shard_sizes().iter().filter(|&&c| c > 0).count();
    assert!(
        nonempty > 1,
        "expected triples spread across >1 shard, got sizes {:?}",
        sharded.shard_sizes()
    );
    // total triple count is conserved across the partition
    assert_eq!(sharded.triple_count(), single(&triples).triple_count());
}

#[test]
fn from_store_repartitions_identically() {
    let (_d, triples) = fixture();
    let base = single(&triples);
    let a = ShardedStore::from_triples(4, &triples);
    let b = ShardedStore::from_store(4, &base);
    assert_eq!(a.iter_all(), b.iter_all());
    assert_eq!(a.shard_sizes(), b.shard_sizes());
}

/// Every access-pattern method must return results
/// byte-for-byte identical to a single TripleStore over the same triples,
/// including ordering and de-duplication.
#[test]
fn every_access_pattern_matches_single_store() {
    let (_d, triples) = fixture();
    let base = single(&triples);
    let sharded = ShardedStore::from_triples(4, &triples);

    // Global statistics / scans.
    assert_eq!(
        sharded.triple_count(),
        base.triple_count(),
        "triple_count"
    );
    assert_eq!(
        sharded.distinct_subjects(),
        base.distinct_subjects(),
        "distinct_subjects"
    );
    assert_eq!(
        sharded.distinct_objects(),
        base.distinct_objects(),
        "distinct_objects"
    );
    assert_eq!(
        sharded.num_predicates(),
        base.num_predicates(),
        "num_predicates"
    );
    assert_eq!(
        sharded.subject_keys(),
        base.subject_keys(),
        "subject_keys"
    );
    assert_eq!(
        sharded.object_keys(),
        base.object_keys(),
        "object_keys"
    );
    assert_eq!(sharded.iter_all(), base.iter_all(), "iter_all");

    // Subject-rooted accesses over every id that appears anywhere.
    let mut ids: Vec<EntityLiteralId> = base.subject_keys();
    ids.extend(base.object_keys());
    ids = sort_dedup(&ids);
    for &s in &ids {
        assert_eq!(
            sharded.po_by_s(s),
            base.po_by_s(s),
            "po_by_s({s})"
        );
        assert_eq!(
            sharded.ps_by_o(s),
            base.ps_by_o(s),
            "ps_by_o({s})"
        );
    }

    // Predicate-rooted accesses + per-predicate statistics.
    let preds: Vec<PredId> = base.predicates();
    for &p in &preds {
        assert_eq!(
            sharded.so_by_p(p),
            base.so_by_p(p),
            "so_by_p({p})"
        );
        assert_eq!(sharded.subs_by_p(p), base.subs_by_p(p), "subs_by_p({p})");
        assert_eq!(sharded.objs_by_p(p), base.objs_by_p(p), "objs_by_p({p})");
        assert_eq!(sharded.pred_card(p), base.pred_card(p), "pred_card({p})");
        assert_eq!(
            sharded.pred_distinct_subj(p),
            base.pred_distinct_subj(p),
            "pred_distinct_subj({p})"
        );
        assert_eq!(
            sharded.pred_distinct_obj(p),
            base.pred_distinct_obj(p),
            "pred_distinct_obj({p})"
        );
        // Two-constant accesses across the full id × id space touched here.
        for &s in &ids {
            assert_eq!(
                sharded.o_by_sp(s, p),
                base.o_by_sp(s, p),
                "o_by_sp({s},{p})"
            );
            assert_eq!(
                sharded.s_by_po(p, s),
                base.s_by_po(p, s),
                "s_by_po({p},{s})"
            );
        }
    }

    // s?o and exact existence over a representative id cross-product.
    for &s in &ids {
        for &o in &ids {
            assert_eq!(
                sharded.p_by_so(s, o),
                base.p_by_so(s, o),
                "p_by_so({s},{o})"
            );
            for &p in &preds {
                assert_eq!(
                    sharded.contains(s, p, o),
                    base.contains(IdTriple::new(s, p, o)),
                    "exists({s},{p},{o})"
                );
            }
        }
    }
}

#[test]
fn empty_and_single_shard_are_well_formed() {
    let empty = ShardedStore::new(0); // clamped to 1
    assert_eq!(empty.num_shards(), 1);
    assert_eq!(empty.triple_count(), 0);
    assert!(empty.iter_all().is_empty());

    let (_d, triples) = fixture();
    let one = ShardedStore::from_triples(1, &triples);
    let base = single(&triples);
    assert_eq!(one.iter_all(), base.iter_all());
}
