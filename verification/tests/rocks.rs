use std::collections::BTreeMap;

use gstore::backend::reads::{read_count, write_count};
use gstore::backend::rocks::{counters_of, stat_key, Change, Counts, RocksStore, Stat};
use gstore::kvstore::disk::{cat, key3};
use gstore::model::IdTriple;
use gstore::store::TripleStore;

type Table = BTreeMap<Vec<u8>, Vec<u8>>;

/// The indexes and the counters of a key-value database, in memory.
struct Host {
    spo: Table,
    pos: Table,
    osp: Table,
    stats: Table,
    counts: RocksStore,
}

fn host() -> Host {
    Host {
        spo: Table::new(),
        pos: Table::new(),
        osp: Table::new(),
        stats: Table::new(),
        counts: RocksStore { triple_count: 0, num_predicates: 0, distinct_subjects: 0, distinct_objects: 0 },
    }
}

fn scan(t: &Table, prefix: &[u8]) -> Vec<Vec<u8>> {
    t.keys().filter(|k| k.starts_with(prefix)).cloned().collect()
}

impl Host {
    fn count(&self, s: Stat) -> u64 {
        read_count(self.stats.get(&stat_key(s)).map(|v| v.as_slice()))
    }

    fn counts_for(&self, t: IdTriple) -> Counts {
        let v: Vec<u64> = counters_of(t).into_iter().map(|s| self.count(s)).collect();
        Counts {
            card: v[0],
            subject: v[1],
            object: v[2],
            pred_subject: v[3],
            pred_object: v[4],
            pred_subjects: v[5],
            pred_objects: v[6],
        }
    }

    fn write(&mut self, changes: Vec<Change>) {
        for c in changes {
            match c.value {
                Some(v) => {
                    self.stats.insert(stat_key(c.stat), write_count(v));
                }
                None => {
                    self.stats.remove(&stat_key(c.stat));
                }
            }
        }
    }

    fn insert(&mut self, t: IdTriple) -> bool {
        let present = self.spo.contains_key(&key3(t.sub, t.pred, t.obj));
        let c = self.counts_for(t);
        match self.counts.insert_ids(t, present, c) {
            None => false,
            Some(changes) => {
                self.write(changes);
                self.spo.insert(key3(t.sub, t.pred, t.obj), Vec::new());
                self.pos.insert(key3(t.pred, t.obj, t.sub), Vec::new());
                self.osp.insert(key3(t.obj, t.sub, t.pred), Vec::new());
                true
            }
        }
    }

    fn remove(&mut self, t: IdTriple) -> bool {
        let present = self.spo.contains_key(&key3(t.sub, t.pred, t.obj));
        let c = self.counts_for(t);
        match self.counts.remove_ids(t, present, c) {
            None => false,
            Some(changes) => {
                self.write(changes);
                self.spo.remove(&key3(t.sub, t.pred, t.obj));
                self.pos.remove(&key3(t.pred, t.obj, t.sub));
                self.osp.remove(&key3(t.obj, t.sub, t.pred));
                true
            }
        }
    }
}

fn triples() -> Vec<IdTriple> {
    let mut v = Vec::new();
    for s in 0..6u32 {
        for p in 0..3u32 {
            v.push(IdTriple::new(s, p, (s * p) % 4));
            v.push(IdTriple::new(s, p, 300 + p));
        }
    }
    v
}

fn agree(h: &Host, mem: &TripleStore) {
    assert_eq!(h.counts.triple_count, mem.triple_count());
    assert_eq!(h.counts.num_predicates as usize, mem.num_predicates());
    assert_eq!(h.counts.distinct_subjects as usize, mem.distinct_subjects());
    assert_eq!(h.counts.distinct_objects as usize, mem.distinct_objects());
    assert_eq!(h.count(Stat::Triples), h.counts.triple_count);
    for p in 0..4u32 {
        assert_eq!(h.count(Stat::Card(p)) as usize, mem.pred_card(p));
        assert_eq!(h.count(Stat::PredSubjects(p)) as usize, mem.pred_distinct_subj(p));
        assert_eq!(h.count(Stat::PredObjects(p)) as usize, mem.pred_distinct_obj(p));
        assert_eq!(RocksStore::so_by_p(p, &scan(&h.pos, &p.to_be_bytes())), Some(mem.so_by_p(p)));
        assert_eq!(RocksStore::subs_by_p(p, &scan(&h.pos, &p.to_be_bytes())), Some(mem.subs_by_p(p)));
        assert_eq!(RocksStore::objs_by_p(p, &scan(&h.pos, &p.to_be_bytes())), Some(mem.objs_by_p(p)));
    }
    for s in 0..7u32 {
        assert_eq!(RocksStore::po_by_s(s, &scan(&h.spo, &s.to_be_bytes())), Some(mem.po_by_s(s)));
        assert_eq!(RocksStore::o_by_sp(s, 1, &scan(&h.spo, &cat(s, 1))), Some(mem.o_by_sp(s, 1)));
        assert_eq!(RocksStore::p_by_so(s, 301, &scan(&h.osp, &cat(301, s))), Some(mem.p_by_so(s, 301)));
    }
    for o in [0u32, 1, 301] {
        assert_eq!(RocksStore::ps_by_o(o, &scan(&h.osp, &o.to_be_bytes())), Some(mem.ps_by_o(o)));
        assert_eq!(RocksStore::s_by_po(1, o, &scan(&h.pos, &cat(1, o))), Some(mem.s_by_po(1, o)));
    }
    assert_eq!(RocksStore::subject_keys(&scan(&h.stats, b"s")), Some(mem.subject_keys()));
    assert_eq!(RocksStore::object_keys(&scan(&h.stats, b"o")), Some(mem.object_keys()));
    assert_eq!(RocksStore::predicates(&scan(&h.stats, b"c")), Some(mem.predicates()));
    let mut all = mem.iter_all();
    all.sort_by_key(|t| (t.sub, t.pred, t.obj));
    assert_eq!(RocksStore::iter_all(&scan(&h.spo, b"")), Some(all));
}

#[test]
fn counters_and_scans_follow_the_triples() {
    let mut h = host();
    let mut mem = TripleStore::new();
    agree(&h, &mem);
    for t in triples() {
        assert_eq!(h.insert(t), mem.insert(t));
    }
    agree(&h, &mem);
    for t in triples() {
        assert!(!h.insert(t));
    }
    agree(&h, &mem);
    for t in triples().into_iter().step_by(3) {
        assert_eq!(h.remove(t), mem.remove(t));
    }
    agree(&h, &mem);
    for t in triples() {
        assert_eq!(h.remove(t), mem.remove(t));
    }
    agree(&h, &mem);
    // Only the counters for the whole store are kept at 0.
    assert_eq!(h.stats.len(), 4);
}

#[test]
fn counters_have_their_keys() {
    assert_eq!(stat_key(Stat::Triples), b"T".to_vec());
    assert_eq!(stat_key(Stat::Preds), b"P".to_vec());
    assert_eq!(stat_key(Stat::Subjects), b"S".to_vec());
    assert_eq!(stat_key(Stat::Objects), b"O".to_vec());
    assert_eq!(stat_key(Stat::Card(258)), vec![b'c', 0, 0, 1, 2]);
    assert_eq!(stat_key(Stat::PredSubjects(1)), vec![b'u', 0, 0, 0, 1]);
    assert_eq!(stat_key(Stat::PredObjects(1)), vec![b'v', 0, 0, 0, 1]);
    assert_eq!(stat_key(Stat::Subject(1)), vec![b's', 0, 0, 0, 1]);
    assert_eq!(stat_key(Stat::Object(1)), vec![b'o', 0, 0, 0, 1]);
    assert_eq!(stat_key(Stat::PredSubject(1, 2)), vec![b'x', 0, 0, 0, 1, 0, 0, 0, 2]);
    assert_eq!(stat_key(Stat::PredObject(1, 2)), vec![b'y', 0, 0, 0, 1, 0, 0, 0, 2]);
}

#[test]
fn a_counter_is_read_as_it_was_written() {
    assert_eq!(write_count(0x0102030405060708), vec![1, 2, 3, 4, 5, 6, 7, 8]);
    assert_eq!(read_count(Some(&write_count(u64::MAX))), u64::MAX);
    assert_eq!(read_count(None), 0);
}

#[test]
fn keys_that_are_no_scan_are_refused() {
    assert_eq!(RocksStore::po_by_s(1, &vec![vec![0, 0, 0, 1]]), None);
    assert_eq!(RocksStore::po_by_s(1, &vec![key3(2, 0, 0)]), None);
    assert_eq!(RocksStore::po_by_s(1, &vec![key3(1, 2, 0), key3(1, 1, 0)]), None);
    assert_eq!(RocksStore::subject_keys(&vec![vec![b'o', 0, 0, 0, 1]]), None);
}
