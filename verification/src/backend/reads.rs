//! What the keys found in a key-value database answer. A triple has a key in each of
//! three indexes; a scan finds the keys under a prefix, in their order.

use super::rocks::{applied, can_grow, can_shrink, changes, counter, counts_of, globals_of, stat_bytes, stat_value, stats_ok, those, Change, Counters, RocksStore, Stat};
use crate::codec::{be32_bytes, get_be32, lemma_be32, read_be32};
use crate::kvstore::bptree::{be32, has_prefix, starts};
use crate::kvstore::disk::{cat, index_key, key_of, lemma_all_rows, lemma_index_key_injective, lemma_list_pairs, lemma_list_thirds, lemma_prefix_one, lemma_prefix_two, spo_ids, tails, thirds, triple_by, turned, under, OSP, POS, SPO};
use crate::kvstore::disk_memory::{firsts, seconds};
use crate::model::{EntityLiteralId, IdTriple, PredId};
use crate::order::{ascending, lists, sort_dedup, Ranked};
use crate::store::{all_objects, all_predicates, all_subjects, objects_of, objects_with, pairs_of_object, pairs_of_predicate, pairs_of_subject, predicates_between, spo_triple, subjects_of, subjects_with};
use vstd::prelude::*;

verus! {

/// The three ids in a key.
pub open spec fn row_of(k: Seq<u8>) -> (u32, u32, u32) {
    (get_be32(k, 0), get_be32(k, 4), get_be32(k, 8))
}

/// The ids in some keys.
pub open spec fn rows_of(keys: Seq<Vec<u8>>) -> Seq<(u32, u32, u32)> {
    keys.map_values(|k: Vec<u8>| row_of(k@))
}

/// What a scan of an index finds: keys of three ids under the prefix, in their order.
pub open spec fn is_scan(keys: Seq<Vec<u8>>, prefix: Seq<u8>) -> bool {
    &&& forall|i: int| 0 <= i < keys.len() ==> (#[trigger] keys[i])@.len() == 12 && starts(keys[i]@, prefix)
    &&& ascending(rows_of(keys))
}

/// The triple has its key among those found in an index.
pub open spec fn has_key(keys: Seq<Vec<u8>>, slot: int, t: IdTriple) -> bool {
    exists|i: int| 0 <= i < keys.len() && (#[trigger] keys[i])@ == index_key(slot, t)
}

/// The triples whose keys were found in an index.
pub open spec fn found(keys: Seq<Vec<u8>>, slot: int) -> Set<IdTriple> {
    Set::new(|t: IdTriple| has_key(keys, slot, t))
}

proof fn lemma_be32_back(k: Seq<u8>, off: int)
    requires
        0 <= off,
        off + 4 <= k.len(),
    ensures
        be32_bytes(get_be32(k, off)) == k.subrange(off, off + 4),
{
    let v = get_be32(k, off);
    assert(v == k[off] * 16777216 + k[off + 1] * 65536 + k[off + 2] * 256 + k[off + 3]);
    assert(v / 16777216 == k[off]);
    assert(v / 65536 == k[off] * 256 + k[off + 1]);
    assert(v / 256 == k[off] * 65536 + k[off + 1] * 256 + k[off + 2]);
    assert(be32_bytes(v) =~= k.subrange(off, off + 4));
}

/// A key of twelve bytes is the key of its ids.
pub proof fn lemma_row_key(k: Seq<u8>)
    requires
        k.len() == 12,
    ensures
        key_of(row_of(k)) == k,
{
    lemma_be32_back(k, 0);
    lemma_be32_back(k, 4);
    lemma_be32_back(k, 8);
    assert(key_of(row_of(k)) =~= k);
}

/// The rows of a scan list the triples that it found.
proof fn lemma_rows(keys: Seq<Vec<u8>>, slot: int, prefix: Seq<u8>)
    requires
        slot == SPO || slot == POS || slot == OSP,
        is_scan(keys, prefix),
    ensures
        lists(rows_of(keys), under(found(keys, slot), slot, prefix)),
{
    let rows = rows_of(keys);
    let ts = found(keys, slot);
    let all = under(ts, slot, prefix);
    assert forall|x: (u32, u32, u32)| #[trigger] all.contains(x) <==> rows.contains(x) by {
        let t = triple_by(slot, x);
        assert(index_key(slot, t) == key_of(x));
        if all.contains(x) {
            assert(has_key(keys, slot, t));
            let i = choose|i: int| 0 <= i < keys.len() && (#[trigger] keys[i])@ == index_key(slot, t);
            lemma_row_key(keys[i]@);
            let u = triple_by(slot, row_of(keys[i]@));
            assert(index_key(slot, u) == key_of(row_of(keys[i]@)));
            lemma_index_key_injective(slot, t, u);
            assert(rows[i] == x);
        }
        if rows.contains(x) {
            let i = choose|i: int| 0 <= i < rows.len() && rows[i] == x;
            lemma_row_key(keys[i]@);
            assert(keys[i]@ == index_key(slot, t));
            assert(has_key(keys, slot, t));
            assert(ts.contains(t));
        }
    }
}

/// A scan that finds exactly the keys of the triples of a set under its prefix finds
/// these triples.
pub proof fn law_scan_finds(keys: Seq<Vec<u8>>, slot: int, prefix: Seq<u8>, ts: Set<IdTriple>, t: IdTriple)
    requires
        slot == SPO || slot == POS || slot == OSP,
        forall|i: int| 0 <= i < keys.len() ==> exists|u: IdTriple| #[trigger] ts.contains(u) && (#[trigger] keys[i])@ == index_key(slot, u),
        forall|u: IdTriple| #[trigger] ts.contains(u) && starts(index_key(slot, u), prefix) ==> has_key(keys, slot, u),
        starts(index_key(slot, t), prefix),
    ensures
        found(keys, slot).contains(t) <==> ts.contains(t),
{
    if has_key(keys, slot, t) {
        let i = choose|i: int| 0 <= i < keys.len() && (#[trigger] keys[i])@ == index_key(slot, t);
        let u = choose|u: IdTriple| #[trigger] ts.contains(u) && keys[i]@ == index_key(slot, u);
        lemma_index_key_injective(slot, t, u);
    }
}

fn before(a: (u32, u32, u32), b: (u32, u32, u32)) -> (r: bool)
    ensures
        r == (a.rank() < b.rank()),
{
    a.0 < b.0 || (a.0 == b.0 && (a.1 < b.1 || (a.1 == b.1 && a.2 < b.2)))
}

/// The ids of the keys that a scan found; nothing if they are not those of a scan.
fn scan_rows(keys: &Vec<Vec<u8>>, prefix: &[u8]) -> (r: Option<Vec<(u32, u32, u32)>>)
    ensures
        r is Some <==> is_scan(keys@, prefix@),
        r matches Some(v) ==> v@ == rows_of(keys@),
{
    let mut v: Vec<(u32, u32, u32)> = Vec::new();
    let mut i: usize = 0;
    while i < keys.len()
        invariant
            i <= keys@.len(),
            v@ == rows_of(keys@).take(i as int),
            ascending(v@),
            forall|j: int| 0 <= j < i ==> (#[trigger] keys@[j])@.len() == 12 && starts(keys@[j]@, prefix@),
        decreases keys.len() - i,
    {
        if keys[i].len() != 12 || !has_prefix(&keys[i], prefix) {
            assert(keys@[i as int]@.len() != 12 || !starts(keys@[i as int]@, prefix@));
            return None;
        }
        let k: &[u8] = keys[i].as_slice();
        let row: (u32, u32, u32) = (read_be32(k, 0), read_be32(k, 4), read_be32(k, 8));
        assert(row == rows_of(keys@)[i as int]);
        if i > 0 && !before(v[i - 1], row) {
            assert(v@[i - 1] == rows_of(keys@)[i - 1]);
            return None;
        }
        proof {
            assert forall|a: int, b: int| 0 <= a < b < v@.len() + 1 implies (#[trigger] v@.push(row)[a]).rank() < (#[trigger] v@.push(row)[b]).rank() by {
                if b == v@.len() && a < b - 1 {
                    assert(v@[a].rank() < v@[b - 1].rank());
                }
            }
        }
        v.push(row);
        assert(rows_of(keys@).take(i + 1) =~= rows_of(keys@).take(i as int).push(row));
        i = i + 1;
    }
    assert(rows_of(keys@).take(i as int) =~= rows_of(keys@));
    Some(v)
}

impl RocksStore {
    /// The (predicate, object) pairs of a subject, ascending, from the keys that the
    /// first index holds under the subject.
    pub fn po_by_s(sub: EntityLiteralId, keys: &Vec<Vec<u8>>) -> (r: Option<Vec<(PredId, EntityLiteralId)>>)
        ensures
            r is Some <==> is_scan(keys@, be32_bytes(sub)),
            r matches Some(v) ==> lists(v@, pairs_of_subject(found(keys@, SPO as int), sub)),
    {
        let prefix: Vec<u8> = be32(sub);
        match scan_rows(keys, prefix.as_slice()) {
            None => None,
            Some(rows) => {
                let r: Vec<(u32, u32)> = tails(&rows);
                proof {
                    let ts = found(keys@, SPO as int);
                    lemma_rows(keys@, SPO as int, prefix@);
                    let all = under(ts, SPO as int, prefix@);
                    assert forall|x: (u32, u32, u32)| #[trigger] all.contains(x) <==> x.0 == sub && pairs_of_subject(ts, sub).contains((x.1, x.2)) by {
                        lemma_prefix_one(x, sub);
                    }
                    lemma_list_pairs(rows@, all, r@, pairs_of_subject(ts, sub), sub);
                }
                Some(r)
            },
        }
    }

    /// The objects of a subject and a predicate, ascending, from the keys that the
    /// first index holds under them.
    pub fn o_by_sp(sub: EntityLiteralId, pred: PredId, keys: &Vec<Vec<u8>>) -> (r: Option<Vec<EntityLiteralId>>)
        ensures
            r is Some <==> is_scan(keys@, be32_bytes(sub) + be32_bytes(pred)),
            r matches Some(v) ==> lists(v@, objects_of(found(keys@, SPO as int), sub, pred)),
    {
        let prefix: Vec<u8> = cat(sub, pred);
        match scan_rows(keys, prefix.as_slice()) {
            None => None,
            Some(rows) => {
                let r: Vec<u32> = thirds(&rows);
                proof {
                    let ts = found(keys@, SPO as int);
                    lemma_rows(keys@, SPO as int, prefix@);
                    let all = under(ts, SPO as int, prefix@);
                    assert forall|x: (u32, u32, u32)| #[trigger] all.contains(x) <==> x.0 == sub && x.1 == pred && objects_of(ts, sub, pred).contains(x.2) by {
                        lemma_prefix_two(x, sub, pred);
                    }
                    lemma_list_thirds(rows@, all, r@, objects_of(ts, sub, pred), sub, pred);
                }
                Some(r)
            },
        }
    }

    /// The subjects of a predicate and an object, ascending, from the keys that the
    /// second index holds under them.
    pub fn s_by_po(pred: PredId, obj: EntityLiteralId, keys: &Vec<Vec<u8>>) -> (r: Option<Vec<EntityLiteralId>>)
        ensures
            r is Some <==> is_scan(keys@, be32_bytes(pred) + be32_bytes(obj)),
            r matches Some(v) ==> lists(v@, subjects_of(found(keys@, POS as int), pred, obj)),
    {
        let prefix: Vec<u8> = cat(pred, obj);
        match scan_rows(keys, prefix.as_slice()) {
            None => None,
            Some(rows) => {
                let r: Vec<u32> = thirds(&rows);
                proof {
                    let ts = found(keys@, POS as int);
                    lemma_rows(keys@, POS as int, prefix@);
                    let all = under(ts, POS as int, prefix@);
                    assert forall|x: (u32, u32, u32)| #[trigger] all.contains(x) <==> x.0 == pred && x.1 == obj && subjects_of(ts, pred, obj).contains(x.2) by {
                        lemma_prefix_two(x, pred, obj);
                    }
                    lemma_list_thirds(rows@, all, r@, subjects_of(ts, pred, obj), pred, obj);
                }
                Some(r)
            },
        }
    }

    /// The predicates between a subject and an object, ascending, from the keys that
    /// the third index holds under them.
    pub fn p_by_so(sub: EntityLiteralId, obj: EntityLiteralId, keys: &Vec<Vec<u8>>) -> (r: Option<Vec<PredId>>)
        ensures
            r is Some <==> is_scan(keys@, be32_bytes(obj) + be32_bytes(sub)),
            r matches Some(v) ==> lists(v@, predicates_between(found(keys@, OSP as int), sub, obj)),
    {
        let prefix: Vec<u8> = cat(obj, sub);
        match scan_rows(keys, prefix.as_slice()) {
            None => None,
            Some(rows) => {
                let r: Vec<u32> = thirds(&rows);
                proof {
                    let ts = found(keys@, OSP as int);
                    lemma_rows(keys@, OSP as int, prefix@);
                    let all = under(ts, OSP as int, prefix@);
                    assert forall|x: (u32, u32, u32)| #[trigger] all.contains(x) <==> x.0 == obj && x.1 == sub && predicates_between(ts, sub, obj).contains(x.2) by {
                        lemma_prefix_two(x, obj, sub);
                    }
                    lemma_list_thirds(rows@, all, r@, predicates_between(ts, sub, obj), obj, sub);
                }
                Some(r)
            },
        }
    }

    /// The (predicate, subject) pairs of an object, ascending, from the keys that the
    /// third index holds under it.
    pub fn ps_by_o(obj: EntityLiteralId, keys: &Vec<Vec<u8>>) -> (r: Option<Vec<(PredId, EntityLiteralId)>>)
        ensures
            r is Some <==> is_scan(keys@, be32_bytes(obj)),
            r matches Some(v) ==> lists(v@, pairs_of_object(found(keys@, OSP as int), obj)),
    {
        let prefix: Vec<u8> = be32(obj);
        match scan_rows(keys, prefix.as_slice()) {
            None => None,
            Some(rows) => {
                let v: Vec<(u32, u32)> = turned(&rows);
                let r: Vec<(u32, u32)> = sort_dedup(&v);
                proof {
                    let ts = found(keys@, OSP as int);
                    lemma_rows(keys@, OSP as int, prefix@);
                    let all = under(ts, OSP as int, prefix@);
                    assert forall|x: (u32, u32, u32)| #[trigger] all.contains(x) implies x.0 == obj by {
                        lemma_prefix_one(x, obj);
                    }
                    assert forall|q: (u32, u32)| #[trigger] pairs_of_object(ts, obj).contains(q) <==> r@.contains(q) by {
                        let x = (obj, q.1, q.0);
                        lemma_prefix_one(x, obj);
                        assert(triple_by(OSP as int, x) == spo_triple(q.1, q.0, obj));
                        assert(all.contains(x) <==> rows@.contains(x));
                        lemma_turned(rows@, v@, q, obj, all);
                    }
                }
                Some(r)
            },
        }
    }

    /// The (subject, object) pairs of a predicate, ascending, from the keys that the
    /// second index holds under it.
    pub fn so_by_p(pred: PredId, keys: &Vec<Vec<u8>>) -> (r: Option<Vec<(EntityLiteralId, EntityLiteralId)>>)
        ensures
            r is Some <==> is_scan(keys@, be32_bytes(pred)),
            r matches Some(v) ==> lists(v@, pairs_of_predicate(found(keys@, POS as int), pred)),
    {
        let prefix: Vec<u8> = be32(pred);
        match scan_rows(keys, prefix.as_slice()) {
            None => None,
            Some(rows) => {
                let v: Vec<(u32, u32)> = turned(&rows);
                let r: Vec<(u32, u32)> = sort_dedup(&v);
                proof {
                    let ts = found(keys@, POS as int);
                    lemma_rows(keys@, POS as int, prefix@);
                    let all = under(ts, POS as int, prefix@);
                    assert forall|x: (u32, u32, u32)| #[trigger] all.contains(x) implies x.0 == pred by {
                        lemma_prefix_one(x, pred);
                    }
                    assert forall|q: (u32, u32)| #[trigger] pairs_of_predicate(ts, pred).contains(q) <==> r@.contains(q) by {
                        let x = (pred, q.1, q.0);
                        lemma_prefix_one(x, pred);
                        assert(triple_by(POS as int, x) == spo_triple(q.0, pred, q.1));
                        assert(all.contains(x) <==> rows@.contains(x));
                        lemma_turned(rows@, v@, q, pred, all);
                    }
                }
                Some(r)
            },
        }
    }

    /// The subjects of a predicate, ascending, from the keys that the second index
    /// holds under it.
    pub fn subs_by_p(pred: PredId, keys: &Vec<Vec<u8>>) -> (r: Option<Vec<EntityLiteralId>>)
        ensures
            r is Some <==> is_scan(keys@, be32_bytes(pred)),
            r matches Some(v) ==> lists(v@, subjects_with(found(keys@, POS as int), pred)),
    {
        match RocksStore::so_by_p(pred, keys) {
            None => None,
            Some(pairs) => {
                let v: Vec<u32> = firsts(&pairs);
                let r: Vec<u32> = sort_dedup(&v);
                proof {
                    let ts = found(keys@, POS as int);
                    assert forall|x: u32| #[trigger] subjects_with(ts, pred).contains(x) <==> r@.contains(x) by {
                        if subjects_with(ts, pred).contains(x) {
                            let o = choose|o: u32| ts.contains(#[trigger] spo_triple(x, pred, o));
                            assert(pairs_of_predicate(ts, pred).contains((x, o)));
                            let k = choose|k: int| 0 <= k < pairs@.len() && pairs@[k] == (x, o);
                            assert(v@[k] == x);
                            assert(v@.contains(x));
                        }
                        if v@.contains(x) {
                            let k = choose|k: int| 0 <= k < v@.len() && v@[k] == x;
                            assert(pairs@.contains(pairs@[k]));
                            assert(pairs_of_predicate(ts, pred).contains(pairs@[k]));
                            assert(ts.contains(spo_triple(x, pred, pairs@[k].1)));
                        }
                    }
                }
                Some(r)
            },
        }
    }

    /// The objects of a predicate, ascending, from the keys that the second index
    /// holds under it.
    pub fn objs_by_p(pred: PredId, keys: &Vec<Vec<u8>>) -> (r: Option<Vec<EntityLiteralId>>)
        ensures
            r is Some <==> is_scan(keys@, be32_bytes(pred)),
            r matches Some(v) ==> lists(v@, objects_with(found(keys@, POS as int), pred)),
    {
        match RocksStore::so_by_p(pred, keys) {
            None => None,
            Some(pairs) => {
                let v: Vec<u32> = seconds(&pairs);
                let r: Vec<u32> = sort_dedup(&v);
                proof {
                    let ts = found(keys@, POS as int);
                    assert forall|x: u32| #[trigger] objects_with(ts, pred).contains(x) <==> r@.contains(x) by {
                        if objects_with(ts, pred).contains(x) {
                            let s = choose|s: u32| ts.contains(#[trigger] spo_triple(s, pred, x));
                            assert(pairs_of_predicate(ts, pred).contains((s, x)));
                            let k = choose|k: int| 0 <= k < pairs@.len() && pairs@[k] == (s, x);
                            assert(v@[k] == x);
                            assert(v@.contains(x));
                        }
                        if v@.contains(x) {
                            let k = choose|k: int| 0 <= k < v@.len() && v@[k] == x;
                            assert(pairs@.contains(pairs@[k]));
                            assert(pairs_of_predicate(ts, pred).contains(pairs@[k]));
                            assert(ts.contains(spo_triple(pairs@[k].0, pred, x)));
                        }
                    }
                }
                Some(r)
            },
        }
    }

    /// All triples, by subject, then by predicate, then by object, from the keys of
    /// the first index.
    pub fn iter_all(keys: &Vec<Vec<u8>>) -> (r: Option<Vec<IdTriple>>)
        ensures
            r is Some <==> is_scan(keys@, Seq::empty()),
            r matches Some(v) ==> v@.to_set() == found(keys@, SPO as int) && forall|i: int, j: int| 0 <= i < j < v@.len() ==> spo_ids(#[trigger] v@[i]).rank() < spo_ids(#[trigger] v@[j]).rank(),
    {
        let prefix: Vec<u8> = Vec::new();
        match scan_rows(keys, prefix.as_slice()) {
            None => None,
            Some(rows) => {
                let mut r: Vec<IdTriple> = Vec::new();
                let mut i: usize = 0;
                while i < rows.len()
                    invariant
                        i <= rows@.len(),
                        r@.len() == i,
                        forall|k: int| 0 <= k < i ==> #[trigger] r@[k] == triple_by(SPO as int, rows@[k]),
                    decreases rows.len() - i,
                {
                    r.push(IdTriple { sub: rows[i].0, pred: rows[i].1, obj: rows[i].2 });
                    i = i + 1;
                }
                proof {
                    lemma_rows(keys@, SPO as int, prefix@);
                    lemma_all_rows(rows@, found(keys@, SPO as int), prefix@, r@);
                }
                Some(r)
            },
        }
    }
}

proof fn lemma_turned(rows: Seq<(u32, u32, u32)>, v: Seq<(u32, u32)>, q: (u32, u32), a: u32, all: Set<(u32, u32, u32)>)
    requires
        lists(rows, all),
        v.len() == rows.len(),
        forall|i: int| 0 <= i < rows.len() ==> #[trigger] v[i] == (rows[i].2, rows[i].1),
        forall|x: (u32, u32, u32)| #[trigger] all.contains(x) ==> x.0 == a,
    ensures
        v.contains(q) <==> rows.contains((a, q.1, q.0)),
{
    let x = (a, q.1, q.0);
    if v.contains(q) {
        let i = choose|i: int| 0 <= i < v.len() && v[i] == q;
        assert(rows.contains(rows[i]));
        assert(all.contains(rows[i]));
        assert(rows[i] == x);
    }
    if rows.contains(x) {
        let i = choose|i: int| 0 <= i < rows.len() && rows[i] == x;
        assert(v[i] == q);
    }
}

/// The bytes of a counter.
pub open spec fn count_bytes(v: u64) -> Seq<u8> {
    be32_bytes((v / 0x1_0000_0000) as u32) + be32_bytes((v % 0x1_0000_0000) as u32)
}

/// The counter in some bytes. One that is missing stands at 0.
pub open spec fn count_in(b: Option<Seq<u8>>) -> u64 {
    match b {
        Some(b) => (get_be32(b, 0) * 0x1_0000_0000 + get_be32(b, 4)) as u64,
        None => 0,
    }
}

/// Write a counter as bytes.
pub fn write_count(v: u64) -> (r: Vec<u8>)
    ensures
        r@ == count_bytes(v),
{
    cat((v / 0x1_0000_0000) as u32, (v % 0x1_0000_0000) as u32)
}

/// Read a counter from its bytes.
pub fn read_count(b: Option<&[u8]>) -> (r: u64)
    requires
        b matches Some(b) ==> b@.len() >= 8,
    ensures
        r == count_in(match b {
            Some(b) => Some(b@),
            None => None,
        }),
{
    match b {
        Some(b) => {
            let high: u32 = read_be32(b, 0);
            let low: u32 = read_be32(b, 4);
            high as u64 * 0x1_0000_0000 + low as u64
        },
        None => 0,
    }
}

/// A counter is read as it was written.
pub proof fn law_count_roundtrip(v: u64)
    ensures
        count_bytes(v).len() == 8,
        count_in(Some(count_bytes(v))) == v,
{
    let b = count_bytes(v);
    let high = (v / 0x1_0000_0000) as u32;
    let low = (v % 0x1_0000_0000) as u32;
    assert(b.subrange(0, 4) =~= be32_bytes(high));
    assert(b.subrange(4, 8) =~= be32_bytes(low));
    lemma_be32(high, b, 0);
    lemma_be32(low, b, 4);
}

/// The ids in the counters that were found under a tag.
pub open spec fn ids_of(keys: Seq<Vec<u8>>) -> Seq<u32> {
    keys.map_values(|k: Vec<u8>| get_be32(k@, 1))
}

/// What a scan of the counters under a tag finds: keys of one id, in their order.
pub open spec fn is_tag_scan(keys: Seq<Vec<u8>>, tag: u8) -> bool {
    &&& forall|i: int| 0 <= i < keys.len() ==> (#[trigger] keys[i])@.len() == 5 && keys[i]@[0] == tag
    &&& ascending(ids_of(keys))
}

/// The key of a counter was found.
pub open spec fn has_stat(keys: Seq<Vec<u8>>, s: Stat) -> bool {
    exists|i: int| 0 <= i < keys.len() && (#[trigger] keys[i])@ == stat_bytes(s)
}

/// The ids whose counters were found under a tag, ascending; nothing if the keys are
/// not those of a scan.
fn ids_under(tag: u8, keys: &Vec<Vec<u8>>) -> (r: Option<Vec<u32>>)
    ensures
        r is Some <==> is_tag_scan(keys@, tag),
        r matches Some(v) ==> v@ == ids_of(keys@),
{
    let mut v: Vec<u32> = Vec::new();
    let mut i: usize = 0;
    while i < keys.len()
        invariant
            i <= keys@.len(),
            v@ == ids_of(keys@).take(i as int),
            ascending(v@),
            forall|j: int| 0 <= j < i ==> (#[trigger] keys@[j])@.len() == 5 && keys@[j]@[0] == tag,
        decreases keys.len() - i,
    {
        if keys[i].len() != 5 || keys[i][0] != tag {
            assert(keys@[i as int]@.len() != 5 || keys@[i as int]@[0] != tag);
            return None;
        }
        let id: u32 = read_be32(keys[i].as_slice(), 1);
        assert(id == ids_of(keys@)[i as int]);
        if i > 0 && v[i - 1] >= id {
            assert(v@[i - 1] == ids_of(keys@)[i - 1]);
            return None;
        }
        proof {
            assert forall|a: int, b: int| 0 <= a < b < v@.len() + 1 implies (#[trigger] v@.push(id)[a]).rank() < (#[trigger] v@.push(id)[b]).rank() by {
                if b == v@.len() && a < b - 1 {
                    assert(v@[a].rank() < v@[b - 1].rank());
                }
            }
        }
        v.push(id);
        assert(ids_of(keys@).take(i + 1) =~= ids_of(keys@).take(i as int).push(id));
        i = i + 1;
    }
    assert(ids_of(keys@).take(i as int) =~= ids_of(keys@));
    Some(v)
}

proof fn lemma_ids(keys: Seq<Vec<u8>>, tag: u8, s: Stat, id: u32)
    requires
        is_tag_scan(keys, tag),
        stat_bytes(s) == seq![tag] + be32_bytes(id),
    ensures
        has_stat(keys, s) <==> ids_of(keys).contains(id),
{
    if has_stat(keys, s) {
        let i = choose|i: int| 0 <= i < keys.len() && (#[trigger] keys[i])@ == stat_bytes(s);
        assert(keys[i]@.subrange(1, 5) =~= be32_bytes(id));
        lemma_be32(id, keys[i]@, 1);
        assert(ids_of(keys)[i] == id);
    }
    if ids_of(keys).contains(id) {
        let i = choose|i: int| 0 <= i < keys.len() && ids_of(keys)[i] == id;
        lemma_be32_back(keys[i]@, 1);
        assert(keys[i]@ =~= seq![tag] + keys[i]@.subrange(1, 5));
        assert(keys[i]@ == stat_bytes(s));
    }
}

impl RocksStore {
    /// All predicates, ascending, from the keys of the counters of predicates.
    pub fn predicates(keys: &Vec<Vec<u8>>) -> (r: Option<Vec<PredId>>)
        ensures
            r is Some <==> is_tag_scan(keys@, 99),
            r matches Some(v) ==> lists(v@, Set::new(|p: u32| has_stat(keys@, Stat::Card(p)))),
    {
        let r: Option<Vec<u32>> = ids_under(99, keys);
        proof {
            if is_tag_scan(keys@, 99) {
                assert forall|p: u32| has_stat(keys@, Stat::Card(p)) <==> ids_of(keys@).contains(p) by {
                    lemma_ids(keys@, 99, Stat::Card(p), p);
                }
            }
        }
        r
    }

    /// All subjects, ascending, from the keys of the counters of subjects.
    pub fn subject_keys(keys: &Vec<Vec<u8>>) -> (r: Option<Vec<EntityLiteralId>>)
        ensures
            r is Some <==> is_tag_scan(keys@, 115),
            r matches Some(v) ==> lists(v@, Set::new(|x: u32| has_stat(keys@, Stat::Subject(x)))),
    {
        let r: Option<Vec<u32>> = ids_under(115, keys);
        proof {
            if is_tag_scan(keys@, 115) {
                assert forall|x: u32| has_stat(keys@, Stat::Subject(x)) <==> ids_of(keys@).contains(x) by {
                    lemma_ids(keys@, 115, Stat::Subject(x), x);
                }
            }
        }
        r
    }

    /// All objects, ascending, from the keys of the counters of objects.
    pub fn object_keys(keys: &Vec<Vec<u8>>) -> (r: Option<Vec<EntityLiteralId>>)
        ensures
            r is Some <==> is_tag_scan(keys@, 111),
            r matches Some(v) ==> lists(v@, Set::new(|x: u32| has_stat(keys@, Stat::Object(x)))),
    {
        let r: Option<Vec<u32>> = ids_under(111, keys);
        proof {
            if is_tag_scan(keys@, 111) {
                assert forall|x: u32| has_stat(keys@, Stat::Object(x)) <==> ids_of(keys@).contains(x) by {
                    lemma_ids(keys@, 111, Stat::Object(x), x);
                }
            }
        }
        r
    }
}

/// Whether a counter is one for the whole store.
pub open spec fn is_global(s: Stat) -> bool {
    s is Triples || s is Preds || s is Subjects || s is Objects
}

/// No counter but one for the whole store is kept at 0.
pub open spec fn no_zeros(m: Counters) -> bool {
    forall|s: Stat| #[trigger] m.contains_key(s) && !is_global(s) ==> m[s] > 0
}

/// Writes that set the counters for the whole store or move one to another value
/// keep none at 0.
proof fn lemma_applied_no_zeros(m: Counters, cs: Seq<Change>)
    requires
        no_zeros(m),
        forall|i: int| 0 <= i < cs.len() ==> is_global((#[trigger] cs[i]).stat) || cs[i].value != Some(0u64),
    ensures
        no_zeros(applied(m, cs)),
    decreases cs.len(),
{
    if cs.len() > 0 {
        lemma_applied_no_zeros(m, cs.drop_last());
        assert(is_global(cs[cs.len() - 1].stat) || cs[cs.len() - 1].value != Some(0u64));
    }
}

/// Counting a triple, or no longer counting it, keeps no counter at 0.
pub proof fn law_counters_leave_at_zero(m: Counters, t: IdTriple, added: bool)
    requires
        no_zeros(m),
        if added {
            can_grow(globals_of(m), counts_of(m, t))
        } else {
            can_shrink(globals_of(m), counts_of(m, t))
        },
    ensures
        no_zeros(applied(m, if added {
            changes(globals_of(m), counts_of(m, t), t, 1, 0)
        } else {
            changes(globals_of(m), counts_of(m, t), t, -1, 1)
        })),
{
    let (by, edge) = if added {
        (1int, 0int)
    } else {
        (-1int, 1int)
    };
    let cs = changes(globals_of(m), counts_of(m, t), t, by, edge);
    assert forall|i: int| 0 <= i < cs.len() implies is_global((#[trigger] cs[i]).stat) || cs[i].value != Some(0u64) by {
    }
    lemma_applied_no_zeros(m, cs);
}

proof fn lemma_those_some(ts: Set<IdTriple>, f: spec_fn(IdTriple) -> bool)
    requires
        ts.finite(),
    ensures
        those(ts, f) > 0 <==> exists|t: IdTriple| #[trigger] ts.contains(t) && f(t),
{
    let s = ts.filter(f);
    if s.len() > 0 {
        let t = s.choose();
        assert(s.contains(t));
        assert(ts.contains(t) && f(t));
    }
    if exists|t: IdTriple| #[trigger] ts.contains(t) && f(t) {
        let t = choose|t: IdTriple| #[trigger] ts.contains(t) && f(t);
        assert(s.contains(t));
        assert(s.len() > 0) by {
            if s.len() == 0 {
                assert(s =~= Set::empty());
            }
        }
    }
}

/// The counters that are kept tell the predicates, the subjects and the objects in
/// use.
pub proof fn law_kept_counters_are_in_use(m: Counters, ts: Set<IdTriple>, x: u32)
    requires
        ts.finite(),
        stats_ok(m, ts),
        no_zeros(m),
    ensures
        m.contains_key(Stat::Card(x)) <==> all_predicates(ts).contains(x),
        m.contains_key(Stat::Subject(x)) <==> all_subjects(ts).contains(x),
        m.contains_key(Stat::Object(x)) <==> all_objects(ts).contains(x),
{
    assert(counter(m, Stat::Card(x)) == stat_value(ts, Stat::Card(x)));
    assert(counter(m, Stat::Subject(x)) == stat_value(ts, Stat::Subject(x)));
    assert(counter(m, Stat::Object(x)) == stat_value(ts, Stat::Object(x)));
    lemma_those_some(ts, |t: IdTriple| t.pred == x);
    lemma_those_some(ts, |t: IdTriple| t.sub == x);
    lemma_those_some(ts, |t: IdTriple| t.obj == x);
    assert forall|t: IdTriple| #[trigger] ts.contains(t) implies t == spo_triple(t.sub, t.pred, t.obj) by {
    }
}

} // verus!
