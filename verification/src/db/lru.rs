//! A bounded cache of query results that forgets the least recently used.

use crate::query::QueryResult;
use crate::text::same;
use std::sync::Arc;
use vstd::prelude::*;
use vstd::string::*;

verus! {

/// A cached result with the text of its query.
pub struct CacheEntry {
    pub key: String,
    pub value: Arc<QueryResult>,
}

/// The cache as a mathematical value: the entries from the least to the most
/// recently used.
pub type CacheSpec = Seq<(Seq<char>, Arc<QueryResult>)>;

/// The place of a key.
pub open spec fn place_of(c: CacheSpec, key: Seq<char>) -> Option<int> {
    if exists|i: int| 0 <= i < c.len() && (#[trigger] c[i]).0 == key {
        Some(choose|i: int| 0 <= i < c.len() && (#[trigger] c[i]).0 == key)
    } else {
        None
    }
}

/// No key occurs twice.
pub open spec fn keys_apart(c: CacheSpec) -> bool {
    forall|i: int, j: int| 0 <= i < j < c.len() ==> (#[trigger] c[i]).0 != (#[trigger] c[j]).0
}

/// A key that is looked up becomes the most recently used.
pub open spec fn touched(c: CacheSpec, key: Seq<char>) -> CacheSpec {
    match place_of(c, key) {
        Some(i) => c.remove(i).push(c[i]),
        None => c,
    }
}

/// A result is stored as the most recently used; if it is new and the cache is
/// full, the least recently used entry goes. A cache of capacity zero stores
/// nothing.
pub open spec fn stored(c: CacheSpec, cap: nat, key: Seq<char>, value: Arc<QueryResult>) -> CacheSpec {
    if cap == 0 {
        c
    } else {
        match place_of(c, key) {
            Some(i) => c.remove(i).push((key, value)),
            None => (if c.len() >= cap {
                c.remove(0)
            } else {
                c
            }).push((key, value)),
        }
    }
}

/// A least-recently-used cache of query results.
pub struct LruCache {
    entries: Vec<CacheEntry>,
    cap: usize,
}

impl View for LruCache {
    type V = CacheSpec;

    closed spec fn view(&self) -> CacheSpec {
        self.entries@.map_values(|e: CacheEntry| (e.key@, e.value))
    }
}

impl LruCache {
    pub closed spec fn wf(&self) -> bool {
        &&& keys_apart(self@)
        &&& self@.len() <= self.capacity()
    }

    pub closed spec fn capacity(&self) -> nat {
        self.cap as nat
    }

    /// An empty cache of the given capacity.
    pub fn new(cap: usize) -> (r: LruCache)
        ensures
            r.wf(),
            r.capacity() == cap,
            r@.len() == 0,
            r@ == Seq::<(Seq<char>, Arc<QueryResult>)>::empty(),
    {
        let r = LruCache { entries: Vec::new(), cap };
        assert(r@ =~= Seq::<(Seq<char>, Arc<QueryResult>)>::empty());
        r
    }

    /// An independent copy.
    pub fn duplicate(&self) -> (r: LruCache)
        requires
            self.wf(),
        ensures
            r.wf(),
            r@ == self@,
            r.capacity() == self.capacity(),
    {
        let mut entries: Vec<CacheEntry> = Vec::new();
        let mut i: usize = 0;
        while i < self.entries.len()
            invariant
                i <= self.entries@.len(),
                entries@.len() == i,
                forall|k: int| 0 <= k < i ==> (#[trigger] entries@[k]).key@ == self.entries@[k].key@ && entries@[k].value == self.entries@[k].value,
            decreases self.entries.len() - i,
        {
            entries.push(CacheEntry { key: self.entries[i].key.clone(), value: self.entries[i].value.clone() });
            i = i + 1;
        }
        let r = LruCache { entries, cap: self.cap };
        assert(r@ =~= self@);
        r
    }

    fn find(&self, key: &str) -> (r: Option<usize>)
        requires
            self.wf(),
        ensures
            r matches Some(i) ==> i < self@.len() && place_of(self@, key@) == Some(i as int) && self@[i as int].0 == key@,
            r is None ==> place_of(self@, key@) is None,
    {
        let mut i: usize = 0;
        while i < self.entries.len()
            invariant
                self.wf(),
                i <= self.entries@.len(),
                forall|k: int| 0 <= k < i ==> (#[trigger] self@[k]).0 != key@,
            decreases self.entries.len() - i,
        {
            if same(self.entries[i].key.as_str(), key) {
                proof {
                    assert(self@[i as int].0 == key@);
                    let j = choose|j: int| 0 <= j < self@.len() && (#[trigger] self@[j]).0 == key@;
                    assert(j == i);
                }
                return Some(i);
            }
            assert(self@[i as int].0 != key@);
            i = i + 1;
        }
        None
    }

    /// The result stored under `key`, which thereby becomes the most recently
    /// used.
    pub fn get(&mut self, key: &str) -> (r: Option<Arc<QueryResult>>)
        requires
            old(self).wf(),
        ensures
            final(self).wf(),
            final(self).capacity() == old(self).capacity(),
            final(self)@ == touched(old(self)@, key@),
            r == (match place_of(old(self)@, key@) {
                Some(i) => Some(old(self)@[i].1),
                None => None::<Arc<QueryResult>>,
            }),
    {
        match self.find(key) {
            None => None,
            Some(i) => {
                let ghost c0 = self@;
                let e: CacheEntry = self.entries.remove(i);
                let v: Arc<QueryResult> = e.value.clone();
                self.entries.push(e);
                proof {
                    assert(self@ =~= c0.remove(i as int).push(c0[i as int]));
                    lemma_moved(c0, i as int, c0[i as int]);
                }
                Some(v)
            },
        }
    }

    /// Store a result under `key`.
    pub fn put(&mut self, key: String, value: Arc<QueryResult>)
        requires
            old(self).wf(),
        ensures
            final(self).wf(),
            final(self).capacity() == old(self).capacity(),
            final(self)@ == stored(old(self)@, old(self).capacity(), key@, value),
    {
        if self.cap == 0 {
            return;
        }
        let ghost c0 = self@;
        let ghost k = key@;
        match self.find(key.as_str()) {
            Some(i) => {
                self.entries.remove(i);
                self.entries.push(CacheEntry { key, value });
                proof {
                    assert(self@ =~= c0.remove(i as int).push((k, value)));
                    lemma_moved(c0, i as int, (k, value));
                }
            },
            None => {
                let ghost mut c1 = c0;
                if self.entries.len() >= self.cap {
                    self.entries.remove(0);
                    proof {
                        c1 = c0.remove(0);
                        assert(self@ =~= c1);
                    }
                }
                let ghost c2 = self@;
                self.entries.push(CacheEntry { key, value });
                proof {
                    assert(self@ =~= c2.push((k, value)));
                    assert forall|i: int, j: int| 0 <= i < j < self@.len() implies (#[trigger] self@[i]).0 != (#[trigger] self@[j]).0 by {
                        if j == c2.len() {
                            let o = if c0.len() > c2.len() { i + 1 } else { i };
                            assert(self@[i] == c0[o]);
                            assert(c0[o].0 != k);
                        } else {
                            let o = if c0.len() > c2.len() { 1int } else { 0int };
                            assert(self@[i] == c0[i + o] && self@[j] == c0[j + o]);
                        }
                    }
                }
            },
        }
    }

    /// Forget everything.
    pub fn clear(&mut self)
        ensures
            final(self).wf(),
            final(self).capacity() == old(self).capacity(),
            final(self)@ == Seq::<(Seq<char>, Arc<QueryResult>)>::empty(),
    {
        self.entries = Vec::new();
        assert(self@ =~= Seq::<(Seq<char>, Arc<QueryResult>)>::empty());
    }

    /// Number of stored results.
    pub fn len(&self) -> (n: usize)
        ensures
            n == self@.len(),
    {
        self.entries.len()
    }

    /// Is a result stored under `key`? The order of use does not change.
    pub fn contains(&self, key: &str) -> (b: bool)
        requires
            self.wf(),
        ensures
            b == (place_of(self@, key@) is Some),
    {
        self.find(key).is_some()
    }
}

proof fn lemma_moved(c: CacheSpec, i: int, e: (Seq<char>, Arc<QueryResult>))
    requires
        keys_apart(c),
        0 <= i < c.len(),
        e.0 == c[i].0,
    ensures
        keys_apart(c.remove(i).push(e)),
{
    let r = c.remove(i).push(e);
    assert forall|a: int, b: int| 0 <= a < b < r.len() implies (#[trigger] r[a]).0 != (#[trigger] r[b]).0 by {
        let oa = if a < i { a } else { a + 1 };
        assert(r[a] == c[oa]);
        if b < c.len() - 1 {
            let ob = if b < i { b } else { b + 1 };
            assert(r[b] == c[ob]);
        } else {
            assert(r[b] == e);
            assert(c[oa].0 != c[i].0);
        }
    }
}

/// A result that was stored is found under its key, until something evicts it.
pub proof fn law_stored_is_found(c: CacheSpec, cap: nat, key: Seq<char>, value: Arc<QueryResult>)
    requires
        keys_apart(c),
        cap > 0,
    ensures
        ({
            let d = stored(c, cap, key, value);
            place_of(d, key) == Some(d.len() - 1) && d[d.len() - 1].1 == value
        }),
{
    let d = stored(c, cap, key, value);
    let last = d.len() - 1;
    assert(d[last].0 == key);
    let j = choose|j: int| 0 <= j < d.len() && (#[trigger] d[j]).0 == key;
    if j != last {
        match place_of(c, key) {
            Some(i) => {
                let o = if j < i { j } else { j + 1 };
                assert(d[j] == c[o]);
                assert(c[i].0 == key);
            },
            None => {
                let o = if c.len() >= cap { j + 1 } else { j };
                assert(d[j] == c[o]);
            },
        }
    }
}

/// Eviction takes the least recently used entry and no other: storing a new key
/// in a full cache keeps every entry but the first.
pub proof fn law_evicts_least_recently_used(c: CacheSpec, cap: nat, key: Seq<char>, value: Arc<QueryResult>, i: int)
    requires
        keys_apart(c),
        cap > 0,
        c.len() >= cap,
        place_of(c, key) is None,
        0 < i < c.len(),
    ensures
        place_of(stored(c, cap, key, value), c[0].0) is None,
        stored(c, cap, key, value).contains(c[i]),
{
    let d = stored(c, cap, key, value);
    assert(d[i - 1] == c[i]);
    assert(c[0].0 != key);
    if place_of(d, c[0].0) is Some {
        let j = choose|j: int| 0 <= j < d.len() && (#[trigger] d[j]).0 == c[0].0;
        if j < c.len() - 1 {
            assert(d[j] == c[j + 1]);
        }
    }
}

/// A result that is found becomes the one that was used last; all others keep their order, and
/// a key that is not there changes nothing.
pub proof fn law_found_is_used_last(c: CacheSpec, key: Seq<char>, i: int)
    requires
        place_of(c, key) == Some(i) || (place_of(c, key) is None && i == c.len()),
        0 <= i <= c.len(),
        i == c.len() ==> place_of(c, key) is None,
    ensures
        touched(c, key).len() == c.len(),
        i < c.len() ==> touched(c, key)[c.len() - 1] == c[i],
        i == c.len() ==> touched(c, key) == c,
        forall|k: int| 0 <= k < i ==> touched(c, key)[k] == #[trigger] c[k],
        forall|k: int| i < k < c.len() ==> touched(c, key)[k - 1] == #[trigger] c[k],
{
}

} // verus!
