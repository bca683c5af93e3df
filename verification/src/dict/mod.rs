//! Bidirectional dictionaries between strings and ids.
//!
//! Three independent id spaces are maintained: entities, literals and
//! predicates. Ids are dense and assigned in the order of first use; the literal
//! with index `i` has the public id `i + LITERAL_FIRST_ID`, so that an object id
//! alone tells whether it is an entity or a literal. Keys are the surface syntax
//! of terms, so an IRI never collides with a literal of the same name.
//!
//! Entries that no triple uses any more can be reclaimed; their ids are handed
//! out again before new ones.

pub mod image;
pub mod prefix;

use crate::model::id::{entity_range, literal_range};
use crate::model::term::{term_key, TermSpec};
use crate::model::{EntityLiteralId, PredId, Term, INVALID_ENTITY_LITERAL_ID, INVALID_PRED_ID, LITERAL_FIRST_ID};
use crate::order::{ascending, holds, Ranked};
use vstd::hash_map::StringHashMap;
use vstd::prelude::*;
use vstd::string::*;

verus! {

/// One dictionary: from string to index and back. Freed indexes have no string
/// and wait to be used again.
struct Interner {
    forward: StringHashMap<u32>,
    backward: Vec<Option<String>>,
    free: Vec<u32>,
}

/// No two keys share an index.
pub open spec fn one_to_one(m: Map<Seq<char>, u32>) -> bool {
    forall|a: Seq<char>, b: Seq<char>| m.contains_key(a) && m.contains_key(b) && #[trigger] m[a] == #[trigger] m[b] ==> a == b
}

impl Interner {
    spec fn wf(&self) -> bool {
        &&& self.backward@.len() <= u32::MAX
        &&& forall|s: Seq<char>| #[trigger] self.forward@.contains_key(s) ==> {
            let i = self.forward@[s] as int;
            &&& i < self.backward@.len()
            &&& self.backward@[i] matches Some(t) && t@ == s
        }
        &&& forall|i: int| 0 <= i < self.backward@.len() ==> (#[trigger] self.backward@[i] matches Some(t) ==> self.forward@.contains_key(t@) && self.forward@[t@] == i)
        &&& self.free@.no_duplicates()
        &&& forall|k: int| 0 <= k < self.free@.len() ==> #[trigger] self.free@[k] < self.backward@.len() && self.backward@[self.free@[k] as int] is None
        &&& forall|i: int| 0 <= i < self.backward@.len() && #[trigger] self.backward@[i] is None ==> self.free@.contains(i as u32)
        &&& self.forward@.dom().finite()
        &&& self.forward@.dom().len() + self.free@.len() == self.backward@.len()
    }

    proof fn lemma_one_to_one(&self)
        requires
            self.wf(),
        ensures
            one_to_one(self.forward@),
    {
    }

    proof fn lemma_space(&self)
        requires
            self.wf(),
        ensures
            space_ok(self.forward@, self.free@, 0),
    {
        let m = self.forward@;
        assert forall|k: int| 0 <= k < self.free@.len() implies #[trigger] self.free@[k] < m.dom().len() + self.free@.len() && !m.contains_value((0 + self.free@[k]) as u32) by {
            if m.contains_value((0 + self.free@[k]) as u32) {
                let s = choose|s: Seq<char>| #[trigger] m.contains_key(s) && m[s] == (0 + self.free@[k]) as u32;
                assert(self.backward@[self.free@[k] as int] is None);
            }
        }
    }

    fn new() -> (r: Interner)
        ensures
            r.wf(),
            r.forward@ == Map::<Seq<char>, u32>::empty(),
            r.free@.len() == 0,
    {
        Interner { forward: StringHashMap::new(), backward: Vec::new(), free: Vec::new() }
    }

    /// The index of `s`, newly assigned if `s` has none.
    fn intern(&mut self, s: &str, limit: u32) -> (id: u32)
        requires
            old(self).wf(),
            old(self).forward@.contains_key(s@) || old(self).free@.len() > 0 || old(self).backward@.len() < limit,
            old(self).backward@.len() <= limit,
        ensures
            final(self).wf(),
            final(self).backward@.len() <= limit,
            id < final(self).backward@.len(),
            final(self).forward@ == old(self).forward@.insert(s@, id),
            old(self).forward@.contains_key(s@) ==> id == old(self).forward@[s@] && final(self).free@ == old(self).free@,
            !old(self).forward@.contains_key(s@) ==> !old(self).forward@.contains_value(id),
            !old(self).forward@.contains_key(s@) && old(self).free@.len() == 0 ==> id == old(self).forward@.dom().len() && final(self).free@.len() == 0,
            !old(self).forward@.contains_key(s@) && old(self).free@.len() > 0 ==> id == old(self).free@.last() && final(self).free@ == old(self).free@.drop_last(),
    {
        match self.forward.get(s) {
            Some(id) => {
                let r: u32 = *id;
                assert(self.forward@.insert(s@, r) =~= self.forward@);
                return r;
            },
            None => {},
        }
        let ghost f0 = self.forward@;
        let ghost b0 = self.backward@;
        let ghost fr0 = self.free@;
        let id: u32 = match self.free.pop() {
            Some(i) => {
                proof {
                    assert(fr0[fr0.len() - 1] == i);
                    assert(b0[i as int] is None);
                }
                self.backward.set(i as usize, Some(s.to_owned()));
                i
            },
            None => {
                let i: u32 = self.backward.len() as u32;
                self.backward.push(Some(s.to_owned()));
                i
            },
        };
        self.forward.insert(s.to_owned(), id);
        proof {
            assert(!f0.contains_value(id)) by {
                if f0.contains_value(id) {
                    let t = choose|t: Seq<char>| #[trigger] f0.contains_key(t) && f0[t] == id;
                    assert(b0[id as int] is Some);
                }
            }
            assert forall|t: Seq<char>| #[trigger] self.forward@.contains_key(t) implies ({
                let i = self.forward@[t] as int;
                &&& i < self.backward@.len()
                &&& self.backward@[i] matches Some(u) && u@ == t
            }) by {
                if t != s@ {
                    assert(f0.contains_key(t));
                    assert(f0.contains_value(f0[t]));
                }
            }
            assert forall|i: int| 0 <= i < self.backward@.len() implies (#[trigger] self.backward@[i] matches Some(t) ==> self.forward@.contains_key(t@) && self.forward@[t@] == i) by {
                if i != id {
                    assert(self.backward@[i] == b0[i]);
                }
            }
            if fr0.len() > 0 {
                let last = fr0.len() - 1;
                assert(self.free@ =~= fr0.drop_last());
                assert forall|k: int| 0 <= k < self.free@.len() implies #[trigger] self.free@[k] < self.backward@.len() && self.backward@[self.free@[k] as int] is None by {
                    assert(self.free@[k] == fr0[k]);
                    assert(fr0[k] != fr0[last]);
                }
                assert forall|i: int| 0 <= i < self.backward@.len() && #[trigger] self.backward@[i] is None implies self.free@.contains(i as u32) by {
                    assert(b0[i] is None);
                    let k = choose|k: int| 0 <= k < fr0.len() && fr0[k] == i as u32;
                    assert(k != last);
                    assert(self.free@[k] == i as u32);
                }
            } else {
                assert forall|i: int| 0 <= i < self.backward@.len() && #[trigger] self.backward@[i] is None implies self.free@.contains(i as u32) by {
                    assert(b0[i] is None);
                }
            }
            assert(self.forward@.dom() =~= f0.dom().insert(s@));
        }
        id
    }

    /// The index of `s`, if it has one.
    fn get(&self, s: &str) -> (r: Option<u32>)
        ensures
            r == (if self.forward@.contains_key(s@) { Some(self.forward@[s@]) } else { None::<u32> }),
    {
        match self.forward.get(s) {
            Some(id) => Some(*id),
            None => None,
        }
    }

    /// The string of an index, if it has one.
    fn resolve(&self, idx: u32) -> (r: Option<&str>)
        requires
            self.wf(),
        ensures
            r is Some <==> self.forward@.contains_value(idx),
            r matches Some(s) ==> self.forward@.contains_key(s@) && self.forward@[s@] == idx,
    {
        if (idx as usize) < self.backward.len() {
            match &self.backward[idx as usize] {
                Some(s) => {
                    assert(self.backward@[idx as int] is Some);
                    assert(self.forward@.contains_key(s@) && self.forward@[s@] == idx);
                    Some(s.as_str())
                },
                None => {
                    assert(self.backward@[idx as int] is None);
                    assert(!self.forward@.contains_value(idx)) by {
                        if self.forward@.contains_value(idx) {
                            let t = choose|t: Seq<char>| #[trigger] self.forward@.contains_key(t) && self.forward@[t] == idx;
                            assert(self.backward@[idx as int] is Some);
                        }
                    }
                    None
                },
            }
        } else {
            assert(!self.forward@.contains_value(idx)) by {
                if self.forward@.contains_value(idx) {
                    let t = choose|t: Seq<char>| #[trigger] self.forward@.contains_key(t) && self.forward@[t] == idx;
                }
            }
            None
        }
    }

    /// Free the entries whose index is not among `used`, which is shifted by
    /// `base`. Gives the number of entries freed.
    fn retain(&mut self, used: &Vec<u32>, base: u32) -> (freed: usize)
        requires
            old(self).wf(),
            ascending(used@),
            old(self).backward@.len() + base <= u32::MAX,
        ensures
            final(self).wf(),
            final(self).backward@.len() == old(self).backward@.len(),
            forall|s: Seq<char>| #[trigger] final(self).forward@.contains_key(s) <==> old(self).forward@.contains_key(s) && used@.contains((old(self).forward@[s] + base) as u32),
            forall|s: Seq<char>| #[trigger] final(self).forward@.contains_key(s) ==> final(self).forward@[s] == old(self).forward@[s],
            freed == old(self).forward@.dom().len() - final(self).forward@.dom().len(),
            old(self).free@ =~= final(self).free@.take(old(self).free@.len() as int),
            ascending(final(self).free@.skip(old(self).free@.len() as int)),
            forall|j: u32| #[trigger] final(self).free@.skip(old(self).free@.len() as int).contains(j) <==> old(self).forward@.contains_value(j) && !used@.contains((j + base) as u32),
    {
        let mut freed: usize = 0;
        let ghost n0 = self.free@.len() as int;
        let ghost fr0 = self.free@;
        let mut i: usize = 0;
        let ghost f0 = self.forward@;
        while i < self.backward.len()
            invariant
                self.wf(),
                ascending(used@),
                i <= self.backward@.len(),
                self.backward@.len() == old(self).backward@.len(),
                old(self).backward@.len() + base <= u32::MAX,
                f0 == old(self).forward@,
                freed == f0.dom().len() - self.forward@.dom().len(),
                freed <= i,
                forall|s: Seq<char>| #[trigger] self.forward@.contains_key(s) ==> f0.contains_key(s) && self.forward@[s] == f0[s],
                forall|s: Seq<char>| #[trigger] f0.contains_key(s) ==> f0[s] < self.backward@.len(),
                forall|s: Seq<char>| #[trigger] f0.contains_key(s) && f0[s] < i ==> (self.forward@.contains_key(s) <==> used@.contains((f0[s] + base) as u32)),
                forall|s: Seq<char>| #[trigger] f0.contains_key(s) && f0[s] >= i ==> self.forward@.contains_key(s),
                fr0 == old(self).free@,
                n0 == fr0.len(),
                n0 <= self.free@.len(),
                self.free@.take(n0) =~= fr0,
                ascending(self.free@.skip(n0)),
                forall|k: int| n0 <= k < self.free@.len() ==> #[trigger] self.free@[k] < i,
                forall|k: int| n0 <= k < self.free@.len() ==> f0.contains_value(#[trigger] self.free@[k]) && !used@.contains((self.free@[k] + base) as u32),
                forall|s: Seq<char>| #[trigger] f0.contains_key(s) && f0[s] < i && !used@.contains((f0[s] + base) as u32) ==> self.free@.skip(n0).contains(f0[s]),
            decreases self.backward.len() - i,
        {
            let ghost f1 = self.forward@;
            let ghost b1 = self.backward@;
            let ghost fr1 = self.free@;
            let keep: bool = holds(used, &(i as u32 + base));
            let key: Option<String> = match &self.backward[i] {
                Some(s) => Some(s.clone()),
                None => None,
            };
            if !keep {
                match key {
                    Some(s) => {
                        assert(b1[i as int] is Some);
                        assert(f1.contains_key(s@) && f1[s@] == i);
                        self.forward.remove(s.as_str());
                        self.backward.set(i, None);
                        self.free.push(i as u32);
                        freed = freed + 1;
                        proof {
                            assert(self.forward@ =~= f1.remove(s@));
                            assert(self.forward@.dom() =~= f1.dom().remove(s@));
                            assert forall|t: Seq<char>| #[trigger] self.forward@.contains_key(t) implies ({
                                let j = self.forward@[t] as int;
                                &&& j < self.backward@.len()
                                &&& self.backward@[j] matches Some(u) && u@ == t
                            }) by {
                                assert(f1.contains_key(t));
                                assert(f1[t] != i) by {
                                    if f1[t] == i {
                                        assert(b1[i as int] is Some);
                                    }
                                }
                            }
                            assert forall|j: int| 0 <= j < self.backward@.len() implies (#[trigger] self.backward@[j] matches Some(t) ==> self.forward@.contains_key(t@) && self.forward@[t@] == j) by {
                                if j != i {
                                    assert(self.backward@[j] == b1[j]);
                                    if b1[j] is Some {
                                        assert(f1[(b1[j]->0)@] == j);
                                    }
                                }
                            }
                            assert(!fr1.contains(i as u32)) by {
                                if fr1.contains(i as u32) {
                                    let k = choose|k: int| 0 <= k < fr1.len() && fr1[k] == i as u32;
                                    assert(b1[fr1[k] as int] is None);
                                }
                            }
                            assert forall|k: int| 0 <= k < self.free@.len() implies #[trigger] self.free@[k] < self.backward@.len() && self.backward@[self.free@[k] as int] is None by {
                                if k < fr1.len() {
                                    assert(self.free@[k] == fr1[k]);
                                    assert(b1[fr1[k] as int] is None);
                                }
                            }
                            assert forall|j: int| 0 <= j < self.backward@.len() && #[trigger] self.backward@[j] is None implies self.free@.contains(j as u32) by {
                                if j == i {
                                    assert(self.free@[fr1.len() as int] == i as u32);
                                } else {
                                    assert(b1[j] is None);
                                    let k = choose|k: int| 0 <= k < fr1.len() && fr1[k] == j as u32;
                                    assert(self.free@[k] == j as u32);
                                }
                            }
                        }
                    },
                    None => {},
                }
            }
            proof {
                assert forall|s: Seq<char>| #[trigger] f0.contains_key(s) && f0[s] < i + 1 implies (self.forward@.contains_key(s) <==> used@.contains((f0[s] + base) as u32)) by {
                    if f0[s] == i {
                        assert(f1.contains_key(s));
                        assert(f1[s] == i);
                        assert(b1[i as int] is Some);
                    } else {
                        assert(f1.contains_key(s) <==> used@.contains((f0[s] + base) as u32));
                        if f1.contains_key(s) && b1[i as int] is Some {
                            assert(f1[(b1[i as int]->0)@] == i);
                        }
                    }
                }
                assert forall|s: Seq<char>| #[trigger] f0.contains_key(s) && f0[s] >= i + 1 implies self.forward@.contains_key(s) by {
                    assert(f1.contains_key(s));
                    if b1[i as int] is Some {
                        assert(f1[(b1[i as int]->0)@] == i);
                    }
                }
            }
            proof {
                let sk1 = fr1.skip(n0);
                let sk = self.free@.skip(n0);
                if self.free@.len() > fr1.len() {
                    assert(sk =~= sk1.push(i as u32));
                    assert forall|a: int, b: int| 0 <= a < b < sk.len() implies (#[trigger] sk[a]).rank() < (#[trigger] sk[b]).rank() by {
                        if b < sk1.len() {
                            assert(sk[a] == sk1[a] && sk[b] == sk1[b]);
                        } else {
                            assert(sk[a] == fr1[n0 + a]);
                        }
                    }
                    assert(b1[i as int] is Some);
                    assert(f0.contains_key((b1[i as int]->0)@) && f0[(b1[i as int]->0)@] == i);
                    assert(f0.contains_value(i as u32));
                    assert forall|k: int| n0 <= k < self.free@.len() implies f0.contains_value(#[trigger] self.free@[k]) && !used@.contains((self.free@[k] + base) as u32) by {
                        if k < fr1.len() {
                            assert(self.free@[k] == fr1[k]);
                        }
                    }
                    assert forall|k: int| n0 <= k < self.free@.len() implies #[trigger] self.free@[k] < i + 1 by {
                        if k < fr1.len() {
                            assert(self.free@[k] == fr1[k]);
                        }
                    }
                    assert(sk[sk1.len() as int] == i as u32);
                    assert(self.free@.take(n0) =~= fr1.take(n0));
                }
                assert forall|s: Seq<char>| #[trigger] f0.contains_key(s) && f0[s] < i + 1 && !used@.contains((f0[s] + base) as u32) implies sk.contains(f0[s]) by {
                    if f0[s] < i {
                        assert(sk1.contains(f0[s]));
                        let k = choose|k: int| 0 <= k < sk1.len() && sk1[k] == f0[s];
                        assert(sk[k] == f0[s]);
                    } else {
                        assert(f1.contains_key(s) && f1[s] == i);
                        assert(b1[i as int] is Some);
                        assert(sk[sk1.len() as int] == i as u32);
                    }
                }
            }
            i = i + 1;
        }
        proof {
            let sk = self.free@.skip(n0);
            assert forall|j: u32| #[trigger] sk.contains(j) <==> f0.contains_value(j) && !used@.contains((j + base) as u32) by {
                if sk.contains(j) {
                    let k = choose|k: int| 0 <= k < sk.len() && sk[k] == j;
                    assert(self.free@[n0 + k] == j);
                }
                if f0.contains_value(j) && !used@.contains((j + base) as u32) {
                    let t = choose|t: Seq<char>| #[trigger] f0.contains_key(t) && f0[t] == j;
                    assert(sk.contains(f0[t]));
                }
            }
        }
        freed
    }
}

/// A dictionary as a mathematical value: the public ids of its keys, and the
/// freed indexes that wait in each space to be used again; the last goes first.
#[verifier::ext_equal]
pub ghost struct DictSpec {
    pub entities: Map<Seq<char>, u32>,
    pub literals: Map<Seq<char>, u32>,
    pub predicates: Map<Seq<char>, u32>,
    pub freed_entities: Seq<u32>,
    pub freed_literals: Seq<u32>,
    pub freed_predicates: Seq<u32>,
}

/// The full RDF dictionary: entities, literals, and predicates.
pub struct Dictionary {
    entities: Interner,
    literals: Interner,
    predicates: Interner,
}

/// The public ids of literals.
pub open spec fn shifted(m: Map<Seq<char>, u32>) -> Map<Seq<char>, u32> {
    m.map_values(|i: u32| (i + LITERAL_FIRST_ID) as u32)
}

/// Most literal indexes, so that no literal gets the sentinel as its id.
pub const MAX_LITERALS: u32 = 2_294_967_295;

impl View for Dictionary {
    type V = DictSpec;

    closed spec fn view(&self) -> DictSpec {
        DictSpec {
            entities: self.entities.forward@,
            literals: shifted(self.literals.forward@),
            predicates: self.predicates.forward@,
            freed_entities: self.entities.free@,
            freed_literals: self.literals.free@,
            freed_predicates: self.predicates.free@,
        }
    }
}

/// The id that interning `key` gives in a space: a known key keeps its id, a new
/// one gets the freed index at hand, and without one the number of keys. Ids are
/// indexes counted from `first`.
pub open spec fn id_for(m: Map<Seq<char>, u32>, freed: Seq<u32>, first: int, key: Seq<char>) -> u32 {
    if m.contains_key(key) {
        m[key]
    } else if freed.len() > 0 {
        (first + freed.last()) as u32
    } else {
        (first + m.dom().len()) as u32
    }
}

/// The freed indexes that are left after `key` was interned.
pub open spec fn freed_after(m: Map<Seq<char>, u32>, freed: Seq<u32>, key: Seq<char>) -> Seq<u32> {
    if !m.contains_key(key) && freed.len() > 0 {
        freed.drop_last()
    } else {
        freed
    }
}

/// The dictionary after an entity was interned.
pub open spec fn with_entity(d: DictSpec, key: Seq<char>) -> DictSpec {
    DictSpec {
        entities: d.entities.insert(key, id_for(d.entities, d.freed_entities, 0, key)),
        freed_entities: freed_after(d.entities, d.freed_entities, key),
        ..d
    }
}

/// The dictionary after a literal was interned.
pub open spec fn with_literal(d: DictSpec, key: Seq<char>) -> DictSpec {
    DictSpec {
        literals: d.literals.insert(key, id_for(d.literals, d.freed_literals, LITERAL_FIRST_ID as int, key)),
        freed_literals: freed_after(d.literals, d.freed_literals, key),
        ..d
    }
}

/// The dictionary after a predicate was interned.
pub open spec fn with_predicate(d: DictSpec, key: Seq<char>) -> DictSpec {
    DictSpec {
        predicates: d.predicates.insert(key, id_for(d.predicates, d.freed_predicates, 0, key)),
        freed_predicates: freed_after(d.predicates, d.freed_predicates, key),
        ..d
    }
}

/// The dictionary after a term was interned in its space.
pub open spec fn with_term(d: DictSpec, t: TermSpec) -> DictSpec {
    if t is Literal {
        with_literal(d, term_key(t))
    } else {
        with_entity(d, term_key(t))
    }
}

/// What interning `key` does to one space: a known key keeps its id, a new one
/// gets an id that no other key has.
pub open spec fn interned(before: Map<Seq<char>, u32>, after: Map<Seq<char>, u32>, key: Seq<char>, id: u32) -> bool {
    &&& after == before.insert(key, id)
    &&& before.contains_key(key) ==> id == before[key]
    &&& !before.contains_key(key) ==> !before.contains_value(id)
}

/// What holds of every id space: ids are one to one, they are indexes counted
/// from `first`, and the freed indexes are those that no key has.
pub open spec fn space_ok(m: Map<Seq<char>, u32>, freed: Seq<u32>, first: int) -> bool {
    &&& m.dom().finite()
    &&& one_to_one(m)
    &&& freed.no_duplicates()
    &&& first + m.dom().len() + freed.len() <= u32::MAX
    &&& forall|s: Seq<char>| #[trigger] m.contains_key(s) ==> first <= m[s] < first + m.dom().len() + freed.len()
    &&& forall|k: int| 0 <= k < freed.len() ==> #[trigger] freed[k] < m.dom().len() + freed.len() && !m.contains_value((first + freed[k]) as u32)
}

/// What holds of every dictionary.
pub open spec fn dict_ok(d: DictSpec) -> bool {
    &&& space_ok(d.entities, d.freed_entities, 0)
    &&& space_ok(d.literals, d.freed_literals, LITERAL_FIRST_ID as int)
    &&& space_ok(d.predicates, d.freed_predicates, 0)
    &&& d.entities.dom().len() + d.freed_entities.len() <= LITERAL_FIRST_ID
}

impl Dictionary {
    pub closed spec fn wf(&self) -> bool {
        &&& self.entities.wf()
        &&& self.literals.wf()
        &&& self.predicates.wf()
        &&& self.entities.backward@.len() <= LITERAL_FIRST_ID
        &&& self.literals.backward@.len() <= MAX_LITERALS
        &&& self.predicates.backward@.len() <= INVALID_PRED_ID
    }

    /// Room for `key` in the entity space.
    pub open spec fn entity_room(&self, key: Seq<char>) -> bool {
        self@.entities.contains_key(key) || self@.freed_entities.len() > 0 || self@.entities.dom().len() < LITERAL_FIRST_ID
    }

    /// Room for `key` in the literal space.
    pub open spec fn literal_room(&self, key: Seq<char>) -> bool {
        self@.literals.contains_key(key) || self@.freed_literals.len() > 0 || self@.literals.dom().len() < MAX_LITERALS
    }

    /// Room for `key` in the predicate space.
    pub open spec fn predicate_room(&self, key: Seq<char>) -> bool {
        self@.predicates.contains_key(key) || self@.freed_predicates.len() > 0 || self@.predicates.dom().len() < INVALID_PRED_ID
    }

    /// Room for a term in its space.
    pub open spec fn term_room(&self, t: TermSpec) -> bool {
        if t is Literal {
            self.literal_room(term_key(t))
        } else {
            self.entity_room(term_key(t))
        }
    }

    /// What holds of every dictionary: ids are one to one within a space,
    /// entity and literal ids lie in their ranges, and no id is the sentinel.
    pub proof fn lemma_ids(&self)
        requires
            self.wf(),
        ensures
            one_to_one(self@.entities),
            one_to_one(self@.literals),
            one_to_one(self@.predicates),
            forall|s: Seq<char>| #[trigger] self@.entities.contains_key(s) ==> entity_range(self@.entities[s]),
            forall|s: Seq<char>| #[trigger] self@.literals.contains_key(s) ==> literal_range(self@.literals[s]),
            forall|s: Seq<char>| #[trigger] self@.predicates.contains_key(s) ==> self@.predicates[s] < INVALID_PRED_ID,
            self@.entities.dom().finite(),
            self@.literals.dom().finite(),
            self@.predicates.dom().finite(),
    {
        self.entities.lemma_one_to_one();
        self.literals.lemma_one_to_one();
        self.predicates.lemma_one_to_one();
        assert forall|s: Seq<char>| #[trigger] self@.literals.contains_key(s) implies literal_range(self@.literals[s]) by {
            assert(self.literals.forward@.contains_key(s));
        }
        assert forall|a: Seq<char>, b: Seq<char>| self@.literals.contains_key(a) && self@.literals.contains_key(b) && #[trigger] self@.literals[a] == #[trigger] self@.literals[b] implies a == b by {
            assert(self.literals.forward@.contains_key(a) && self.literals.forward@.contains_key(b));
            assert(self.literals.forward@[a] == self.literals.forward@[b]);
        }
        assert(self@.literals.dom() =~= self.literals.forward@.dom());
    }

    /// The spaces of every dictionary are in order.
    pub proof fn lemma_ok(&self)
        requires
            self.wf(),
        ensures
            dict_ok(self@),
    {
        self.lemma_ids();
        assert(self@.literals.dom() =~= self.literals.forward@.dom());
        self.entities.lemma_space();
        self.literals.lemma_space();
        self.predicates.lemma_space();
        let m = self.literals.forward@;
        let f = self.literals.free@;
        assert forall|k: int| 0 <= k < f.len() implies #[trigger] f[k] < m.dom().len() + f.len() && !shifted(m).contains_value((LITERAL_FIRST_ID + f[k]) as u32) by {
            assert(!m.contains_value((0 + f[k]) as u32));
            if shifted(m).contains_value((LITERAL_FIRST_ID + f[k]) as u32) {
                let s = choose|s: Seq<char>| #[trigger] shifted(m).contains_key(s) && shifted(m)[s] == (LITERAL_FIRST_ID + f[k]) as u32;
                assert(m.contains_key(s) && m[s] == f[k]);
                assert(m.contains_value(f[k]));
            }
        }
        assert forall|s: Seq<char>| #[trigger] shifted(m).contains_key(s) implies LITERAL_FIRST_ID <= shifted(m)[s] < LITERAL_FIRST_ID + m.dom().len() + f.len() by {
            assert(m.contains_key(s));
        }
    }

    /// An empty dictionary.
    pub fn new() -> (r: Dictionary)
        ensures
            r.wf(),
            r@.entities == Map::<Seq<char>, u32>::empty(),
            r@.literals == Map::<Seq<char>, u32>::empty(),
            r@.predicates == Map::<Seq<char>, u32>::empty(),
            r@.freed_entities.len() == 0,
            r@.freed_literals.len() == 0,
            r@.freed_predicates.len() == 0,
    {
        let r = Dictionary { entities: Interner::new(), literals: Interner::new(), predicates: Interner::new() };
        assert(r@.literals =~= Map::<Seq<char>, u32>::empty());
        r
    }

    /// The id of an entity, newly assigned if it has none.
    pub fn intern_entity(&mut self, key: &str) -> (id: EntityLiteralId)
        requires
            old(self).wf(),
            old(self).entity_room(key@),
        ensures
            final(self).wf(),
            entity_range(id),
            final(self)@ == with_entity(old(self)@, key@),
            id == final(self)@.entities[key@],
            interned(old(self)@.entities, final(self)@.entities, key@, id),
    {
        let id: u32 = self.entities.intern(key, LITERAL_FIRST_ID);
        assert(self@ =~= with_entity(old(self)@, key@));
        id
    }

    /// The id of an entity, if it has one.
    pub fn entity_id(&self, key: &str) -> (r: Option<EntityLiteralId>)
        requires
            self.wf(),
        ensures
            r == (if self@.entities.contains_key(key@) { Some(self@.entities[key@]) } else { None::<u32> }),
    {
        self.entities.get(key)
    }

    /// The public id of a literal, newly assigned if it has none.
    pub fn intern_literal(&mut self, key: &str) -> (id: EntityLiteralId)
        requires
            old(self).wf(),
            old(self).literal_room(key@),
        ensures
            final(self).wf(),
            literal_range(id),
            final(self)@ == with_literal(old(self)@, key@),
            id == final(self)@.literals[key@],
            interned(old(self)@.literals, final(self)@.literals, key@, id),
    {
        proof {
            assert(self@.literals.dom() =~= self.literals.forward@.dom());
        }
        let i: u32 = self.literals.intern(key, MAX_LITERALS);
        proof {
            let m0 = old(self).literals.forward@;
            let m1 = self.literals.forward@;
            let id = (i + LITERAL_FIRST_ID) as u32;
            assert(shifted(m1) =~= shifted(m0).insert(key@, id));
            assert(shifted(m0).dom() =~= m0.dom());
            if shifted(m0).contains_value(id) && !m0.contains_key(key@) {
                let t = choose|t: Seq<char>| #[trigger] shifted(m0).contains_key(t) && shifted(m0)[t] == id;
                assert(m0.contains_key(t));
                assert(m0[t] < old(self).literals.backward@.len());
                assert(m0[t] == i);
                assert(m0.contains_value(i));
            }
            if m0.contains_key(key@) {
                assert(shifted(m0)[key@] == id);
            }
            assert(self@ =~= with_literal(old(self)@, key@));
        }
        i + LITERAL_FIRST_ID
    }

    /// The public id of a literal, if it has one.
    pub fn literal_id(&self, key: &str) -> (r: Option<EntityLiteralId>)
        requires
            self.wf(),
        ensures
            r == (if self@.literals.contains_key(key@) { Some(self@.literals[key@]) } else { None::<u32> }),
    {
        match self.literals.get(key) {
            Some(i) => {
                assert(self.literals.forward@.contains_key(key@));
                Some(i + LITERAL_FIRST_ID)
            },
            None => None,
        }
    }

    /// The id of a predicate, newly assigned if it has none.
    pub fn intern_predicate(&mut self, key: &str) -> (id: PredId)
        requires
            old(self).wf(),
            old(self).predicate_room(key@),
        ensures
            final(self).wf(),
            id < INVALID_PRED_ID,
            final(self)@ == with_predicate(old(self)@, key@),
            id == final(self)@.predicates[key@],
            interned(old(self)@.predicates, final(self)@.predicates, key@, id),
    {
        let id: u32 = self.predicates.intern(key, INVALID_PRED_ID);
        assert(self@ =~= with_predicate(old(self)@, key@));
        id
    }

    /// The id of a predicate, if it has one.
    pub fn predicate_id(&self, key: &str) -> (r: Option<PredId>)
        requires
            self.wf(),
        ensures
            r == (if self@.predicates.contains_key(key@) { Some(self@.predicates[key@]) } else { None::<u32> }),
    {
        self.predicates.get(key)
    }

    /// The space of a term.
    pub open spec fn space(d: DictSpec, t: TermSpec) -> Map<Seq<char>, u32> {
        if t is Literal {
            d.literals
        } else {
            d.entities
        }
    }

    /// The id of a term in its space (literals in the literal space, all else in
    /// the entity space), newly assigned if it has none.
    pub fn intern_term(&mut self, t: &Term) -> (id: EntityLiteralId)
        requires
            old(self).wf(),
            old(self).term_room(t@),
        ensures
            final(self).wf(),
            final(self)@ == with_term(old(self)@, t@),
            id == Self::space(final(self)@, t@)[term_key(t@)],
            interned(Self::space(old(self)@, t@), Self::space(final(self)@, t@), term_key(t@), id),
            t@ is Literal ==> literal_range(id),
            !(t@ is Literal) ==> entity_range(id),
    {
        let key: String = t.dict_key();
        if t.is_literal() {
            self.intern_literal(key.as_str())
        } else {
            self.intern_entity(key.as_str())
        }
    }

    /// The id of a term, if it has one.
    pub fn term_id(&self, t: &Term) -> (r: Option<EntityLiteralId>)
        requires
            self.wf(),
        ensures
            r == (if Self::space(self@, t@).contains_key(term_key(t@)) { Some(Self::space(self@, t@)[term_key(t@)]) } else { None::<u32> }),
    {
        let key: String = t.dict_key();
        if t.is_literal() {
            self.literal_id(key.as_str())
        } else {
            self.entity_id(key.as_str())
        }
    }

    /// The key of an entity or literal id, routed by the range of the id.
    pub fn id_to_string(&self, id: EntityLiteralId) -> (r: Option<&str>)
        requires
            self.wf(),
        ensures
            r is Some <==> self@.entities.contains_value(id) || self@.literals.contains_value(id),
            r matches Some(s) ==> (self@.entities.contains_key(s@) && self@.entities[s@] == id) || (self@.literals.contains_key(s@) && self@.literals[s@] == id),
    {
        proof {
            self.lemma_ids();
            assert(self@.entities.contains_value(id) ==> entity_range(id));
            assert(self@.literals.contains_value(id) ==> literal_range(id));
        }
        if id == INVALID_ENTITY_LITERAL_ID {
            None
        } else if id >= LITERAL_FIRST_ID {
            let i: u32 = id - LITERAL_FIRST_ID;
            proof {
                let m = self.literals.forward@;
                if m.contains_value(i) {
                    let t = choose|t: Seq<char>| #[trigger] m.contains_key(t) && m[t] == i;
                    assert(shifted(m).contains_key(t) && shifted(m)[t] == id);
                    assert(shifted(m).contains_value(id));
                }
                if shifted(m).contains_value(id) {
                    let t = choose|t: Seq<char>| #[trigger] shifted(m).contains_key(t) && shifted(m)[t] == id;
                    assert(m.contains_key(t));
                    assert(m[t] == i);
                    assert(m.contains_value(i));
                }
            }
            let r: Option<&str> = self.literals.resolve(i);
            r
        } else {
            self.entities.resolve(id)
        }
    }

    /// The key of a predicate id.
    pub fn predicate_to_string(&self, id: PredId) -> (r: Option<&str>)
        requires
            self.wf(),
        ensures
            r is Some <==> self@.predicates.contains_value(id),
            r matches Some(s) ==> self@.predicates.contains_key(s@) && self@.predicates[s@] == id,
    {
        if id == INVALID_PRED_ID {
            proof {
                self.lemma_ids();
            }
            None
        } else {
            self.predicates.resolve(id)
        }
    }

    /// Number of entities.
    pub fn entity_num(&self) -> (n: usize)
        requires
            self.wf(),
        ensures
            n == self@.entities.dom().len(),
    {
        self.entities.backward.len() - self.entities.free.len()
    }

    /// Number of literals.
    pub fn literal_num(&self) -> (n: usize)
        requires
            self.wf(),
        ensures
            n == self@.literals.dom().len(),
    {
        assert(self@.literals.dom() =~= self.literals.forward@.dom());
        self.literals.backward.len() - self.literals.free.len()
    }

    /// Number of predicates.
    pub fn predicate_num(&self) -> (n: usize)
        requires
            self.wf(),
        ensures
            n == self@.predicates.dom().len(),
    {
        self.predicates.backward.len() - self.predicates.free.len()
    }

    /// Free every entity and literal whose id is not in `terms` and every
    /// predicate whose id is not in `preds`. The ids of the others stay. Gives
    /// the number of entries freed.
    pub fn reclaim_unused(&mut self, terms: &Vec<EntityLiteralId>, preds: &Vec<PredId>) -> (freed: u64)
        requires
            old(self).wf(),
            ascending(terms@),
            ascending(preds@),
        ensures
            final(self).wf(),
            retained(old(self)@.entities, final(self)@.entities, terms@),
            retained(old(self)@.literals, final(self)@.literals, terms@),
            retained(old(self)@.predicates, final(self)@.predicates, preds@),
            freed_grown(old(self)@.entities, terms@, 0, old(self)@.freed_entities, final(self)@.freed_entities),
            freed_grown(old(self)@.literals, terms@, LITERAL_FIRST_ID as int, old(self)@.freed_literals, final(self)@.freed_literals),
            freed_grown(old(self)@.predicates, preds@, 0, old(self)@.freed_predicates, final(self)@.freed_predicates),
            freed == (old(self)@.entities.dom().len() - final(self)@.entities.dom().len()) + (old(self)@.literals.dom().len() - final(self)@.literals.dom().len()) + (old(self)@.predicates.dom().len() - final(self)@.predicates.dom().len()),
    {
        let a: usize = self.entities.retain(terms, 0);
        let b: usize = self.literals.retain(terms, LITERAL_FIRST_ID);
        let c: usize = self.predicates.retain(preds, 0);
        proof {
            assert(self@.literals.dom() =~= self.literals.forward@.dom());
            assert(old(self)@.literals.dom() =~= old(self).literals.forward@.dom());
            let m0 = old(self).literals.forward@;
            let m1 = self.literals.forward@;
            assert forall|s: Seq<char>| #[trigger] shifted(m1).contains_key(s) <==> shifted(m0).contains_key(s) && terms@.contains(shifted(m0)[s]) by {
                assert(m1.contains_key(s) <==> m0.contains_key(s) && terms@.contains((m0[s] + LITERAL_FIRST_ID) as u32));
            }
            assert forall|s: Seq<char>| #[trigger] shifted(m1).contains_key(s) implies shifted(m1)[s] == shifted(m0)[s] by {
                assert(m1.contains_key(s));
            }
            let sk = self.literals.free@.skip(old(self).literals.free@.len() as int);
            assert forall|j: u32| #[trigger] sk.contains(j) <==> shifted(m0).contains_value((j + LITERAL_FIRST_ID) as u32) && j + LITERAL_FIRST_ID <= u32::MAX && !terms@.contains((j + LITERAL_FIRST_ID) as u32) by {
                if m0.contains_value(j) {
                    let t = choose|t: Seq<char>| #[trigger] m0.contains_key(t) && m0[t] == j;
                    assert(shifted(m0).contains_key(t) && shifted(m0)[t] == (j + LITERAL_FIRST_ID) as u32);
                }
                if shifted(m0).contains_value((j + LITERAL_FIRST_ID) as u32) && j + LITERAL_FIRST_ID <= u32::MAX {
                    let t = choose|t: Seq<char>| #[trigger] shifted(m0).contains_key(t) && shifted(m0)[t] == (j + LITERAL_FIRST_ID) as u32;
                    assert(m0.contains_key(t) && m0[t] == j);
                }
            }
        }
        a as u64 + b as u64 + c as u64
    }
}

/// The indexes of the dropped keys wait in ascending order behind those that
/// waited before. Ids are indexes counted from `first`.
pub open spec fn freed_grown(before: Map<Seq<char>, u32>, used: Seq<u32>, first: int, freed0: Seq<u32>, freed1: Seq<u32>) -> bool {
    let new = freed1.skip(freed0.len() as int);
    &&& freed1.take(freed0.len() as int) == freed0
    &&& ascending(new)
    &&& forall|j: u32| #[trigger] new.contains(j) <==> before.contains_value((j + first) as u32) && j + first <= u32::MAX && !used.contains((j + first) as u32)
}

/// The keys whose id is in `used` are left, with their ids.
pub open spec fn retained(before: Map<Seq<char>, u32>, after: Map<Seq<char>, u32>, used: Seq<u32>) -> bool {
    &&& forall|s: Seq<char>| #[trigger] after.contains_key(s) <==> before.contains_key(s) && used.contains(before[s])
    &&& forall|s: Seq<char>| #[trigger] after.contains_key(s) ==> after[s] == before[s]
}

/// A known key keeps its id whatever else is interned, and a key that was just
/// interned resolves to the id it got: ids are stable.
pub proof fn law_ids_are_stable(before: Map<Seq<char>, u32>, after: Map<Seq<char>, u32>, key: Seq<char>, id: u32, other: Seq<char>)
    requires
        interned(before, after, key, id),
    ensures
        after.contains_key(key) && after[key] == id,
        before.contains_key(other) ==> after.contains_key(other) && after[other] == before[other],
        one_to_one(before) ==> one_to_one(after),
{
    if one_to_one(before) {
        assert forall|a: Seq<char>, b: Seq<char>| after.contains_key(a) && after.contains_key(b) && #[trigger] after[a] == #[trigger] after[b] implies a == b by {
            if !before.contains_key(key) {
                if a != key && b == key {
                    assert(before.contains_key(a) && before[a] == id);
                    assert(before.contains_value(id));
                }
                if b != key && a == key {
                    assert(before.contains_key(b) && before[b] == id);
                    assert(before.contains_value(id));
                }
            }
            if a != key && b != key {
                assert(before[a] == before[b]);
            }
        }
    }
}

/// A term that is interned gets its id in the space of its kind: literals among the
/// literals, with an id of a literal, all else among the entities. A known key keeps its
/// id. The other spaces, and all other keys, are as before.
pub proof fn law_terms_go_to_their_space(d: DictSpec, t: TermSpec, other: Seq<char>)
    requires
        space_ok(d.entities, d.freed_entities, 0),
        space_ok(d.literals, d.freed_literals, LITERAL_FIRST_ID as int),
        d.entities.dom().len() + d.freed_entities.len() < LITERAL_FIRST_ID,
        LITERAL_FIRST_ID + d.literals.dom().len() + d.freed_literals.len() < u32::MAX,
    ensures
        ({
            let after = with_term(d, t);
            &&& after.predicates == d.predicates && after.freed_predicates == d.freed_predicates
            &&& t is Literal ==> {
                &&& after.entities == d.entities && after.freed_entities == d.freed_entities
                &&& after.literals.contains_key(term_key(t))
                &&& LITERAL_FIRST_ID <= after.literals[term_key(t)] < u32::MAX
                &&& d.literals.contains_key(term_key(t)) ==> after.literals[term_key(t)] == d.literals[term_key(t)] && after.freed_literals == d.freed_literals
                &&& !d.literals.contains_key(term_key(t)) ==> !d.literals.contains_value(after.literals[term_key(t)])
                &&& other != term_key(t) ==> (after.literals.contains_key(other) <==> d.literals.contains_key(other)) && after.literals[other] == d.literals[other]
            }
            &&& !(t is Literal) ==> {
                &&& after.literals == d.literals && after.freed_literals == d.freed_literals
                &&& after.entities.contains_key(term_key(t))
                &&& after.entities[term_key(t)] < LITERAL_FIRST_ID
                &&& d.entities.contains_key(term_key(t)) ==> after.entities[term_key(t)] == d.entities[term_key(t)] && after.freed_entities == d.freed_entities
                &&& !d.entities.contains_key(term_key(t)) ==> !d.entities.contains_value(after.entities[term_key(t)])
                &&& other != term_key(t) ==> (after.entities.contains_key(other) <==> d.entities.contains_key(other)) && after.entities[other] == d.entities[other]
            }
        }),
{
    let key = term_key(t);
    if t is Literal {
        lemma_new_id_is_free(d.literals, d.freed_literals, LITERAL_FIRST_ID as int, key);
    } else {
        lemma_new_id_is_free(d.entities, d.freed_entities, 0, key);
    }
}

proof fn lemma_new_id_is_free(m: Map<Seq<char>, u32>, freed: Seq<u32>, first: int, key: Seq<char>)
    requires
        space_ok(m, freed, first),
        0 <= first,
        first + m.dom().len() + freed.len() < u32::MAX,
    ensures
        first <= id_for(m, freed, first, key) <= first + m.dom().len() + freed.len(),
        freed.len() > 0 || m.contains_key(key) ==> id_for(m, freed, first, key) < first + m.dom().len() + freed.len(),
        !m.contains_key(key) ==> !m.contains_value(id_for(m, freed, first, key)),
{
    let id = id_for(m, freed, first, key);
    if m.contains_key(key) {
    } else if freed.len() > 0 {
        let k = freed.len() - 1;
        assert(freed[k] < m.dom().len() + freed.len() && !m.contains_value((first + freed[k]) as u32));
    } else {
        assert(id == first + m.dom().len());
        if m.contains_value(id) {
            let s = choose|s: Seq<char>| m.contains_key(s) && m[s] == id;
            assert(m.contains_key(s));
        }
    }
}

/// The index of a key that was dropped is given again before a new one is: the last that
/// waits is the first to be used, and once only.
pub proof fn law_freed_indexes_are_used_again(m: Map<Seq<char>, u32>, freed: Seq<u32>, first: int, key: Seq<char>)
    requires
        !m.contains_key(key),
        0 <= first,
        first + m.dom().len() + freed.len() < u32::MAX,
        forall|k: int| 0 <= k < freed.len() ==> #[trigger] freed[k] < m.dom().len() + freed.len(),
    ensures
        freed.len() > 0 ==> id_for(m, freed, first, key) == first + freed[freed.len() - 1] && freed_after(m, freed, key) == freed.take(freed.len() - 1),
        freed.len() == 0 ==> id_for(m, freed, first, key) == first + m.dom().len() && freed_after(m, freed, key).len() == 0,
{
    if freed.len() > 0 {
        assert(freed[freed.len() - 1] < m.dom().len() + freed.len());
        assert(freed.drop_last() =~= freed.take(freed.len() - 1));
    }
}

/// Dropping the unused keys leaves exactly the used ones, with their ids, and what was
/// dropped waits to be used again.
pub proof fn law_dropped_indexes_wait(before: Map<Seq<char>, u32>, after: Map<Seq<char>, u32>, used: Seq<u32>, freed0: Seq<u32>, freed1: Seq<u32>, key: Seq<char>)
    requires
        retained(before, after, used),
        freed_grown(before, used, 0, freed0, freed1),
        before.contains_key(key),
        freed0.len() <= freed1.len(),
    ensures
        used.contains(before[key]) ==> after.contains_key(key) && after[key] == before[key],
        !used.contains(before[key]) ==> !after.contains_key(key) && freed1.contains(before[key]),
        freed0.is_prefix_of(freed1),
{
    let new = freed1.skip(freed0.len() as int);
    let j = before[key];
    assert(after.contains_key(key) <==> used.contains(j));
    assert(before.contains_value(j));
    if !used.contains(j) {
        assert((j + 0) as u32 == j);
        assert(new.contains(j));
        let k = choose|k: int| 0 <= k < new.len() && new[k] == j;
        assert(freed1[freed0.len() + k] == j);
    }
    assert(freed0 =~= freed1.subrange(0, freed0.len() as int));
}

} // verus!
