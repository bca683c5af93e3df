//! The dictionary of a store on disk: ids are looked up in the trees each time,
//! while keys that were read once stay in memory.

use super::disk::{disk_ok, known, name_id, term_number, DiskSpec, DiskStore};
use crate::model::id::literal_range;
use crate::model::{EntityLiteralId, PredId, Term, LITERAL_FIRST_ID};
use std::collections::HashMap;
use vstd::prelude::*;
use vstd::string::*;

verus! {

/// The keys that were read of a store on disk.
pub struct DiskDict {
    terms: HashMap<EntityLiteralId, String>,
    predicates: HashMap<PredId, String>,
}

/// The key of an id, if there is one.
pub open spec fn key_of_id(d: DiskSpec, id: u32) -> Option<Seq<char>> {
    if literal_range(id) {
        if id - LITERAL_FIRST_ID < d.literals.len() {
            Some(d.literals[id - LITERAL_FIRST_ID])
        } else {
            None
        }
    } else if id < d.entities.len() {
        Some(d.entities[id as int])
    } else {
        None
    }
}

/// The key of a predicate's id, if there is one.
pub open spec fn key_of_predicate(d: DiskSpec, id: u32) -> Option<Seq<char>> {
    if id < d.predicates.len() {
        Some(d.predicates[id as int])
    } else {
        None
    }
}

/// The text, if there is one.
pub open spec fn text_of(r: Option<String>) -> Option<Seq<char>> {
    match r {
        Some(s) => Some(s@),
        None => None,
    }
}

impl DiskDict {
    /// The ids whose keys are in memory.
    pub closed spec fn resident(&self) -> Set<u32> {
        self.terms@.dom()
    }

    /// The predicates whose keys are in memory.
    pub closed spec fn resident_predicates(&self) -> Set<u32> {
        self.predicates@.dom()
    }

    /// The keys in memory are those of the store.
    pub closed spec fn agrees(&self, d: DiskSpec) -> bool {
        &&& forall|id: u32| #[trigger] self.terms@.contains_key(id) ==> key_of_id(d, id) == Some(self.terms@[id]@)
        &&& forall|id: u32| #[trigger] self.predicates@.contains_key(id) ==> key_of_predicate(d, id) == Some(self.predicates@[id]@)
    }

    /// A dictionary with nothing in memory.
    pub fn new() -> (r: DiskDict)
        ensures
            forall|d: DiskSpec| r.agrees(d),
            r.resident() == Set::<u32>::empty(),
            r.resident_predicates() == Set::<u32>::empty(),
    {
        let r = DiskDict { terms: HashMap::new(), predicates: HashMap::new() };
        assert(r.terms@.dom() =~= Set::<u32>::empty());
        assert(r.predicates@.dom() =~= Set::<u32>::empty());
        r
    }

    /// The id of a term, from the trees.
    pub fn term_id(&self, store: &mut DiskStore, t: &Term) -> (r: Option<EntityLiteralId>)
        requires
            old(store).wf(),
        ensures
            final(store).wf(),
            final(store)@ == old(store)@,
            r == (if known(old(store)@, t@) { Some(term_number(old(store)@, t@)) } else { None::<u32> }),
    {
        store.term_id(t)
    }

    /// The id of a predicate, from the trees.
    pub fn predicate_id(&self, store: &mut DiskStore, key: &str) -> (r: Option<PredId>)
        requires
            old(store).wf(),
        ensures
            final(store).wf(),
            final(store)@ == old(store)@,
            r == (if old(store)@.predicates.contains(key@) { Some(name_id(0, old(store)@.predicates, key@)) } else { None::<u32> }),
    {
        store.predicate_id(key)
    }

    /// The key of an id. It stays in memory.
    pub fn id_to_string(&mut self, store: &mut DiskStore, id: EntityLiteralId) -> (r: Option<String>)
        requires
            old(store).wf(),
            old(self).agrees(old(store)@),
        ensures
            final(store).wf(),
            final(store)@ == old(store)@,
            final(self).agrees(old(store)@),
            text_of(r) == key_of_id(old(store)@, id),
            final(self).resident() == (if r is Some { old(self).resident().insert(id) } else { old(self).resident() }),
            final(self).resident_predicates() == old(self).resident_predicates(),
    {
        let ghost d = store@;
        match self.terms.get(&id) {
            Some(s) => {
                assert(self.terms@.dom().insert(id) =~= self.terms@.dom());
                return Some(s.clone());
            },
            None => {},
        }
        match store.id_to_string(id) {
            Some(s) => {
                self.terms.insert(id, s.clone());
                assert(self.terms@.dom() =~= old(self).terms@.dom().insert(id));
                Some(s)
            },
            None => None,
        }
    }

    /// The key of a predicate's id. It stays in memory.
    pub fn predicate_to_string(&mut self, store: &mut DiskStore, id: PredId) -> (r: Option<String>)
        requires
            old(store).wf(),
            old(self).agrees(old(store)@),
        ensures
            final(store).wf(),
            final(store)@ == old(store)@,
            final(self).agrees(old(store)@),
            text_of(r) == key_of_predicate(old(store)@, id),
            final(self).resident() == old(self).resident(),
            final(self).resident_predicates() == (if r is Some { old(self).resident_predicates().insert(id) } else { old(self).resident_predicates() }),
    {
        let ghost d = store@;
        match self.predicates.get(&id) {
            Some(s) => {
                assert(self.predicates@.dom().insert(id) =~= self.predicates@.dom());
                return Some(s.clone());
            },
            None => {},
        }
        match store.predicate_to_string(id) {
            Some(s) => {
                self.predicates.insert(id, s.clone());
                assert(self.predicates@.dom() =~= old(self).predicates@.dom().insert(id));
                Some(s)
            },
            None => None,
        }
    }

    /// How many keys are in memory.
    pub fn resident_string_count(&self) -> (n: usize)
        requires
            self.resident().len() + self.resident_predicates().len() <= usize::MAX,
        ensures
            n == self.resident().len() + self.resident_predicates().len(),
    {
        self.terms.len() + self.predicates.len()
    }
}

/// Keys in memory stay right while triples are added: an id keeps its key.
pub proof fn law_added_keeps_dictionary(dict: DiskDict, d: DiskSpec, t: crate::model::Triple)
    requires
        dict.agrees(d),
        disk_ok(d),
        super::disk::triple_fits(d, t),
        !super::disk::object_refused(d, t),
    ensures
        dict.agrees(super::disk::with_triple(d, t)),
{
    super::disk::law_added_is_read_back(d, t);
    let e = super::disk::with_triple(d, t);
    assert forall|id: u32| #[trigger] dict.terms@.contains_key(id) implies key_of_id(e, id) == Some(dict.terms@[id]@) by {
        if literal_range(id) {
            assert(e.literals[id - LITERAL_FIRST_ID] == d.literals[id - LITERAL_FIRST_ID]);
        } else {
            assert(e.entities[id as int] == d.entities[id as int]);
        }
    }
    assert forall|id: u32| #[trigger] dict.predicates@.contains_key(id) implies key_of_predicate(e, id) == Some(dict.predicates@[id]@) by {
        assert(e.predicates[id as int] == d.predicates[id as int]);
    }
}

/// The id of a term that is known stands for the key of the term, and each id for one key
/// only.
pub proof fn law_ids_stand_for_keys(d: DiskSpec, t: crate::model::term::TermSpec, p: Seq<char>)
    requires
        d.entities.len() <= LITERAL_FIRST_ID,
        LITERAL_FIRST_ID + d.literals.len() <= u32::MAX,
        d.predicates.len() <= u32::MAX,
    ensures
        known(d, t) ==> key_of_id(d, term_number(d, t)) == Some(crate::model::term::term_key(t)),
        known(d, t) ==> (literal_range(term_number(d, t)) <==> t is Literal),
        d.predicates.contains(p) ==> key_of_predicate(d, name_id(0, d.predicates, p)) == Some(p),
{
}

/// A triple that is added is kept under the ids of its own subject, predicate and object.
pub proof fn law_added_ids_stand_for_the_terms(d: DiskSpec, t: crate::model::Triple)
    requires
        disk_ok(d),
        super::disk::triple_fits(d, t),
        !super::disk::object_refused(d, t),
        d.entities.len() + 2 <= LITERAL_FIRST_ID,
        LITERAL_FIRST_ID + d.literals.len() < u32::MAX,
        d.predicates.len() < u32::MAX,
    ensures
        ({
            let after = super::disk::with_triple(d, t);
            let ids = super::disk::ids_of(d, t);
            &&& after.triples.contains(ids)
            &&& key_of_id(after, ids.sub) == Some(crate::model::term::term_key(t.subject@))
            &&& key_of_predicate(after, ids.pred) == Some(crate::model::term::term_key(t.predicate@))
            &&& key_of_id(after, ids.obj) == Some(crate::model::term::term_key(t.object@))
            &&& literal_range(ids.obj) <==> t.object@ is Literal
            &&& !literal_range(ids.sub)
        }),
{
    super::disk::law_added_is_read_back(d, t);
    let after = super::disk::with_triple(d, t);
    let ids = super::disk::ids_of(d, t);
    let (ks, kp, ko) = (crate::model::term::term_key(t.subject@), crate::model::term::term_key(t.predicate@), crate::model::term::term_key(t.object@));
    let d1 = super::disk::with_entity(d, ks);
    let d2 = super::disk::with_predicate(d1, kp);
    assert(d1.entities[ids.sub as int] == ks);
    assert(d1.entities.len() <= d.entities.len() + 1);
    assert(after.entities[ids.sub as int] == ks);
    assert(d1.predicates == d.predicates);
    assert(after.predicates[ids.pred as int] == kp);
    if t.object@ is Literal {
        assert(d2.literals == d.literals);
        assert(after.literals[ids.obj - LITERAL_FIRST_ID] == ko);
    } else {
        assert(d2.entities == d1.entities);
        assert(after.entities[ids.obj as int] == ko);
    }
}

} // verus!
