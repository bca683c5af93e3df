//! The plain form of a dictionary, for saving and loading.

use super::{shifted, DictSpec, Dictionary, Interner, MAX_LITERALS};
use crate::model::{INVALID_PRED_ID, LITERAL_FIRST_ID};
use crate::order::copied;
use vstd::hash_map::StringHashMap;
use vstd::prelude::*;
use vstd::string::*;

verus! {

/// One id space: the string of each index, and the freed indexes, of which the
/// last is handed out first.
#[derive(Debug)]
pub struct SpaceImage {
    pub strings: Vec<Option<String>>,
    pub freed: Vec<u32>,
}

/// A dictionary in plain form.
#[derive(Debug)]
pub struct DictImage {
    pub entities: SpaceImage,
    pub literals: SpaceImage,
    pub predicates: SpaceImage,
}

/// The indexes of the strings in a space.
pub open spec fn image_ids(strings: Seq<Option<String>>) -> Map<Seq<char>, u32> {
    Map::new(
        |s: Seq<char>| exists|i: int| 0 <= i < strings.len() && (#[trigger] strings[i] matches Some(t) && t@ == s),
        |s: Seq<char>| (choose|i: int| 0 <= i < strings.len() && (#[trigger] strings[i] matches Some(t) && t@ == s)) as u32,
    )
}

/// No string occurs twice, at most `limit` indexes are in use, and the freed
/// indexes are those without a string, each once.
pub open spec fn space_valid(strings: Seq<Option<String>>, freed: Seq<u32>, limit: nat) -> bool {
    &&& strings.len() <= limit
    &&& forall|i: int, j: int| 0 <= i < j < strings.len() && #[trigger] strings[i] is Some && #[trigger] strings[j] is Some ==> strings[i]->0@ != strings[j]->0@
    &&& freed.no_duplicates()
    &&& forall|k: int| 0 <= k < freed.len() ==> #[trigger] freed[k] < strings.len() && strings[freed[k] as int] is None
    &&& forall|i: int| 0 <= i < strings.len() && #[trigger] strings[i] is None ==> freed.contains(i as u32)
}

/// A dictionary in plain form that can be loaded.
pub open spec fn image_valid(d: DictImage) -> bool {
    &&& space_valid(d.entities.strings@, d.entities.freed@, LITERAL_FIRST_ID as nat)
    &&& space_valid(d.literals.strings@, d.literals.freed@, MAX_LITERALS as nat)
    &&& space_valid(d.predicates.strings@, d.predicates.freed@, INVALID_PRED_ID as nat)
}

/// The dictionary that a plain form stands for.
pub open spec fn image_dict(d: DictImage) -> DictSpec {
    DictSpec {
        entities: image_ids(d.entities.strings@),
        literals: shifted(image_ids(d.literals.strings@)),
        predicates: image_ids(d.predicates.strings@),
        freed_entities: d.entities.freed@,
        freed_literals: d.literals.freed@,
        freed_predicates: d.predicates.freed@,
    }
}

/// Every string of a valid space has its index.
proof fn lemma_image_at(strings: Seq<Option<String>>, i: int)
    requires
        0 <= i < strings.len() <= u32::MAX,
        strings[i] is Some,
        forall|i: int, j: int| 0 <= i < j < strings.len() && #[trigger] strings[i] is Some && #[trigger] strings[j] is Some ==> strings[i]->0@ != strings[j]->0@,
    ensures
        image_ids(strings).contains_key(strings[i]->0@),
        image_ids(strings)[strings[i]->0@] == i,
{
    let s = strings[i]->0@;
    assert(strings[i] matches Some(t) && t@ == s);
    let j = choose|j: int| 0 <= j < strings.len() && (#[trigger] strings[j] matches Some(t) && t@ == s);
    assert(j == i) by {
        if j < i {
            assert(strings[j]->0@ != strings[i]->0@);
        } else if i < j {
            assert(strings[i]->0@ != strings[j]->0@);
        }
    }
}

impl Interner {
    /// The plain form of a space.
    fn to_image(&self) -> (r: SpaceImage)
        requires
            self.wf(),
        ensures
            forall|limit: nat| self.backward@.len() <= limit ==> #[trigger] space_valid(r.strings@, r.freed@, limit),
            image_ids(r.strings@) == self.forward@,
            r.freed@ == self.free@,
            r.strings@.len() == self.backward@.len(),
    {
        let mut strings: Vec<Option<String>> = Vec::new();
        let mut i: usize = 0;
        while i < self.backward.len()
            invariant
                i <= self.backward@.len(),
                strings@.len() == i,
                forall|k: int| 0 <= k < i ==> #[trigger] strings@[k] == self.backward@[k],
            decreases self.backward.len() - i,
        {
            let s: Option<String> = match &self.backward[i] {
                Some(s) => Some(s.clone()),
                None => None,
            };
            strings.push(s);
            i = i + 1;
        }
        let r = SpaceImage { strings, freed: copied(&self.free) };
        proof {
            assert(r.strings@ =~= self.backward@);
            let m = image_ids(r.strings@);
            assert forall|i: int, j: int| 0 <= i < j < r.strings@.len() && #[trigger] r.strings@[i] is Some && #[trigger] r.strings@[j] is Some implies r.strings@[i]->0@ != r.strings@[j]->0@ by {
                assert(self.forward@[self.backward@[i]->0@] == i);
                assert(self.forward@[self.backward@[j]->0@] == j);
            }
            assert forall|s: Seq<char>| #[trigger] m.contains_key(s) <==> self.forward@.contains_key(s) by {
                if m.contains_key(s) {
                    let i = choose|i: int| 0 <= i < r.strings@.len() && (#[trigger] r.strings@[i] matches Some(t) && t@ == s);
                    assert(self.backward@[i] is Some);
                }
                if self.forward@.contains_key(s) {
                    let i = self.forward@[s] as int;
                    assert(r.strings@[i] matches Some(t) && t@ == s);
                }
            }
            assert forall|s: Seq<char>| m.contains_key(s) implies #[trigger] m[s] == self.forward@[s] by {
                assert(self.forward@.contains_key(s));
                let i = self.forward@[s] as int;
                assert(r.strings@[i] is Some);
                lemma_image_at(r.strings@, i);
            }
            assert(m =~= self.forward@);
        }
        r
    }

    /// The space of a plain form, if that is valid.
    fn from_image(im: SpaceImage, limit: u32) -> (r: Option<Interner>)
        ensures
            r is Some <==> space_valid(im.strings@, im.freed@, limit as nat),
            r matches Some(x) ==> x.wf() && x.forward@ == image_ids(im.strings@) && x.free@ == im.freed@ && x.backward@.len() <= limit,
    {
        let strings: Vec<Option<String>> = im.strings;
        let freed: Vec<u32> = im.freed;
        if strings.len() > limit as usize {
            return None;
        }
        let mut forward: StringHashMap<u32> = StringHashMap::new();
        let mut used: usize = 0;
        let mut i: usize = 0;
        let ghost ss = strings@;
        while i < strings.len()
            invariant
                i <= strings@.len(),
                ss == strings@,
                ss == im.strings@,
                freed@ == im.freed@,
                strings@.len() <= limit,
                used <= i,
                used == forward@.dom().len(),
                forward@.dom().finite(),
                forall|a: int, b: int| 0 <= a < b < i && #[trigger] ss[a] is Some && #[trigger] ss[b] is Some ==> ss[a]->0@ != ss[b]->0@,
                forall|s: Seq<char>| #[trigger] forward@.contains_key(s) ==> 0 <= forward@[s] < i && (ss[forward@[s] as int] matches Some(t) && t@ == s),
                forall|k: int| 0 <= k < i ==> (#[trigger] ss[k] matches Some(t) ==> forward@.contains_key(t@) && forward@[t@] == k),
                none_count(ss.take(i as int)) + used == i,
            decreases strings.len() - i,
        {
            let ghost f0 = forward@;
            proof {
                assert(ss.take(i + 1).drop_last() =~= ss.take(i as int));
                assert(ss.take(i + 1).last() == ss[i as int]);
            }
            match &strings[i] {
                None => {},
                Some(s) => {
                    match forward.get(s.as_str()) {
                        Some(j) => {
                            proof {
                                let a = f0[s@] as int;
                                assert(ss[a] is Some && ss[i as int] is Some);
                                assert(!space_valid(ss, freed@, limit as nat));
                            }
                            return None;
                        },
                        None => {},
                    }
                    forward.insert(s.clone(), i as u32);
                    used = used + 1;
                    proof {
                        assert(forward@.dom() =~= f0.dom().insert(s@));
                        assert forall|a: int, b: int| 0 <= a < b < i + 1 && #[trigger] ss[a] is Some && #[trigger] ss[b] is Some implies ss[a]->0@ != ss[b]->0@ by {
                            if b == i {
                                assert(f0.contains_key(ss[a]->0@));
                            }
                        }
                    }
                },
            }
            i = i + 1;
        }
        assert(ss.take(ss.len() as int) =~= ss);
        let mut seen: Vec<bool> = Vec::new();
        let mut i: usize = 0;
        while i < strings.len()
            invariant
                i <= strings@.len(),
                seen@.len() == i,
                forall|k: int| 0 <= k < i ==> !(#[trigger] seen@[k]),
            decreases strings.len() - i,
        {
            seen.push(false);
            i = i + 1;
        }
        let mut k: usize = 0;
        while k < freed.len()
            invariant
                k <= freed@.len(),
                ss == strings@,
                ss == im.strings@,
                freed@ == im.freed@,
                seen@.len() == ss.len(),
                ss.len() <= limit,
                forall|a: int| 0 <= a < k ==> #[trigger] freed@[a] < ss.len() && ss[freed@[a] as int] is None && seen@[freed@[a] as int],
                forall|a: int, b: int| 0 <= a < b < k ==> #[trigger] freed@[a] != #[trigger] freed@[b],
                forall|j: int| 0 <= j < ss.len() && #[trigger] seen@[j] ==> freed@.take(k as int).contains(j as u32),
            decreases freed.len() - k,
        {
            let f: usize = freed[k] as usize;
            if f >= strings.len() || strings[f].is_some() || seen[f] {
                proof {
                    if space_valid(ss, freed@, limit as nat) {
                        assert(freed@[k as int] < ss.len() && ss[freed@[k as int] as int] is None);
                        assert(freed@.take(k as int).contains(f as u32));
                        let a = choose|a: int| 0 <= a < k && freed@.take(k as int)[a] == f as u32;
                        assert(freed@[a] == freed@[k as int]);
                    }
                }
                return None;
            }
            let ghost seen0 = seen@;
            let ghost t0 = freed@.take(k as int);
            seen.set(f, true);
            k = k + 1;
            proof {
                let t1 = freed@.take(k as int);
                assert(t1 =~= t0.push(f as u32));
                assert forall|j: int| 0 <= j < ss.len() && #[trigger] seen@[j] implies t1.contains(j as u32) by {
                    if j == f {
                        assert(t1[k - 1] == j as u32);
                    } else {
                        assert(seen0[j]);
                        let a = choose|a: int| 0 <= a < t0.len() && t0[a] == j as u32;
                        assert(t1[a] == j as u32);
                    }
                }
                assert forall|a: int, b: int| 0 <= a < b < k implies #[trigger] freed@[a] != #[trigger] freed@[b] by {
                    if b == k - 1 {
                        assert(seen0[freed@[a] as int]);
                    }
                }
            }
        }
        assert(freed@.take(freed@.len() as int) =~= freed@);
        assert(freed@.no_duplicates());
        proof {
            lemma_none_count(ss, freed@);
        }
        if freed.len() != strings.len() - used {
            return None;
        }
        let r = Interner { forward, backward: strings, free: freed };
        proof {
            let m = image_ids(ss);
            assert forall|s: Seq<char>| #[trigger] m.contains_key(s) <==> r.forward@.contains_key(s) by {
                if m.contains_key(s) {
                    let i = choose|i: int| 0 <= i < ss.len() && (#[trigger] ss[i] matches Some(t) && t@ == s);
                    assert(ss[i] is Some);
                }
                if r.forward@.contains_key(s) {
                    let i = r.forward@[s] as int;
                    assert(ss[i] matches Some(t) && t@ == s);
                }
            }
            assert forall|s: Seq<char>| m.contains_key(s) implies #[trigger] m[s] == r.forward@[s] by {
                assert(r.forward@.contains_key(s));
                let i = r.forward@[s] as int;
                assert(ss[i] is Some);
                lemma_image_at(ss, i);
            }
            assert(m =~= r.forward@);
        }
        Some(r)
    }
}

/// The number of indexes without a string.
spec fn none_count(strings: Seq<Option<String>>) -> nat
    decreases strings.len(),
{
    if strings.len() == 0 {
        0
    } else {
        none_count(strings.drop_last()) + if strings.last() is None { 1nat } else { 0nat }
    }
}

/// The indexes without a string.
spec fn none_set(strings: Seq<Option<String>>) -> Set<u32> {
    Set::new(|i: u32| i < strings.len() && strings[i as int] is None)
}

proof fn lemma_none_set(strings: Seq<Option<String>>)
    requires
        strings.len() <= u32::MAX,
    ensures
        none_set(strings).finite(),
        none_set(strings).len() == none_count(strings),
    decreases strings.len(),
{
    if strings.len() == 0 {
        assert(none_set(strings) =~= Set::<u32>::empty());
    } else {
        let front = strings.drop_last();
        let n = (strings.len() - 1) as u32;
        lemma_none_set(front);
        if strings.last() is None {
            assert(none_set(strings) =~= none_set(front).insert(n));
        } else {
            assert(none_set(strings) =~= none_set(front));
        }
    }
}

/// Distinct freed indexes without a string are all of them exactly if there are
/// as many.
proof fn lemma_none_count(strings: Seq<Option<String>>, freed: Seq<u32>)
    requires
        strings.len() <= u32::MAX,
        freed.no_duplicates(),
        forall|k: int| 0 <= k < freed.len() ==> #[trigger] freed[k] < strings.len() && strings[freed[k] as int] is None,
    ensures
        (freed.len() == none_count(strings)) <==> (forall|i: int| 0 <= i < strings.len() && #[trigger] strings[i] is None ==> freed.contains(i as u32)),
{
    lemma_none_set(strings);
    let a = freed.to_set();
    let b = none_set(strings);
    freed.unique_seq_to_set();
    vstd::seq_lib::seq_to_set_is_finite(freed);
    assert(a.subset_of(b));
    if freed.len() == none_count(strings) {
        vstd::set_lib::lemma_subset_equality(a, b);
        assert forall|i: int| 0 <= i < strings.len() && #[trigger] strings[i] is None implies freed.contains(i as u32) by {
            assert(b.contains(i as u32));
        }
    }
    if forall|i: int| 0 <= i < strings.len() && #[trigger] strings[i] is None ==> freed.contains(i as u32) {
        assert forall|x: u32| b.contains(x) implies a.contains(x) by {
            assert(strings[x as int] is None);
            assert(freed.contains((x as int) as u32));
        }
        assert(a =~= b);
    }
}

impl Dictionary {
    /// The plain form of the dictionary.
    pub fn to_image(&self) -> (r: DictImage)
        requires
            self.wf(),
        ensures
            image_valid(r),
            image_dict(r) == self@,
    {
        let r = DictImage { entities: self.entities.to_image(), literals: self.literals.to_image(), predicates: self.predicates.to_image() };
        assert(image_dict(r) =~= self@);
        r
    }

    /// The dictionary of a plain form, if that is valid.
    pub fn from_image(im: DictImage) -> (r: Option<Dictionary>)
        ensures
            r is Some <==> image_valid(im),
            r matches Some(d) ==> d.wf() && d@ == image_dict(im),
    {
        let e: Option<Interner> = Interner::from_image(im.entities, LITERAL_FIRST_ID);
        let l: Option<Interner> = Interner::from_image(im.literals, MAX_LITERALS);
        let p: Option<Interner> = Interner::from_image(im.predicates, INVALID_PRED_ID);
        match (e, l, p) {
            (Some(entities), Some(literals), Some(predicates)) => {
                let d = Dictionary { entities, literals, predicates };
                assert(d@ =~= image_dict(im));
                Some(d)
            },
            _ => None,
        }
    }

    /// A second dictionary with the same contents.
    pub fn duplicate(&self) -> (r: Dictionary)
        requires
            self.wf(),
        ensures
            r.wf(),
            r@ == self@,
    {
        match Dictionary::from_image(self.to_image()) {
            Some(d) => d,
            None => Dictionary::new(),
        }
    }
}

/// In plain form a string stands at its index: that is its id, for a literal counted from
/// the first id of literals. Indexes without a string have none.
pub proof fn law_image_has_strings_at_their_ids(d: DictImage, i: int)
    requires
        image_valid(d),
        0 <= i,
    ensures
        i < d.entities.strings@.len() && d.entities.strings@[i] is Some ==> image_dict(d).entities.contains_key(d.entities.strings@[i]->0@) && image_dict(d).entities[d.entities.strings@[i]->0@] == i,
        i < d.literals.strings@.len() && d.literals.strings@[i] is Some ==> image_dict(d).literals.contains_key(d.literals.strings@[i]->0@) && image_dict(d).literals[d.literals.strings@[i]->0@] == i + LITERAL_FIRST_ID,
        i < d.predicates.strings@.len() && d.predicates.strings@[i] is Some ==> image_dict(d).predicates.contains_key(d.predicates.strings@[i]->0@) && image_dict(d).predicates[d.predicates.strings@[i]->0@] == i,
        image_dict(d).freed_entities == d.entities.freed@,
        image_dict(d).freed_literals == d.literals.freed@,
        image_dict(d).freed_predicates == d.predicates.freed@,
{
    if i < d.entities.strings@.len() && d.entities.strings@[i] is Some {
        lemma_image_at(d.entities.strings@, i);
    }
    if i < d.literals.strings@.len() && d.literals.strings@[i] is Some {
        lemma_image_at(d.literals.strings@, i);
    }
    if i < d.predicates.strings@.len() && d.predicates.strings@[i] is Some {
        lemma_image_at(d.predicates.strings@, i);
    }
}

} // verus!
