//! A secondary index over dictionary strings, for substring and prefix lookups.
//!
//! Every three-byte window of a string posts the string's id under that trigram.
//! A substring search intersects the postings of the needle's trigrams, which
//! gives a superset of the matches, and then verifies each candidate. A prefix
//! search is a binary search in the list of ids ordered by string. Matching is
//! by bytes.

use crate::order::{ascending, holds, insert_sorted, lists, sort_dedup, Ranked};
use crate::text::{bytes_less, lemma_lex_total, lemma_lex_trans, lex_less};
use std::collections::HashMap;
use vstd::prelude::*;
use vstd::string::*;
use vstd::utf8::encode_utf8;

verus! {

broadcast use vstd::std_specs::hash::group_hash_axioms;

/// Substring length used for the trigram index.
pub const GRAM: usize = 3;

/// The trigram at place `k`, as one number.
pub open spec fn gram_at(s: Seq<u8>, k: int) -> u32 {
    (s[k] * 0x10000 + s[k + 1] * 0x100 + s[k + 2]) as u32
}

/// The trigram `g` occurs in `s`.
pub open spec fn has_gram(s: Seq<u8>, g: u32) -> bool {
    exists|k: int| 0 <= k && k + 3 <= s.len() && #[trigger] gram_at(s, k) == g
}

/// `needle` occurs in `s` at place `k`.
pub open spec fn occurs_at(s: Seq<u8>, needle: Seq<u8>, k: int) -> bool {
    0 <= k && k + needle.len() <= s.len() && s.subrange(k, k + needle.len()) == needle
}

/// `needle` occurs in `s`.
pub open spec fn occurs(s: Seq<u8>, needle: Seq<u8>) -> bool {
    exists|k: int| #[trigger] occurs_at(s, needle, k)
}

/// `s` starts with `p`.
pub open spec fn starts_with(s: Seq<u8>, p: Seq<u8>) -> bool {
    p.len() <= s.len() && s.subrange(0, p.len() as int) == p
}

/// An index as a mathematical value: the bytes of the indexed strings, and the
/// (trigram, id) pairs that are posted.
#[verifier::ext_equal]
pub ghost struct IndexSpec {
    pub strings: Map<u32, Seq<u8>>,
    pub posted: Set<(u32, u32)>,
}

/// The (trigram, id) pairs that a string posts.
pub open spec fn postings_of(id: u32, s: Seq<u8>) -> Set<(u32, u32)> {
    Set::new(|q: (u32, u32)| q.1 == id && has_gram(s, q.0))
}

/// The index after adding a string: its trigrams are posted, and the postings
/// that an earlier string of the id left stay.
pub open spec fn with_string(x: IndexSpec, id: u32, s: Seq<u8>) -> IndexSpec {
    IndexSpec { strings: x.strings.insert(id, s), posted: x.posted.union(postings_of(id, s)) }
}

/// The ids that are posted under every trigram of the needle, or all ids if the
/// needle has no trigram.
pub open spec fn candidates(x: IndexSpec, needle: Seq<u8>) -> Set<u32> {
    Set::new(
        |id: u32|
            {
                &&& x.strings.contains_key(id)
                &&& forall|g: u32| has_gram(needle, g) ==> #[trigger] x.posted.contains((g, id))
            },
    )
}

/// The ids whose string has the needle in it.
pub open spec fn matches_of(x: IndexSpec, needle: Seq<u8>) -> Set<u32> {
    Set::new(|id: u32| x.strings.contains_key(id) && occurs(x.strings[id], needle))
}

/// The ids whose string starts with `p`.
pub open spec fn prefixed(x: IndexSpec, p: Seq<u8>) -> Set<u32> {
    Set::new(|id: u32| x.strings.contains_key(id) && starts_with(x.strings[id], p))
}

/// Every trigram of an indexed string is posted, and only indexed ids are.
pub open spec fn sound(x: IndexSpec) -> bool {
    &&& forall|id: u32, g: u32| x.strings.contains_key(id) && has_gram(x.strings[id], g) ==> #[trigger] x.posted.contains((g, id))
    &&& forall|id: u32, g: u32| #[trigger] x.posted.contains((g, id)) ==> x.strings.contains_key(id)
}

/// Nothing is posted but the trigrams of the indexed strings.
pub open spec fn exact(x: IndexSpec) -> bool {
    forall|id: u32, g: u32| #[trigger] x.posted.contains((g, id)) ==> x.strings.contains_key(id) && has_gram(x.strings[id], g)
}

/// The pairs hold the indexed ids, each with the string that it has.
pub open spec fn pairs_of(x: IndexSpec, pairs: Seq<(u32, String)>) -> bool {
    &&& forall|id: u32| #[trigger] x.strings.contains_key(id) <==> exists|i: int| 0 <= i < pairs.len() && (#[trigger] pairs[i]).0 == id
    &&& forall|i: int| 0 <= i < pairs.len() ==> x.strings[(#[trigger] pairs[i]).0] == encode_utf8(pairs[i].1@)
}

/// The index that is built of the pairs of an index has the same strings, and so
/// finds the same ids for a needle or a prefix. It is the same index if no id was
/// added twice; else it is without the postings that the earlier strings left.
pub proof fn law_pairs_rebuild_the_index(x: IndexSpec, y: IndexSpec, pairs: Seq<(u32, String)>)
    requires
        sound(x),
        pairs_of(x, pairs),
        sound(y),
        exact(y),
        pairs_of(y, pairs),
    ensures
        y.strings == x.strings,
        y.posted.subset_of(x.posted),
        exact(x) ==> y == x,
        forall|needle: Seq<u8>| #[trigger] matches_of(y, needle) == matches_of(x, needle),
        forall|p: Seq<u8>| #[trigger] prefixed(y, p) == prefixed(x, p),
{
    assert forall|id: u32| x.strings.contains_key(id) implies #[trigger] y.strings[id] == x.strings[id] by {
        let i = choose|i: int| 0 <= i < pairs.len() && (#[trigger] pairs[i]).0 == id;
        assert(y.strings[pairs[i].0] == x.strings[pairs[i].0]);
    }
    assert(y.strings =~= x.strings);
    assert forall|q: (u32, u32)| y.posted.contains(q) implies x.posted.contains(q) by {
        assert(y.posted.contains((q.0, q.1)));
        assert(x.posted.contains((q.0, q.1)));
    }
    if exact(x) {
        assert forall|q: (u32, u32)| x.posted.contains(q) implies y.posted.contains(q) by {
            assert(x.posted.contains((q.0, q.1)));
            assert(y.posted.contains((q.0, q.1)));
        }
        assert(y.posted =~= x.posted);
    }
}

/// The candidates of a needle include every string that has the needle in it.
pub proof fn law_candidates_are_superset(x: IndexSpec, needle: Seq<u8>)
    requires
        sound(x),
    ensures
        matches_of(x, needle).subset_of(candidates(x, needle)),
{
    assert forall|id: u32| matches_of(x, needle).contains(id) implies candidates(x, needle).contains(id) by {
        let s = x.strings[id];
        let k = choose|k: int| #[trigger] occurs_at(s, needle, k);
        assert forall|g: u32| has_gram(needle, g) implies #[trigger] x.posted.contains((g, id)) by {
            let j = choose|j: int| 0 <= j && j + 3 <= needle.len() && #[trigger] gram_at(needle, j) == g;
            let part = s.subrange(k, k + needle.len());
            assert(part[j] == s[k + j] && part[j + 1] == s[k + j + 1] && part[j + 2] == s[k + j + 2]);
            assert(gram_at(s, k + j) == g);
            assert(has_gram(s, g));
        }
    }
}

/// Adding a string under a new id keeps an exact index exact, and any index
/// sound; re-adding an id keeps it sound.
pub proof fn law_insert_keeps_sound(x: IndexSpec, id: u32, s: Seq<u8>)
    requires
        sound(x),
    ensures
        sound(with_string(x, id, s)),
        exact(x) && !x.strings.contains_key(id) ==> exact(with_string(x, id, s)),
{
    let y = with_string(x, id, s);
    assert forall|i: u32, g: u32| y.strings.contains_key(i) && has_gram(y.strings[i], g) implies #[trigger] y.posted.contains((g, i)) by {
        if i == id {
            assert(postings_of(id, s).contains((g, i)));
        } else {
            assert(x.posted.contains((g, i)));
        }
    }
    assert forall|i: u32, g: u32| #[trigger] y.posted.contains((g, i)) implies y.strings.contains_key(i) by {
        if x.posted.contains((g, i)) {
            assert(x.strings.contains_key(i));
        }
    }
    if exact(x) && !x.strings.contains_key(id) {
        assert forall|i: u32, g: u32| #[trigger] y.posted.contains((g, i)) implies y.strings.contains_key(i) && has_gram(y.strings[i], g) by {
            if x.posted.contains((g, i)) {
                assert(x.strings.contains_key(i));
            }
        }
    }
}

/// A string between a prefix and a string that has the prefix has it too.
proof fn lemma_prefix_between(p: Seq<u8>, a: Seq<u8>, b: Seq<u8>)
    requires
        !lex_less(a, p),
        !lex_less(b, a),
        starts_with(b, p),
    ensures
        starts_with(a, p),
    decreases p.len(),
{
    if p.len() == 0 {
        assert(a.subrange(0, 0) =~= p);
    } else {
        assert(b.subrange(0, p.len() as int)[0] == b[0]);
        assert(a.len() > 0);
        assert(a[0] >= p[0]);
        assert(a[0] == p[0]);
        let p2 = p.drop_first();
        let a2 = a.drop_first();
        let b2 = b.drop_first();
        assert(b2.subrange(0, p2.len() as int) =~= p2) by {
            assert forall|i: int| 0 <= i < p2.len() implies b2[i] == p2[i] by {
                assert(b.subrange(0, p.len() as int)[i + 1] == p[i + 1]);
            }
        }
        lemma_prefix_between(p2, a2, b2);
        assert(a.subrange(0, p.len() as int) =~= p) by {
            assert forall|i: int| 0 <= i < p.len() implies a[i] == p[i] by {
                if i > 0 {
                    assert(a2.subrange(0, p2.len() as int)[i - 1] == p2[i - 1]);
                }
            }
        }
    }
}

/// A string that has a prefix does not precede it.
proof fn lemma_prefix_not_less(s: Seq<u8>, p: Seq<u8>)
    requires
        starts_with(s, p),
    ensures
        !lex_less(s, p),
    decreases p.len(),
{
    if p.len() > 0 {
        assert(s.subrange(0, p.len() as int)[0] == s[0]);
        let p2 = p.drop_first();
        let s2 = s.drop_first();
        assert(s2.subrange(0, p2.len() as int) =~= p2) by {
            assert forall|i: int| 0 <= i < p2.len() implies s2[i] == p2[i] by {
                assert(s.subrange(0, p.len() as int)[i + 1] == p[i + 1]);
            }
        }
        lemma_prefix_not_less(s2, p2);
    }
}

/// Pack three bytes into one number.
fn pack(b0: u8, b1: u8, b2: u8) -> (g: u32)
    ensures
        g == b0 * 0x10000 + b1 * 0x100 + b2,
{
    b0 as u32 * 0x10000 + b1 as u32 * 0x100 + b2 as u32
}

/// The common elements of two ascending lists.
fn intersect_sorted(a: &Vec<u32>, b: &Vec<u32>) -> (r: Vec<u32>)
    requires
        ascending(a@),
        ascending(b@),
    ensures
        ascending(r@),
        forall|x: u32| #[trigger] r@.contains(x) <==> a@.contains(x) && b@.contains(x),
{
    let mut r: Vec<u32> = Vec::new();
    let mut i: usize = 0;
    while i < a.len()
        invariant
            ascending(a@),
            ascending(b@),
            i <= a@.len(),
            ascending(r@),
            forall|k: int| 0 <= k < r@.len() ==> a@.subrange(0, i as int).contains(#[trigger] r@[k]) && b@.contains(r@[k]),
            forall|k: int| 0 <= k < i && b@.contains(#[trigger] a@[k]) ==> r@.contains(a@[k]),
        decreases a.len() - i,
    {
        let x: u32 = a[i];
        let ghost r0 = r@;
        let ghost a0 = a@.subrange(0, i as int);
        let ghost a1 = a@.subrange(0, i + 1);
        proof {
            assert forall|k: int| 0 <= k < r0.len() implies a1.contains(#[trigger] r0[k]) && r0[k].rank() < x.rank() by {
                let j = choose|j: int| 0 <= j < a0.len() && a0[j] == r0[k];
                assert(a1[j] == r0[k]);
                assert(a@[j].rank() < a@[i as int].rank());
            }
        }
        if holds(b, &x) {
            r.push(x);
            proof {
                assert(a1[i as int] == x);
                assert(r@[r0.len() as int] == x);
                assert forall|k: int| 0 <= k < i + 1 && b@.contains(#[trigger] a@[k]) implies r@.contains(a@[k]) by {
                    if k < i {
                        let j = choose|j: int| 0 <= j < r0.len() && r0[j] == a@[k];
                        assert(r@[j] == a@[k]);
                    }
                }
                assert forall|k: int| 0 <= k < r@.len() implies a1.contains(#[trigger] r@[k]) && b@.contains(r@[k]) by {
                    if k < r0.len() {
                        assert(r@[k] == r0[k]);
                    }
                }
            }
        }
        i = i + 1;
    }
    assert(a@.subrange(0, i as int) =~= a@);
    r
}

/// A secondary index over `(id, string)` pairs for substring and prefix lookups.
pub struct StringIndex {
    by_id: HashMap<u32, String>,
    /// Trigram to ascending ids.
    trigrams: HashMap<u32, Vec<u32>>,
    /// All ids, ordered by their string.
    ordered: Vec<u32>,
}

impl View for StringIndex {
    type V = IndexSpec;

    closed spec fn view(&self) -> IndexSpec {
        IndexSpec {
            strings: self.by_id@.map_values(|s: String| encode_utf8(s@)),
            posted: Set::new(|q: (u32, u32)| self.trigrams@.contains_key(q.0) && self.trigrams@[q.0]@.contains(q.1)),
        }
    }
}

impl StringIndex {
    pub closed spec fn wf(&self) -> bool {
        &&& sound(self@)
        &&& forall|g: u32| #[trigger] self.trigrams@.contains_key(g) ==> ascending(self.trigrams@[g]@)
        &&& self.ordered@.no_duplicates()
        &&& forall|id: u32| #[trigger] self.by_id@.contains_key(id) <==> self.ordered@.contains(id)
        &&& sorted_by_string(self.ordered@, self@.strings)
    }

    /// Every trigram of an indexed string is posted, so that no string with a needle is
    /// missed.
    pub proof fn law_index_is_sound(&self)
        requires
            self.wf(),
        ensures
            sound(self@),
    {
    }

    /// An empty index.
    pub fn new() -> (r: StringIndex)
        ensures
            r.wf(),
            r@.strings == Map::<u32, Seq<u8>>::empty(),
            r@.posted == Set::<(u32, u32)>::empty(),
    {
        let r = StringIndex { by_id: HashMap::new(), trigrams: HashMap::new(), ordered: Vec::new() };
        assert(r@.strings =~= Map::<u32, Seq<u8>>::empty());
        assert(r@.posted =~= Set::<(u32, u32)>::empty());
        assert forall|id: u32| #[trigger] r.by_id@.contains_key(id) <==> r.ordered@.contains(id) by {
        }
        r
    }

    /// Build an index from `(id, string)` pairs.
    pub fn build(pairs: &Vec<(u32, String)>) -> (r: StringIndex)
        requires
            forall|i: int, j: int| 0 <= i < j < pairs@.len() ==> (#[trigger] pairs@[i]).0 != (#[trigger] pairs@[j]).0,
        ensures
            r.wf(),
            exact(r@),
            pairs_of(r@, pairs@),
    {
        let mut r: StringIndex = StringIndex::new();
        let mut i: usize = 0;
        while i < pairs.len()
            invariant
                i <= pairs@.len(),
                r.wf(),
                exact(r@),
                forall|a: int, b: int| 0 <= a < b < pairs@.len() ==> (#[trigger] pairs@[a]).0 != (#[trigger] pairs@[b]).0,
                forall|id: u32| #[trigger] r@.strings.contains_key(id) ==> exists|k: int| 0 <= k < i && (#[trigger] pairs@[k]).0 == id,
                forall|k: int| 0 <= k < i ==> r@.strings.contains_key((#[trigger] pairs@[k]).0) && r@.strings[pairs@[k].0] == encode_utf8(pairs@[k].1@),
            decreases pairs.len() - i,
        {
            let ghost x0 = r@;
            r.insert(pairs[i].0, pairs[i].1.as_str());
            proof {
                let id = pairs@[i as int].0;
                assert(!x0.strings.contains_key(id)) by {
                    if x0.strings.contains_key(id) {
                        let k = choose|k: int| 0 <= k < i && (#[trigger] pairs@[k]).0 == id;
                        assert(pairs@[k].0 != pairs@[i as int].0);
                    }
                }
                law_insert_keeps_sound(x0, id, encode_utf8(pairs@[i as int].1@));
                assert forall|d: u32| #[trigger] r@.strings.contains_key(d) implies exists|k: int| 0 <= k < i + 1 && (#[trigger] pairs@[k]).0 == d by {
                    if d == id {
                        assert(pairs@[i as int].0 == d);
                    } else {
                        assert(x0.strings.contains_key(d));
                    }
                }
            }
            i = i + 1;
        }
        r
    }

    /// Add one `(id, string)` pair. An id that is indexed already gets the new
    /// string, while the trigrams of the old one stay posted.
    #[verifier::rlimit(40)]
    pub fn insert(&mut self, id: u32, s: &str)
        requires
            old(self).wf(),
        ensures
            final(self).wf(),
            final(self)@ == with_string(old(self)@, id, encode_utf8(s@)),
    {
        let ghost x0 = self@;
        let ghost sb = encode_utf8(s@);
        proof {
            law_insert_keeps_sound(x0, id, sb);
        }
        self.index_grams(id, s);
        let ghost by0 = self.by_id@;
        let existed: bool = self.by_id.contains_key(&id);
        if existed {
            let mut k: usize = 0;
            while k < self.ordered.len() && self.ordered[k] != id
                invariant
                    k <= self.ordered@.len(),
                    forall|j: int| 0 <= j < k ==> self.ordered@[j] != id,
                decreases self.ordered.len() - k,
            {
                k = k + 1;
            }
            let ghost ord0 = self.ordered@;
            if k < self.ordered.len() {
                self.ordered.remove(k);
            }
            proof {
                assert(ord0.contains(id));
                assert(k < ord0.len());
                lemma_remove_at(ord0, k as int, self.by_id@.map_values(|s: String| encode_utf8(s@)));
            }
        } else {
            assert(!self.ordered@.contains(id));
        }
        let ghost ord1 = self.ordered@;
        let ghost strs0 = by0.map_values(|s: String| encode_utf8(s@));
        self.by_id.insert(id, s.to_owned());
        let ghost strs1 = self.by_id@.map_values(|s: String| encode_utf8(s@));
        proof {
            assert(strs1 =~= strs0.insert(id, sb));
            assert forall|i: int| 0 <= i < ord1.len() implies strs1[#[trigger] ord1[i]] == strs0[ord1[i]] && strs1.contains_key(ord1[i]) by {
                assert(ord1.contains(ord1[i]));
            }
            assert(sorted_by_string(ord1, strs1));
        }
        let pos: usize = self.lower_place(s.as_bytes());
        self.ordered.insert(pos, id);
        proof {
            lemma_insert_at(ord1, pos as int, id, strs1);
            assert forall|d: u32| #[trigger] self.by_id@.contains_key(d) <==> self.ordered@.contains(d) by {
                assert(self.ordered@.contains(d) <==> ord1.contains(d) || d == id);
            }
            assert(self@.strings =~= x0.strings.insert(id, sb));
            assert(self@.posted =~= x0.posted.union(postings_of(id, sb)));
            assert(self@ =~= with_string(x0, id, sb));
        }
    }

    /// The number of ids whose string precedes `key`.
    fn lower_place(&self, key: &[u8]) -> (r: usize)
        requires
            forall|i: int| 0 <= i < self.ordered@.len() ==> self.by_id@.contains_key(#[trigger] self.ordered@[i]),
            sorted_by_string(self.ordered@, self@.strings),
        ensures
            r <= self.ordered@.len(),
            forall|i: int| 0 <= i < r ==> lex_less(self@.strings[#[trigger] self.ordered@[i]], key@),
            forall|i: int| r <= i < self.ordered@.len() ==> !lex_less(self@.strings[#[trigger] self.ordered@[i]], key@),
    {
        let ghost strs = self@.strings;
        let mut lo: usize = 0;
        let mut hi: usize = self.ordered.len();
        while lo < hi
            invariant
                lo <= hi <= self.ordered@.len(),
                strs == self@.strings,
                forall|i: int| 0 <= i < self.ordered@.len() ==> self.by_id@.contains_key(#[trigger] self.ordered@[i]),
                sorted_by_string(self.ordered@, strs),
                forall|i: int| 0 <= i < lo ==> lex_less(strs[#[trigger] self.ordered@[i]], key@),
                forall|i: int| hi <= i < self.ordered@.len() ==> !lex_less(strs[#[trigger] self.ordered@[i]], key@),
            decreases hi - lo,
        {
            let mid: usize = lo + (hi - lo) / 2;
            let id: u32 = self.ordered[mid];
            assert(self.by_id@.contains_key(self.ordered@[mid as int]));
            let str_mid: &String = self.by_id.get(&id).unwrap();
            assert(strs[id] == encode_utf8(str_mid@));
            if bytes_less(str_mid.as_str().as_bytes(), key) {
                proof {
                    assert forall|i: int| 0 <= i < mid + 1 implies lex_less(strs[#[trigger] self.ordered@[i]], key@) by {
                        if i < mid {
                            let a = strs[self.ordered@[i]];
                            let b = strs[self.ordered@[mid as int]];
                            assert(!lex_less(b, a));
                            lemma_lex_total(a, b);
                            if a != b {
                                lemma_lex_trans(a, b, key@);
                            }
                        }
                    }
                }
                lo = mid + 1;
            } else {
                proof {
                    assert forall|i: int| mid <= i < self.ordered@.len() implies !lex_less(strs[#[trigger] self.ordered@[i]], key@) by {
                        if i > mid {
                            let a = strs[self.ordered@[mid as int]];
                            let b = strs[self.ordered@[i]];
                            assert(!lex_less(b, a));
                            lemma_lex_total(a, b);
                            if lex_less(b, key@) && a != b {
                                lemma_lex_trans(a, b, key@);
                            }
                        }
                    }
                }
                hi = mid;
            }
        }
        lo
    }

    /// Post `id` under every trigram of `s`.
    fn index_grams(&mut self, id: u32, s: &str)
        requires
            forall|g: u32| #[trigger] old(self).trigrams@.contains_key(g) ==> ascending(old(self).trigrams@[g]@),
        ensures
            final(self).by_id@ == old(self).by_id@,
            final(self).ordered@ == old(self).ordered@,
            forall|g: u32| #[trigger] final(self).trigrams@.contains_key(g) ==> ascending(final(self).trigrams@[g]@),
            final(self)@.posted == old(self)@.posted.union(postings_of(id, encode_utf8(s@))),
    {
        let b: &[u8] = s.as_bytes();
        if b.len() < GRAM {
            proof {
                assert(postings_of(id, b@) =~= Set::<(u32, u32)>::empty());
                assert(self@.posted =~= self@.posted.union(postings_of(id, b@)));
            }
            return;
        }
        let ghost p0 = self@.posted;
        let mut k: usize = 0;
        proof {
            assert(self@.posted =~= p0.union(posted_upto(id, b@, 0)));
        }
        while k + 2 < b.len()
            invariant
                b.len() >= 3,
                k + 2 <= b.len(),
                b@ == encode_utf8(s@),
                self.by_id@ == old(self).by_id@,
                self.ordered@ == old(self).ordered@,
                forall|g: u32| #[trigger] self.trigrams@.contains_key(g) ==> ascending(self.trigrams@[g]@),
                self@.posted == p0.union(posted_upto(id, b@, k as int)),
            decreases b.len() - k,
        {
            let g: u32 = pack(b[k], b[k + 1], b[k + 2]);
            let ghost t0 = self.trigrams@;
            let ghost q0 = self@.posted;
            let mut list: Vec<u32> = match self.trigrams.remove(&g) {
                Some(l) => l,
                None => Vec::new(),
            };
            let ghost l0 = list@;
            insert_sorted(&mut list, id);
            self.trigrams.insert(g, list);
            proof {
                assert(gram_at(b@, k as int) == g);
                assert(self@.posted =~= q0.insert((g, id))) by {
                    assert forall|q: (u32, u32)| self@.posted.contains(q) <==> q0.insert((g, id)).contains(q) by {
                        if q.0 == g {
                            if t0.contains_key(g) {
                                assert(l0 == t0[g]@);
                            } else {
                                assert(l0.len() == 0);
                            }
                        } else {
                            assert(self.trigrams@.contains_key(q.0) <==> t0.contains_key(q.0));
                        }
                    }
                }
                assert(posted_upto(id, b@, k + 1) =~= posted_upto(id, b@, k as int).insert((g, id))) by {
                    assert forall|q: (u32, u32)| posted_upto(id, b@, k + 1).contains(q) <==> posted_upto(id, b@, k as int).insert((g, id)).contains(q) by {
                        if posted_upto(id, b@, k + 1).contains(q) {
                            let j = choose|j: int| 0 <= j < k + 1 && j + 3 <= b@.len() && #[trigger] gram_at(b@, j) == q.0;
                            if j < k {
                                assert(gram_at(b@, j) == q.0);
                            }
                        }
                        if posted_upto(id, b@, k as int).contains(q) {
                            let j = choose|j: int| 0 <= j < k && j + 3 <= b@.len() && #[trigger] gram_at(b@, j) == q.0;
                            assert(gram_at(b@, j) == q.0);
                        }
                    }
                }
                assert(self@.posted =~= p0.union(posted_upto(id, b@, k + 1)));
            }
            k = k + 1;
        }
        proof {
            assert(posted_upto(id, b@, k as int) =~= postings_of(id, b@)) by {
                assert forall|q: (u32, u32)| posted_upto(id, b@, k as int).contains(q) <==> postings_of(id, b@).contains(q) by {
                    if postings_of(id, b@).contains(q) {
                        let j = choose|j: int| 0 <= j && j + 3 <= b@.len() && #[trigger] gram_at(b@, j) == q.0;
                        assert(j < k);
                    }
                }
            }
        }
    }

    /// Number of indexed strings.
    pub fn len(&self) -> (n: usize)
        requires
            self.wf(),
        ensures
            n == self@.strings.dom().len(),
    {
        proof {
            assert(self@.strings.dom() =~= self.by_id@.dom());
        }
        self.by_id.len()
    }

    pub fn is_empty(&self) -> (b: bool)
        requires
            self.wf(),
        ensures
            b == (self@.strings.dom().len() == 0),
    {
        self.len() == 0
    }

    /// The string of `id`, if indexed.
    pub fn string_of(&self, id: u32) -> (r: Option<&str>)
        requires
            self.wf(),
        ensures
            r is Some <==> self@.strings.contains_key(id),
            r matches Some(s) ==> encode_utf8(s@) == self@.strings[id],
    {
        match self.by_id.get(&id) {
            Some(s) => Some(s.as_str()),
            None => None,
        }
    }

    /// The indexed strings with their ids, ascending by id: what `build` makes the
    /// index of again.
    pub fn pairs(&self) -> (r: Vec<(u32, String)>)
        requires
            self.wf(),
        ensures
            pairs_of(self@, r@),
            forall|i: int, j: int| 0 <= i < j < r@.len() ==> (#[trigger] r@[i]).0 < (#[trigger] r@[j]).0,
    {
        let ids: Vec<u32> = sort_dedup(&self.ordered);
        let mut r: Vec<(u32, String)> = Vec::new();
        let mut i: usize = 0;
        while i < ids.len()
            invariant
                self.wf(),
                i <= ids@.len(),
                ascending(ids@),
                forall|id: u32| #[trigger] ids@.contains(id) <==> self.ordered@.contains(id),
                r@.len() == i,
                forall|k: int| 0 <= k < i ==> (#[trigger] r@[k]).0 == ids@[k] && self@.strings[r@[k].0] == encode_utf8(r@[k].1@),
            decreases ids.len() - i,
        {
            let id: u32 = ids[i];
            assert(ids@.contains(id));
            let s: &String = self.by_id.get(&id).unwrap();
            r.push((id, s.clone()));
            i = i + 1;
        }
        proof {
            assert forall|id: u32| #[trigger] self@.strings.contains_key(id) <==> exists|k: int| 0 <= k < r@.len() && (#[trigger] r@[k]).0 == id by {
                if self@.strings.contains_key(id) {
                    assert(self.by_id@.contains_key(id));
                    assert(ids@.contains(id));
                    let k = choose|k: int| 0 <= k < ids@.len() && ids@[k] == id;
                    assert(r@[k].0 == id);
                }
                if exists|k: int| 0 <= k < r@.len() && (#[trigger] r@[k]).0 == id {
                    let k = choose|k: int| 0 <= k < r@.len() && (#[trigger] r@[k]).0 == id;
                    assert(ids@.contains(ids@[k]));
                    assert(self.by_id@.contains_key(id));
                }
            }
            assert forall|a: int, b: int| 0 <= a < b < r@.len() implies (#[trigger] r@[a]).0 < (#[trigger] r@[b]).0 by {
                assert(ids@[a].rank() < ids@[b].rank());
            }
        }
        r
    }

    /// A superset of the ids whose string has `needle` in it, ascending: the
    /// ids that are posted under every trigram of the needle. A needle of fewer
    /// than three bytes gives every id.
    pub fn contains_candidates(&self, needle: &str) -> (r: Vec<u32>)
        requires
            self.wf(),
        ensures
            lists(r@, candidates(self@, encode_utf8(needle@))),
            matches_of(self@, encode_utf8(needle@)).subset_of(candidates(self@, encode_utf8(needle@))),
    {
        let nb: &[u8] = needle.as_bytes();
        proof {
            law_candidates_are_superset(self@, nb@);
        }
        let mut acc: Vec<u32> = sort_dedup(&self.ordered);
        proof {
            assert forall|id: u32| #[trigger] acc@.contains(id) <==> self@.strings.contains_key(id) && posted_all(self@, id, nb@, 0) by {
                assert(self.by_id@.contains_key(id) <==> self.ordered@.contains(id));
            }
        }
        if nb.len() < GRAM {
            proof {
                assert forall|id: u32| #[trigger] candidates(self@, nb@).contains(id) <==> acc@.contains(id) by {
                }
            }
            return acc;
        }
        let mut k: usize = 0;
        while k + 2 < nb.len()
            invariant
                self.wf(),
                nb.len() >= 3,
                k + 2 <= nb.len(),
                nb@ == encode_utf8(needle@),
                ascending(acc@),
                forall|id: u32| #[trigger] acc@.contains(id) <==> self@.strings.contains_key(id) && posted_all(self@, id, nb@, k as int),
            decreases nb.len() - k,
        {
            let g: u32 = pack(nb[k], nb[k + 1], nb[k + 2]);
            let ghost acc0 = acc@;
            proof {
                assert(gram_at(nb@, k as int) == g);
                assert forall|id: u32| posted_all(self@, id, nb@, k + 1) <==> posted_all(self@, id, nb@, k as int) && #[trigger] self@.posted.contains((g, id)) by {
                    if posted_all(self@, id, nb@, k as int) && self@.posted.contains((g, id)) {
                        assert forall|j: int| 0 <= j < k + 1 implies self@.posted.contains((#[trigger] gram_at(nb@, j), id)) by {
                        }
                    }
                    if posted_all(self@, id, nb@, k + 1) {
                        assert(self@.posted.contains((gram_at(nb@, k as int), id)));
                    }
                }
            }
            match self.trigrams.get(&g) {
                Some(list) => {
                    acc = intersect_sorted(&acc, list);
                    proof {
                        assert forall|id: u32| #[trigger] acc@.contains(id) <==> self@.strings.contains_key(id) && posted_all(self@, id, nb@, k + 1) by {
                            assert(acc0.contains(id) <==> self@.strings.contains_key(id) && posted_all(self@, id, nb@, k as int));
                            assert(self@.posted.contains((g, id)) <==> list@.contains(id));
                        }
                    }
                },
                None => {
                    acc = Vec::new();
                    proof {
                        assert forall|id: u32| #[trigger] acc@.contains(id) <==> self@.strings.contains_key(id) && posted_all(self@, id, nb@, k + 1) by {
                            assert(!self@.posted.contains((g, id)));
                        }
                    }
                },
            }
            k = k + 1;
        }
        proof {
            assert forall|id: u32| #[trigger] candidates(self@, nb@).contains(id) <==> acc@.contains(id) by {
                if candidates(self@, nb@).contains(id) {
                    assert forall|j: int| 0 <= j < k implies self@.posted.contains((#[trigger] gram_at(nb@, j), id)) by {
                        assert(has_gram(nb@, gram_at(nb@, j)));
                    }
                }
                if acc@.contains(id) {
                    assert forall|g: u32| has_gram(nb@, g) implies #[trigger] self@.posted.contains((g, id)) by {
                        let j = choose|j: int| 0 <= j && j + 3 <= nb@.len() && #[trigger] gram_at(nb@, j) == g;
                        assert(j < k);
                    }
                }
            }
        }
        acc
    }

    /// The ids whose string has `needle` in it, ascending.
    pub fn search_contains(&self, needle: &str) -> (r: Vec<u32>)
        requires
            self.wf(),
        ensures
            lists(r@, matches_of(self@, encode_utf8(needle@))),
    {
        let cands: Vec<u32> = self.contains_candidates(needle);
        let nb: &[u8] = needle.as_bytes();
        let mut r: Vec<u32> = Vec::new();
        let mut i: usize = 0;
        proof {
            assert forall|k: int| 0 <= k < cands@.len() implies self@.strings.contains_key(#[trigger] cands@[k]) by {
                assert(cands@.contains(cands@[k]));
                assert(candidates(self@, nb@).contains(cands@[k]));
            }
        }
        while i < cands.len()
            invariant
                self.wf(),
                nb@ == encode_utf8(needle@),
                i <= cands@.len(),
                forall|k: int| 0 <= k < cands@.len() ==> self@.strings.contains_key(#[trigger] cands@[k]),
                forall|k: int| 0 <= k < i && occurs(self@.strings[#[trigger] cands@[k]], nb@) ==> r@.contains(cands@[k]),
                forall|k: int| 0 <= k < r@.len() ==> matches_of(self@, nb@).contains(#[trigger] r@[k]),
            decreases cands.len() - i,
        {
            let id: u32 = cands[i];
            assert(self@.strings.contains_key(cands@[i as int]));
            assert(self.by_id@.contains_key(id));
            let s: &String = self.by_id.get(&id).unwrap();
            let ghost r0 = r@;
            if contains_bytes(s.as_str().as_bytes(), nb) {
                r.push(id);
                proof {
                    assert(r@[r0.len() as int] == id);
                    assert forall|k: int| 0 <= k < i + 1 && occurs(self@.strings[#[trigger] cands@[k]], nb@) implies r@.contains(cands@[k]) by {
                        if k < i {
                            let j = choose|j: int| 0 <= j < r0.len() && r0[j] == cands@[k];
                            assert(r@[j] == cands@[k]);
                        }
                    }
                }
            }
            i = i + 1;
        }
        let out: Vec<u32> = sort_dedup(&r);
        proof {
            assert forall|id: u32| #[trigger] matches_of(self@, nb@).contains(id) <==> out@.contains(id) by {
                if matches_of(self@, nb@).contains(id) {
                    assert(candidates(self@, nb@).contains(id));
                    let k = choose|k: int| 0 <= k < cands@.len() && cands@[k] == id;
                    assert(r@.contains(cands@[k]));
                }
                if out@.contains(id) {
                    assert(r@.contains(id));
                }
            }
        }
        out
    }

    /// The ids whose string starts with `prefix`, ascending.
    pub fn prefix(&self, prefix: &str) -> (r: Vec<u32>)
        requires
            self.wf(),
        ensures
            lists(r@, prefixed(self@, encode_utf8(prefix@))),
    {
        let p: &[u8] = prefix.as_bytes();
        proof {
            assert forall|i: int| 0 <= i < self.ordered@.len() implies self.by_id@.contains_key(#[trigger] self.ordered@[i]) by {
                assert(self.ordered@.contains(self.ordered@[i]));
            }
        }
        let lo: usize = self.lower_place(p);
        let ghost strs = self@.strings;
        let mut r: Vec<u32> = Vec::new();
        let mut i: usize = lo;
        let mut going: bool = true;
        while going && i < self.ordered.len()
            invariant
                self.wf(),
                strs == self@.strings,
                p@ == encode_utf8(prefix@),
                lo <= i <= self.ordered@.len(),
                forall|k: int| 0 <= k < self.ordered@.len() ==> self.by_id@.contains_key(#[trigger] self.ordered@[k]),
                forall|k: int| lo <= k < self.ordered@.len() ==> !lex_less(strs[#[trigger] self.ordered@[k]], p@),
                r@ == self.ordered@.subrange(lo as int, i as int),
                forall|k: int| lo <= k < i ==> starts_with(strs[#[trigger] self.ordered@[k]], p@),
                !going ==> i < self.ordered@.len() && !starts_with(strs[self.ordered@[i as int]], p@),
            decreases self.ordered.len() - i, (if going { 1int } else { 0int }),
        {
            let id: u32 = self.ordered[i];
            assert(self.by_id@.contains_key(self.ordered@[i as int]));
            let s: &String = self.by_id.get(&id).unwrap();
            assert(strs[id] == encode_utf8(s@));
            if has_prefix(s.as_str().as_bytes(), p) {
                r.push(id);
                i = i + 1;
                assert(r@ =~= self.ordered@.subrange(lo as int, i as int));
            } else {
                going = false;
            }
        }
        let out: Vec<u32> = sort_dedup(&r);
        proof {
            assert forall|id: u32| #[trigger] prefixed(self@, p@).contains(id) <==> out@.contains(id) by {
                if prefixed(self@, p@).contains(id) {
                    assert(self.by_id@.contains_key(id));
                    let k = choose|k: int| 0 <= k < self.ordered@.len() && self.ordered@[k] == id;
                    lemma_prefix_not_less(strs[id], p@);
                    assert(k >= lo);
                    assert(k < i) by {
                        if k >= i {
                            assert(!going);
                            if k > i {
                                assert(!lex_less(strs[self.ordered@[k]], strs[self.ordered@[i as int]]));
                            } else {
                                lemma_lex_total(strs[id], strs[id]);
                            }
                            lemma_prefix_between(p@, strs[self.ordered@[i as int]], strs[self.ordered@[k]]);
                        }
                    }
                    assert(r@[k - lo] == id);
                }
                if out@.contains(id) {
                    assert(r@.contains(id));
                    let k = choose|k: int| 0 <= k < r@.len() && r@[k] == id;
                    assert(self.ordered@[lo + k] == id);
                    assert(starts_with(strs[self.ordered@[lo + k]], p@));
                }
            }
        }
        out
    }
}

/// The pairs posted by the first `k` windows of a string.
spec fn posted_upto(id: u32, s: Seq<u8>, k: int) -> Set<(u32, u32)> {
    Set::new(|q: (u32, u32)| q.1 == id && exists|j: int| 0 <= j < k && j + 3 <= s.len() && #[trigger] gram_at(s, j) == q.0)
}

/// `id` is posted under the first `k` trigrams of the needle.
spec fn posted_all(x: IndexSpec, id: u32, needle: Seq<u8>, k: int) -> bool {
    forall|j: int| 0 <= j < k ==> x.posted.contains((#[trigger] gram_at(needle, j), id))
}

/// No id comes before one with a smaller string.
pub open spec fn sorted_by_string(ids: Seq<u32>, strings: Map<u32, Seq<u8>>) -> bool {
    forall|i: int, j: int| 0 <= i < j < ids.len() ==> !lex_less(strings[#[trigger] ids[j]], strings[#[trigger] ids[i]])
}

proof fn lemma_remove_at(ids: Seq<u32>, k: int, strings: Map<u32, Seq<u8>>)
    requires
        0 <= k < ids.len(),
        ids.no_duplicates(),
        sorted_by_string(ids, strings),
    ensures
        ids.remove(k).no_duplicates(),
        sorted_by_string(ids.remove(k), strings),
        forall|d: u32| #[trigger] ids.remove(k).contains(d) <==> ids.contains(d) && d != ids[k],
{
    let r = ids.remove(k);
    assert forall|d: u32| #[trigger] r.contains(d) <==> ids.contains(d) && d != ids[k] by {
        if r.contains(d) {
            let j = choose|j: int| 0 <= j < r.len() && r[j] == d;
            if j < k {
                assert(ids[j] == d);
            } else {
                assert(ids[j + 1] == d);
            }
        }
        if ids.contains(d) && d != ids[k] {
            let j = choose|j: int| 0 <= j < ids.len() && ids[j] == d;
            if j < k {
                assert(r[j] == d);
            } else {
                assert(r[j - 1] == d);
            }
        }
    }
}

proof fn lemma_insert_at(ids: Seq<u32>, k: int, id: u32, strings: Map<u32, Seq<u8>>)
    requires
        0 <= k <= ids.len(),
        ids.no_duplicates(),
        !ids.contains(id),
        sorted_by_string(ids, strings),
        forall|i: int| 0 <= i < k ==> lex_less(strings[#[trigger] ids[i]], strings[id]),
        forall|i: int| k <= i < ids.len() ==> !lex_less(strings[#[trigger] ids[i]], strings[id]),
    ensures
        ids.insert(k, id).no_duplicates(),
        sorted_by_string(ids.insert(k, id), strings),
        forall|d: u32| #[trigger] ids.insert(k, id).contains(d) <==> ids.contains(d) || d == id,
{
    let r = ids.insert(k, id);
    assert(r[k] == id);
    assert forall|d: u32| #[trigger] r.contains(d) <==> ids.contains(d) || d == id by {
        if r.contains(d) {
            let j = choose|j: int| 0 <= j < r.len() && r[j] == d;
            if j < k {
                assert(ids[j] == d);
            } else if j > k {
                assert(ids[j - 1] == d);
            }
        }
        if ids.contains(d) {
            let j = choose|j: int| 0 <= j < ids.len() && ids[j] == d;
            if j < k {
                assert(r[j] == d);
            } else {
                assert(r[j + 1] == d);
            }
        }
    }
    assert forall|i: int, j: int| 0 <= i < j < r.len() implies !lex_less(strings[#[trigger] r[j]], strings[#[trigger] r[i]]) by {
        if i < k {
            assert(r[i] == ids[i]);
        } else if i > k {
            assert(r[i] == ids[i - 1]);
        }
        if j < k {
            assert(r[j] == ids[j]);
        } else if j > k {
            assert(r[j] == ids[j - 1]);
        }
        if j == k {
            lemma_lex_total(strings[ids[i]], strings[id]);
        }
    }
    assert forall|i: int, j: int| 0 <= i < r.len() && 0 <= j < r.len() && i != j implies r[i] != r[j] by {
        let a = if i < k { i } else { i - 1 };
        let b = if j < k { j } else { j - 1 };
        if i != k {
            assert(r[i] == ids[a]);
            assert(ids.contains(ids[a]));
        }
        if j != k {
            assert(r[j] == ids[b]);
            assert(ids.contains(ids[b]));
        }
    }
}

/// Whether `needle` occurs in `hay`.
fn contains_bytes(hay: &[u8], needle: &[u8]) -> (r: bool)
    ensures
        r == occurs(hay@, needle@),
{
    if needle.len() > hay.len() {
        return false;
    }
    let mut k: usize = 0;
    while k <= hay.len() - needle.len()
        invariant
            needle@.len() <= hay@.len(),
            k <= hay.len() - needle.len() + 1,
            forall|j: int| 0 <= j < k ==> !#[trigger] occurs_at(hay@, needle@, j),
        decreases hay.len() - needle.len() + 1 - k,
    {
        let mut i: usize = 0;
        while i < needle.len() && hay[k + i] == needle[i]
            invariant
                i <= needle@.len(),
                k + needle.len() <= hay.len(),
                forall|j: int| 0 <= j < i ==> hay@[k + j] == needle@[j],
            decreases needle.len() - i,
        {
            i = i + 1;
        }
        if i == needle.len() {
            assert(hay@.subrange(k as int, k + needle@.len()) =~= needle@);
            assert(occurs_at(hay@, needle@, k as int));
            return true;
        }
        proof {
            if occurs_at(hay@, needle@, k as int) {
                assert(hay@.subrange(k as int, k + needle@.len())[i as int] == hay@[k + i]);
            }
        }
        k = k + 1;
    }
    false
}

/// Whether `s` starts with `p`.
fn has_prefix(s: &[u8], p: &[u8]) -> (r: bool)
    ensures
        r == starts_with(s@, p@),
{
    if p.len() > s.len() {
        return false;
    }
    let mut i: usize = 0;
    while i < p.len()
        invariant
            i <= p@.len() <= s@.len(),
            forall|j: int| 0 <= j < i ==> s@[j] == p@[j],
        decreases p.len() - i,
    {
        if s[i] != p[i] {
            assert(s@.subrange(0, p@.len() as int)[i as int] == s@[i as int]);
            return false;
        }
        i = i + 1;
    }
    assert(s@.subrange(0, p@.len() as int) =~= p@);
    true
}

/// A search finds exactly the ids whose string is something before the needle, the needle, and
/// something behind it; a prefix those whose string is the prefix and something behind it.
pub proof fn law_search_finds_what_holds_the_needle(x: IndexSpec, id: u32, before: Seq<u8>, needle: Seq<u8>, after: Seq<u8>)
    ensures
        x.strings.contains_key(id) && x.strings[id] == before + needle + after ==> matches_of(x, needle).contains(id),
        x.strings.contains_key(id) && x.strings[id] == needle + after ==> prefixed(x, needle).contains(id),
        matches_of(x, needle).contains(id) ==> x.strings.contains_key(id) && exists|a: Seq<u8>, b: Seq<u8>| x.strings[id] == #[trigger] (a + needle + b),
        prefixed(x, needle).contains(id) ==> x.strings.contains_key(id) && exists|b: Seq<u8>| x.strings[id] == #[trigger] (needle + b),
{
    let s = x.strings[id];
    if x.strings.contains_key(id) && s == before + needle + after {
        assert(s.subrange(before.len() as int, (before.len() + needle.len()) as int) =~= needle);
        assert(occurs_at(s, needle, before.len() as int));
    }
    if x.strings.contains_key(id) && s == needle + after {
        assert(s.subrange(0, needle.len() as int) =~= needle);
    }
    if matches_of(x, needle).contains(id) {
        let k = choose|k: int| #[trigger] occurs_at(s, needle, k);
        let (a, b) = (s.subrange(0, k), s.subrange(k + needle.len(), s.len() as int));
        assert forall|i: int| k <= i < k + needle.len() implies s[i] == #[trigger] needle[i - k] by {
            assert(s.subrange(k, k + needle.len())[i - k] == s[i]);
        }
        assert(s =~= a + needle + b);
    }
    if prefixed(x, needle).contains(id) {
        let b = s.subrange(needle.len() as int, s.len() as int);
        assert forall|i: int| 0 <= i < needle.len() implies s[i] == #[trigger] needle[i] by {
            assert(s.subrange(0, needle.len() as int)[i] == s[i]);
        }
        assert(s =~= needle + b);
    }
}

/// A string that is added is the string of its id then, and the strings of all other ids are
/// as before, so that a search finds them as before.
pub proof fn law_added_string_is_found(x: IndexSpec, id: u32, s: Seq<u8>, other: u32, needle: Seq<u8>)
    requires
        other != id,
    ensures
        matches_of(with_string(x, id, s), s).contains(id),
        prefixed(with_string(x, id, s), s).contains(id),
        matches_of(with_string(x, id, s), needle).contains(other) <==> matches_of(x, needle).contains(other),
        prefixed(with_string(x, id, s), needle).contains(other) <==> prefixed(x, needle).contains(other),
{
    assert(s.subrange(0, s.len() as int) =~= s);
    assert(occurs_at(s, s, 0));
}

} // verus!
