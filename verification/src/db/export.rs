//! Writing the default graph in surface syntax.

use super::Database;
use crate::dict::DictSpec;
use crate::model::IdTriple;
use crate::store::{lemma_scan_unique, scans};
use crate::text::texts;
use super::schema::key_of;
use vstd::prelude::*;
use vstd::string::*;

verus! {

/// All ids of the triple belong to keys.
pub open spec fn resolved(d: DictSpec, t: IdTriple) -> bool {
    &&& exists|k: Seq<char>| #[trigger] key_of(d, t.sub, k)
    &&& d.predicates.contains_value(t.pred)
    &&& exists|k: Seq<char>| #[trigger] key_of(d, t.obj, k)
}

/// The line of a triple: the keys of its ids, separated by spaces, and a dot.
pub open spec fn is_line(d: DictSpec, t: IdTriple, line: Seq<char>) -> bool {
    exists|s: Seq<char>, p: Seq<char>, o: Seq<char>| #[trigger] line_of(d, t, line, s, p, o)
}

/// The line of a triple with the given keys.
pub open spec fn line_of(d: DictSpec, t: IdTriple, line: Seq<char>, s: Seq<char>, p: Seq<char>, o: Seq<char>) -> bool {
    &&& key_of(d, t.sub, s)
    &&& d.predicates.contains_key(p)
    &&& d.predicates[p] == t.pred
    &&& key_of(d, t.obj, o)
    &&& line == s + seq![' '] + p + seq![' '] + o + seq![' ', '.']
}

/// The triples whose ids all belong to keys.
pub open spec fn resolved_only(d: DictSpec, ts: Seq<IdTriple>) -> Seq<IdTriple> {
    ts.filter(|t: IdTriple| resolved(d, t))
}

impl Database {
    /// The lines of the default graph, in the order of a full scan, and the number
    /// of triples that were left out because an id has no key.
    pub fn export_lines(&self) -> (r: (Vec<String>, usize))
        requires
            self.wf(),
        ensures
            forall|scan: Seq<IdTriple>| #[trigger] scans(scan, self.default_graph()) ==> {
                let kept = resolved_only(self@.dict, scan);
                &&& r.0@.len() == kept.len()
                &&& r.0@.len() + r.1 == scan.len()
                &&& forall|i: int| 0 <= i < kept.len() ==> is_line(self@.dict, kept[i], #[trigger] texts(r.0@)[i])
            },
    {
        let all: Vec<IdTriple> = self.store.iter_all();
        let ghost d = self@.dict;
        let ghost f = |t: IdTriple| resolved(d, t);
        let mut lines: Vec<String> = Vec::new();
        let mut skipped: usize = 0;
        let mut i: usize = 0;
        assert(resolved_only(d, all@.take(0)) =~= Seq::<IdTriple>::empty()) by {
            reveal(Seq::filter);
        }
        while i < all.len()
            invariant
                self.wf(),
                d == self@.dict,
                i <= all@.len(),
                lines@.len() == resolved_only(d, all@.take(i as int)).len(),
                lines@.len() + skipped == i,
                forall|k: int| 0 <= k < lines@.len() ==> is_line(d, resolved_only(d, all@.take(i as int))[k], #[trigger] texts(lines@)[k]),
            decreases all.len() - i,
        {
            let t: IdTriple = all[i];
            let ghost a = all@.take(i as int);
            let ghost b = all@.take(i + 1);
            let ghost l0 = lines@;
            proof {
                assert(b.drop_last() =~= a);
                assert(b.last() == t);
                assert(resolved_only(d, b) == (if resolved(d, t) { resolved_only(d, a).push(t) } else { resolved_only(d, a) })) by {
                    reveal(Seq::filter);
                }
                self.dict.lemma_ids();
            }
            let s: Option<&str> = self.dict.id_to_string(t.sub);
            let p: Option<&str> = self.dict.predicate_to_string(t.pred);
            let o: Option<&str> = self.dict.id_to_string(t.obj);
            proof {
                lemma_has_key(d, t.sub);
                lemma_has_key(d, t.obj);
                assert(s is Some <==> exists|k: Seq<char>| #[trigger] key_of(d, t.sub, k));
                assert(o is Some <==> exists|k: Seq<char>| #[trigger] key_of(d, t.obj, k));
            }
            match (s, p, o) {
                (Some(s), Some(p), Some(o)) => {
                    let mut line: String = s.to_owned();
                    line.push(' ');
                    line.append(p);
                    line.push(' ');
                    line.append(o);
                    line.push(' ');
                    line.push('.');
                    assert(line@ =~= s@ + seq![' '] + p@ + seq![' '] + o@ + seq![' ', '.']);
                    assert(line_of(d, t, line@, s@, p@, o@));
                    lines.push(line);
                },
                _ => {
                    skipped = skipped + 1;
                },
            }
            i = i + 1;
            proof {
                let kept = resolved_only(d, b);
                assert forall|k: int| 0 <= k < lines@.len() implies is_line(d, kept[k], #[trigger] texts(lines@)[k]) by {
                    if k < l0.len() {
                        assert(texts(lines@)[k] == texts(l0)[k]);
                        assert(kept[k] == resolved_only(d, a)[k]);
                    }
                }
            }
        }
        proof {
            assert(all@.take(all@.len() as int) =~= all@);
            assert forall|scan: Seq<IdTriple>| #[trigger] scans(scan, self.default_graph()) implies scan == all@ by {
                lemma_scan_unique(scan, all@, self.default_graph());
            }
        }
        (lines, skipped)
    }
}

proof fn lemma_has_key(d: DictSpec, id: u32)
    ensures
        (d.entities.contains_value(id) || d.literals.contains_value(id)) <==> exists|k: Seq<char>| #[trigger] key_of(d, id, k),
{
    if d.entities.contains_value(id) {
        let k = choose|k: Seq<char>| #[trigger] d.entities.contains_key(k) && d.entities[k] == id;
        assert(key_of(d, id, k));
    }
    if d.literals.contains_value(id) {
        let k = choose|k: Seq<char>| #[trigger] d.literals.contains_key(k) && d.literals[k] == id;
        assert(key_of(d, id, k));
    }
}

} // verus!
