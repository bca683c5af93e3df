//! A triple store with its dictionary on the pages of one file: three B+ trees for
//! the triples, each in its own order, and two for each space of ids.

use super::bptree::{insert_fits, is_tree, item_views, keeps_others, keeps_roots, law_insertion_keeps_other_trees, law_be32_order, law_be32_roundtrip, lemma_same_trees, lemma_shape_in, map_in, page_in, pages_taken, root_of, same_trees, shape_in, slots_apart, starts, value_in, BTree};
use super::heap::{heap, law_new_file_is_sound, pages_left, put_root, sound};
use super::leaves::Item;
use super::pager::{committed, new_pager, opened, Pager, PagerSpec, NROOTS};
use super::prune::{lemma_shape_without, shape_freed, shape_nodes, shape_stocked, shape_without};
use super::stock::{law_nodes_have_keys, law_removal_gives_pages_back};
use super::shape::{lemma_shape_after, lemma_shape_short_fits, shape_after, shape_cost, shape_fits, shape_ok, shape_short, shape_value};
use super::tree::Tree;
use crate::codec::{be32_bytes, get_be32, lemma_be32, push_be32, read_be32};
use crate::db::logs::is_database_error;
use crate::error::{GStoreError, Result};
use crate::model::term::{term_key, TermSpec};
use crate::model::{is_literal_id, EntityLiteralId, IdTriple, PredId, Term, Triple, LITERAL_FIRST_ID};
use crate::order::{lists, Ranked};
use crate::store::{objects_of, pairs_of_subject, predicates_between, subjects_of};
use crate::text::{lemma_encoding_injective, lemma_lex_common, lex_less, string_from_utf8};
use vstd::prelude::*;
use vstd::string::*;
use vstd::utf8::encode_utf8;

verus! {

/// The slots of the trees: triples by subject, by predicate and by object, then
/// from keys to ids and back, for entities, literals and predicates.
pub const SPO: usize = 0;
pub const POS: usize = 1;
pub const OSP: usize = 2;
pub const ENTITY2ID: usize = 3;
pub const LITERAL2ID: usize = 4;
pub const PREDICATE2ID: usize = 5;
pub const ID2ENTITY: usize = 6;
pub const ID2LITERAL: usize = 7;
pub const ID2PREDICATE: usize = 8;

/// The number of trees.
pub const TREES: usize = 9;

/// The slots of the counts.
pub const ROOT_TRIPLE_COUNT: usize = 9;
pub const ROOT_ENTITY_COUNT: usize = 10;
pub const ROOT_LITERAL_COUNT: usize = 11;
pub const ROOT_PRED_COUNT: usize = 12;

/// A store as a mathematical value: the keys of each space in the order of their
/// ids, the triples, the shapes of the trees, and how many pages can be allocated.
#[verifier::ext_equal]
pub ghost struct DiskSpec {
    pub entities: Seq<Seq<char>>,
    pub literals: Seq<Seq<char>>,
    pub predicates: Seq<Seq<char>>,
    pub triples: Set<IdTriple>,
    pub trees: Seq<Option<Tree>>,
    pub left: int,
}

/// The shapes of the trees in a pager.
pub open spec fn trees_of(p: PagerSpec) -> Seq<Option<Tree>> {
    Seq::new(TREES as nat, |i: int| shape_in(p, i))
}

/// Each slot holds a tree, and no two share a page.
pub open spec fn forest(p: PagerSpec) -> bool {
    &&& sound(p)
    &&& p.roots.len() == NROOTS
    &&& forall|i: int| 0 <= i < TREES ==> #[trigger] is_tree(p, i)
    &&& forall|i: int, j: int| 0 <= i < TREES && 0 <= j < TREES && i != j ==> #[trigger] slots_apart(p, i, j)
}

/// The trees after an insertion into one of them.
pub open spec fn with_item(trees: Seq<Option<Tree>>, slot: int, key: Seq<u8>, val: Seq<u8>) -> Seq<Option<Tree>> {
    trees.update(slot, shape_after(trees[slot], key, val))
}

/// Twelve bytes for three ids: their order is that of the ids.
pub open spec fn key3_bytes(a: u32, b: u32, c: u32) -> Seq<u8> {
    be32_bytes(a) + be32_bytes(b) + be32_bytes(c)
}

/// The key of a triple in an index.
pub open spec fn index_key(slot: int, t: IdTriple) -> Seq<u8> {
    if slot == SPO {
        key3_bytes(t.sub, t.pred, t.obj)
    } else if slot == POS {
        key3_bytes(t.pred, t.obj, t.sub)
    } else {
        key3_bytes(t.obj, t.sub, t.pred)
    }
}

/// Two trees hold a space of ids: from keys to ids, and back.
pub open spec fn table(to_id: Option<Tree>, to_key: Option<Tree>, first: int, names: Seq<Seq<char>>) -> bool {
    &&& first + names.len() <= u32::MAX + 1
    &&& names.no_duplicates()
    &&& forall|i: int| 0 <= i < names.len() ==> shape_value(to_id, encode_utf8(#[trigger] names[i])) == Some(be32_bytes((first + i) as u32))
    &&& forall|i: int| 0 <= i < names.len() ==> shape_value(to_key, be32_bytes((first + i) as u32)) == Some(encode_utf8(#[trigger] names[i]))
    &&& forall|k: Seq<u8>| (#[trigger] shape_value(to_id, k)) is Some ==> names_key(names, k)
    &&& forall|k: Seq<u8>| (#[trigger] shape_value(to_key, k)) is Some ==> is_id_of(first, names.len(), k)
}

/// The bytes are those of a name.
pub open spec fn names_key(names: Seq<Seq<char>>, k: Seq<u8>) -> bool {
    exists|i: int| 0 <= i < names.len() && encode_utf8(#[trigger] names[i]) == k
}

/// The bytes are those of an id in use.
pub open spec fn is_id_of(first: int, n: nat, k: Seq<u8>) -> bool {
    exists|i: int| 0 <= i < n && #[trigger] be32_bytes((first + i) as u32) == k
}

/// A tree holds the keys of the triples.
pub open spec fn index_of(tree: Option<Tree>, slot: int, triples: Set<IdTriple>) -> bool {
    &&& shape_short(tree)
    &&& forall|t: IdTriple| #[trigger] triples.contains(t) ==> shape_value(tree, index_key(slot, t)) == Some(Seq::<u8>::empty())
    &&& forall|k: Seq<u8>| (#[trigger] shape_value(tree, k)) is Some ==> keys_triple(slot, triples, k)
}

/// The bytes are the key of a triple.
pub open spec fn keys_triple(slot: int, triples: Set<IdTriple>, k: Seq<u8>) -> bool {
    exists|t: IdTriple| #[trigger] triples.contains(t) && index_key(slot, t) == k
}

/// The trees hold the spaces of ids and the triples.
pub open spec fn disk_ok(d: DiskSpec) -> bool {
    &&& d.trees.len() == TREES
    &&& forall|i: int| 0 <= i < TREES ==> shape_ok(#[trigger] d.trees[i])
    &&& d.triples.finite()
    &&& table(d.trees[ENTITY2ID as int], d.trees[ID2ENTITY as int], 0, d.entities)
    &&& table(d.trees[LITERAL2ID as int], d.trees[ID2LITERAL as int], LITERAL_FIRST_ID as int, d.literals)
    &&& table(d.trees[PREDICATE2ID as int], d.trees[ID2PREDICATE as int], 0, d.predicates)
    &&& index_of(d.trees[SPO as int], SPO as int, d.triples)
    &&& index_of(d.trees[POS as int], POS as int, d.triples)
    &&& index_of(d.trees[OSP as int], OSP as int, d.triples)
}

/// The encodings of two numbers are the same only if the numbers are.
proof fn lemma_be32_injective(x: u32, y: u32)
    requires
        be32_bytes(x) == be32_bytes(y),
    ensures
        x == y,
{
    law_be32_roundtrip(x);
    law_be32_roundtrip(y);
}

/// The parts of a key of three ids.
pub proof fn lemma_key3(a: u32, b: u32, c: u32)
    ensures
        key3_bytes(a, b, c).len() == 12,
        get_be32(key3_bytes(a, b, c), 0) == a,
        get_be32(key3_bytes(a, b, c), 4) == b,
        get_be32(key3_bytes(a, b, c), 8) == c,
{
    let k = key3_bytes(a, b, c);
    assert(k.subrange(0, 4) =~= be32_bytes(a));
    assert(k.subrange(4, 8) =~= be32_bytes(b));
    assert(k.subrange(8, 12) =~= be32_bytes(c));
    lemma_be32(a, k, 0);
    lemma_be32(b, k, 4);
    lemma_be32(c, k, 8);
}

/// Triples with the same key in an index are the same.
pub proof fn lemma_index_key_injective(slot: int, t: IdTriple, u: IdTriple)
    requires
        index_key(slot, t) == index_key(slot, u),
    ensures
        t == u,
{
    if slot == SPO {
        lemma_key3(t.sub, t.pred, t.obj);
        lemma_key3(u.sub, u.pred, u.obj);
    } else if slot == POS {
        lemma_key3(t.pred, t.obj, t.sub);
        lemma_key3(u.pred, u.obj, u.sub);
    } else {
        lemma_key3(t.obj, t.sub, t.pred);
        lemma_key3(u.obj, u.sub, u.pred);
    }
}

/// A new key in a space of ids.
#[verifier::spinoff_prover]
pub proof fn lemma_table_push(to_id: Option<Tree>, to_key: Option<Tree>, first: int, names: Seq<Seq<char>>, name: Seq<char>)
    requires
        table(to_id, to_key, first, names),
        shape_ok(to_id),
        shape_ok(to_key),
        !names.contains(name),
        0 <= first,
        first + names.len() <= u32::MAX,
        shape_fits(to_id, encode_utf8(name), be32_bytes((first + names.len()) as u32)),
        shape_fits(to_key, be32_bytes((first + names.len()) as u32), encode_utf8(name)),
    ensures
        table(shape_after(to_id, encode_utf8(name), be32_bytes((first + names.len()) as u32)), shape_after(to_key, be32_bytes((first + names.len()) as u32), encode_utf8(name)), first, names.push(name)),
{
    let id = (first + names.len()) as u32;
    let a = shape_after(to_id, encode_utf8(name), be32_bytes(id));
    let b = shape_after(to_key, be32_bytes(id), encode_utf8(name));
    lemma_shape_after(to_id, encode_utf8(name), be32_bytes(id));
    lemma_shape_after(to_key, be32_bytes(id), encode_utf8(name));
    let more = names.push(name);
    assert(more.no_duplicates()) by {
        assert forall|i: int, j: int| 0 <= i < j < more.len() implies more[i] != more[j] by {
            if j == names.len() {
                assert(names.contains(names[i]));
            }
        }
    }
    assert forall|i: int| 0 <= i < more.len() implies shape_value(a, encode_utf8(#[trigger] more[i])) == Some(be32_bytes((first + i) as u32)) by {
        if i < names.len() {
            assert(more[i] == names[i]);
            if encode_utf8(names[i]) == encode_utf8(name) {
                lemma_encoding_injective(names[i], name);
                assert(names.contains(names[i]));
            }
        }
    }
    assert forall|i: int| 0 <= i < more.len() implies shape_value(b, be32_bytes((first + i) as u32)) == Some(encode_utf8(#[trigger] more[i])) by {
        if i < names.len() {
            assert(more[i] == names[i]);
            if be32_bytes((first + i) as u32) == be32_bytes(id) {
                lemma_be32_injective((first + i) as u32, id);
            }
        }
    }
    assert forall|k: Seq<u8>| (#[trigger] shape_value(a, k)) is Some implies names_key(more, k) by {
        if k == encode_utf8(name) {
            assert(more[names.len() as int] == name);
        } else {
            assert(shape_value(to_id, k) is Some);
            let i = choose|i: int| 0 <= i < names.len() && encode_utf8(#[trigger] names[i]) == k;
            assert(more[i] == names[i]);
        }
    }
    assert forall|k: Seq<u8>| (#[trigger] shape_value(b, k)) is Some implies is_id_of(first, more.len(), k) by {
        if k == be32_bytes(id) {
            assert(be32_bytes((first + names.len()) as u32) == k);
        } else {
            assert(shape_value(to_key, k) is Some);
            let i = choose|i: int| 0 <= i < names.len() && #[trigger] be32_bytes((first + i) as u32) == k;
            assert(be32_bytes((first + i) as u32) == k);
        }
    }
}

/// A new triple in an index.
pub proof fn lemma_index_push(tree: Option<Tree>, slot: int, triples: Set<IdTriple>, t: IdTriple)
    requires
        index_of(tree, slot, triples),
        shape_ok(tree),
    ensures
        shape_fits(tree, index_key(slot, t), Seq::empty()),
        index_of(shape_after(tree, index_key(slot, t), Seq::empty()), slot, triples.insert(t)),
{
    let k0 = index_key(slot, t);
    lemma_key3(t.sub, t.pred, t.obj);
    lemma_key3(t.pred, t.obj, t.sub);
    lemma_key3(t.obj, t.sub, t.pred);
    lemma_shape_short_fits(tree, k0, Seq::empty());
    lemma_shape_after(tree, k0, Seq::empty());
    let a = shape_after(tree, k0, Seq::empty());
    let more = triples.insert(t);
    assert forall|u: IdTriple| #[trigger] more.contains(u) implies shape_value(a, index_key(slot, u)) == Some(Seq::<u8>::empty()) by {
        if u != t {
            assert(triples.contains(u));
        }
    }
    assert forall|k: Seq<u8>| (#[trigger] shape_value(a, k)) is Some implies keys_triple(slot, more, k) by {
        if k == k0 {
            assert(more.contains(t));
        } else {
            assert(shape_value(tree, k) is Some);
            let u = choose|u: IdTriple| #[trigger] triples.contains(u) && index_key(slot, u) == k;
            assert(more.contains(u));
        }
    }
}

/// Insert into one tree of the forest.
#[verifier::spinoff_prover]
fn put_item(pager: &mut Pager, slot: usize, key: &[u8], val: &[u8]) -> (r: Result<()>)
    requires
        old(pager).wf(),
        forest(old(pager)@),
        slot < TREES,
        shape_fits(trees_of(old(pager)@)[slot as int], key@, val@),
    ensures
        final(pager).wf(),
        r is Ok <==> pages_left(old(pager)@) >= shape_cost(trees_of(old(pager)@)[slot as int], key@, val@),
        r is Ok ==> {
            &&& forest(final(pager)@)
            &&& trees_of(final(pager)@) == with_item(trees_of(old(pager)@), slot as int, key@, val@)
            &&& pages_left(final(pager)@) == pages_left(old(pager)@) - shape_cost(trees_of(old(pager)@)[slot as int], key@, val@)
        },
        r matches Err(e) ==> is_database_error(e, "page count overflow"@),
{
    let ghost p = pager@;
    let tree = BTree::new(slot);
    proof {
        assert(is_tree(p, slot as int));
        lemma_shape_in(p, slot as int);
        assert(insert_fits(p, slot as int, key@, val@) == shape_fits(shape_in(p, slot as int), key@, val@));
        assert(pages_taken(p, slot as int, key@, val@) == shape_cost(shape_in(p, slot as int), key@, val@));
    }
    let r = tree.insert(pager, key, val);
    proof {
        if r is Ok {
            let q = pager@;
            assert forall|i: int| 0 <= i < TREES && i != slot implies #[trigger] is_tree(q, i) && shape_in(q, i) == shape_in(p, i) && slots_apart(q, slot as int, i) by {
                assert(is_tree(p, i));
                assert(slots_apart(p, slot as int, i));
                law_insertion_keeps_other_trees(p, q, slot as int, i);
            }
            assert forall|i: int, j: int| 0 <= i < TREES && 0 <= j < TREES && i != j implies #[trigger] slots_apart(q, i, j) by {
                if i == slot {
                    assert(is_tree(q, j));
                } else if j == slot {
                    assert(is_tree(q, i));
                    assert(slots_apart(q, slot as int, i));
                } else {
                    assert(is_tree(q, i) && is_tree(q, j));
                    assert(slots_apart(p, i, j));
                    assert(is_tree(p, i) && is_tree(p, j));
                    lemma_pages_kept(p, q, slot as int, i);
                    lemma_pages_kept(p, q, slot as int, j);
                }
            }
            assert(q.roots.len() == NROOTS);
            assert(forest(q));
            assert(trees_of(q) =~= with_item(trees_of(p), slot as int, key@, val@)) by {
                assert forall|i: int| 0 <= i < TREES implies trees_of(q)[i] == with_item(trees_of(p), slot as int, key@, val@)[i] by {
                    assert(is_tree(q, i));
                }
            }
        }
    }
    r
}

proof fn lemma_pages_kept(p: PagerSpec, q: PagerSpec, slot: int, other: int)
    requires
        forest(p),
        0 <= slot < TREES,
        0 <= other < TREES,
        slot != other,
        is_tree(q, slot),
        keeps_others(p, q, slot),
        keeps_roots(p, q, slot),
    ensures
        forall|x: u32| page_in(q, other, x) == page_in(p, other, x),
{
    assert(is_tree(p, slot) && is_tree(p, other));
    assert(slots_apart(p, slot, other));
    super::bptree::lemma_other_pages(p, q, slot, other);
}

/// The trees after a removal from one of them.
pub open spec fn without_item(trees: Seq<Option<Tree>>, slot: int, key: Seq<u8>) -> Seq<Option<Tree>> {
    trees.update(slot, shape_without(trees[slot], key))
}

/// Remove from one tree of the forest.
#[verifier::spinoff_prover]
fn drop_item(pager: &mut Pager, slot: usize, key: &[u8])
    requires
        old(pager).wf(),
        forest(old(pager)@),
        slot < TREES,
    ensures
        final(pager).wf(),
        forest(final(pager)@),
        trees_of(final(pager)@) == without_item(trees_of(old(pager)@), slot as int, key@),
        pages_left(final(pager)@) == pages_left(old(pager)@) + shape_freed(trees_of(old(pager)@)[slot as int], key@),
{
    let ghost p = pager@;
    let tree = BTree::new(slot);
    assert(is_tree(p, slot as int));
    let _ = tree.delete(pager, key);
    proof {
        let q = pager@;
        assert forall|i: int| 0 <= i < TREES && i != slot implies #[trigger] is_tree(q, i) && shape_in(q, i) == shape_in(p, i) && slots_apart(q, slot as int, i) by {
            assert(is_tree(p, i));
            assert(slots_apart(p, slot as int, i));
            law_insertion_keeps_other_trees(p, q, slot as int, i);
        }
        assert forall|i: int, j: int| 0 <= i < TREES && 0 <= j < TREES && i != j implies #[trigger] slots_apart(q, i, j) by {
            if i == slot {
                assert(is_tree(q, j));
            } else if j == slot {
                assert(is_tree(q, i));
                assert(slots_apart(q, slot as int, i));
            } else {
                assert(is_tree(q, i) && is_tree(q, j));
                assert(slots_apart(p, i, j));
                assert(is_tree(p, i) && is_tree(p, j));
                lemma_pages_kept(p, q, slot as int, i);
                lemma_pages_kept(p, q, slot as int, j);
            }
        }
        assert(q.roots.len() == NROOTS);
        assert(forest(q));
        assert(trees_of(q) =~= without_item(trees_of(p), slot as int, key@)) by {
            assert forall|i: int| 0 <= i < TREES implies trees_of(q)[i] == without_item(trees_of(p), slot as int, key@)[i] by {
                assert(is_tree(q, i));
            }
        }
    }
}

/// A triple leaves an index.
pub proof fn lemma_index_drop(tree: Option<Tree>, slot: int, triples: Set<IdTriple>, t: IdTriple)
    requires
        index_of(tree, slot, triples),
        shape_ok(tree),
    ensures
        index_of(shape_without(tree, index_key(slot, t)), slot, triples.remove(t)),
{
    let k0 = index_key(slot, t);
    lemma_shape_without(tree, k0);
    let a = shape_without(tree, k0);
    let less = triples.remove(t);
    assert forall|u: IdTriple| #[trigger] less.contains(u) implies shape_value(a, index_key(slot, u)) == Some(Seq::<u8>::empty()) by {
        assert(triples.contains(u));
        if index_key(slot, u) == k0 {
            lemma_index_key_injective(slot, t, u);
        }
    }
    assert forall|k: Seq<u8>| (#[trigger] shape_value(a, k)) is Some implies keys_triple(slot, less, k) by {
        assert(shape_value(tree, k) is Some);
        let u = choose|u: IdTriple| #[trigger] triples.contains(u) && index_key(slot, u) == k;
        assert(less.contains(u));
    }
}

/// The value of a key in one tree of the forest.
fn get_item(pager: &mut Pager, slot: usize, key: &[u8]) -> (r: Option<Vec<u8>>)
    requires
        old(pager).wf(),
        forest(old(pager)@),
        slot < TREES,
    ensures
        final(pager).wf(),
        forest(final(pager)@),
        trees_of(final(pager)@) == trees_of(old(pager)@),
        pages_left(final(pager)@) == pages_left(old(pager)@),
        final(pager)@.roots == old(pager)@.roots,
        match shape_value(trees_of(old(pager)@)[slot as int], key@) {
            Some(v) => r matches Some(b) && b@ == v,
            None => r is None,
        },
{
    let ghost p = pager@;
    let tree = BTree::new(slot);
    proof {
        assert(is_tree(p, slot as int));
        lemma_shape_in(p, slot as int);
        assert(value_in(p, slot as int, key@) == shape_value(shape_in(p, slot as int), key@));
    }
    let r = tree.get(pager, key);
    proof {
        lemma_same_forest(p, pager@);
    }
    match r {
        Ok(v) => v,
        Err(e) => None,
    }
}

/// A pager with the same pages and roots has the same forest.
pub proof fn lemma_same_forest(p: PagerSpec, q: PagerSpec)
    requires
        forest(p),
        same_trees(p, q),
    ensures
        forest(q),
        trees_of(q) == trees_of(p),
{
    assert forall|i: int| 0 <= i < TREES implies #[trigger] is_tree(q, i) && shape_in(q, i) == shape_in(p, i) by {
        assert(is_tree(p, i));
        lemma_same_trees(p, q, i);
    }
    assert forall|i: int, j: int| 0 <= i < TREES && 0 <= j < TREES && i != j implies #[trigger] slots_apart(q, i, j) by {
        assert(slots_apart(p, i, j));
        assert(is_tree(p, i) && is_tree(p, j));
        lemma_same_trees(p, q, i);
        lemma_same_trees(p, q, j);
    }
    assert(trees_of(q) =~= trees_of(p)) by {
        assert forall|i: int| 0 <= i < TREES implies trees_of(q)[i] == trees_of(p)[i] by {
            assert(is_tree(q, i));
        }
    }
}

/// The id of a key in a space: its own, or the next.
pub open spec fn name_id(first: int, names: Seq<Seq<char>>, key: Seq<char>) -> u32 {
    if names.contains(key) {
        (first + names.index_of(key)) as u32
    } else {
        (first + names.len()) as u32
    }
}

/// The trees after a key got an id.
pub open spec fn with_name(trees: Seq<Option<Tree>>, to_id: int, to_key: int, key: Seq<char>, id: u32) -> Seq<Option<Tree>> {
    with_item(with_item(trees, to_id, encode_utf8(key), be32_bytes(id)), to_key, be32_bytes(id), encode_utf8(key))
}

/// How many pages that takes.
pub open spec fn name_cost(trees: Seq<Option<Tree>>, to_id: int, to_key: int, key: Seq<char>, id: u32) -> nat {
    shape_cost(trees[to_id], encode_utf8(key), be32_bytes(id)) + shape_cost(trees[to_key], be32_bytes(id), encode_utf8(key))
}

/// The key and the id fit the nodes of both trees.
pub open spec fn name_fits(trees: Seq<Option<Tree>>, to_id: int, to_key: int, key: Seq<char>, id: u32) -> bool {
    shape_fits(trees[to_id], encode_utf8(key), be32_bytes(id)) && shape_fits(trees[to_key], be32_bytes(id), encode_utf8(key))
}

/// The store after an entity was given an id, if it had none.
pub open spec fn with_entity(d: DiskSpec, key: Seq<char>) -> DiskSpec {
    if d.entities.contains(key) {
        d
    } else {
        let id = d.entities.len() as u32;
        DiskSpec {
            entities: d.entities.push(key),
            trees: with_name(d.trees, ENTITY2ID as int, ID2ENTITY as int, key, id),
            left: d.left - name_cost(d.trees, ENTITY2ID as int, ID2ENTITY as int, key, id),
            ..d
        }
    }
}

/// The store after a literal was given an id, if it had none.
pub open spec fn with_literal(d: DiskSpec, key: Seq<char>) -> DiskSpec {
    if d.literals.contains(key) {
        d
    } else {
        let id = (LITERAL_FIRST_ID + d.literals.len()) as u32;
        DiskSpec {
            literals: d.literals.push(key),
            trees: with_name(d.trees, LITERAL2ID as int, ID2LITERAL as int, key, id),
            left: d.left - name_cost(d.trees, LITERAL2ID as int, ID2LITERAL as int, key, id),
            ..d
        }
    }
}

/// The store after a predicate was given an id, if it had none.
pub open spec fn with_predicate(d: DiskSpec, key: Seq<char>) -> DiskSpec {
    if d.predicates.contains(key) {
        d
    } else {
        let id = d.predicates.len() as u32;
        DiskSpec {
            predicates: d.predicates.push(key),
            trees: with_name(d.trees, PREDICATE2ID as int, ID2PREDICATE as int, key, id),
            left: d.left - name_cost(d.trees, PREDICATE2ID as int, ID2PREDICATE as int, key, id),
            ..d
        }
    }
}

/// The store after a term was given an id.
pub open spec fn with_term(d: DiskSpec, t: TermSpec) -> DiskSpec {
    if t is Literal {
        with_literal(d, term_key(t))
    } else {
        with_entity(d, term_key(t))
    }
}

/// The id of a term.
pub open spec fn term_number(d: DiskSpec, t: TermSpec) -> u32 {
    if t is Literal {
        name_id(LITERAL_FIRST_ID as int, d.literals, term_key(t))
    } else {
        name_id(0, d.entities, term_key(t))
    }
}

/// The key of an entity fits the trees.
pub open spec fn entity_fits(d: DiskSpec, key: Seq<char>) -> bool {
    d.entities.contains(key) || (d.entities.len() < u32::MAX && name_fits(d.trees, ENTITY2ID as int, ID2ENTITY as int, key, d.entities.len() as u32))
}

/// The key of a literal fits the trees.
pub open spec fn literal_fits(d: DiskSpec, key: Seq<char>) -> bool {
    d.literals.contains(key) || literals_full(d) || name_fits(d.trees, LITERAL2ID as int, ID2LITERAL as int, key, (LITERAL_FIRST_ID + d.literals.len()) as u32)
}

/// No id is left for a literal.
pub open spec fn literals_full(d: DiskSpec) -> bool {
    LITERAL_FIRST_ID + d.literals.len() > u32::MAX
}

/// The key of a predicate fits the trees.
pub open spec fn predicate_fits(d: DiskSpec, key: Seq<char>) -> bool {
    d.predicates.contains(key) || (d.predicates.len() < u32::MAX && name_fits(d.trees, PREDICATE2ID as int, ID2PREDICATE as int, key, d.predicates.len() as u32))
}

/// The key of a term fits the trees.
pub open spec fn term_fits(d: DiskSpec, t: TermSpec) -> bool {
    if t is Literal {
        literal_fits(d, term_key(t))
    } else {
        entity_fits(d, term_key(t))
    }
}

/// The trees with a new triple.
pub open spec fn with_keys(trees: Seq<Option<Tree>>, t: IdTriple) -> Seq<Option<Tree>> {
    with_item(
        with_item(with_item(trees, SPO as int, index_key(SPO as int, t), Seq::empty()), POS as int, index_key(POS as int, t), Seq::empty()),
        OSP as int,
        index_key(OSP as int, t),
        Seq::empty(),
    )
}

/// How many pages a new triple takes.
pub open spec fn keys_cost(trees: Seq<Option<Tree>>, t: IdTriple) -> nat {
    shape_cost(trees[SPO as int], index_key(SPO as int, t), Seq::empty()) + shape_cost(trees[POS as int], index_key(POS as int, t), Seq::empty()) + shape_cost(trees[OSP as int], index_key(OSP as int, t), Seq::empty())
}

/// The store after a triple of ids was added.
pub open spec fn with_ids(d: DiskSpec, t: IdTriple) -> DiskSpec {
    if d.triples.contains(t) {
        d
    } else {
        DiskSpec { triples: d.triples.insert(t), trees: with_keys(d.trees, t), left: d.left - keys_cost(d.trees, t), ..d }
    }
}

/// The trees without a triple.
pub open spec fn without_keys(trees: Seq<Option<Tree>>, t: IdTriple) -> Seq<Option<Tree>> {
    without_item(
        without_item(without_item(trees, SPO as int, index_key(SPO as int, t)), POS as int, index_key(POS as int, t)),
        OSP as int,
        index_key(OSP as int, t),
    )
}

/// How many pages the removal of a triple gives back.
pub open spec fn keys_freed(trees: Seq<Option<Tree>>, t: IdTriple) -> nat {
    shape_freed(trees[SPO as int], index_key(SPO as int, t)) + shape_freed(trees[POS as int], index_key(POS as int, t)) + shape_freed(trees[OSP as int], index_key(OSP as int, t))
}

/// The store after a triple of ids was removed.
pub open spec fn without_ids(d: DiskSpec, t: IdTriple) -> DiskSpec {
    if d.triples.contains(t) {
        DiskSpec { triples: d.triples.remove(t), trees: without_keys(d.trees, t), left: d.left + keys_freed(d.trees, t), ..d }
    } else {
        d
    }
}

/// All terms of a triple have ids.
pub open spec fn terms_known(d: DiskSpec, t: Triple) -> bool {
    d.entities.contains(term_key(t.subject@)) && d.predicates.contains(term_key(t.predicate@)) && known(d, t.object@)
}

/// The store holds the triple.
pub open spec fn holds_triple(d: DiskSpec, t: Triple) -> bool {
    terms_known(d, t) && d.triples.contains(ids_of(d, t))
}

/// The store after a triple was removed. Its terms keep their ids.
pub open spec fn without_triple(d: DiskSpec, t: Triple) -> DiskSpec {
    if holds_triple(d, t) {
        without_ids(d, ids_of(d, t))
    } else {
        d
    }
}

/// The store after the terms of a triple were given ids.
pub open spec fn with_terms(d: DiskSpec, t: Triple) -> DiskSpec {
    with_term(with_predicate(with_entity(d, term_key(t.subject@)), term_key(t.predicate@)), t.object@)
}

/// The ids of a triple.
pub open spec fn ids_of(d: DiskSpec, t: Triple) -> IdTriple {
    let d1 = with_entity(d, term_key(t.subject@));
    let d2 = with_predicate(d1, term_key(t.predicate@));
    IdTriple { sub: name_id(0, d.entities, term_key(t.subject@)), pred: name_id(0, d1.predicates, term_key(t.predicate@)), obj: term_number(d2, t.object@) }
}

/// The store after a triple was added.
pub open spec fn with_triple(d: DiskSpec, t: Triple) -> DiskSpec {
    with_ids(with_terms(d, t), ids_of(d, t))
}

/// The terms of a triple fit the trees.
pub open spec fn triple_fits(d: DiskSpec, t: Triple) -> bool {
    let d1 = with_entity(d, term_key(t.subject@));
    let d2 = with_predicate(d1, term_key(t.predicate@));
    entity_fits(d, term_key(t.subject@)) && predicate_fits(d1, term_key(t.predicate@)) && term_fits(d2, t.object@)
}

/// The store after the terms of a triple were given ids, up to the first that does not
/// fit the trees.
pub open spec fn with_fitting_terms(d: DiskSpec, t: Triple) -> DiskSpec {
    let d1 = with_entity(d, term_key(t.subject@));
    let d2 = with_predicate(d1, term_key(t.predicate@));
    if !entity_fits(d, term_key(t.subject@)) {
        d
    } else if !predicate_fits(d1, term_key(t.predicate@)) {
        d1
    } else if !term_fits(d2, t.object@) {
        d2
    } else {
        with_term(d2, t.object@)
    }
}

/// The object of the triple is a new literal, and no id is left for it.
pub open spec fn object_refused(d: DiskSpec, t: Triple) -> bool {
    t.object@ is Literal && !d.literals.contains(term_key(t.object@)) && literals_full(d)
}

proof fn lemma_name_id(first: int, names: Seq<Seq<char>>, key: Seq<char>, i: int)
    requires
        names.no_duplicates(),
        0 <= i < names.len(),
        names[i] == key,
    ensures
        names.contains(key),
        name_id(first, names, key) == (first + i) as u32,
{
    let j = names.index_of(key);
    assert(names.contains(key));
    assert(0 <= j < names.len() && names[j] == key);
}

/// Give a key an id in two trees of the forest.
fn put_name(pager: &mut Pager, to_id: usize, to_key: usize, key: &str, id: u32) -> (r: Result<()>)
    requires
        old(pager).wf(),
        forest(old(pager)@),
        to_id < TREES,
        to_key < TREES,
        to_id != to_key,
        name_fits(trees_of(old(pager)@), to_id as int, to_key as int, key@, id),
    ensures
        final(pager).wf(),
        r is Ok <==> pages_left(old(pager)@) >= name_cost(trees_of(old(pager)@), to_id as int, to_key as int, key@, id),
        r is Ok ==> {
            &&& forest(final(pager)@)
            &&& trees_of(final(pager)@) == with_name(trees_of(old(pager)@), to_id as int, to_key as int, key@, id)
            &&& pages_left(final(pager)@) == pages_left(old(pager)@) - name_cost(trees_of(old(pager)@), to_id as int, to_key as int, key@, id)
        },
        r matches Err(e) ==> is_database_error(e, "page count overflow"@),
{
    let num: Vec<u8> = super::bptree::be32(id);
    let text: Vec<u8> = crate::text::bytes_of(key);
    match put_item(pager, to_id, &text, &num) {
        Err(e) => Err(e),
        Ok(u) => put_item(pager, to_key, &num, &text),
    }
}

/// Whether an entry fits one tree of the forest.
fn item_has_room(pager: &mut Pager, slot: usize, key: &[u8], val: &[u8]) -> (b: bool)
    requires
        old(pager).wf(),
        forest(old(pager)@),
        slot < TREES,
    ensures
        final(pager).wf(),
        forest(final(pager)@),
        trees_of(final(pager)@) == trees_of(old(pager)@),
        pages_left(final(pager)@) == pages_left(old(pager)@),
        final(pager)@.roots == old(pager)@.roots,
        b == shape_fits(trees_of(old(pager)@)[slot as int], key@, val@),
{
    let ghost p = pager@;
    let tree = BTree::new(slot);
    proof {
        assert(is_tree(p, slot as int));
        lemma_shape_in(p, slot as int);
        assert(insert_fits(p, slot as int, key@, val@) == shape_fits(shape_in(p, slot as int), key@, val@));
    }
    let b: bool = tree.has_room(pager, key, val);
    proof {
        lemma_same_forest(p, pager@);
    }
    b
}

/// Whether a key and its id fit two trees of the forest.
fn name_has_room(pager: &mut Pager, to_id: usize, to_key: usize, key: &str, id: u32) -> (b: bool)
    requires
        old(pager).wf(),
        forest(old(pager)@),
        to_id < TREES,
        to_key < TREES,
    ensures
        final(pager).wf(),
        forest(final(pager)@),
        trees_of(final(pager)@) == trees_of(old(pager)@),
        pages_left(final(pager)@) == pages_left(old(pager)@),
        final(pager)@.roots == old(pager)@.roots,
        b == name_fits(trees_of(old(pager)@), to_id as int, to_key as int, key@, id),
{
    let num: Vec<u8> = super::bptree::be32(id);
    let text: Vec<u8> = crate::text::bytes_of(key);
    item_has_room(pager, to_id, &text, &num) && item_has_room(pager, to_key, &num, &text)
}

/// The id of a key in a space.
fn find_name(pager: &mut Pager, to_id: usize, key: &str, Ghost(to_key): Ghost<Option<Tree>>, Ghost(first): Ghost<int>, Ghost(names): Ghost<Seq<Seq<char>>>) -> (r: Option<u32>)
    requires
        old(pager).wf(),
        forest(old(pager)@),
        to_id < TREES,
        0 <= first,
        table(trees_of(old(pager)@)[to_id as int], to_key, first, names),
    ensures
        final(pager).wf(),
        forest(final(pager)@),
        trees_of(final(pager)@) == trees_of(old(pager)@),
        pages_left(final(pager)@) == pages_left(old(pager)@),
        final(pager)@.roots == old(pager)@.roots,
        r == (if names.contains(key@) { Some(name_id(first, names, key@)) } else { None::<u32> }),
{
    let text: Vec<u8> = crate::text::bytes_of(key);
    let ghost tree = trees_of(pager@)[to_id as int];
    match get_item(pager, to_id, &text) {
        Some(v) => {
            proof {
                assert(shape_value(tree, encode_utf8(key@)) is Some);
                let i = choose|i: int| 0 <= i < names.len() && encode_utf8(#[trigger] names[i]) == encode_utf8(key@);
                lemma_encoding_injective(names[i], key@);
                lemma_name_id(first, names, key@, i);
                law_be32_roundtrip((first + i) as u32);
            }
            Some(read_be32(&v, 0))
        },
        None => {
            proof {
                if names.contains(key@) {
                    let i = choose|i: int| 0 <= i < names.len() && names[i] == key@;
                    assert(shape_value(tree, encode_utf8(names[i])) is Some);
                }
            }
            None
        },
    }
}

/// A triple store on the pages of one file.
pub struct DiskStore {
    pager: Pager,
    triple_count: u64,
    entity_count: u32,
    literal_count: u32,
    pred_count: u32,
    names: Ghost<(Seq<Seq<char>>, Seq<Seq<char>>, Seq<Seq<char>>)>,
    triples: Ghost<Set<IdTriple>>,
}

impl View for DiskStore {
    type V = DiskSpec;

    closed spec fn view(&self) -> DiskSpec {
        DiskSpec {
            entities: self.names@.0,
            literals: self.names@.1,
            predicates: self.names@.2,
            triples: self.triples@,
            trees: trees_of(self.pager@),
            left: pages_left(self.pager@),
        }
    }
}

impl DiskStore {
    /// The trees hold what the store holds, and the counts are right.
    pub closed spec fn wf(&self) -> bool {
        &&& self.pager.wf()
        &&& forest(self.pager@)
        &&& disk_ok(self@)
        &&& self.triple_count == self@.triples.len()
        &&& self.entity_count == self@.entities.len()
        &&& self.literal_count == self@.literals.len()
        &&& self.pred_count == self@.predicates.len()
    }

    /// What holds of every store.
    pub proof fn lemma_wf(&self)
        requires
            self.wf(),
        ensures
            disk_ok(self@),
            self@.entities.len() <= u32::MAX,
            self@.literals.len() <= u32::MAX,
            self@.predicates.len() <= u32::MAX,
            self@.triples.len() <= u64::MAX,
    {
    }

    /// The number of pages that can be allocated is not negative.
    pub proof fn lemma_left(&self)
        requires
            self.wf(),
        ensures
            self@.left >= 0,
    {
        super::heap::lemma_left(self.pager@);
    }

    #[verifier::spinoff_prover]
    fn intern_entity(&mut self, key: &str) -> (r: Result<EntityLiteralId>)
        requires
            old(self).wf(),
            entity_fits(old(self)@, key@),
        ensures
            r is Ok <==> with_entity(old(self)@, key@).left >= 0,
            r matches Ok(id) ==> final(self).wf() && final(self)@ == with_entity(old(self)@, key@) && id == name_id(0, old(self)@.entities, key@),
            r matches Err(e) ==> is_database_error(e, "page count overflow"@),
    {
        let ghost d = self@;
        let ghost first: int = 0;
        proof {
            super::heap::lemma_left(self.pager@);
        }
        match find_name(&mut self.pager, ENTITY2ID, key, Ghost(d.trees[ID2ENTITY as int]), Ghost(first), Ghost(d.entities)) {
            Some(id) => {
                assert(self@ =~= d);
                Ok(id)
            },
            None => {
                let id: u32 = self.entity_count;
                match put_name(&mut self.pager, ENTITY2ID, ID2ENTITY, key, id) {
                    Err(e) => Err(e),
                    Ok(u) => {
                        proof {
                            lemma_table_push(d.trees[ENTITY2ID as int], d.trees[ID2ENTITY as int], 0, d.entities, key@);
                            lemma_shape_after(d.trees[ENTITY2ID as int], encode_utf8(key@), be32_bytes(id));
                            lemma_shape_after(d.trees[ID2ENTITY as int], be32_bytes(id), encode_utf8(key@));
                        }
                        self.entity_count = id + 1;
                        self.names = Ghost((d.entities.push(key@), d.literals, d.predicates));
                        assert(self@ =~= with_entity(d, key@));
                        assert(disk_ok(self@));
                        Ok(id)
                    },
                }
            },
        }
    }

    #[verifier::spinoff_prover]
    fn intern_literal(&mut self, key: &str) -> (r: Result<EntityLiteralId>)
        requires
            old(self).wf(),
            literal_fits(old(self)@, key@),
        ensures
            !old(self)@.literals.contains(key@) && literals_full(old(self)@) ==> (r matches Err(e) && is_database_error(e, "literal id space exhausted"@)) && final(self).wf() && final(self)@ == old(self)@,
            old(self)@.literals.contains(key@) || !literals_full(old(self)@) ==> {
                &&& r is Ok <==> with_literal(old(self)@, key@).left >= 0
                &&& r matches Ok(id) ==> final(self).wf() && final(self)@ == with_literal(old(self)@, key@) && id == name_id(LITERAL_FIRST_ID as int, old(self)@.literals, key@)
                &&& r matches Err(e) ==> is_database_error(e, "page count overflow"@)
            },
    {
        let ghost d = self@;
        let ghost first: int = LITERAL_FIRST_ID as int;
        proof {
            super::heap::lemma_left(self.pager@);
        }
        match find_name(&mut self.pager, LITERAL2ID, key, Ghost(d.trees[ID2LITERAL as int]), Ghost(first), Ghost(d.literals)) {
            Some(id) => {
                assert(self@ =~= d);
                Ok(id)
            },
            None => {
                if self.literal_count > u32::MAX - LITERAL_FIRST_ID {
                    assert(self@ =~= d);
                    return Err(GStoreError::Database("literal id space exhausted".to_owned()));
                }
                let id: u32 = LITERAL_FIRST_ID + self.literal_count;
                match put_name(&mut self.pager, LITERAL2ID, ID2LITERAL, key, id) {
                    Err(e) => Err(e),
                    Ok(u) => {
                        proof {
                            lemma_table_push(d.trees[LITERAL2ID as int], d.trees[ID2LITERAL as int], first, d.literals, key@);
                            lemma_shape_after(d.trees[LITERAL2ID as int], encode_utf8(key@), be32_bytes(id));
                            lemma_shape_after(d.trees[ID2LITERAL as int], be32_bytes(id), encode_utf8(key@));
                        }
                        self.literal_count = self.literal_count + 1;
                        self.names = Ghost((d.entities, d.literals.push(key@), d.predicates));
                        assert(self@ =~= with_literal(d, key@));
                        assert(disk_ok(self@));
                        Ok(id)
                    },
                }
            },
        }
    }

    #[verifier::spinoff_prover]
    fn intern_predicate(&mut self, key: &str) -> (r: Result<PredId>)
        requires
            old(self).wf(),
            predicate_fits(old(self)@, key@),
        ensures
            r is Ok <==> with_predicate(old(self)@, key@).left >= 0,
            r matches Ok(id) ==> final(self).wf() && final(self)@ == with_predicate(old(self)@, key@) && id == name_id(0, old(self)@.predicates, key@),
            r matches Err(e) ==> is_database_error(e, "page count overflow"@),
    {
        let ghost d = self@;
        let ghost first: int = 0;
        proof {
            super::heap::lemma_left(self.pager@);
        }
        match find_name(&mut self.pager, PREDICATE2ID, key, Ghost(d.trees[ID2PREDICATE as int]), Ghost(first), Ghost(d.predicates)) {
            Some(id) => {
                assert(self@ =~= d);
                Ok(id)
            },
            None => {
                let id: u32 = self.pred_count;
                match put_name(&mut self.pager, PREDICATE2ID, ID2PREDICATE, key, id) {
                    Err(e) => Err(e),
                    Ok(u) => {
                        proof {
                            lemma_table_push(d.trees[PREDICATE2ID as int], d.trees[ID2PREDICATE as int], 0, d.predicates, key@);
                            lemma_shape_after(d.trees[PREDICATE2ID as int], encode_utf8(key@), be32_bytes(id));
                            lemma_shape_after(d.trees[ID2PREDICATE as int], be32_bytes(id), encode_utf8(key@));
                        }
                        self.pred_count = id + 1;
                        self.names = Ghost((d.entities, d.literals, d.predicates.push(key@)));
                        assert(self@ =~= with_predicate(d, key@));
                        assert(disk_ok(self@));
                        Ok(id)
                    },
                }
            },
        }
    }
}

/// The key of three ids.
pub fn key3(a: u32, b: u32, c: u32) -> (r: Vec<u8>)
    ensures
        r@ == key3_bytes(a, b, c),
{
    let mut r: Vec<u8> = Vec::new();
    push_be32(&mut r, a);
    push_be32(&mut r, b);
    push_be32(&mut r, c);
    assert(r@ =~= key3_bytes(a, b, c));
    r
}

/// The key of two ids.
pub fn cat(a: u32, b: u32) -> (r: Vec<u8>)
    ensures
        r@ == be32_bytes(a) + be32_bytes(b),
{
    let mut r: Vec<u8> = Vec::new();
    push_be32(&mut r, a);
    push_be32(&mut r, b);
    assert(r@ =~= be32_bytes(a) + be32_bytes(b));
    r
}

/// An index tells which triples are in the store.
proof fn lemma_index_tells(d: DiskSpec, slot: int, t: IdTriple)
    requires
        disk_ok(d),
        slot == SPO || slot == POS || slot == OSP,
    ensures
        d.triples.contains(t) <==> shape_value(d.trees[slot], index_key(slot, t)) is Some,
{
    let k = index_key(slot, t);
    if shape_value(d.trees[slot], k) is Some {
        let u = choose|u: IdTriple| #[trigger] d.triples.contains(u) && index_key(slot, u) == k;
        lemma_index_key_injective(slot, t, u);
    }
}

/// What a pager holds is a store.
pub open spec fn is_store(p: PagerSpec, d: DiskSpec) -> bool {
    &&& forest(p)
    &&& trees_of(p) == d.trees
    &&& pages_left(p) == d.left
    &&& disk_ok(d)
    &&& p.roots[ROOT_TRIPLE_COUNT as int] == d.triples.len()
    &&& p.roots[ROOT_ENTITY_COUNT as int] == d.entities.len()
    &&& p.roots[ROOT_LITERAL_COUNT as int] == d.literals.len()
    &&& p.roots[ROOT_PRED_COUNT as int] == d.predicates.len()
    &&& d.entities.len() <= u32::MAX
    &&& d.literals.len() <= u32::MAX
    &&& d.predicates.len() <= u32::MAX
}

/// A pager holds a store.
pub open spec fn holds_store(p: PagerSpec) -> bool {
    exists|d: DiskSpec| is_store(p, d)
}

/// A store without anything.
pub open spec fn empty_store(left: int) -> DiskSpec {
    DiskSpec { entities: Seq::empty(), literals: Seq::empty(), predicates: Seq::empty(), triples: Set::empty(), trees: Seq::new(TREES as nat, |i: int| None), left }
}

/// A new file holds an empty store.
pub proof fn law_new_file_is_empty_store(capacity: nat, commits: Seq<Seq<super::wal::PageSpec>>)
    requires
        capacity >= 8,
    ensures
        is_store(new_pager(capacity, commits), empty_store(pages_left(new_pager(capacity, commits)))),
{
    let p = new_pager(capacity, commits);
    law_new_file_is_sound(capacity, commits);
    assert forall|i: int| 0 <= i < TREES implies #[trigger] is_tree(p, i) && root_of(p, i) == 0 by {
        assert(p.roots[i] == 0);
    }
    assert forall|i: int, j: int| 0 <= i < TREES && 0 <= j < TREES && i != j implies #[trigger] slots_apart(p, i, j) by {
        assert(is_tree(p, i));
    }
    let d = empty_store(pages_left(p));
    assert(trees_of(p) =~= d.trees) by {
        assert forall|i: int| 0 <= i < TREES implies trees_of(p)[i] == d.trees[i] by {
            assert(is_tree(p, i));
        }
    }
    assert(p.roots[ROOT_TRIPLE_COUNT as int] == 0 && p.roots[ROOT_ENTITY_COUNT as int] == 0 && p.roots[ROOT_LITERAL_COUNT as int] == 0 && p.roots[ROOT_PRED_COUNT as int] == 0);
}

/// A pager holds one store at most.
pub proof fn law_store_is_determined(p: PagerSpec, a: DiskSpec, b: DiskSpec)
    requires
        is_store(p, a),
        is_store(p, b),
    ensures
        a == b,
{
    lemma_table_unique(a.trees[ENTITY2ID as int], a.trees[ID2ENTITY as int], 0, a.entities, b.entities);
    lemma_table_unique(a.trees[LITERAL2ID as int], a.trees[ID2LITERAL as int], LITERAL_FIRST_ID as int, a.literals, b.literals);
    lemma_table_unique(a.trees[PREDICATE2ID as int], a.trees[ID2PREDICATE as int], 0, a.predicates, b.predicates);
    assert(a.triples =~= b.triples) by {
        assert forall|t: IdTriple| a.triples.contains(t) <==> b.triples.contains(t) by {
            lemma_index_tells(a, SPO as int, t);
            lemma_index_tells(b, SPO as int, t);
        }
    }
    assert(a =~= b);
}

proof fn lemma_table_unique(to_id: Option<Tree>, to_key: Option<Tree>, first: int, a: Seq<Seq<char>>, b: Seq<Seq<char>>)
    requires
        table(to_id, to_key, first, a),
        table(to_id, to_key, first, b),
        a.len() == b.len(),
    ensures
        a == b,
{
    assert forall|i: int| 0 <= i < a.len() implies a[i] == b[i] by {
        assert(shape_value(to_key, be32_bytes((first + i) as u32)) == Some(encode_utf8(a[i])));
        assert(shape_value(to_key, be32_bytes((first + i) as u32)) == Some(encode_utf8(b[i])));
        lemma_encoding_injective(a[i], b[i]);
    }
    assert(a =~= b);
}

/// What was committed is the store that the file opens with.
pub proof fn law_store_survives_reopening(p: PagerSpec, d: DiskSpec, capacity: nat)
    requires
        is_store(p, d),
        capacity >= 8,
    ensures
        is_store(opened(committed(p).file, capacity, Seq::empty()), d),
{
    let q = opened(committed(p).file, capacity, Seq::empty());
    super::heap::law_heap_survives_reopening(p, capacity);
    lemma_same_forest(p, q);
}

/// Counts beside the trees do not matter for them.
proof fn lemma_counts_apart(p: PagerSpec, q: PagerSpec, slot: int, v: u64)
    requires
        forest(p),
        sound(q),
        heap(q) == heap(p),
        TREES <= slot < NROOTS,
        q.roots == p.roots.update(slot, v),
    ensures
        forest(q),
        trees_of(q) == trees_of(p),
{
    assert forall|i: int| 0 <= i < TREES implies #[trigger] is_tree(q, i) && shape_in(q, i) == shape_in(p, i) && (forall|x: u32| page_in(q, i, x) == page_in(p, i, x)) by {
        assert(is_tree(p, i));
        lemma_same_slot(p, q, i);
    }
    assert forall|i: int, j: int| 0 <= i < TREES && 0 <= j < TREES && i != j implies #[trigger] slots_apart(q, i, j) by {
        assert(slots_apart(p, i, j));
        assert(is_tree(q, i) && is_tree(q, j));
    }
    assert(trees_of(q) =~= trees_of(p)) by {
        assert forall|i: int| 0 <= i < TREES implies trees_of(q)[i] == trees_of(p)[i] by {
            assert(is_tree(q, i));
        }
    }
}

proof fn lemma_same_slot(p: PagerSpec, q: PagerSpec, i: int)
    requires
        is_tree(p, i),
        sound(q),
        heap(q) == heap(p),
        q.roots.len() == NROOTS,
        q.roots[i] == p.roots[i],
    ensures
        is_tree(q, i),
        shape_in(q, i) == shape_in(p, i),
        forall|x: u32| page_in(q, i, x) == page_in(p, i, x),
{
}

/// The pager that a file and its log open as, or none if it is no such file.
pub open spec fn pager_for(file: Seq<u8>, wal: Option<Seq<u8>>, capacity: nat) -> Option<PagerSpec> {
    let f = super::wal::recovered(super::pager::file_of(file), wal);
    let cap = super::pager::at_least_eight(capacity);
    if file.len() == 0 && f.pages == 0 {
        Some(new_pager(cap, super::pager::replayed(wal)))
    } else if f.pages == 0 || super::wal::file_page(f, 0)->0.subrange(0, 8) != super::pager::header_magic() {
        None
    } else {
        Some(opened(f, cap, super::pager::replayed(wal)))
    }
}

/// The bytes of a log, if there is one.
pub open spec fn log_bytes(wal: Option<&[u8]>) -> Option<Seq<u8>> {
    match wal {
        Some(w) => Some(w@),
        None => None,
    }
}

impl DiskStore {
    /// The pager of the store.
    pub closed spec fn pages(&self) -> PagerSpec {
        self.pager@
    }

    /// Open a store from what its file and the log beside it hold. An empty file
    /// becomes an empty store. Of any other file the header alone is looked at: the
    /// result is a store if the pages behind the header are those of one.
    pub fn open(file: &[u8], wal: Option<&[u8]>, cache_pages: usize) -> (r: Result<DiskStore>)
        ensures
            match pager_for(file@, log_bytes(wal), cache_pages as nat) {
                Some(p) => {
                    &&& r matches Ok(s) && s.pages() == p
                    &&& p == new_pager(p.capacity, super::pager::replayed(log_bytes(wal))) || holds_store(p) ==> (r matches Ok(s) && s.wf() && is_store(p, s@))
                },
                None => r matches Err(e) && (super::pager::is_eof(e) || is_database_error(e, "not a gStore KV file"@)),
            },
    {
        match Pager::open(file, wal, cache_pages) {
            Err(e) => Err(e),
            Ok(pager) => {
                let ghost p = pager@;
                proof {
                    if p == new_pager(p.capacity, super::pager::replayed(log_bytes(wal))) {
                        law_new_file_is_empty_store(p.capacity, super::pager::replayed(log_bytes(wal)));
                    }
                }
                let ghost d: DiskSpec = choose|d: DiskSpec| is_store(p, d);
                let triple_count: u64 = pager.root(ROOT_TRIPLE_COUNT);
                let entity_count: u32 = pager.root(ROOT_ENTITY_COUNT) as u32;
                let literal_count: u32 = pager.root(ROOT_LITERAL_COUNT) as u32;
                let pred_count: u32 = pager.root(ROOT_PRED_COUNT) as u32;
                let s = DiskStore { pager, triple_count, entity_count, literal_count, pred_count, names: Ghost((d.entities, d.literals, d.predicates)), triples: Ghost(d.triples) };
                proof {
                    if holds_store(p) {
                        assert(is_store(p, d));
                        assert(s@ =~= d);
                    }
                }
                Ok(s)
            },
        }
    }

    /// Add a triple of ids. Gives whether it is new.
    #[verifier::spinoff_prover]
    #[verifier::rlimit(30)]
    fn insert_ids(&mut self, t: IdTriple) -> (r: Result<bool>)
        requires
            old(self).wf(),
            old(self)@.triples.len() < u64::MAX,
        ensures
            r is Ok <==> with_ids(old(self)@, t).left >= 0,
            r matches Ok(b) ==> final(self).wf() && final(self)@ == with_ids(old(self)@, t) && b == !old(self)@.triples.contains(t),
            r matches Err(e) ==> is_database_error(e, "page count overflow"@),
    {
        let ghost d = self@;
        proof {
            super::heap::lemma_left(self.pager@);
            lemma_index_tells(d, SPO as int, t);
            lemma_index_push(d.trees[SPO as int], SPO as int, d.triples, t);
            lemma_index_push(d.trees[POS as int], POS as int, d.triples, t);
            lemma_index_push(d.trees[OSP as int], OSP as int, d.triples, t);
            lemma_shape_after(d.trees[SPO as int], index_key(SPO as int, t), Seq::empty());
            lemma_shape_after(d.trees[POS as int], index_key(POS as int, t), Seq::empty());
            lemma_shape_after(d.trees[OSP as int], index_key(OSP as int, t), Seq::empty());
        }
        let none: Vec<u8> = Vec::new();
        assert(none@ =~= Seq::<u8>::empty());
        let spo: Vec<u8> = key3(t.sub, t.pred, t.obj);
        match get_item(&mut self.pager, SPO, &spo) {
            Some(v) => {
                assert(self@ =~= d);
                return Ok(false);
            },
            None => {},
        }
        match put_item(&mut self.pager, SPO, &spo, &none) {
            Err(e) => {
                return Err(e);
            },
            Ok(u) => {},
        }
        match put_item(&mut self.pager, POS, &key3(t.pred, t.obj, t.sub), &none) {
            Err(e) => {
                return Err(e);
            },
            Ok(u) => {},
        }
        match put_item(&mut self.pager, OSP, &key3(t.obj, t.sub, t.pred), &none) {
            Err(e) => {
                return Err(e);
            },
            Ok(u) => {},
        }
        self.triple_count = self.triple_count + 1;
        self.triples = Ghost(d.triples.insert(t));
        assert(self@ =~= with_ids(d, t));
        Ok(true)
    }

    /// Add a triple, with ids for its terms. Gives whether it is new. If it fails for
    /// want of pages, the store is no longer to be used.
    #[verifier::spinoff_prover]
    pub fn insert_triple(&mut self, t: &Triple) -> (r: Result<bool>)
        requires
            old(self).wf(),
            triple_fits(old(self)@, *t),
            old(self)@.triples.len() < u64::MAX,
        ensures
            object_refused(old(self)@, *t) ==> r is Err,
            !object_refused(old(self)@, *t) ==> (r is Ok <==> with_triple(old(self)@, *t).left >= 0),
            r matches Ok(b) ==> {
                &&& final(self).wf()
                &&& final(self)@ == with_triple(old(self)@, *t)
                &&& b == !old(self)@.triples.contains(ids_of(old(self)@, *t))
            },
            r matches Err(e) ==> if object_refused(old(self)@, *t) && with_predicate(with_entity(old(self)@, term_key(t.subject@)), term_key(t.predicate@)).left >= 0 {
                is_database_error(e, "literal id space exhausted"@)
            } else {
                is_database_error(e, "page count overflow"@)
            },
    {
        let ghost d = self@;
        let sub: EntityLiteralId = match self.intern_entity(&t.subject.dict_key()) {
            Ok(id) => id,
            Err(e) => {
                return Err(e);
            },
        };
        let pred: PredId = match self.intern_predicate(&t.predicate.dict_key()) {
            Ok(id) => id,
            Err(e) => {
                return Err(e);
            },
        };
        let key: String = t.object.dict_key();
        let interned = if t.object.is_literal() {
            self.intern_literal(&key)
        } else {
            self.intern_entity(&key)
        };
        let obj: EntityLiteralId = match interned {
            Ok(id) => id,
            Err(e) => {
                return Err(e);
            },
        };
        self.insert_ids(IdTriple::new(sub, pred, obj))
    }

    /// Whether an entity fits the trees.
    fn entity_has_room(&mut self, key: &str) -> (b: bool)
        requires
            old(self).wf(),
        ensures
            final(self).wf(),
            final(self)@ == old(self)@,
            b == entity_fits(old(self)@, key@),
    {
        let ghost d = self@;
        let ghost first: int = 0;
        let b: bool = match find_name(&mut self.pager, ENTITY2ID, key, Ghost(d.trees[ID2ENTITY as int]), Ghost(first), Ghost(d.entities)) {
            Some(_) => true,
            None => self.entity_count < u32::MAX && name_has_room(&mut self.pager, ENTITY2ID, ID2ENTITY, key, self.entity_count),
        };
        assert(self@ =~= d);
        b
    }

    /// Whether a literal fits the trees, or there is no id left for it.
    fn literal_has_room(&mut self, key: &str) -> (b: bool)
        requires
            old(self).wf(),
        ensures
            final(self).wf(),
            final(self)@ == old(self)@,
            b == literal_fits(old(self)@, key@),
    {
        let ghost d = self@;
        let ghost first: int = LITERAL_FIRST_ID as int;
        let b: bool = match find_name(&mut self.pager, LITERAL2ID, key, Ghost(d.trees[ID2LITERAL as int]), Ghost(first), Ghost(d.literals)) {
            Some(_) => true,
            None => self.literal_count > u32::MAX - LITERAL_FIRST_ID || name_has_room(&mut self.pager, LITERAL2ID, ID2LITERAL, key, LITERAL_FIRST_ID + self.literal_count),
        };
        assert(self@ =~= d);
        b
    }

    /// Whether a predicate fits the trees.
    fn predicate_has_room(&mut self, key: &str) -> (b: bool)
        requires
            old(self).wf(),
        ensures
            final(self).wf(),
            final(self)@ == old(self)@,
            b == predicate_fits(old(self)@, key@),
    {
        let ghost d = self@;
        let ghost first: int = 0;
        let b: bool = match find_name(&mut self.pager, PREDICATE2ID, key, Ghost(d.trees[ID2PREDICATE as int]), Ghost(first), Ghost(d.predicates)) {
            Some(_) => true,
            None => self.pred_count < u32::MAX && name_has_room(&mut self.pager, PREDICATE2ID, ID2PREDICATE, key, self.pred_count),
        };
        assert(self@ =~= d);
        b
    }

    /// Add a triple, with ids for its terms, if the trees have room for them. Gives
    /// whether the triple is new, or nothing once a term does not fit; the terms before
    /// it keep their ids.
    #[verifier::spinoff_prover]
    pub fn try_insert_triple(&mut self, t: &Triple) -> (r: Result<Option<bool>>)
        requires
            old(self).wf(),
            old(self)@.triples.len() < u64::MAX,
        ensures
            triple_fits(old(self)@, *t) && object_refused(old(self)@, *t) ==> r is Err,
            triple_fits(old(self)@, *t) && !object_refused(old(self)@, *t) ==> (r is Ok <==> with_triple(old(self)@, *t).left >= 0),
            !triple_fits(old(self)@, *t) ==> (r is Ok <==> with_fitting_terms(old(self)@, *t).left >= 0),
            r matches Ok(Some(b)) ==> {
                &&& triple_fits(old(self)@, *t)
                &&& final(self).wf()
                &&& final(self)@ == with_triple(old(self)@, *t)
                &&& b == !old(self)@.triples.contains(ids_of(old(self)@, *t))
            },
            r matches Ok(None) ==> !triple_fits(old(self)@, *t) && final(self).wf() && final(self)@ == with_fitting_terms(old(self)@, *t),
            r matches Err(e) ==> if triple_fits(old(self)@, *t) && object_refused(old(self)@, *t) && with_predicate(with_entity(old(self)@, term_key(t.subject@)), term_key(t.predicate@)).left >= 0 {
                is_database_error(e, "literal id space exhausted"@)
            } else {
                is_database_error(e, "page count overflow"@)
            },
    {
        let ghost d = self@;
        proof {
            self.lemma_left();
        }
        let subject: String = t.subject.dict_key();
        if !self.entity_has_room(&subject) {
            return Ok(None);
        }
        let sub: EntityLiteralId = match self.intern_entity(&subject) {
            Ok(id) => id,
            Err(e) => {
                return Err(e);
            },
        };
        let predicate: String = t.predicate.dict_key();
        if !self.predicate_has_room(&predicate) {
            return Ok(None);
        }
        let pred: PredId = match self.intern_predicate(&predicate) {
            Ok(id) => id,
            Err(e) => {
                return Err(e);
            },
        };
        let object: String = t.object.dict_key();
        let literal: bool = t.object.is_literal();
        let fits: bool = if literal {
            self.literal_has_room(&object)
        } else {
            self.entity_has_room(&object)
        };
        if !fits {
            return Ok(None);
        }
        let interned = if literal {
            self.intern_literal(&object)
        } else {
            self.intern_entity(&object)
        };
        let obj: EntityLiteralId = match interned {
            Ok(id) => id,
            Err(e) => {
                return Err(e);
            },
        };
        match self.insert_ids(IdTriple::new(sub, pred, obj)) {
            Ok(b) => Ok(Some(b)),
            Err(e) => Err(e),
        }
    }

    /// Remove a triple of ids. Gives whether it was there.
    #[verifier::spinoff_prover]
    #[verifier::rlimit(30)]
    fn delete_ids(&mut self, t: IdTriple) -> (r: bool)
        requires
            old(self).wf(),
        ensures
            final(self).wf(),
            final(self)@ == without_ids(old(self)@, t),
            r == old(self)@.triples.contains(t),
    {
        let ghost d = self@;
        proof {
            lemma_index_tells(d, SPO as int, t);
            lemma_index_drop(d.trees[SPO as int], SPO as int, d.triples, t);
            lemma_index_drop(d.trees[POS as int], POS as int, d.triples, t);
            lemma_index_drop(d.trees[OSP as int], OSP as int, d.triples, t);
            lemma_shape_without(d.trees[SPO as int], index_key(SPO as int, t));
            lemma_shape_without(d.trees[POS as int], index_key(POS as int, t));
            lemma_shape_without(d.trees[OSP as int], index_key(OSP as int, t));
        }
        let spo: Vec<u8> = key3(t.sub, t.pred, t.obj);
        match get_item(&mut self.pager, SPO, &spo) {
            None => {
                assert(self@ =~= d);
                return false;
            },
            Some(v) => {},
        }
        drop_item(&mut self.pager, SPO, &spo);
        drop_item(&mut self.pager, POS, &key3(t.pred, t.obj, t.sub));
        drop_item(&mut self.pager, OSP, &key3(t.obj, t.sub, t.pred));
        proof {
            assert(d.triples.contains(t));
            assert(d.triples.len() > 0) by {
                if d.triples.len() == 0 {
                    assert(d.triples =~= Set::empty());
                }
            }
        }
        self.triple_count = self.triple_count - 1;
        self.triples = Ghost(d.triples.remove(t));
        assert(self@ =~= without_ids(d, t));
        true
    }

    /// Remove a triple. Gives whether it was there. Its terms keep their ids.
    #[verifier::spinoff_prover]
    pub fn delete_triple(&mut self, t: &Triple) -> (r: Result<bool>)
        requires
            old(self).wf(),
        ensures
            r == Ok::<bool, GStoreError>(holds_triple(old(self)@, *t)),
            final(self).wf(),
            final(self)@ == without_triple(old(self)@, *t),
    {
        let ghost d = self@;
        let key: String = t.subject.dict_key();
        let sub: EntityLiteralId = match find_name(&mut self.pager, ENTITY2ID, &key, Ghost(d.trees[ID2ENTITY as int]), Ghost(0int), Ghost(d.entities)) {
            Some(id) => id,
            None => {
                assert(self@ =~= d);
                return Ok(false);
            },
        };
        assert(self@ =~= d);
        let key: String = t.predicate.dict_key();
        let pred: PredId = match self.predicate_id(&key) {
            Some(id) => id,
            None => {
                return Ok(false);
            },
        };
        let obj: EntityLiteralId = match self.term_id(&t.object) {
            Some(id) => id,
            None => {
                return Ok(false);
            },
        };
        proof {
            assert(with_entity(d, term_key(t.subject@)) == d);
            assert(with_predicate(d, term_key(t.predicate@)) == d);
        }
        Ok(self.delete_ids(IdTriple::new(sub, pred, obj)))
    }

    /// Write the counts and commit.
    pub fn flush(&mut self)
        requires
            old(self).wf(),
        ensures
            final(self).wf(),
            final(self)@ == old(self)@,
            exists|q: PagerSpec| is_store(q, final(self)@) && final(self).pages() == #[trigger] committed(q),
    {
        let ghost d = self@;
        let ghost p0 = self.pager@;
        put_root(&mut self.pager, ROOT_TRIPLE_COUNT, self.triple_count);
        let ghost p1 = self.pager@;
        put_root(&mut self.pager, ROOT_ENTITY_COUNT, self.entity_count as u64);
        let ghost p2 = self.pager@;
        put_root(&mut self.pager, ROOT_LITERAL_COUNT, self.literal_count as u64);
        let ghost p3 = self.pager@;
        put_root(&mut self.pager, ROOT_PRED_COUNT, self.pred_count as u64);
        let ghost q = self.pager@;
        proof {
            lemma_counts_apart(p0, p1, ROOT_TRIPLE_COUNT as int, self.triple_count);
            lemma_counts_apart(p1, p2, ROOT_ENTITY_COUNT as int, self.entity_count as u64);
            lemma_counts_apart(p2, p3, ROOT_LITERAL_COUNT as int, self.literal_count as u64);
            lemma_counts_apart(p3, q, ROOT_PRED_COUNT as int, self.pred_count as u64);
            assert(is_store(q, d));
        }
        self.pager.flush();
        proof {
            super::heap::lemma_same_heap(q, self.pager@);
            lemma_same_forest(q, self.pager@);
            assert(self@ =~= d);
            assert(self.pages() == committed(q));
        }
    }

    /// Take the committed batches that the host is to write, in order.
    pub fn take_commits(&mut self) -> (r: Vec<Vec<super::wal::PageImage>>)
        requires
            old(self).wf(),
        ensures
            final(self).wf(),
            final(self)@ == old(self)@,
            super::pager::batches(r@) == old(self).pages().commits,
            final(self).pages() == (PagerSpec { commits: Seq::empty(), ..old(self).pages() }),
    {
        let ghost p = self.pager@;
        let r = self.pager.take_commits();
        proof {
            super::heap::lemma_same_heap(p, self.pager@);
            lemma_same_forest(p, self.pager@);
            assert(self@ =~= old(self)@);
        }
        r
    }

    /// Number of triples.
    pub fn triple_count(&self) -> (n: u64)
        requires
            self.wf(),
        ensures
            n == self@.triples.len(),
    {
        self.triple_count
    }

    /// Number of entities.
    pub fn entity_num(&self) -> (n: usize)
        requires
            self.wf(),
        ensures
            n == self@.entities.len(),
    {
        self.entity_count as usize
    }

    /// Number of literals.
    pub fn literal_num(&self) -> (n: usize)
        requires
            self.wf(),
        ensures
            n == self@.literals.len(),
    {
        self.literal_count as usize
    }

    /// Number of predicates.
    pub fn predicate_num(&self) -> (n: usize)
        requires
            self.wf(),
        ensures
            n == self@.predicates.len(),
    {
        self.pred_count as usize
    }

    /// The id of a term.
    pub fn term_id(&mut self, t: &Term) -> (r: Option<EntityLiteralId>)
        requires
            old(self).wf(),
        ensures
            final(self).wf(),
            final(self)@ == old(self)@,
            r == (if known(old(self)@, t@) { Some(term_number(old(self)@, t@)) } else { None::<u32> }),
    {
        let ghost d = self@;
        let key: String = t.dict_key();
        let r: Option<u32> = if t.is_literal() {
            find_name(&mut self.pager, LITERAL2ID, &key, Ghost(d.trees[ID2LITERAL as int]), Ghost(LITERAL_FIRST_ID as int), Ghost(d.literals))
        } else {
            find_name(&mut self.pager, ENTITY2ID, &key, Ghost(d.trees[ID2ENTITY as int]), Ghost(0int), Ghost(d.entities))
        };
        assert(self@ =~= d);
        r
    }

    /// The id of a predicate.
    pub fn predicate_id(&mut self, dict_key: &str) -> (r: Option<PredId>)
        requires
            old(self).wf(),
        ensures
            final(self).wf(),
            final(self)@ == old(self)@,
            r == (if old(self)@.predicates.contains(dict_key@) { Some(name_id(0, old(self)@.predicates, dict_key@)) } else { None::<u32> }),
    {
        let ghost d = self@;
        let r: Option<u32> = find_name(&mut self.pager, PREDICATE2ID, dict_key, Ghost(d.trees[ID2PREDICATE as int]), Ghost(0int), Ghost(d.predicates));
        assert(self@ =~= d);
        r
    }

    /// The key of an id.
    pub fn id_to_string(&mut self, id: EntityLiteralId) -> (r: Option<String>)
        requires
            old(self).wf(),
        ensures
            final(self).wf(),
            final(self)@ == old(self)@,
            if crate::model::id::literal_range(id) {
                name_at(old(self)@.literals, id - LITERAL_FIRST_ID, r)
            } else {
                name_at(old(self)@.entities, id as int, r)
            },
    {
        let ghost d = self@;
        let r: Option<String> = if is_literal_id(id) {
            name_of(&mut self.pager, ID2LITERAL, id, Ghost(d.trees[LITERAL2ID as int]), Ghost(LITERAL_FIRST_ID as int), Ghost(d.literals))
        } else {
            name_of(&mut self.pager, ID2ENTITY, id, Ghost(d.trees[ENTITY2ID as int]), Ghost(0int), Ghost(d.entities))
        };
        assert(self@ =~= d);
        r
    }

    /// The key of a predicate's id.
    pub fn predicate_to_string(&mut self, id: PredId) -> (r: Option<String>)
        requires
            old(self).wf(),
        ensures
            final(self).wf(),
            final(self)@ == old(self)@,
            name_at(old(self)@.predicates, id as int, r),
    {
        let ghost d = self@;
        let r: Option<String> = name_of(&mut self.pager, ID2PREDICATE, id, Ghost(d.trees[PREDICATE2ID as int]), Ghost(0int), Ghost(d.predicates));
        assert(self@ =~= d);
        r
    }

    /// Whether the triple is in the store.
    pub fn contains(&mut self, s: EntityLiteralId, p: PredId, o: EntityLiteralId) -> (b: bool)
        requires
            old(self).wf(),
        ensures
            final(self).wf(),
            final(self)@ == old(self)@,
            b == old(self)@.triples.contains(IdTriple { sub: s, pred: p, obj: o }),
    {
        let ghost d = self@;
        proof {
            lemma_index_tells(d, SPO as int, IdTriple { sub: s, pred: p, obj: o });
        }
        let r: Option<Vec<u8>> = get_item(&mut self.pager, SPO, &key3(s, p, o));
        assert(self@ =~= d);
        r.is_some()
    }
}

/// The term has an id.
pub open spec fn known(d: DiskSpec, t: TermSpec) -> bool {
    if t is Literal {
        d.literals.contains(term_key(t))
    } else {
        d.entities.contains(term_key(t))
    }
}

/// The key at a place, if there is one.
pub open spec fn name_at(names: Seq<Seq<char>>, i: int, r: Option<String>) -> bool {
    if 0 <= i < names.len() {
        r matches Some(s) && s@ == names[i]
    } else {
        r is None
    }
}

/// The key of an id in a space.
fn name_of(pager: &mut Pager, to_key: usize, id: u32, Ghost(to_id): Ghost<Option<Tree>>, Ghost(first): Ghost<int>, Ghost(names): Ghost<Seq<Seq<char>>>) -> (r: Option<String>)
    requires
        old(pager).wf(),
        forest(old(pager)@),
        to_key < TREES,
        0 <= first,
        table(to_id, trees_of(old(pager)@)[to_key as int], first, names),
    ensures
        final(pager).wf(),
        forest(final(pager)@),
        trees_of(final(pager)@) == trees_of(old(pager)@),
        pages_left(final(pager)@) == pages_left(old(pager)@),
        final(pager)@.roots == old(pager)@.roots,
        name_at(names, id - first, r),
{
    let num: Vec<u8> = super::bptree::be32(id);
    let ghost tree = trees_of(pager@)[to_key as int];
    match get_item(pager, to_key, &num) {
        Some(v) => {
            proof {
                assert(shape_value(tree, be32_bytes(id)) is Some);
                let i = choose|i: int| 0 <= i < names.len() && #[trigger] be32_bytes((first + i) as u32) == be32_bytes(id);
                lemma_be32_injective((first + i) as u32, id);
                assert(shape_value(tree, be32_bytes((first + i) as u32)) == Some(encode_utf8(names[i])));
                vstd::utf8::encode_utf8_valid_utf8(names[i]);
            }
            let ghost bytes = v@;
            let r: Option<String> = string_from_utf8(v);
            proof {
                lemma_encoding_injective(r->0@, names[id - first]);
            }
            r
        },
        None => {
            proof {
                if 0 <= id - first < names.len() {
                    let i = id - first;
                    assert(shape_value(tree, be32_bytes((first + i) as u32)) == Some(encode_utf8(names[i])));
                }
            }
            None
        },
    }
}

/// Sequences of one length that differ at the front are ordered by the front.
proof fn lemma_lex_front(a: Seq<u8>, b: Seq<u8>, x: Seq<u8>, y: Seq<u8>)
    requires
        a.len() == b.len(),
        a != b,
    ensures
        lex_less(a + x, b + y) == lex_less(a, b),
    decreases a.len(),
{
    if a.len() == 0 {
        assert(a =~= b);
    } else {
        let (p, q) = (a + x, b + y);
        assert(p[0] == a[0] && q[0] == b[0]);
        if a[0] == b[0] {
            assert(p.drop_first() =~= a.drop_first() + x);
            assert(q.drop_first() =~= b.drop_first() + y);
            if a.drop_first() == b.drop_first() {
                assert(a =~= seq![a[0]] + a.drop_first());
                assert(b =~= seq![b[0]] + b.drop_first());
            }
            lemma_lex_front(a.drop_first(), b.drop_first(), x, y);
        }
    }
}

/// The key of three ids as one value.
pub open spec fn key_of(x: (u32, u32, u32)) -> Seq<u8> {
    key3_bytes(x.0, x.1, x.2)
}

/// The order of the keys is that of the ids.
pub proof fn law_key_order(x: (u32, u32, u32), y: (u32, u32, u32))
    ensures
        lex_less(key_of(x), key_of(y)) <==> x.rank() < y.rank(),
{
    let (a, b, c) = (be32_bytes(x.0), be32_bytes(x.1), be32_bytes(x.2));
    let (d, e, f) = (be32_bytes(y.0), be32_bytes(y.1), be32_bytes(y.2));
    law_be32_order(x.0, y.0);
    law_be32_order(x.1, y.1);
    law_be32_order(x.2, y.2);
    assert(key_of(x) =~= a + (b + c));
    assert(key_of(y) =~= d + (e + f));
    if x.0 != y.0 {
        if a == d {
            lemma_be32_injective(x.0, y.0);
        }
        lemma_lex_front(a, d, b + c, e + f);
    } else {
        lemma_lex_common(a, b + c, e + f);
        if x.1 != y.1 {
            if b == e {
                lemma_be32_injective(x.1, y.1);
            }
            lemma_lex_front(b, e, c, f);
        } else {
            lemma_lex_common(b, c, f);
        }
    }
}

/// The triple with the ids in the order of an index.
pub open spec fn triple_by(slot: int, x: (u32, u32, u32)) -> IdTriple {
    if slot == SPO {
        IdTriple { sub: x.0, pred: x.1, obj: x.2 }
    } else if slot == POS {
        IdTriple { pred: x.0, obj: x.1, sub: x.2 }
    } else {
        IdTriple { obj: x.0, sub: x.1, pred: x.2 }
    }
}

/// The triples whose keys in an index start with a prefix, by their ids.
pub open spec fn under(triples: Set<IdTriple>, slot: int, prefix: Seq<u8>) -> Set<(u32, u32, u32)> {
    Set::new(|x: (u32, u32, u32)| triples.contains(triple_by(slot, x)) && starts(key_of(x), prefix))
}

/// A prefix of one id fixes the first.
pub proof fn lemma_prefix_one(x: (u32, u32, u32), a: u32)
    ensures
        starts(key_of(x), be32_bytes(a)) <==> x.0 == a,
{
    let k = key_of(x);
    assert(k.take(4) =~= be32_bytes(x.0));
    if be32_bytes(x.0) == be32_bytes(a) {
        lemma_be32_injective(x.0, a);
    }
}

/// A prefix of two ids fixes the first two.
pub proof fn lemma_prefix_two(x: (u32, u32, u32), a: u32, b: u32)
    ensures
        starts(key_of(x), be32_bytes(a) + be32_bytes(b)) <==> x.0 == a && x.1 == b,
{
    let k = key_of(x);
    let p = be32_bytes(a) + be32_bytes(b);
    assert(k.take(8) =~= be32_bytes(x.0) + be32_bytes(x.1));
    if k.take(8) == p {
        assert(be32_bytes(x.0) =~= k.take(8).take(4));
        assert(p.take(4) =~= be32_bytes(a));
        assert(be32_bytes(x.1) =~= k.take(8).skip(4));
        assert(p.skip(4) =~= be32_bytes(b));
        lemma_be32_injective(x.0, a);
        lemma_be32_injective(x.1, b);
    }
}

/// The entries of an index under a prefix, by their ids.
#[verifier::spinoff_prover]
fn scan_index(pager: &mut Pager, slot: usize, prefix: &Vec<u8>, Ghost(triples): Ghost<Set<IdTriple>>) -> (r: Vec<(u32, u32, u32)>)
    requires
        old(pager).wf(),
        forest(old(pager)@),
        slot == SPO || slot == POS || slot == OSP,
        index_of(trees_of(old(pager)@)[slot as int], slot as int, triples),
    ensures
        final(pager).wf(),
        forest(final(pager)@),
        trees_of(final(pager)@) == trees_of(old(pager)@),
        pages_left(final(pager)@) == pages_left(old(pager)@),
        final(pager)@.roots == old(pager)@.roots,
        lists(r@, under(triples, slot as int, prefix@)),
{
    let ghost p = pager@;
    let ghost m = map_in(p, slot as int);
    let ghost tree = trees_of(p)[slot as int];
    let handle = BTree::new(slot);
    proof {
        assert(is_tree(p, slot as int));
        lemma_shape_in(p, slot as int);
    }
    let found = handle.scan_prefix(pager, prefix);
    proof {
        lemma_same_forest(p, pager@);
    }
    let rows: Vec<(Vec<u8>, Vec<u8>)> = match found {
        Ok(v) => v,
        Err(e) => Vec::new(),
    };
    let ghost items = item_views(rows@);
    let mut out: Vec<(u32, u32, u32)> = Vec::new();
    let mut i: usize = 0;
    proof {
        assert forall|j: int| 0 <= j < items.len() implies keys_triple(slot as int, triples, (#[trigger] items[j]).0) by {
            assert(items.contains(items[j]));
            assert(m.contains_key(items[j].0));
            assert(value_in(p, slot as int, items[j].0) == shape_value(tree, items[j].0));
            assert(shape_value(tree, items[j].0) is Some);
        }
    }
    while i < rows.len()
        invariant
            i <= rows@.len(),
            items == item_views(rows@),
            slot == SPO || slot == POS || slot == OSP,
            out@.len() == i,
            forall|j: int| 0 <= j < items.len() ==> keys_triple(slot as int, triples, (#[trigger] items[j]).0),
            forall|j: int| 0 <= j < i ==> key_of(#[trigger] out@[j]) == items[j].0,
        decreases rows.len() - i,
    {
        proof {
            assert(items[i as int].0 == rows@[i as int].0@);
            let t = choose|t: IdTriple| #[trigger] triples.contains(t) && index_key(slot as int, t) == items[i as int].0;
            lemma_key3(t.sub, t.pred, t.obj);
            lemma_key3(t.pred, t.obj, t.sub);
            lemma_key3(t.obj, t.sub, t.pred);
        }
        let a: u32 = read_be32(&rows[i].0, 0);
        let b: u32 = read_be32(&rows[i].0, 4);
        let c: u32 = read_be32(&rows[i].0, 8);
        out.push((a, b, c));
        i = i + 1;
    }
    proof {
        let set = under(triples, slot as int, prefix@);
        let s = out@;
        assert forall|j: int, k: int| 0 <= j < k < s.len() implies (#[trigger] s[j]).rank() < (#[trigger] s[k]).rank() by {
            law_key_order(s[j], s[k]);
            assert(lex_less(items[j].0, items[k].0));
        }
        assert forall|x: (u32, u32, u32)| #[trigger] set.contains(x) <==> s.contains(x) by {
            let t = triple_by(slot as int, x);
            assert(index_key(slot as int, t) == key_of(x));
            if set.contains(x) {
                assert(shape_value(tree, key_of(x)) == Some(Seq::<u8>::empty()));
                assert(value_in(p, slot as int, key_of(x)) == shape_value(tree, key_of(x)));
                let e: Item = (key_of(x), Seq::<u8>::empty());
                assert(m.contains_key(e.0));
                assert(items.contains(e));
                let j = choose|j: int| 0 <= j < items.len() && items[j] == e;
                assert(key_of(s[j]) == key_of(x));
                lemma_key3(x.0, x.1, x.2);
                lemma_key3(s[j].0, s[j].1, s[j].2);
                assert(s[j] == x);
            }
            if s.contains(x) {
                let j = choose|j: int| 0 <= j < s.len() && s[j] == x;
                assert(keys_triple(slot as int, triples, items[j].0));
                let u = choose|u: IdTriple| #[trigger] triples.contains(u) && index_key(slot as int, u) == items[j].0;
                lemma_index_key_injective(slot as int, t, u);
                assert(items.contains(items[j]));
            }
        }
    }
    out
}

/// Pairs turned around.
pub open spec fn flipped(s: Seq<(u32, u32)>) -> Seq<(u32, u32)> {
    s.map_values(|x: (u32, u32)| (x.1, x.0))
}

/// The second and third ids of a list.
pub(crate) fn tails(rows: &Vec<(u32, u32, u32)>) -> (r: Vec<(u32, u32)>)
    ensures
        r@.len() == rows@.len(),
        forall|i: int| 0 <= i < rows@.len() ==> #[trigger] r@[i] == (rows@[i].1, rows@[i].2),
{
    let mut r: Vec<(u32, u32)> = Vec::new();
    let mut i: usize = 0;
    while i < rows.len()
        invariant
            i <= rows@.len(),
            r@.len() == i,
            forall|k: int| 0 <= k < i ==> #[trigger] r@[k] == (rows@[k].1, rows@[k].2),
        decreases rows.len() - i,
    {
        r.push((rows[i].1, rows[i].2));
        i = i + 1;
    }
    r
}

/// The third and second ids of a list.
pub(crate) fn turned(rows: &Vec<(u32, u32, u32)>) -> (r: Vec<(u32, u32)>)
    ensures
        r@.len() == rows@.len(),
        forall|i: int| 0 <= i < rows@.len() ==> #[trigger] r@[i] == (rows@[i].2, rows@[i].1),
{
    let mut r: Vec<(u32, u32)> = Vec::new();
    let mut i: usize = 0;
    while i < rows.len()
        invariant
            i <= rows@.len(),
            r@.len() == i,
            forall|k: int| 0 <= k < i ==> #[trigger] r@[k] == (rows@[k].2, rows@[k].1),
        decreases rows.len() - i,
    {
        r.push((rows[i].2, rows[i].1));
        i = i + 1;
    }
    r
}

/// The third ids of a list.
pub(crate) fn thirds(rows: &Vec<(u32, u32, u32)>) -> (r: Vec<u32>)
    ensures
        r@.len() == rows@.len(),
        forall|i: int| 0 <= i < rows@.len() ==> #[trigger] r@[i] == rows@[i].2,
{
    let mut r: Vec<u32> = Vec::new();
    let mut i: usize = 0;
    while i < rows.len()
        invariant
            i <= rows@.len(),
            r@.len() == i,
            forall|k: int| 0 <= k < i ==> #[trigger] r@[k] == rows@[k].2,
        decreases rows.len() - i,
    {
        r.push(rows[i].2);
        i = i + 1;
    }
    r
}

/// A list under one id, without that id.
pub proof fn lemma_list_pairs(rows: Seq<(u32, u32, u32)>, all: Set<(u32, u32, u32)>, r: Seq<(u32, u32)>, set: Set<(u32, u32)>, a: u32)
    requires
        lists(rows, all),
        r.len() == rows.len(),
        forall|i: int| 0 <= i < rows.len() ==> #[trigger] r[i] == (rows[i].1, rows[i].2),
        forall|x: (u32, u32, u32)| #[trigger] all.contains(x) <==> x.0 == a && set.contains((x.1, x.2)),
    ensures
        lists(r, set),
{
    assert forall|i: int| 0 <= i < rows.len() implies (#[trigger] rows[i]).0 == a by {
        assert(rows.contains(rows[i]));
        assert(all.contains(rows[i]));
    }
    assert forall|i: int, j: int| 0 <= i < j < r.len() implies (#[trigger] r[i]).rank() < (#[trigger] r[j]).rank() by {
        assert(rows[i].rank() < rows[j].rank());
        assert(rows[i].0 == rows[j].0);
    }
    assert forall|x: (u32, u32)| #[trigger] set.contains(x) <==> r.contains(x) by {
        let y = (a, x.0, x.1);
        assert(all.contains(y) <==> set.contains((y.1, y.2)));
        if set.contains(x) {
            assert(rows.contains(y));
            let i = choose|i: int| 0 <= i < rows.len() && rows[i] == y;
            assert(r[i] == x);
        }
        if r.contains(x) {
            let i = choose|i: int| 0 <= i < r.len() && r[i] == x;
            assert(rows[i] == y);
            assert(rows.contains(y));
        }
    }
}

/// A list under two ids, without those ids.
pub proof fn lemma_list_thirds(rows: Seq<(u32, u32, u32)>, all: Set<(u32, u32, u32)>, r: Seq<u32>, set: Set<u32>, a: u32, b: u32)
    requires
        lists(rows, all),
        r.len() == rows.len(),
        forall|i: int| 0 <= i < rows.len() ==> #[trigger] r[i] == rows[i].2,
        forall|x: (u32, u32, u32)| #[trigger] all.contains(x) <==> x.0 == a && x.1 == b && set.contains(x.2),
    ensures
        lists(r, set),
{
    assert forall|i: int| 0 <= i < rows.len() implies (#[trigger] rows[i]).0 == a && rows[i].1 == b by {
        assert(rows.contains(rows[i]));
        assert(all.contains(rows[i]));
    }
    assert forall|i: int, j: int| 0 <= i < j < r.len() implies (#[trigger] r[i]).rank() < (#[trigger] r[j]).rank() by {
        assert(rows[i].rank() < rows[j].rank());
        assert(rows[i].0 == rows[j].0 && rows[i].1 == rows[j].1);
    }
    assert forall|x: u32| #[trigger] set.contains(x) <==> r.contains(x) by {
        let y = (a, b, x);
        assert(all.contains(y) <==> set.contains(y.2));
        if set.contains(x) {
            assert(rows.contains(y));
            let i = choose|i: int| 0 <= i < rows.len() && rows[i] == y;
            assert(r[i] == x);
        }
        if r.contains(x) {
            let i = choose|i: int| 0 <= i < r.len() && r[i] == x;
            assert(rows[i] == y);
            assert(rows.contains(y));
        }
    }
}

pub proof fn lemma_all_rows(rows: Seq<(u32, u32, u32)>, triples: Set<IdTriple>, prefix: Seq<u8>, r: Seq<IdTriple>)
    requires
        prefix.len() == 0,
        lists(rows, under(triples, SPO as int, prefix)),
        r.len() == rows.len(),
        forall|k: int| 0 <= k < r.len() ==> #[trigger] r[k] == triple_by(SPO as int, rows[k]),
    ensures
        forall|i: int, j: int| 0 <= i < j < r.len() ==> spo_ids(#[trigger] r[i]).rank() < spo_ids(#[trigger] r[j]).rank(),
        r.to_set() == triples,
{
    let all = under(triples, SPO as int, prefix);
    assert forall|k: int, j: int| 0 <= k < j < r.len() implies spo_ids(#[trigger] r[k]).rank() < spo_ids(#[trigger] r[j]).rank() by {
        assert(rows[k].rank() < rows[j].rank());
        assert(spo_ids(r[k]) == rows[k] && spo_ids(r[j]) == rows[j]);
    }
    assert forall|t: IdTriple| r.to_set().contains(t) <==> triples.contains(t) by {
        let x = spo_ids(t);
        assert(triple_by(SPO as int, x) == t);
        assert(key_of(x).take(0) =~= prefix);
        assert(all.contains(x) <==> triples.contains(t));
        if triples.contains(t) {
            assert(rows.contains(x));
            let k = choose|k: int| 0 <= k < rows.len() && rows[k] == x;
            assert(r[k] == t);
        }
        if r.contains(t) {
            let k = choose|k: int| 0 <= k < r.len() && r[k] == t;
            assert(spo_ids(r[k]) == rows[k]);
            assert(rows.contains(x));
        }
    }
    assert(r.to_set() =~= triples);
}

/// The (object, subject) pairs of a predicate.
pub open spec fn reversed_pairs(ts: Set<IdTriple>, p: u32) -> Set<(u32, u32)> {
    Set::new(|q: (u32, u32)| ts.contains(IdTriple { sub: q.1, pred: p, obj: q.0 }))
}

/// The (subject, predicate) pairs of an object.
pub open spec fn reaching_pairs(ts: Set<IdTriple>, o: u32) -> Set<(u32, u32)> {
    Set::new(|q: (u32, u32)| ts.contains(IdTriple { sub: q.0, pred: q.1, obj: o }))
}

impl DiskStore {
    /// The (predicate, object) pairs of a subject, ascending.
    pub fn po_by_s(&mut self, s: EntityLiteralId) -> (r: Vec<(PredId, EntityLiteralId)>)
        requires
            old(self).wf(),
        ensures
            final(self).wf(),
            final(self)@ == old(self)@,
            lists(r@, pairs_of_subject(old(self)@.triples, s)),
    {
        let ghost d = self@;
        let prefix: Vec<u8> = super::bptree::be32(s);
        let rows: Vec<(u32, u32, u32)> = scan_index(&mut self.pager, SPO, &prefix, Ghost(d.triples));
        let r: Vec<(u32, u32)> = tails(&rows);
        proof {
            assert(self@ =~= d);
            let all = under(d.triples, SPO as int, prefix@);
            let set = pairs_of_subject(d.triples, s);
            assert forall|x: (u32, u32, u32)| #[trigger] all.contains(x) <==> x.0 == s && set.contains((x.1, x.2)) by {
                lemma_prefix_one(x, s);
            }
            lemma_list_pairs(rows@, all, r@, set, s);
        }
        r
    }

    /// The objects of a subject and a predicate, ascending.
    pub fn o_by_sp(&mut self, s: EntityLiteralId, p: PredId) -> (r: Vec<EntityLiteralId>)
        requires
            old(self).wf(),
        ensures
            final(self).wf(),
            final(self)@ == old(self)@,
            lists(r@, objects_of(old(self)@.triples, s, p)),
    {
        let ghost d = self@;
        let prefix: Vec<u8> = cat(s, p);
        let rows: Vec<(u32, u32, u32)> = scan_index(&mut self.pager, SPO, &prefix, Ghost(d.triples));
        let r: Vec<u32> = thirds(&rows);
        proof {
            assert(self@ =~= d);
            let all = under(d.triples, SPO as int, prefix@);
            let set = objects_of(d.triples, s, p);
            assert forall|x: (u32, u32, u32)| #[trigger] all.contains(x) <==> x.0 == s && x.1 == p && set.contains(x.2) by {
                lemma_prefix_two(x, s, p);
            }
            lemma_list_thirds(rows@, all, r@, set, s, p);
        }
        r
    }

    /// The subjects of a predicate and an object, ascending.
    pub fn s_by_po(&mut self, p: PredId, o: EntityLiteralId) -> (r: Vec<EntityLiteralId>)
        requires
            old(self).wf(),
        ensures
            final(self).wf(),
            final(self)@ == old(self)@,
            lists(r@, subjects_of(old(self)@.triples, p, o)),
    {
        let ghost d = self@;
        let prefix: Vec<u8> = cat(p, o);
        let rows: Vec<(u32, u32, u32)> = scan_index(&mut self.pager, POS, &prefix, Ghost(d.triples));
        let r: Vec<u32> = thirds(&rows);
        proof {
            assert(self@ =~= d);
            let all = under(d.triples, POS as int, prefix@);
            let set = subjects_of(d.triples, p, o);
            assert forall|x: (u32, u32, u32)| #[trigger] all.contains(x) <==> x.0 == p && x.1 == o && set.contains(x.2) by {
                lemma_prefix_two(x, p, o);
            }
            lemma_list_thirds(rows@, all, r@, set, p, o);
        }
        r
    }

    /// The predicates between a subject and an object, ascending.
    pub fn p_by_so(&mut self, s: EntityLiteralId, o: EntityLiteralId) -> (r: Vec<PredId>)
        requires
            old(self).wf(),
        ensures
            final(self).wf(),
            final(self)@ == old(self)@,
            lists(r@, predicates_between(old(self)@.triples, s, o)),
    {
        let ghost d = self@;
        let prefix: Vec<u8> = cat(o, s);
        let rows: Vec<(u32, u32, u32)> = scan_index(&mut self.pager, OSP, &prefix, Ghost(d.triples));
        let r: Vec<u32> = thirds(&rows);
        proof {
            assert(self@ =~= d);
            let all = under(d.triples, OSP as int, prefix@);
            let set = predicates_between(d.triples, s, o);
            assert forall|x: (u32, u32, u32)| #[trigger] all.contains(x) <==> x.0 == o && x.1 == s && set.contains(x.2) by {
                lemma_prefix_two(x, o, s);
            }
            lemma_list_thirds(rows@, all, r@, set, o, s);
        }
        r
    }

    /// The (subject, object) pairs of a predicate, in the order of the objects, then
    /// of the subjects.
    pub fn so_by_p(&mut self, p: PredId) -> (r: Vec<(EntityLiteralId, EntityLiteralId)>)
        requires
            old(self).wf(),
        ensures
            final(self).wf(),
            final(self)@ == old(self)@,
            lists(flipped(r@), reversed_pairs(old(self)@.triples, p)),
    {
        let ghost d = self@;
        let prefix: Vec<u8> = super::bptree::be32(p);
        let rows: Vec<(u32, u32, u32)> = scan_index(&mut self.pager, POS, &prefix, Ghost(d.triples));
        let r: Vec<(u32, u32)> = turned(&rows);
        proof {
            assert(self@ =~= d);
            let all = under(d.triples, POS as int, prefix@);
            let set = reversed_pairs(d.triples, p);
            assert forall|x: (u32, u32, u32)| #[trigger] all.contains(x) <==> x.0 == p && set.contains((x.1, x.2)) by {
                lemma_prefix_one(x, p);
            }
            lemma_list_pairs(rows@, all, flipped(r@), set, p);
        }
        r
    }

    /// The (predicate, subject) pairs of an object, in the order of the subjects, then
    /// of the predicates.
    pub fn ps_by_o(&mut self, o: EntityLiteralId) -> (r: Vec<(PredId, EntityLiteralId)>)
        requires
            old(self).wf(),
        ensures
            final(self).wf(),
            final(self)@ == old(self)@,
            lists(flipped(r@), reaching_pairs(old(self)@.triples, o)),
    {
        let ghost d = self@;
        let prefix: Vec<u8> = super::bptree::be32(o);
        let rows: Vec<(u32, u32, u32)> = scan_index(&mut self.pager, OSP, &prefix, Ghost(d.triples));
        let r: Vec<(u32, u32)> = turned(&rows);
        proof {
            assert(self@ =~= d);
            let all = under(d.triples, OSP as int, prefix@);
            let set = reaching_pairs(d.triples, o);
            assert forall|x: (u32, u32, u32)| #[trigger] all.contains(x) <==> x.0 == o && set.contains((x.1, x.2)) by {
                lemma_prefix_one(x, o);
            }
            lemma_list_pairs(rows@, all, flipped(r@), set, o);
        }
        r
    }

    /// All triples, by subject, then by predicate, then by object.
    pub fn iter_all(&mut self) -> (r: Vec<IdTriple>)
        requires
            old(self).wf(),
        ensures
            final(self).wf(),
            final(self)@ == old(self)@,
            forall|i: int, j: int| 0 <= i < j < r@.len() ==> spo_ids(#[trigger] r@[i]).rank() < spo_ids(#[trigger] r@[j]).rank(),
            r@.to_set() == old(self)@.triples,
    {
        let ghost d = self@;
        let prefix: Vec<u8> = Vec::new();
        let rows: Vec<(u32, u32, u32)> = scan_index(&mut self.pager, SPO, &prefix, Ghost(d.triples));
        assert(self@ =~= d);
        let mut r: Vec<IdTriple> = Vec::new();
        let mut i: usize = 0;
        while i < rows.len()
            invariant
                i <= rows@.len(),
                r@.len() == i,
                forall|k: int| 0 <= k < i ==> #[trigger] r@[k] == triple_by(SPO as int, rows@[k]),
            decreases rows.len() - i,
        {
            r.push(IdTriple::new(rows[i].0, rows[i].1, rows[i].2));
            i = i + 1;
        }
        proof {
            lemma_all_rows(rows@, d.triples, prefix@, r@);
        }
        r
    }
}

/// The ids of a triple: subject, predicate, object.
pub open spec fn spo_ids(t: IdTriple) -> (u32, u32, u32) {
    (t.sub, t.pred, t.obj)
}

/// What was added is read back, and nothing else changes.
#[verifier::spinoff_prover]
#[verifier::rlimit(40)]
pub proof fn law_added_is_read_back(d: DiskSpec, t: Triple)
    requires
        disk_ok(d),
        triple_fits(d, t),
        !object_refused(d, t),
    ensures
        with_triple(d, t).triples == d.triples.insert(ids_of(d, t)),
        forall|u: IdTriple| d.triples.contains(u) ==> with_triple(d, t).triples.contains(u),
        known(with_triple(d, t), t.subject@) || t.subject@ is Literal,
        known(with_triple(d, t), t.object@),
        with_triple(d, t).predicates.contains(term_key(t.predicate@)),
        with_triple(d, t).entities.len() >= d.entities.len(),
        with_triple(d, t).literals.len() >= d.literals.len(),
        with_triple(d, t).predicates.len() >= d.predicates.len(),
        forall|i: int| 0 <= i < d.entities.len() ==> with_triple(d, t).entities[i] == #[trigger] d.entities[i],
        forall|i: int| 0 <= i < d.literals.len() ==> with_triple(d, t).literals[i] == #[trigger] d.literals[i],
        forall|i: int| 0 <= i < d.predicates.len() ==> with_triple(d, t).predicates[i] == #[trigger] d.predicates[i],
{
    let ks = term_key(t.subject@);
    let d1 = with_entity(d, ks);
    let d2 = with_predicate(d1, term_key(t.predicate@));
    let d3 = with_term(d2, t.object@);
    assert(with_triple(d, t).triples =~= d.triples.insert(ids_of(d, t)));
    lemma_pushed(d.entities, ks);
    lemma_pushed(d1.predicates, term_key(t.predicate@));
    lemma_pushed(d2.entities, term_key(t.object@));
    lemma_pushed(d2.literals, term_key(t.object@));
    assert(d1.entities.contains(ks));
    if d3.entities != d2.entities {
        let i = choose|i: int| 0 <= i < d2.entities.len() && d2.entities[i] == ks;
        assert(d3.entities[i] == ks);
    }
}

/// What was removed is no longer there, and nothing else changes, neither the other
/// triples nor the ids of the terms. The pages that the indexes need no longer can be
/// allocated again.
#[verifier::spinoff_prover]
pub proof fn law_removed_is_gone(d: DiskSpec, t: Triple)
    requires
        disk_ok(d),
    ensures
        !holds_triple(without_triple(d, t), t),
        without_triple(d, t).triples == (if holds_triple(d, t) {
            d.triples.remove(ids_of(d, t))
        } else {
            d.triples
        }),
        without_triple(d, t).entities == d.entities,
        without_triple(d, t).literals == d.literals,
        without_triple(d, t).predicates == d.predicates,
        without_triple(d, t).left == d.left + (if holds_triple(d, t) {
            keys_freed(d.trees, ids_of(d, t))
        } else {
            0
        }),
        holds_triple(d, t) ==> ({
            let (a, b) = (d.trees, without_triple(d, t).trees);
            shape_nodes(a[SPO as int]) + shape_nodes(a[POS as int]) + shape_nodes(a[OSP as int]) == shape_nodes(b[SPO as int]) + shape_nodes(b[POS as int]) + shape_nodes(b[OSP as int]) + keys_freed(a, ids_of(d, t))
        }),
{
    let e = without_triple(d, t);
    if holds_triple(d, t) {
        assert(with_entity(d, term_key(t.subject@)) == d);
        assert(with_predicate(d, term_key(t.predicate@)) == d);
        assert(with_entity(e, term_key(t.subject@)) == e);
        assert(with_predicate(e, term_key(t.predicate@)) == e);
        assert(ids_of(e, t) == ids_of(d, t));
        let id = ids_of(d, t);
        law_removal_gives_pages_back(d.trees[SPO as int], index_key(SPO as int, id));
        law_removal_gives_pages_back(d.trees[POS as int], index_key(POS as int, id));
        law_removal_gives_pages_back(d.trees[OSP as int], index_key(OSP as int, id));
    }
}

/// Every node of an index has a key, whatever is added and removed.
pub open spec fn indexes_stocked(d: DiskSpec) -> bool {
    forall|slot: int| is_index(slot) ==> shape_short(#[trigger] d.trees[slot]) && shape_stocked(d.trees[slot])
}

/// The slots of the triple indexes.
pub open spec fn is_index(slot: int) -> bool {
    slot == SPO || slot == POS || slot == OSP
}

/// No page of the triple indexes stays without a key: a new store has none, and adding
/// and removing triples leaves none.
pub proof fn law_index_nodes_have_keys(d: DiskSpec, t: IdTriple, left: int)
    requires
        disk_ok(d),
        indexes_stocked(d),
    ensures
        indexes_stocked(empty_store(left)),
        indexes_stocked(with_ids(d, t)),
        indexes_stocked(without_ids(d, t)),
{
    assert forall|slot: int| is_index(slot) implies shape_short(#[trigger] with_ids(d, t).trees[slot]) && shape_stocked(with_ids(d, t).trees[slot]) && shape_short(without_ids(d, t).trees[slot]) && shape_stocked(without_ids(d, t).trees[slot]) by {
        let s = d.trees[slot];
        let k = index_key(slot, t);
        assert(shape_short(s) && shape_stocked(s) && shape_ok(s));
        lemma_key3(t.sub, t.pred, t.obj);
        lemma_key3(t.pred, t.obj, t.sub);
        lemma_key3(t.obj, t.sub, t.pred);
        law_nodes_have_keys(s, k, Seq::empty());
        lemma_shape_without(s, k);
        lemma_shape_short_fits(s, k, Seq::empty());
        lemma_shape_after(s, k, Seq::empty());
    }
    assert forall|slot: int| is_index(slot) implies shape_short(#[trigger] without_ids(d, t).trees[slot]) && shape_stocked(without_ids(d, t).trees[slot]) by {
        let _ = with_ids(d, t).trees[slot];
    }
}

/// The names of a space after a key got an id, if it had none.
pub open spec fn named(names: Seq<Seq<char>>, key: Seq<char>) -> Seq<Seq<char>> {
    if names.contains(key) {
        names
    } else {
        names.push(key)
    }
}

proof fn lemma_named(first: int, names: Seq<Seq<char>>, key: Seq<char>)
    requires
        names.no_duplicates(),
    ensures
        named(names, key).no_duplicates(),
        named(names, key).contains(key),
        name_id(first, named(names, key), key) == name_id(first, names, key),
{
    if !names.contains(key) {
        let more = names.push(key);
        assert forall|i: int, j: int| 0 <= i < j < more.len() implies more[i] != more[j] by {
            if j == names.len() {
                assert(names.contains(names[i]));
            }
        }
        assert(more[names.len() as int] == key);
        lemma_name_id(first, more, key, names.len() as int);
    }
}

proof fn lemma_named_keeps(first: int, names: Seq<Seq<char>>, other: Seq<char>, key: Seq<char>)
    requires
        names.no_duplicates(),
        names.contains(key),
    ensures
        named(names, other).contains(key),
        name_id(first, named(names, other), key) == name_id(first, names, key),
{
    let i = names.index_of(key);
    lemma_named(first, names, other);
    assert(names[i] == key);
    assert(named(names, other)[i] == key);
    lemma_name_id(first, names, key, i);
    lemma_name_id(first, named(names, other), key, i);
}

/// Removing a triple that was added as new gives back the triples from before.
#[verifier::spinoff_prover]
pub proof fn law_removal_undoes_addition(d: DiskSpec, t: Triple)
    requires
        disk_ok(d),
        !d.triples.contains(ids_of(d, t)),
    ensures
        holds_triple(with_triple(d, t), t),
        without_triple(with_triple(d, t), t).triples == d.triples,
{
    let (ks, kp, ko) = (term_key(t.subject@), term_key(t.predicate@), term_key(t.object@));
    let d1 = with_entity(d, ks);
    let d2 = with_predicate(d1, kp);
    let d3 = with_term(d2, t.object@);
    let e = with_triple(d, t);
    let first = LITERAL_FIRST_ID as int;
    assert(d1.entities == named(d.entities, ks) && d1.predicates == d.predicates && d1.literals == d.literals);
    assert(d2.predicates == named(d.predicates, kp) && d2.entities == d1.entities && d2.literals == d.literals);
    lemma_named(0, d.entities, ks);
    lemma_named(0, d.predicates, kp);
    lemma_named(0, d2.entities, ko);
    lemma_named(first, d2.literals, ko);
    lemma_named_keeps(0, d2.entities, ko, ks);
    if t.object@ is Literal {
        assert(d3.literals == named(d2.literals, ko) && d3.entities == d2.entities);
    } else {
        assert(d3.entities == named(d2.entities, ko) && d3.literals == d2.literals);
    }
    assert(d3.predicates == d2.predicates);
    assert(e.entities == d3.entities && e.literals == d3.literals && e.predicates == d3.predicates);
    assert(with_entity(e, ks) == e);
    assert(with_predicate(e, kp) == e);
    assert(ids_of(e, t) == ids_of(d, t));
    assert(e.triples == d.triples.insert(ids_of(d, t)));
    assert(without_triple(e, t).triples =~= d.triples);
}

proof fn lemma_pushed(names: Seq<Seq<char>>, key: Seq<char>)
    ensures
        names.push(key).contains(key),
{
    assert(names.push(key)[names.len() as int] == key);
}

} // verus!
