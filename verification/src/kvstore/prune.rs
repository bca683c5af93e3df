//! Removal from B+ trees: the entry leaves its leaf, a leaf without entries leaves the
//! tree, and neighbours that fit one page are joined.

use super::join::{in_kids, lemma_looser, lemma_narrow_lookup, lemma_narrow_order, lemma_narrow_pages, lemma_narrow_sized, lemma_outside, lemma_packed_order, lemma_packed_pages, lemma_packed_shape, lemma_removed_ascends, lemma_settled, lemma_settled_pages, lemma_settled_shape, lemma_shape_inner, looser, narrow_kids, nodes, packed, settled, settled_freed, shapes, stocked};
use super::node::{entry_size, size_to, NodeSpec};
use super::shape::{shape, shape_ok, shape_short, shape_value};
use super::small::short;
use super::tree::{apart, below, between, disjoint, find, has_page, kid_high, kid_low, kids_apart, lemma_below_is, lemma_upto, lookup, ordered, sized, upto, within, Tree};
use vstd::prelude::*;

verus! {

/// The separator that goes with a kid: the one before it, or for the first kid the one
/// behind it.
pub open spec fn sep_of(c: int) -> int {
    if c == 0 {
        0
    } else {
        c - 1
    }
}

/// The kid that takes the place of kid `c` and its neighbour when kid `c` goes.
pub open spec fn heir(kids: Seq<Tree>, c: int) -> Tree {
    if c == 0 {
        kids[1]
    } else {
        kids[c - 1]
    }
}

/// The tree without a key that it has, or nothing if that was its only one.
pub open spec fn cut(t: Tree, key: Seq<u8>) -> Option<Tree>
    decreases t,
{
    match t {
        Tree::Leaf { id, keys, vals } => {
            let i = below(keys, key) as int;
            if keys.len() <= 1 {
                None
            } else {
                Some(Tree::Leaf { id, keys: keys.remove(i), vals: vals.remove(i) })
            }
        },
        Tree::Inner { id, keys, kids } => {
            let c = upto(keys, key) as int;
            if c < kids.len() {
                match cut(kids[c], key) {
                    Some(kid) => Some(settled(id, keys, kids.update(c, kid), c)),
                    None => if kids.len() == 1 {
                        None
                    } else {
                        Some(packed(id, keys.remove(sep_of(c)), narrow_kids(kids, sep_of(c), heir(kids, c))))
                    },
                }
            } else {
                None
            }
        },
    }
}

/// How many pages the removal of a key gives back.
pub open spec fn cut_freed(t: Tree, key: Seq<u8>) -> nat
    decreases t,
{
    match t {
        Tree::Leaf { id, keys, vals } => if keys.len() <= 1 {
            1
        } else {
            0
        },
        Tree::Inner { id, keys, kids } => {
            let c = upto(keys, key) as int;
            if c < kids.len() {
                cut_freed(kids[c], key) + match cut(kids[c], key) {
                    Some(kid) => settled_freed(keys, kids.update(c, kid), c),
                    None => if kids.len() <= 2 {
                        1
                    } else {
                        0
                    },
                }
            } else {
                0
            }
        },
    }
}

/// The value of a key in what a removal leaves.
pub open spec fn cut_lookup(t: Option<Tree>, k: Seq<u8>) -> Option<Seq<u8>> {
    match t {
        None => None,
        Some(u) => lookup(u, k),
    }
}

/// The shape of a tree, or of no tree, without a key.
pub open spec fn shape_without(s: Option<Tree>, key: Seq<u8>) -> Option<Tree> {
    match s {
        None => None,
        Some(t) => if lookup(t, key) is None {
            s
        } else {
            cut(t, key)
        },
    }
}

/// How many pages the removal of a key gives back.
pub open spec fn shape_freed(s: Option<Tree>, key: Seq<u8>) -> nat {
    match s {
        None => 0,
        Some(t) => if lookup(t, key) is None {
            0
        } else {
            cut_freed(t, key)
        },
    }
}

/// Every node has a key.
pub open spec fn shape_stocked(s: Option<Tree>) -> bool {
    s matches Some(t) ==> stocked(t)
}

/// How many pages a tree takes, or no tree.
pub open spec fn shape_nodes(s: Option<Tree>) -> nat {
    match s {
        None => 0,
        Some(t) => nodes(t),
    }
}

proof fn lemma_find_removed(keys: Seq<Seq<u8>>, vals: Seq<Seq<u8>>, i: int, k: Seq<u8>)
    requires
        super::tree::keys_ascend(keys),
        vals.len() == keys.len(),
        0 <= i < keys.len(),
    ensures
        find(keys.remove(i), vals.remove(i), k) == (if k == keys[i] {
            None
        } else {
            find(keys, vals, k)
        }),
{
    lemma_removed_ascends(keys, i);
    let k2 = keys.remove(i);
    let v2 = vals.remove(i);
    let b = below(k2, k) as int;
    if b < k2.len() && k2[b] == k {
        let j: int = if b < i { b } else { b + 1 };
        assert(keys[j] == k);
        assert(v2[b] == vals[j]);
        lemma_below_is(keys, k, j);
        if k == keys[i] {
            lemma_below_is(keys, k, i);
        }
    } else if k != keys[i] {
        let a = below(keys, k) as int;
        if a < keys.len() && keys[a] == k {
            let j: int = if a < i { a } else { a - 1 };
            assert(k2[j] == k);
            lemma_below_is(k2, k, j);
        }
    }
}

proof fn lemma_size_removed(a: NodeSpec, b: NodeSpec, i: int, j: nat)
    requires
        a.leaf && b.leaf,
        a.vals.len() == a.keys.len(),
        0 <= i < a.keys.len(),
        b.keys == a.keys.remove(i),
        b.vals == a.vals.remove(i),
        j <= b.keys.len(),
    ensures
        size_to(b, j) + (if j <= i {
            0
        } else {
            entry_size(a, i)
        }) == size_to(a, if j <= i {
            j
        } else {
            j + 1
        }),
    decreases j,
{
    if j > 0 {
        lemma_size_removed(a, b, i, (j - 1) as nat);
        if j - 1 < i {
            assert(entry_size(b, j - 1) == entry_size(a, j - 1));
        } else {
            assert(entry_size(b, j - 1) == entry_size(a, j as int));
            if j - 1 == i {
                assert(size_to(a, (i + 1) as nat) == size_to(a, i as nat) + entry_size(a, i));
            }
        }
    }
}

/// A leaf without one of its entries.
pub proof fn lemma_cut_leaf(t: Tree, key: Seq<u8>, lo: Option<Seq<u8>>, hi: Option<Seq<u8>>)
    requires
        t is Leaf,
        ordered(t, lo, hi),
        lookup(t, key) is Some,
    ensures
        ({
            let (keys, vals) = (t->Leaf_keys, t->Leaf_vals);
            let i = below(keys, key) as int;
            &&& 0 <= i < keys.len()
            &&& keys[i] == key
            &&& cut(t, key) is None <==> keys.len() == 1
            &&& cut(t, key) matches Some(u) ==> {
                &&& ordered(u, lo, hi)
                &&& sized(t) ==> sized(u)
                &&& short(t) ==> short(u)
                &&& stocked(u)
            }
            &&& forall|k: Seq<u8>| #[trigger] cut_lookup(cut(t, key), k) == (if k == key { None } else { lookup(t, k) })
        }),
{
    let (id, keys, vals) = (t->Leaf_id, t->Leaf_keys, t->Leaf_vals);
    let i = below(keys, key) as int;
    lemma_removed_ascends(keys, i);
    let (k2, v2) = (keys.remove(i), vals.remove(i));
    assert forall|j: int| 0 <= j < k2.len() implies within(#[trigger] k2[j], lo, hi) by {
        assert(within(keys[if j < i { j } else { j + 1 }], lo, hi));
    }
    let a = NodeSpec { leaf: true, link: 0, keys, vals, children: Seq::empty() };
    let b = NodeSpec { leaf: true, link: 0, keys: k2, vals: v2, children: Seq::empty() };
    lemma_size_removed(a, b, i, b.keys.len());
    if k2.len() == i {
        assert(size_to(a, (i + 1) as nat) == size_to(a, i as nat) + entry_size(a, i));
    }
    if short(t) {
        assert forall|j: int| 0 <= j < k2.len() implies (#[trigger] k2[j]).len() + v2[j].len() <= super::small::SHORT by {
            let m: int = if j < i { j } else { j + 1 };
            assert(k2[j] == keys[m] && v2[j] == vals[m]);
        }
    }
    assert forall|k: Seq<u8>| #[trigger] cut_lookup(cut(t, key), k) == (if k == key { None } else { lookup(t, k) }) by {
        lemma_find_removed(keys, vals, i, k);
        assert(lookup(t, k) == find(keys, vals, k));
        if keys.len() > 1 {
            assert(cut_lookup(cut(t, key), k) == find(k2, v2, k));
        } else {
            assert(k2.len() == 0);
            assert(find(k2, v2, k) is None);
        }
    }
}

/// A node with another tree in the place of a kid.
pub proof fn lemma_kid_replaced(id: u32, keys: Seq<Seq<u8>>, kids: Seq<Tree>, lo: Option<Seq<u8>>, hi: Option<Seq<u8>>, c: int, kid: Tree)
    requires
        ordered(Tree::Inner { id, keys, kids }, lo, hi),
        0 <= c < kids.len(),
        ordered(kid, kid_low(keys, lo, c), kid_high(keys, hi, c)),
    ensures
        ({
            let t = Tree::Inner { id, keys, kids };
            let u = Tree::Inner { id, keys, kids: kids.update(c, kid) };
            &&& ordered(u, lo, hi)
            &&& sized(t) && sized(kid) ==> sized(u)
            &&& short(t) && short(kid) ==> short(u)
            &&& stocked(t) && stocked(kid) ==> stocked(u)
        }),
{
    let t = Tree::Inner { id, keys, kids };
    let ks = kids.update(c, kid);
    assert(t->Inner_kids == kids && t->Inner_keys == keys);
    assert forall|i: int| 0 <= i < ks.len() implies ordered(#[trigger] ks[i], kid_low(keys, lo, i), kid_high(keys, hi, i)) by {
        assert(ordered(kids[i], kid_low(keys, lo, i), kid_high(keys, hi, i)));
    }
    assert forall|i: int| 0 <= i < ks.len() implies #[trigger] ks[i] == (if i == c { kid } else { kids[i] }) by {}
    if sized(t) && sized(kid) {
        assert forall|i: int| 0 <= i < ks.len() implies sized(#[trigger] ks[i]) by {
            assert(sized(kids[i]));
        }
    }
    if short(t) && short(kid) {
        assert forall|i: int| 0 <= i < ks.len() implies short(#[trigger] ks[i]) by {
            assert(short(kids[i]));
        }
    }
    if stocked(t) && stocked(kid) {
        assert forall|i: int| 0 <= i < ks.len() implies stocked(#[trigger] ks[i]) by {
            assert(stocked(kids[i]));
        }
    }
}

/// The kid that takes the place of one that goes keeps to the bounds of both.
proof fn lemma_heir_order(id: u32, keys: Seq<Seq<u8>>, kids: Seq<Tree>, lo: Option<Seq<u8>>, hi: Option<Seq<u8>>, c: int)
    requires
        ordered(Tree::Inner { id, keys, kids }, lo, hi),
        0 <= c < kids.len(),
        kids.len() > 1,
    ensures
        0 <= sep_of(c) < keys.len(),
        ordered(heir(kids, c), kid_low(keys, lo, sep_of(c)), kid_high(keys, hi, sep_of(c) + 1)),
{
    let i = sep_of(c);
    let (l, h) = (kid_low(keys, lo, i), kid_high(keys, hi, i + 1));
    assert(between(keys[i], lo, hi));
    if c == 0 {
        assert(ordered(kids[1], kid_low(keys, lo, 1), kid_high(keys, hi, 1)));
        assert(looser(l, h, kid_low(keys, lo, 1), kid_high(keys, hi, 1)));
        lemma_looser(kids[1], kid_low(keys, lo, 1), kid_high(keys, hi, 1), l, h);
    } else {
        assert(ordered(kids[i], kid_low(keys, lo, i), kid_high(keys, hi, i)));
        if i + 1 < keys.len() {
            assert(crate::text::lex_less(keys[i], keys[i + 1]));
        }
        assert(looser(l, h, kid_low(keys, lo, i), kid_high(keys, hi, i)));
        lemma_looser(kids[i], kid_low(keys, lo, i), kid_high(keys, hi, i), l, h);
    }
}

/// What the removal of a key keeps: the order, the sizes, a key in every node, and the
/// values of the other keys.
#[verifier::spinoff_prover]
#[verifier::rlimit(30)]
pub proof fn lemma_cut(t: Tree, key: Seq<u8>, lo: Option<Seq<u8>>, hi: Option<Seq<u8>>)
    requires
        ordered(t, lo, hi),
        lookup(t, key) is Some,
    ensures
        cut(t, key) matches Some(u) ==> {
            &&& ordered(u, lo, hi)
            &&& sized(t) ==> sized(u)
            &&& short(t) ==> short(u)
            &&& stocked(t) ==> stocked(u)
        },
        forall|k: Seq<u8>| #[trigger] cut_lookup(cut(t, key), k) == (if k == key { None } else { lookup(t, k) }),
    decreases t,
{
    match t {
        Tree::Leaf { id, keys, vals } => {
            lemma_cut_leaf(t, key, lo, hi);
        },
        Tree::Inner { id, keys, kids } => {
            lemma_upto(keys, key);
            let c = upto(keys, key) as int;
            assert(ordered(kids[c], kid_low(keys, lo, c), kid_high(keys, hi, c)));
            lemma_cut(kids[c], key, kid_low(keys, lo, c), kid_high(keys, hi, c));
            match cut(kids[c], key) {
                Some(kid) => {
                    let ks = kids.update(c, kid);
                    lemma_kid_replaced(id, keys, kids, lo, hi, c, kid);
                    lemma_settled(id, keys, ks, c, lo, hi);
                    assert(sized(t) ==> sized(kids[c]));
                    assert(short(t) ==> short(kids[c]));
                    assert(stocked(t) ==> stocked(kids[c]));
                    let mid = Tree::Inner { id, keys, kids: ks };
                    assert forall|k: Seq<u8>| #[trigger] cut_lookup(cut(t, key), k) == (if k == key { None } else { lookup(t, k) }) by {
                        lemma_upto(keys, k);
                        let d = upto(keys, k) as int;
                        assert(lookup(settled(id, keys, ks, c), k) == lookup(mid, k));
                        assert(ks[d] == (if d == c { kid } else { kids[d] }));
                        assert(cut_lookup(cut(kids[c], key), k) == (if k == key { None } else { lookup(kids[c], k) }));
                    }
                },
                None => {
                    if kids.len() == 1 {
                        assert forall|k: Seq<u8>| #[trigger] cut_lookup(cut(t, key), k) == (if k == key { None } else { lookup(t, k) }) by {
                            assert(upto(keys, k) == 0);
                            assert(cut_lookup(cut(kids[c], key), k) == (if k == key { None } else { lookup(kids[c], k) }));
                        }
                    } else {
                        assert forall|k: Seq<u8>| k != key implies lookup(kids[c], k) is None by {
                            assert(cut_lookup(cut(kids[c], key), k) == lookup(kids[c], k));
                        }
                        lemma_cut_drop(t, id, keys, kids, key, lo, hi);
                    }
                },
            }
        },
    }
}

/// A kid without a key left goes.
#[verifier::spinoff_prover]
proof fn lemma_cut_drop(t: Tree, id: u32, keys: Seq<Seq<u8>>, kids: Seq<Tree>, key: Seq<u8>, lo: Option<Seq<u8>>, hi: Option<Seq<u8>>)
    requires
        t == (Tree::Inner { id, keys, kids }),
        ordered(t, lo, hi),
        lookup(t, key) is Some,
        kids.len() > 1,
        cut(kids[upto(keys, key) as int], key) is None,
        forall|k: Seq<u8>| k != key ==> lookup(kids[upto(keys, key) as int], k) is None,
    ensures
        cut(t, key) matches Some(u) && {
            &&& ordered(u, lo, hi)
            &&& sized(t) ==> sized(u)
            &&& short(t) ==> short(u)
            &&& stocked(t) ==> stocked(u)
        },
        forall|k: Seq<u8>| #[trigger] cut_lookup(cut(t, key), k) == (if k == key { None } else { lookup(t, k) }),
{
    lemma_upto(keys, key);
    let c = upto(keys, key) as int;
    let i = sep_of(c);
    let kid = heir(kids, c);
    lemma_heir_order(id, keys, kids, lo, hi, c);
    lemma_narrow_order(id, keys, kids, lo, hi, i, kid);
    lemma_narrow_sized(id, keys, kids, i, kid);
    let (k2, ks) = (keys.remove(i), narrow_kids(kids, i, kid));
    let u = packed(id, k2, ks);
    lemma_packed_order(id, k2, ks, lo, hi);
    let n: int = if c == 0 { 1 } else { c - 1 };
    assert(kid == kids[n]);
    assert(sized(t) ==> sized(kids[n]));
    assert(short(t) ==> short(kids[n]));
    assert(stocked(t) ==> stocked(kids[n]));
    assert forall|k: Seq<u8>| #[trigger] cut_lookup(cut(t, key), k) == (if k == key { None } else { lookup(t, k) }) by {
        lemma_narrow_lookup(id, keys, kids, i, kid, k);
        assert(lookup(u, k) == lookup(Tree::Inner { id, keys: k2, kids: ks }, k));
        let d = upto(keys, k) as int;
        if d == c {
            assert(ordered(kids[n], kid_low(keys, lo, n), kid_high(keys, hi, n)));
            lemma_outside(kids[n], kid_low(keys, lo, n), kid_high(keys, hi, n), k);
        }
    }
}

/// The pages of what a removal leaves are pages of the tree.
#[verifier::spinoff_prover]
pub proof fn lemma_cut_pages(t: Tree, key: Seq<u8>, lo: Option<Seq<u8>>, hi: Option<Seq<u8>>)
    requires
        ordered(t, lo, hi),
        lookup(t, key) is Some,
        apart(t),
    ensures
        cut(t, key) matches Some(u) ==> apart(u) && (forall|x: u32| #[trigger] has_page(u, x) ==> has_page(t, x)),
    decreases t,
{
    match t {
        Tree::Leaf { .. } => {},
        Tree::Inner { id, keys, kids } => {
            lemma_upto(keys, key);
            let c = upto(keys, key) as int;
            assert(ordered(kids[c], kid_low(keys, lo, c), kid_high(keys, hi, c)));
            assert(apart(kids[c]) && !has_page(kids[c], id));
            lemma_cut_pages(kids[c], key, kid_low(keys, lo, c), kid_high(keys, hi, c));
            lemma_cut(kids[c], key, kid_low(keys, lo, c), kid_high(keys, hi, c));
            assert(kids_apart(kids, id));
            match cut(kids[c], key) {
                Some(kid) => {
                    let ks = kids.update(c, kid);
                    lemma_kid_replaced(id, keys, kids, lo, hi, c, kid);
                    lemma_kids_less(id, keys, kids, c, kid);
                    lemma_settled_pages(id, keys, ks, c, lo, hi);
                    let mid = Tree::Inner { id, keys, kids: ks };
                    assert forall|x: u32| #[trigger] has_page(settled(id, keys, ks, c), x) implies has_page(t, x) by {
                        assert(has_page(mid, x));
                        assert(mid->Inner_kids == ks && t->Inner_kids == kids);
                        if x != id {
                            assert(in_kids(ks, x));
                            assert(in_kids(kids, x));
                        }
                    }
                },
                None => {
                    if kids.len() > 1 {
                        let i = sep_of(c);
                        let kid = heir(kids, c);
                        assert(apart(kids[i]) && apart(kids[i + 1]));
                        lemma_narrow_pages(id, keys, kids, i, kid);
                        let ks = narrow_kids(kids, i, kid);
                        lemma_packed_pages(id, keys.remove(i), ks);
                        assert forall|x: u32| #[trigger] has_page(packed(id, keys.remove(i), ks), x) implies has_page(t, x) by {
                            assert(x == id || in_kids(ks, x));
                            assert(in_kids(ks, x) ==> in_kids(kids, x));
                        }
                    }
                },
            }
        },
    }
}

/// A kid with fewer pages.
pub proof fn lemma_kids_less(id: u32, keys: Seq<Seq<u8>>, kids: Seq<Tree>, c: int, kid: Tree)
    requires
        kids_apart(kids, id),
        0 <= c < kids.len(),
        apart(kid),
        forall|x: u32| #[trigger] has_page(kid, x) ==> has_page(kids[c], x),
    ensures
        kids_apart(kids.update(c, kid), id),
        apart(Tree::Inner { id, keys, kids: kids.update(c, kid) }),
        forall|x: u32| #[trigger] in_kids(kids.update(c, kid), x) ==> in_kids(kids, x),
{
    let ks = kids.update(c, kid);
    assert forall|i: int| 0 <= i < ks.len() implies apart(#[trigger] ks[i]) && !has_page(ks[i], id) by {
        assert(apart(kids[i]) && !has_page(kids[i], id));
    }
    assert forall|i: int, j: int| 0 <= i < j < ks.len() implies disjoint(#[trigger] ks[i], #[trigger] ks[j]) by {
        assert(disjoint(kids[i], kids[j]));
        assert forall|x: u32| !(#[trigger] has_page(ks[i], x) && #[trigger] has_page(ks[j], x)) by {
            assert(has_page(ks[i], x) ==> has_page(kids[i], x));
            assert(has_page(ks[j], x) ==> has_page(kids[j], x));
        }
    }
    assert forall|x: u32| #[trigger] in_kids(ks, x) implies in_kids(kids, x) by {
        let i = choose|i: int| 0 <= i < ks.len() && has_page(#[trigger] ks[i], x);
        assert(has_page(kids[i], x));
    }
}

/// A tree and its shape lose the same.
pub proof fn lemma_cut_shape(t: Tree, key: Seq<u8>)
    ensures
        cut(shape(t), key) == (match cut(t, key) {
            None => None,
            Some(u) => Some(shape(u)),
        }),
        cut_freed(shape(t), key) == cut_freed(t, key),
    decreases t,
{
    match t {
        Tree::Leaf { .. } => {},
        Tree::Inner { id, keys, kids } => {
            lemma_shape_inner(id, keys, kids);
            let c = upto(keys, key) as int;
            if c < kids.len() {
                lemma_cut_shape(kids[c], key);
                assert(shapes(kids)[c] == shape(kids[c]));
                match cut(kids[c], key) {
                    Some(kid) => {
                        let ks = kids.update(c, kid);
                        lemma_settled_shape(id, keys, ks, c);
                        assert(shapes(ks) =~= shapes(kids).update(c, shape(kid)));
                    },
                    None => {
                        if kids.len() > 1 {
                            let i = sep_of(c);
                            let ks = narrow_kids(kids, i, heir(kids, c));
                            lemma_packed_shape(id, keys.remove(i), ks);
                            assert(shapes(ks) =~= narrow_kids(shapes(kids), i, shape(heir(kids, c))));
                            assert(heir(shapes(kids), c) == shape(heir(kids, c)));
                        }
                    },
                }
            }
        },
    }
}

/// A removal takes the value of its key and no other, keeps the order, and leaves no
/// node without a key.
pub proof fn lemma_shape_without(s: Option<Tree>, key: Seq<u8>)
    requires
        shape_ok(s),
    ensures
        shape_ok(shape_without(s, key)),
        shape_short(s) ==> shape_short(shape_without(s, key)),
        shape_stocked(s) ==> shape_stocked(shape_without(s, key)),
        forall|k: Seq<u8>| #[trigger] shape_value(shape_without(s, key), k) == (if k == key {
            None
        } else {
            shape_value(s, k)
        }),
{
    if s is Some && lookup(s->0, key) is Some {
        let t = s->0;
        lemma_cut(t, key, None, None);
        assert forall|k: Seq<u8>| #[trigger] shape_value(shape_without(s, key), k) == (if k == key { None } else { shape_value(s, k) }) by {
            assert(shape_value(shape_without(s, key), k) == cut_lookup(cut(t, key), k));
        }
    }
}

} // verus!
