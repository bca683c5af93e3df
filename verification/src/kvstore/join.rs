//! Joining neighbours in B+ trees: two nodes that fit one page become one, and a node
//! with a single kid gives way to it.

use super::node::{entry_size, size_to, NodeSpec};
use super::shape::shape;
use super::small::short;
use super::tree::{apart, below, between, disjoint, find, first_leaf, has_page, inner_fits, keys_ascend, kid_high, kid_low, kids_apart, leaf_fits, lemma_cut_lookup, lemma_leaf_cut, lemma_upto, lemma_upto_is, lookup, ordered, sized, tree_id, upto, within, Tree};
use crate::text::{lemma_lex_total, lemma_lex_trans, lex_less};
use vstd::prelude::*;

verus! {

/// Two neighbours in one node, on the page of the first.
pub open spec fn joined(a: Tree, sep: Seq<u8>, b: Tree) -> Tree {
    match a {
        Tree::Leaf { id, keys, vals } => match b {
            Tree::Leaf { id: id2, keys: keys2, vals: vals2 } => Tree::Leaf { id, keys: keys + keys2, vals: vals + vals2 },
            Tree::Inner { .. } => a,
        },
        Tree::Inner { id, keys, kids } => match b {
            Tree::Leaf { .. } => a,
            Tree::Inner { id: id2, keys: keys2, kids: kids2 } => Tree::Inner { id, keys: keys.push(sep) + keys2, kids: kids + kids2 },
        },
    }
}

/// The two neighbours fit one page. One of them is then at most half full.
pub open spec fn joinable(a: Tree, sep: Seq<u8>, b: Tree) -> bool {
    match a {
        Tree::Leaf { id, keys, vals } => match b {
            Tree::Leaf { id: id2, keys: keys2, vals: vals2 } => leaf_fits(keys + keys2, vals + vals2),
            Tree::Inner { .. } => false,
        },
        Tree::Inner { id, keys, kids } => match b {
            Tree::Leaf { .. } => false,
            Tree::Inner { id: id2, keys: keys2, kids: kids2 } => inner_fits(keys.push(sep) + keys2),
        },
    }
}

/// An inner node, or its only kid.
pub open spec fn packed(id: u32, keys: Seq<Seq<u8>>, kids: Seq<Tree>) -> Tree {
    if kids.len() == 1 {
        kids[0]
    } else {
        Tree::Inner { id, keys, kids }
    }
}

/// The kids with one in the place of two neighbours.
pub open spec fn narrow_kids(kids: Seq<Tree>, i: int, kid: Tree) -> Seq<Tree> {
    kids.update(i, kid).remove(i + 1)
}

/// The first of the two neighbours that are joined: kid `c` and the one behind it, or
/// else kid `c` and the one before it.
pub open spec fn join_place(keys: Seq<Seq<u8>>, kids: Seq<Tree>, c: int) -> Option<int> {
    if c + 1 < kids.len() && joinable(kids[c], keys[c], kids[c + 1]) {
        Some(c)
    } else if 0 < c && joinable(kids[c - 1], keys[c - 1], kids[c]) {
        Some(c - 1)
    } else {
        None
    }
}

/// The node after kid `c` was joined with a neighbour where that is possible.
pub open spec fn settled(id: u32, keys: Seq<Seq<u8>>, kids: Seq<Tree>, c: int) -> Tree {
    match join_place(keys, kids, c) {
        Some(i) => packed(id, keys.remove(i), narrow_kids(kids, i, joined(kids[i], keys[i], kids[i + 1]))),
        None => packed(id, keys, kids),
    }
}

/// How many pages that gives back.
pub open spec fn settled_freed(keys: Seq<Seq<u8>>, kids: Seq<Tree>, c: int) -> nat {
    match join_place(keys, kids, c) {
        Some(i) => if kids.len() == 2 {
            2
        } else {
            1
        },
        None => if kids.len() == 1 {
            1
        } else {
            0
        },
    }
}

/// Every node has a key.
pub open spec fn stocked(t: Tree) -> bool
    decreases t,
{
    match t {
        Tree::Leaf { id, keys, vals } => keys.len() > 0,
        Tree::Inner { id, keys, kids } => keys.len() > 0 && forall|i: int| 0 <= i < kids.len() ==> stocked(#[trigger] kids[i]),
    }
}

/// How many nodes a tree has, and with it how many pages it takes.
pub open spec fn nodes(t: Tree) -> nat
    decreases t, 0nat,
{
    match t {
        Tree::Leaf { .. } => 1,
        Tree::Inner { id, keys, kids } => 1 + nodes_upto(kids, kids.len()),
    }
}

/// How many nodes the first kids have.
pub open spec fn nodes_upto(kids: Seq<Tree>, n: nat) -> nat
    decreases kids, n,
{
    if n == 0 || n > kids.len() {
        0
    } else {
        nodes_upto(kids, (n - 1) as nat) + nodes(kids[n - 1])
    }
}

/// One of the kids has the page.
pub open spec fn in_kids(kids: Seq<Tree>, x: u32) -> bool {
    exists|i: int| 0 <= i < kids.len() && has_page(#[trigger] kids[i], x)
}

/// The bounds `lo2` and `hi2` are not tighter than `lo` and `hi`.
pub open spec fn looser(lo2: Option<Seq<u8>>, hi2: Option<Seq<u8>>, lo: Option<Seq<u8>>, hi: Option<Seq<u8>>) -> bool {
    &&& lo2 == lo || lo2 is None || (lo is Some && lex_less(lo2->0, lo->0))
    &&& hi2 == hi || hi2 is None || (hi is Some && lex_less(hi->0, hi2->0))
}

proof fn lemma_within_looser(k: Seq<u8>, lo2: Option<Seq<u8>>, hi2: Option<Seq<u8>>, lo: Option<Seq<u8>>, hi: Option<Seq<u8>>)
    requires
        looser(lo2, hi2, lo, hi),
    ensures
        within(k, lo, hi) ==> within(k, lo2, hi2),
        between(k, lo, hi) ==> between(k, lo2, hi2),
{
    if lo2 is Some && lo is Some && lo2 != lo {
        if lex_less(k, lo2->0) {
            lemma_lex_trans(k, lo2->0, lo->0);
        }
        if lex_less(lo->0, k) {
            lemma_lex_trans(lo2->0, lo->0, k);
        }
    }
    if hi2 is Some && hi is Some && hi2 != hi {
        if lex_less(k, hi->0) {
            lemma_lex_trans(k, hi->0, hi2->0);
        }
    }
}

/// A tree keeps to looser bounds.
pub proof fn lemma_looser(t: Tree, lo: Option<Seq<u8>>, hi: Option<Seq<u8>>, lo2: Option<Seq<u8>>, hi2: Option<Seq<u8>>)
    requires
        ordered(t, lo, hi),
        looser(lo2, hi2, lo, hi),
    ensures
        ordered(t, lo2, hi2),
    decreases t,
{
    match t {
        Tree::Leaf { id, keys, vals } => {
            assert forall|i: int| 0 <= i < keys.len() implies within(#[trigger] keys[i], lo2, hi2) by {
                lemma_within_looser(keys[i], lo2, hi2, lo, hi);
            }
        },
        Tree::Inner { id, keys, kids } => {
            assert forall|i: int| 0 <= i < keys.len() implies between(#[trigger] keys[i], lo2, hi2) by {
                lemma_within_looser(keys[i], lo2, hi2, lo, hi);
            }
            assert forall|i: int| 0 <= i < kids.len() implies ordered(#[trigger] kids[i], kid_low(keys, lo2, i), kid_high(keys, hi2, i)) by {
                assert(ordered(kids[i], kid_low(keys, lo, i), kid_high(keys, hi, i)));
                lemma_looser(kids[i], kid_low(keys, lo, i), kid_high(keys, hi, i), kid_low(keys, lo2, i), kid_high(keys, hi2, i));
            }
        },
    }
}

/// A key outside the bounds has no value.
pub proof fn lemma_outside(t: Tree, lo: Option<Seq<u8>>, hi: Option<Seq<u8>>, k: Seq<u8>)
    requires
        ordered(t, lo, hi),
        !within(k, lo, hi),
    ensures
        lookup(t, k) is None,
    decreases t,
{
    match t {
        Tree::Leaf { id, keys, vals } => {},
        Tree::Inner { id, keys, kids } => {
            lemma_upto(keys, k);
            let c = upto(keys, k) as int;
            assert(ordered(kids[c], kid_low(keys, lo, c), kid_high(keys, hi, c)));
            if lo is Some && lex_less(k, lo->0) {
                if c > 0 {
                    assert(between(keys[c - 1], lo, hi));
                    lemma_lex_trans(k, lo->0, keys[c - 1]);
                }
            } else {
                if c < keys.len() {
                    assert(between(keys[c], lo, hi));
                    lemma_lex_trans(k, keys[c], hi->0);
                }
            }
            lemma_outside(kids[c], kid_low(keys, lo, c), kid_high(keys, hi, c), k);
        },
    }
}

/// A list without one of its keys ascends.
pub proof fn lemma_removed_ascends(keys: Seq<Seq<u8>>, i: int)
    requires
        keys_ascend(keys),
        0 <= i < keys.len(),
    ensures
        keys_ascend(keys.remove(i)),
        forall|j: int| 0 <= j < keys.len() - 1 ==> #[trigger] keys.remove(i)[j] == keys[if j < i {
            j
        } else {
            j + 1
        }],
{
}

/// One kid in the place of two neighbours leaves the node in order.
pub proof fn lemma_narrow_order(id: u32, keys: Seq<Seq<u8>>, kids: Seq<Tree>, lo: Option<Seq<u8>>, hi: Option<Seq<u8>>, i: int, kid: Tree)
    requires
        ordered(Tree::Inner { id, keys, kids }, lo, hi),
        0 <= i < keys.len(),
        ordered(kid, kid_low(keys, lo, i), kid_high(keys, hi, i + 1)),
    ensures
        ordered(Tree::Inner { id, keys: keys.remove(i), kids: narrow_kids(kids, i, kid) }, lo, hi),
        ordered(packed(id, keys.remove(i), narrow_kids(kids, i, kid)), lo, hi),
{
    let k2 = keys.remove(i);
    let ks = narrow_kids(kids, i, kid);
    lemma_removed_ascends(keys, i);
    assert forall|j: int| 0 <= j < k2.len() implies between(#[trigger] k2[j], lo, hi) by {
        assert(between(keys[if j < i { j } else { j + 1 }], lo, hi));
    }
    assert forall|j: int| 0 <= j < ks.len() implies ordered(#[trigger] ks[j], kid_low(k2, lo, j), kid_high(k2, hi, j)) by {
        if j < i {
            assert(ordered(kids[j], kid_low(keys, lo, j), kid_high(keys, hi, j)));
        } else if j > i {
            assert(ordered(kids[j + 1], kid_low(keys, lo, j + 1), kid_high(keys, hi, j + 1)));
        }
    }
    lemma_packed_order(id, k2, ks, lo, hi);
}

/// A node that gives way to its only kid leaves it in order.
pub proof fn lemma_packed_order(id: u32, keys: Seq<Seq<u8>>, kids: Seq<Tree>, lo: Option<Seq<u8>>, hi: Option<Seq<u8>>)
    requires
        ordered(Tree::Inner { id, keys, kids }, lo, hi),
    ensures
        ordered(packed(id, keys, kids), lo, hi),
        forall|k: Seq<u8>| #[trigger] lookup(packed(id, keys, kids), k) == lookup(Tree::Inner { id, keys, kids }, k),
{
    if kids.len() == 1 {
        assert(ordered(kids[0], kid_low(keys, lo, 0), kid_high(keys, hi, 0)));
        assert forall|k: Seq<u8>| #[trigger] lookup(packed(id, keys, kids), k) == lookup(Tree::Inner { id, keys, kids }, k) by {
            assert(upto(keys, k) == 0);
        }
    }
}

/// What a node holds after one kid took the place of two neighbours.
pub proof fn lemma_narrow_lookup(id: u32, keys: Seq<Seq<u8>>, kids: Seq<Tree>, i: int, kid: Tree, k: Seq<u8>)
    requires
        keys_ascend(keys),
        kids.len() == keys.len() + 1,
        0 <= i < keys.len(),
    ensures
        upto(keys, k) <= keys.len(),
        lookup(Tree::Inner { id, keys: keys.remove(i), kids: narrow_kids(kids, i, kid) }, k) == (if upto(keys, k) == i || upto(keys, k) == i + 1 {
            lookup(kid, k)
        } else {
            lookup(kids[upto(keys, k) as int], k)
        }),
        upto(keys, k) == i ==> lex_less(k, keys[i]),
        upto(keys, k) == i + 1 ==> !lex_less(k, keys[i]),
{
    lemma_upto(keys, k);
    lemma_removed_ascends(keys, i);
    let k2 = keys.remove(i);
    let u = upto(keys, k) as int;
    let v: int = if u <= i { u } else { u - 1 };
    if u == i && i + 1 < keys.len() {
        lemma_lex_trans(k, keys[i], keys[i + 1]);
    }
    if v > 0 {
        assert(k2[v - 1] == keys[if v - 1 < i { v - 1 } else { v }]);
        if u == i + 1 && v > 0 {
            assert(!lex_less(k, keys[v - 1]));
        }
    }
    if v < k2.len() {
        assert(k2[v] == keys[if v < i { v } else { v + 1 }]);
    }
    lemma_upto_is(k2, k, v);
}

/// The pages of the kids after one took the place of two neighbours.
pub proof fn lemma_narrow_pages(id: u32, keys: Seq<Seq<u8>>, kids: Seq<Tree>, i: int, kid: Tree)
    requires
        0 <= i < kids.len() - 1,
        kids_apart(kids, id),
        apart(kid),
        forall|x: u32| #[trigger] has_page(kid, x) ==> has_page(kids[i], x) || has_page(kids[i + 1], x),
    ensures
        kids_apart(narrow_kids(kids, i, kid), id),
        forall|x: u32| #[trigger] in_kids(narrow_kids(kids, i, kid), x) ==> in_kids(kids, x),
{
    let ks = narrow_kids(kids, i, kid);
    assert forall|j: int| 0 <= j < ks.len() implies apart(#[trigger] ks[j]) && !has_page(ks[j], id) by {
        assert(apart(kids[i]) && !has_page(kids[i], id));
        assert(apart(kids[i + 1]) && !has_page(kids[i + 1], id));
        if j < i {
            assert(apart(kids[j]) && !has_page(kids[j], id));
        } else if j > i {
            assert(apart(kids[j + 1]) && !has_page(kids[j + 1], id));
        }
    }
    assert forall|a: int, b: int| 0 <= a < b < ks.len() implies disjoint(#[trigger] ks[a], #[trigger] ks[b]) by {
        assert forall|x: u32| !(#[trigger] has_page(ks[a], x) && #[trigger] has_page(ks[b], x)) by {
            let oa: int = if a <= i { a } else { a + 1 };
            let ob: int = if b <= i { b } else { b + 1 };
            assert(disjoint(kids[oa], kids[ob]));
            if a == i {
                assert(disjoint(kids[i + 1], kids[ob]));
            }
            if b == i {
                assert(disjoint(kids[oa], kids[i + 1]));
            }
        }
    }
    assert forall|x: u32| #[trigger] in_kids(ks, x) implies in_kids(kids, x) by {
        let j = choose|j: int| 0 <= j < ks.len() && has_page(#[trigger] ks[j], x);
        if j < i {
            assert(has_page(kids[j], x));
        } else if j > i {
            assert(has_page(kids[j + 1], x));
        } else {
            assert(has_page(kids[i], x) || has_page(kids[i + 1], x));
        }
    }
}

/// The pages of a node that may give way to its only kid.
pub proof fn lemma_packed_pages(id: u32, keys: Seq<Seq<u8>>, kids: Seq<Tree>)
    requires
        kids.len() > 0,
        kids_apart(kids, id),
    ensures
        apart(packed(id, keys, kids)),
        forall|x: u32| #[trigger] has_page(packed(id, keys, kids), x) ==> x == id || in_kids(kids, x),
        first_leaf(packed(id, keys, kids)) == first_leaf(kids[0]),
{
    let t = packed(id, keys, kids);
    assert(apart(kids[0]));
    assert forall|x: u32| #[trigger] has_page(t, x) implies x == id || in_kids(kids, x) by {
        if kids.len() == 1 {
            assert(has_page(kids[0], x));
        }
    }
}

proof fn lemma_inner_size_removed(a: NodeSpec, b: NodeSpec, i: int, j: nat)
    requires
        !a.leaf && !b.leaf,
        0 <= i < a.keys.len(),
        b.keys == a.keys.remove(i),
        j <= b.keys.len(),
    ensures
        size_to(b, j) + (if j <= i {
            0
        } else {
            entry_size(a, i)
        }) == size_to(a, if j <= i {
            j
        } else {
            j + 1
        }),
    decreases j,
{
    if j > 0 {
        lemma_inner_size_removed(a, b, i, (j - 1) as nat);
        if j - 1 < i {
            assert(entry_size(b, j - 1) == entry_size(a, j - 1));
        } else {
            assert(entry_size(b, j - 1) == entry_size(a, j as int));
            if j - 1 == i {
                assert(size_to(a, (i + 1) as nat) == size_to(a, i as nat) + entry_size(a, i));
            }
        }
    }
}

/// An inner node with a key less fits where it fitted before.
pub proof fn lemma_fewer_keys_fit(keys: Seq<Seq<u8>>, i: int)
    requires
        inner_fits(keys),
        0 <= i < keys.len(),
    ensures
        inner_fits(keys.remove(i)),
{
    let k2 = keys.remove(i);
    let a = NodeSpec { leaf: false, link: 0, keys, vals: Seq::empty(), children: Seq::new(keys.len(), |i: int| 0u32) };
    let b = NodeSpec { leaf: false, link: 0, keys: k2, vals: Seq::empty(), children: Seq::new(k2.len(), |i: int| 0u32) };
    lemma_inner_size_removed(a, b, i, k2.len());
    if k2.len() <= i {
        assert(size_to(a, (i + 1) as nat) == size_to(a, i as nat) + entry_size(a, i));
    }
}

/// The nodes fit their pages after one kid took the place of two neighbours, short
/// entries stay short, and every node still has a key.
pub proof fn lemma_narrow_sized(id: u32, keys: Seq<Seq<u8>>, kids: Seq<Tree>, i: int, kid: Tree)
    requires
        0 <= i < keys.len(),
        kids.len() == keys.len() + 1,
    ensures
        ({
            let t = Tree::Inner { id, keys, kids };
            let u = packed(id, keys.remove(i), narrow_kids(kids, i, kid));
            &&& sized(t) ==> inner_fits(keys.remove(i))
            &&& sized(t) && sized(kid) ==> sized(u)
            &&& short(t) && short(kid) ==> short(u)
            &&& stocked(t) && stocked(kid) ==> stocked(u)
        }),
{
    let t = Tree::Inner { id, keys, kids };
    let k2 = keys.remove(i);
    let ks = narrow_kids(kids, i, kid);
    let u = packed(id, k2, ks);
    assert(t->Inner_kids == kids && t->Inner_keys == keys);
    if sized(t) {
        lemma_fewer_keys_fit(keys, i);
    }
    assert forall|j: int| 0 <= j < ks.len() implies #[trigger] ks[j] == (if j < i { kids[j] } else if j == i { kid } else { kids[j + 1] }) by {}
    if sized(t) && sized(kid) {
        assert forall|j: int| 0 <= j < ks.len() implies sized(#[trigger] ks[j]) by {
            if j < i {
                assert(sized(kids[j]));
            } else if j > i {
                assert(sized(kids[j + 1]));
            }
        }
    }
    if short(t) && short(kid) {
        assert forall|j: int| 0 <= j < ks.len() implies short(#[trigger] ks[j]) by {
            if j < i {
                assert(short(kids[j]));
            } else if j > i {
                assert(short(kids[j + 1]));
            }
        }
        assert forall|j: int| 0 <= j < k2.len() implies (#[trigger] k2[j]).len() <= super::small::SHORT by {
            assert(k2[j] == keys[if j < i { j } else { j + 1 }]);
        }
    }
    if stocked(t) && stocked(kid) {
        assert forall|j: int| 0 <= j < ks.len() implies stocked(#[trigger] ks[j]) by {
            if j < i {
                assert(stocked(kids[j]));
            } else if j > i {
                assert(stocked(kids[j + 1]));
            }
        }
    }
}

/// Neighbours that are joined stay in order.
pub proof fn lemma_joined_order(a: Tree, sep: Seq<u8>, b: Tree, lo: Option<Seq<u8>>, hi: Option<Seq<u8>>)
    requires
        ordered(a, lo, Some(sep)),
        ordered(b, Some(sep), hi),
        joinable(a, sep, b),
        between(sep, lo, hi),
    ensures
        ordered(joined(a, sep, b), lo, hi),
{
    match a {
        Tree::Leaf { id, keys, vals } => {
            let k2 = b->Leaf_keys;
            let all = keys + k2;
            assert forall|i: int, j: int| 0 <= i < j < all.len() implies lex_less(#[trigger] all[i], #[trigger] all[j]) by {
                if i < keys.len() && j >= keys.len() {
                    assert(within(keys[i], lo, Some(sep)));
                    assert(within(k2[j - keys.len()], Some(sep), hi));
                    lemma_before(keys[i], sep, k2[j - keys.len()]);
                }
            }
            assert forall|i: int| 0 <= i < all.len() implies within(#[trigger] all[i], lo, hi) by {
                if i < keys.len() {
                    assert(within(keys[i], lo, Some(sep)));
                    lemma_within_looser(keys[i], lo, hi, lo, Some(sep));
                } else {
                    assert(within(k2[i - keys.len()], Some(sep), hi));
                    lemma_within_looser(k2[i - keys.len()], lo, hi, Some(sep), hi);
                }
            }
        },
        Tree::Inner { id, keys, kids } => {
            let k2 = b->Inner_keys;
            let c2 = b->Inner_kids;
            let all = keys.push(sep) + k2;
            let ks = kids + c2;
            let n = keys.len() as int;
            assert forall|i: int, j: int| 0 <= i < j < all.len() implies lex_less(#[trigger] all[i], #[trigger] all[j]) by {
                if i < n {
                    assert(between(keys[i], lo, Some(sep)));
                }
                if j > n {
                    assert(between(k2[j - n - 1], Some(sep), hi));
                }
                if i < n && j > n {
                    lemma_lex_trans(keys[i], sep, k2[j - n - 1]);
                }
            }
            assert forall|i: int| 0 <= i < all.len() implies between(#[trigger] all[i], lo, hi) by {
                if i < n {
                    assert(between(keys[i], lo, Some(sep)));
                    lemma_within_looser(keys[i], lo, hi, lo, Some(sep));
                } else if i > n {
                    assert(between(k2[i - n - 1], Some(sep), hi));
                    lemma_within_looser(k2[i - n - 1], lo, hi, Some(sep), hi);
                }
            }
            assert forall|i: int| 0 <= i < ks.len() implies ordered(#[trigger] ks[i], kid_low(all, lo, i), kid_high(all, hi, i)) by {
                if i <= n {
                    assert(ordered(kids[i], kid_low(keys, lo, i), kid_high(keys, Some(sep), i)));
                } else {
                    assert(ordered(c2[i - n - 1], kid_low(k2, Some(sep), i - n - 1), kid_high(k2, hi, i - n - 1)));
                }
            }
        },
    }
}

proof fn lemma_before(a: Seq<u8>, sep: Seq<u8>, b: Seq<u8>)
    requires
        lex_less(a, sep),
        !lex_less(b, sep),
    ensures
        lex_less(a, b),
{
    lemma_lex_total(b, sep);
    if b != sep {
        lemma_lex_trans(a, sep, b);
    }
}

/// Neighbours that are joined hold what they held.
pub proof fn lemma_joined_lookup(a: Tree, sep: Seq<u8>, b: Tree, lo: Option<Seq<u8>>, hi: Option<Seq<u8>>, k: Seq<u8>)
    requires
        ordered(a, lo, Some(sep)),
        ordered(b, Some(sep), hi),
        joinable(a, sep, b),
        between(sep, lo, hi),
    ensures
        lookup(joined(a, sep, b), k) == (if lex_less(k, sep) {
            lookup(a, k)
        } else {
            lookup(b, k)
        }),
{
    lemma_joined_order(a, sep, b, lo, hi);
    match a {
        Tree::Leaf { id, keys, vals } => {
            let (k2, v2) = (b->Leaf_keys, b->Leaf_vals);
            let (all, vs) = (keys + k2, vals + v2);
            let m = keys.len() as int;
            assert(all.take(m) =~= keys);
            assert(vs.take(m) =~= vals);
            assert(all.skip(m) =~= k2);
            assert(vs.skip(m) =~= v2);
            assert(lookup(joined(a, sep, b), k) == find(all, vs, k));
            assert(lookup(a, k) == find(keys, vals, k));
            assert(lookup(b, k) == find(k2, v2, k));
            if lex_less(k, sep) {
                lemma_outside(b, Some(sep), hi, k);
            } else {
                lemma_outside(a, lo, Some(sep), k);
            }
            if k2.len() > 0 {
                lemma_leaf_cut(all, vs, m, k);
                if lex_less(k, sep) {
                    assert(within(k2[0], Some(sep), hi));
                    lemma_before(k, sep, k2[0]);
                } else if lex_less(k, k2[0]) && find(k2, v2, k) is Some {
                    let i = below(k2, k) as int;
                    lemma_lex_total(k, k2[0]);
                    if i > 0 {
                        assert(lex_less(k2[0], k2[i]));
                    }
                }
            } else {
                assert(all =~= keys);
                assert(vs =~= vals);
            }
        },
        Tree::Inner { id, keys, kids } => {
            let (k2, c2) = (b->Inner_keys, b->Inner_kids);
            let all = keys.push(sep) + k2;
            let ks = kids + c2;
            let m = keys.len() as int;
            lemma_cut_lookup(id, b->Inner_id, all, ks, m, k);
            assert(all.take(m) =~= keys);
            assert(ks.take(m + 1) =~= kids);
            assert(all.skip(m + 1) =~= k2);
            assert(ks.skip(m + 1) =~= c2);
        },
    }
}

/// The pages of neighbours that are joined, and the sizes of their nodes.
pub proof fn lemma_joined_pages(a: Tree, sep: Seq<u8>, b: Tree, lo: Option<Seq<u8>>)
    requires
        apart(a),
        apart(b),
        disjoint(a, b),
        joinable(a, sep, b),
        ordered(a, lo, Some(sep)),
    ensures
        apart(joined(a, sep, b)),
        forall|x: u32| #[trigger] has_page(joined(a, sep, b), x) ==> has_page(a, x) || has_page(b, x),
        tree_id(joined(a, sep, b)) == tree_id(a),
        first_leaf(joined(a, sep, b)) == first_leaf(a),
{
    let j = joined(a, sep, b);
    match a {
        Tree::Leaf { .. } => {},
        Tree::Inner { id, keys, kids } => {
            let c2 = b->Inner_kids;
            let ks = kids + c2;
            assert(b == Tree::Inner { id: b->Inner_id, keys: b->Inner_keys, kids: c2 });
            assert(ks[0] == kids[0]);
            assert(has_page(a, id));
            assert forall|i: int| 0 <= i < ks.len() implies apart(#[trigger] ks[i]) && !has_page(ks[i], id) by {
                if i < kids.len() {
                    assert(apart(kids[i]) && !has_page(kids[i], id));
                } else {
                    let o = i - kids.len();
                    assert(apart(c2[o]));
                    if has_page(c2[o], id) {
                        assert(has_page(b, id));
                    }
                }
            }
            assert forall|i: int, m: int| 0 <= i < m < ks.len() implies disjoint(#[trigger] ks[i], #[trigger] ks[m]) by {
                if m < kids.len() {
                    assert(disjoint(kids[i], kids[m]));
                } else if i >= kids.len() {
                    assert(disjoint(c2[i - kids.len()], c2[m - kids.len()]));
                } else {
                    assert forall|x: u32| !(#[trigger] has_page(ks[i], x) && #[trigger] has_page(ks[m], x)) by {
                        if has_page(ks[i], x) && has_page(ks[m], x) {
                            assert(has_page(kids[i], x));
                            assert(has_page(c2[m - kids.len()], x));
                            assert(has_page(a, x) && has_page(b, x));
                        }
                    }
                }
            }
            assert forall|x: u32| #[trigger] has_page(j, x) implies has_page(a, x) || has_page(b, x) by {
                if x != id {
                    let i = choose|i: int| 0 <= i < ks.len() && has_page(#[trigger] ks[i], x);
                    if i < kids.len() {
                        assert(has_page(kids[i], x));
                    } else {
                        assert(has_page(c2[i - kids.len()], x));
                    }
                }
            }
        },
    }
}

/// A join fits its page, short entries stay short, and every node still has a key.
pub proof fn lemma_joined_sized(a: Tree, sep: Seq<u8>, b: Tree)
    requires
        joinable(a, sep, b),
        a is Leaf ==> a->Leaf_vals.len() == a->Leaf_keys.len(),
        b is Leaf ==> b->Leaf_vals.len() == b->Leaf_keys.len(),
    ensures
        sized(a) && sized(b) ==> sized(joined(a, sep, b)),
        short(a) && short(b) && sep.len() <= super::small::SHORT ==> short(joined(a, sep, b)),
        stocked(a) && stocked(b) ==> stocked(joined(a, sep, b)),
{
    let j = joined(a, sep, b);
    match a {
        Tree::Leaf { id, keys, vals } => {
            let (k2, v2) = (b->Leaf_keys, b->Leaf_vals);
            let (all, vs) = (keys + k2, vals + v2);
            if short(a) && short(b) {
                assert forall|i: int| 0 <= i < all.len() implies (#[trigger] all[i]).len() + vs[i].len() <= super::small::SHORT by {
                    if i < keys.len() {
                        assert(keys[i].len() + vals[i].len() <= super::small::SHORT);
                        assert(all[i] == keys[i] && vs[i] == vals[i]);
                    } else {
                        let o = i - keys.len();
                        assert(k2[o].len() + v2[o].len() <= super::small::SHORT);
                        assert(all[i] == k2[o] && vs[i] == v2[o]);
                    }
                }
            }
        },
        Tree::Inner { id, keys, kids } => {
            let (k2, c2) = (b->Inner_keys, b->Inner_kids);
            let all = keys.push(sep) + k2;
            let ks = kids + c2;
            assert forall|i: int| 0 <= i < ks.len() implies #[trigger] ks[i] == (if i < kids.len() { kids[i] } else { c2[i - kids.len()] }) by {}
            if sized(a) && sized(b) {
                assert forall|i: int| 0 <= i < ks.len() implies sized(#[trigger] ks[i]) by {
                    if i < kids.len() {
                        assert(sized(kids[i]));
                    } else {
                        assert(sized(c2[i - kids.len()]));
                    }
                }
            }
            if short(a) && short(b) && sep.len() <= super::small::SHORT {
                assert forall|i: int| 0 <= i < ks.len() implies short(#[trigger] ks[i]) by {
                    if i < kids.len() {
                        assert(short(kids[i]));
                    } else {
                        assert(short(c2[i - kids.len()]));
                    }
                }
                assert forall|i: int| 0 <= i < all.len() implies (#[trigger] all[i]).len() <= super::small::SHORT by {
                    if i < keys.len() {
                        assert(keys[i].len() <= super::small::SHORT);
                    } else if i > keys.len() {
                        assert(k2[i - keys.len() - 1].len() <= super::small::SHORT);
                    }
                }
            }
            if stocked(a) && stocked(b) {
                assert forall|i: int| 0 <= i < ks.len() implies stocked(#[trigger] ks[i]) by {
                    if i < kids.len() {
                        assert(stocked(kids[i]));
                    } else {
                        assert(stocked(c2[i - kids.len()]));
                    }
                }
            }
        },
    }
}

/// The shapes of the kids.
pub open spec fn shapes(kids: Seq<Tree>) -> Seq<Tree> {
    kids.map_values(|t: Tree| shape(t))
}

/// The shape of an inner node.
pub proof fn lemma_shape_inner(id: u32, keys: Seq<Seq<u8>>, kids: Seq<Tree>)
    ensures
        shape(Tree::Inner { id, keys, kids }) == (Tree::Inner { id: 0, keys, kids: shapes(kids) }),
{
    let t = Tree::Inner { id, keys, kids };
    assert(shape(t)->Inner_kids =~= shapes(kids));
}

/// Neighbours and their shapes are joined alike.
pub proof fn lemma_joined_shape(a: Tree, sep: Seq<u8>, b: Tree)
    ensures
        joinable(shape(a), sep, shape(b)) == joinable(a, sep, b),
        shape(joined(a, sep, b)) == joined(shape(a), sep, shape(b)),
{
    if a is Inner {
        let (ka, ca) = (a->Inner_keys, a->Inner_kids);
        lemma_shape_inner(a->Inner_id, ka, ca);
        if b is Inner {
            let (kb, cb) = (b->Inner_keys, b->Inner_kids);
            lemma_shape_inner(b->Inner_id, kb, cb);
            lemma_shape_inner(a->Inner_id, ka.push(sep) + kb, ca + cb);
            assert(shapes(ca + cb) =~= shapes(ca) + shapes(cb));
        }
    } else if b is Inner {
        lemma_shape_inner(b->Inner_id, b->Inner_keys, b->Inner_kids);
    }
}

/// A node and its shape are packed alike.
pub proof fn lemma_packed_shape(id: u32, keys: Seq<Seq<u8>>, kids: Seq<Tree>)
    ensures
        shape(packed(id, keys, kids)) == packed(0, keys, shapes(kids)),
{
    lemma_shape_inner(id, keys, kids);
}

/// A node and its shape settle alike.
pub proof fn lemma_settled_shape(id: u32, keys: Seq<Seq<u8>>, kids: Seq<Tree>, c: int)
    requires
        0 <= c < kids.len(),
    ensures
        join_place(keys, shapes(kids), c) == join_place(keys, kids, c),
        shape(settled(id, keys, kids, c)) == settled(0, keys, shapes(kids), c),
        settled_freed(keys, shapes(kids), c) == settled_freed(keys, kids, c),
{
    if c + 1 < kids.len() {
        lemma_joined_shape(kids[c], keys[c], kids[c + 1]);
    }
    if 0 < c {
        lemma_joined_shape(kids[c - 1], keys[c - 1], kids[c]);
    }
    match join_place(keys, kids, c) {
        Some(i) => {
            let kid = joined(kids[i], keys[i], kids[i + 1]);
            lemma_packed_shape(id, keys.remove(i), narrow_kids(kids, i, kid));
            assert(shapes(narrow_kids(kids, i, kid)) =~= narrow_kids(shapes(kids), i, shape(kid)));
        },
        None => {
            lemma_packed_shape(id, keys, kids);
        },
    }
}

/// What settling keeps: order, contents, sizes, keys in every node, the pages and the
/// first leaf.
#[verifier::spinoff_prover]
pub proof fn lemma_settled(id: u32, keys: Seq<Seq<u8>>, kids: Seq<Tree>, c: int, lo: Option<Seq<u8>>, hi: Option<Seq<u8>>)
    requires
        ordered(Tree::Inner { id, keys, kids }, lo, hi),
        0 <= c < kids.len(),
    ensures
        ({
            let t = Tree::Inner { id, keys, kids };
            let u = settled(id, keys, kids, c);
            &&& ordered(u, lo, hi)
            &&& forall|k: Seq<u8>| #[trigger] lookup(u, k) == lookup(t, k)
            &&& sized(t) ==> sized(u)
            &&& short(t) ==> short(u)
            &&& stocked(t) ==> stocked(u)
        }),
{
    let t = Tree::Inner { id, keys, kids };
    let u = settled(id, keys, kids, c);
    match join_place(keys, kids, c) {
        Some(i) => {
            let (a, sep, b) = (kids[i], keys[i], kids[i + 1]);
            let kid = joined(a, sep, b);
            let (l, h) = (kid_low(keys, lo, i), kid_high(keys, hi, i + 1));
            assert(ordered(a, l, kid_high(keys, hi, i)));
            assert(ordered(b, kid_low(keys, lo, i + 1), h));
            assert(between(sep, l, h)) by {
                assert(between(keys[i], lo, hi));
            }
            lemma_joined_order(a, sep, b, l, h);
            lemma_joined_sized(a, sep, b);
            lemma_narrow_order(id, keys, kids, lo, hi, i, kid);
            lemma_narrow_sized(id, keys, kids, i, kid);
            let (k2, ks) = (keys.remove(i), narrow_kids(kids, i, kid));
            lemma_packed_order(id, k2, ks, lo, hi);
            assert forall|k: Seq<u8>| #[trigger] lookup(u, k) == lookup(t, k) by {
                lemma_narrow_lookup(id, keys, kids, i, kid, k);
                lemma_joined_lookup(a, sep, b, l, h, k);
                assert(lookup(u, k) == lookup(Tree::Inner { id, keys: k2, kids: ks }, k));
            }
            if sized(t) {
                assert(sized(kids[i]) && sized(kids[i + 1]));
            }
            if short(t) {
                assert(short(kids[i]) && short(kids[i + 1]));
                assert(keys[i].len() <= super::small::SHORT);
            }
            if stocked(t) {
                assert(stocked(kids[i]) && stocked(kids[i + 1]));
            }
        },
        None => {
            lemma_packed_order(id, keys, kids, lo, hi);
            if kids.len() == 1 {
                assert(sized(t) ==> sized(kids[0]));
                assert(short(t) ==> short(kids[0]));
            }
        },
    }
}

/// What settling keeps of the pages.
pub proof fn lemma_settled_pages(id: u32, keys: Seq<Seq<u8>>, kids: Seq<Tree>, c: int, lo: Option<Seq<u8>>, hi: Option<Seq<u8>>)
    requires
        ordered(Tree::Inner { id, keys, kids }, lo, hi),
        apart(Tree::Inner { id, keys, kids }),
        0 <= c < kids.len(),
    ensures
        ({
            let t = Tree::Inner { id, keys, kids };
            let u = settled(id, keys, kids, c);
            &&& apart(u)
            &&& forall|x: u32| #[trigger] has_page(u, x) ==> has_page(t, x)
            &&& first_leaf(u) == first_leaf(t)
        }),
{
    let t = Tree::Inner { id, keys, kids };
    let u = settled(id, keys, kids, c);
    assert(kids_apart(kids, id));
    match join_place(keys, kids, c) {
        Some(i) => {
            let (a, sep, b) = (kids[i], keys[i], kids[i + 1]);
            let kid = joined(a, sep, b);
            assert(ordered(a, kid_low(keys, lo, i), kid_high(keys, hi, i)));
            assert(apart(a) && apart(b) && disjoint(a, b));
            lemma_joined_pages(a, sep, b, kid_low(keys, lo, i));
            lemma_narrow_pages(id, keys, kids, i, kid);
            let ks = narrow_kids(kids, i, kid);
            lemma_packed_pages(id, keys.remove(i), ks);
            assert(ks[0] == (if i == 0 { kid } else { kids[0] }));
            assert forall|x: u32| #[trigger] has_page(u, x) implies has_page(t, x) by {
                assert(x == id || in_kids(ks, x));
                assert(in_kids(ks, x) ==> in_kids(kids, x));
            }
        },
        None => {
            lemma_packed_pages(id, keys, kids);
            assert forall|x: u32| #[trigger] has_page(u, x) implies has_page(t, x) by {
                assert(x == id || in_kids(kids, x));
            }
        },
    }
}

} // verus!
