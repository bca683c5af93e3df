//! B+ trees as mathematical values: lookup, insertion with splits, and the order
//! of the entries.

use super::node::{fits_page, NodeSpec};
use crate::text::{lemma_lex_total, lemma_lex_trans, lex_less};
use vstd::prelude::*;

verus! {

/// A tree of nodes, each on a page. Kid `i` of an inner node holds the keys that
/// come before key `i` and not before key `i - 1`.
pub ghost enum Tree {
    Leaf { id: u32, keys: Seq<Seq<u8>>, vals: Seq<Seq<u8>> },
    Inner { id: u32, keys: Seq<Seq<u8>>, kids: Seq<Tree> },
}

/// The page of the top node.
pub open spec fn tree_id(t: Tree) -> u32 {
    match t {
        Tree::Leaf { id, .. } => id,
        Tree::Inner { id, .. } => id,
    }
}

/// The page of the first leaf.
pub open spec fn first_leaf(t: Tree) -> u32
    decreases t,
{
    match t {
        Tree::Leaf { id, .. } => id,
        Tree::Inner { id, keys, kids } => if kids.len() == 0 {
            0
        } else {
            first_leaf(kids[0])
        },
    }
}

/// How many keys do not come behind `key`.
pub open spec fn upto(keys: Seq<Seq<u8>>, key: Seq<u8>) -> nat
    decreases keys.len(),
{
    if keys.len() == 0 {
        0
    } else if lex_less(key, keys.last()) {
        upto(keys.drop_last(), key)
    } else {
        keys.len()
    }
}

/// How many keys come before `key`.
pub open spec fn below(keys: Seq<Seq<u8>>, key: Seq<u8>) -> nat
    decreases keys.len(),
{
    if keys.len() == 0 {
        0
    } else if lex_less(keys.last(), key) {
        keys.len()
    } else {
        below(keys.drop_last(), key)
    }
}

/// Each key comes before all later ones.
pub open spec fn keys_ascend(keys: Seq<Seq<u8>>) -> bool {
    forall|i: int, j: int| 0 <= i < j < keys.len() ==> lex_less(#[trigger] keys[i], #[trigger] keys[j])
}

/// The key is not before `lo` and comes before `hi`.
pub open spec fn within(k: Seq<u8>, lo: Option<Seq<u8>>, hi: Option<Seq<u8>>) -> bool {
    &&& lo matches Some(l) ==> !lex_less(k, l)
    &&& hi matches Some(h) ==> lex_less(k, h)
}

/// The key comes behind `lo` and before `hi`.
pub open spec fn between(k: Seq<u8>, lo: Option<Seq<u8>>, hi: Option<Seq<u8>>) -> bool {
    &&& lo matches Some(l) ==> lex_less(l, k)
    &&& hi matches Some(h) ==> lex_less(k, h)
}

/// The lower bound of the keys in a kid.
pub open spec fn kid_low(keys: Seq<Seq<u8>>, lo: Option<Seq<u8>>, i: int) -> Option<Seq<u8>> {
    if i == 0 {
        lo
    } else {
        Some(keys[i - 1])
    }
}

/// The upper bound of the keys in a kid.
pub open spec fn kid_high(keys: Seq<Seq<u8>>, hi: Option<Seq<u8>>, i: int) -> Option<Seq<u8>> {
    if i == keys.len() {
        hi
    } else {
        Some(keys[i])
    }
}

/// The keys ascend, and lie between the bounds that the inner nodes set.
pub open spec fn ordered(t: Tree, lo: Option<Seq<u8>>, hi: Option<Seq<u8>>) -> bool
    decreases t,
{
    match t {
        Tree::Leaf { id, keys, vals } => {
            &&& vals.len() == keys.len()
            &&& keys_ascend(keys)
            &&& forall|i: int| 0 <= i < keys.len() ==> within(#[trigger] keys[i], lo, hi)
        },
        Tree::Inner { id, keys, kids } => {
            &&& kids.len() == keys.len() + 1
            &&& keys_ascend(keys)
            &&& forall|i: int| 0 <= i < keys.len() ==> between(#[trigger] keys[i], lo, hi)
            &&& forall|i: int| 0 <= i < kids.len() ==> ordered(#[trigger] kids[i], kid_low(keys, lo, i), kid_high(keys, hi, i))
        },
    }
}

/// The value of a key.
pub open spec fn lookup(t: Tree, key: Seq<u8>) -> Option<Seq<u8>>
    decreases t,
{
    match t {
        Tree::Leaf { id, keys, vals } => {
            let i = below(keys, key) as int;
            if i < keys.len() && keys[i] == key {
                Some(vals[i])
            } else {
                None
            }
        },
        Tree::Inner { id, keys, kids } => {
            let c = upto(keys, key) as int;
            if c < kids.len() {
                lookup(kids[c], key)
            } else {
                None
            }
        },
    }
}

/// The page belongs to the tree.
pub open spec fn has_page(t: Tree, x: u32) -> bool
    decreases t,
{
    match t {
        Tree::Leaf { id, .. } => x == id,
        Tree::Inner { id, keys, kids } => x == id || exists|i: int| 0 <= i < kids.len() && has_page(#[trigger] kids[i], x),
    }
}

/// No page is shared by two trees.
pub open spec fn disjoint(a: Tree, b: Tree) -> bool {
    forall|x: u32| !(#[trigger] has_page(a, x) && #[trigger] has_page(b, x))
}

/// No page is used twice in the tree.
pub open spec fn apart(t: Tree) -> bool
    decreases t,
{
    match t {
        Tree::Leaf { .. } => true,
        Tree::Inner { id, keys, kids } => {
            &&& forall|i: int| 0 <= i < kids.len() ==> apart(#[trigger] kids[i]) && !has_page(kids[i], id)
            &&& forall|i: int, j: int| 0 <= i < j < kids.len() ==> disjoint(#[trigger] kids[i], #[trigger] kids[j])
        },
    }
}

/// The pages of the second and later kids.
pub open spec fn later_kids(kids: Seq<Tree>) -> Seq<u32> {
    Seq::new((kids.len() - 1) as nat, |i: int| tree_id(kids[i + 1]))
}

/// The top node as it stands on its page, if the leaf behind the tree is `next`.
pub open spec fn top_node(t: Tree, next: u32) -> NodeSpec {
    match t {
        Tree::Leaf { id, keys, vals } => NodeSpec { leaf: true, link: next, keys, vals, children: Seq::empty() },
        Tree::Inner { id, keys, kids } => NodeSpec { leaf: false, link: tree_id(kids[0]), keys, vals: Seq::empty(), children: later_kids(kids) },
    }
}

/// A leaf with these entries fits a page.
pub open spec fn leaf_fits(keys: Seq<Seq<u8>>, vals: Seq<Seq<u8>>) -> bool {
    fits_page(NodeSpec { leaf: true, link: 0, keys, vals, children: Seq::empty() })
}

/// An inner node with these keys fits a page.
pub open spec fn inner_fits(keys: Seq<Seq<u8>>) -> bool {
    fits_page(NodeSpec { leaf: false, link: 0, keys, vals: Seq::empty(), children: Seq::new(keys.len(), |i: int| 0u32) })
}

/// Every node fits a page.
pub open spec fn sized(t: Tree) -> bool
    decreases t,
{
    match t {
        Tree::Leaf { id, keys, vals } => leaf_fits(keys, vals),
        Tree::Inner { id, keys, kids } => inner_fits(keys) && forall|i: int| 0 <= i < kids.len() ==> sized(#[trigger] kids[i]),
    }
}

/// The keys of a leaf after an insertion.
pub open spec fn leaf_keys(keys: Seq<Seq<u8>>, key: Seq<u8>) -> Seq<Seq<u8>> {
    let i = below(keys, key) as int;
    if i < keys.len() && keys[i] == key {
        keys
    } else {
        keys.insert(i, key)
    }
}

/// The values of a leaf after an insertion.
pub open spec fn leaf_vals(keys: Seq<Seq<u8>>, vals: Seq<Seq<u8>>, key: Seq<u8>, val: Seq<u8>) -> Seq<Seq<u8>> {
    let i = below(keys, key) as int;
    if i < keys.len() && keys[i] == key {
        vals.update(i, val)
    } else {
        vals.insert(i, val)
    }
}

/// Where a node is cut.
pub open spec fn middle(keys: Seq<Seq<u8>>) -> int {
    keys.len() as int / 2
}

/// The key that separates the two parts, if the insertion cuts the top node.
pub open spec fn split_key(t: Tree, key: Seq<u8>, val: Seq<u8>) -> Option<Seq<u8>>
    decreases t,
{
    match t {
        Tree::Leaf { id, keys, vals } => {
            let k2 = leaf_keys(keys, key);
            if leaf_fits(k2, leaf_vals(keys, vals, key, val)) {
                None
            } else {
                Some(k2[middle(k2)])
            }
        },
        Tree::Inner { id, keys, kids } => {
            let c = upto(keys, key) as int;
            if c < kids.len() {
                match split_key(kids[c], key, val) {
                    None => None,
                    Some(sep) => {
                        let k2 = keys.insert(c, sep);
                        if inner_fits(k2) {
                            None
                        } else {
                            Some(k2[middle(k2)])
                        }
                    },
                }
            } else {
                None
            }
        },
    }
}

/// How many nodes an insertion cuts in two.
pub open spec fn splits(t: Tree, key: Seq<u8>, val: Seq<u8>) -> nat
    decreases t,
{
    let here: nat = if split_key(t, key, val) is Some {
        1
    } else {
        0
    };
    match t {
        Tree::Leaf { .. } => here,
        Tree::Inner { id, keys, kids } => {
            let c = upto(keys, key) as int;
            if c < kids.len() {
                here + splits(kids[c], key, val)
            } else {
                here
            }
        },
    }
}

/// After the insertion, with one cut where it is needed, every node on the way
/// fits a page.
pub open spec fn insertion_fits(t: Tree, key: Seq<u8>, val: Seq<u8>) -> bool
    decreases t,
{
    match t {
        Tree::Leaf { id, keys, vals } => {
            let k2 = leaf_keys(keys, key);
            let v2 = leaf_vals(keys, vals, key, val);
            let m = middle(k2);
            leaf_fits(k2, v2) || (leaf_fits(k2.take(m), v2.take(m)) && leaf_fits(k2.skip(m), v2.skip(m)))
        },
        Tree::Inner { id, keys, kids } => {
            let c = upto(keys, key) as int;
            c < kids.len() && insertion_fits(kids[c], key, val) && match split_key(kids[c], key, val) {
                None => true,
                Some(sep) => {
                    let k2 = keys.insert(c, sep);
                    let m = middle(k2);
                    inner_fits(k2) || (inner_fits(k2.take(m)) && inner_fits(k2.skip(m + 1)))
                },
            }
        },
    }
}

/// A tree after an insertion: one tree, or two and the key between them.
pub ghost struct Grown {
    pub left: Tree,
    pub sep: Seq<u8>,
    pub right: Option<Tree>,
}

/// The pages for the cuts below the top node.
pub open spec fn ids_below(t: Tree, key: Seq<u8>, val: Seq<u8>, ids: Seq<u32>) -> Seq<u32> {
    if split_key(t, key, val) is Some {
        ids.drop_last()
    } else {
        ids
    }
}

/// Insert or replace. The new nodes stand on the pages `ids`.
pub open spec fn grown(t: Tree, key: Seq<u8>, val: Seq<u8>, ids: Seq<u32>) -> Grown
    decreases t,
{
    match t {
        Tree::Leaf { id, keys, vals } => {
            let k2 = leaf_keys(keys, key);
            let v2 = leaf_vals(keys, vals, key, val);
            let m = middle(k2);
            if leaf_fits(k2, v2) {
                Grown { left: Tree::Leaf { id, keys: k2, vals: v2 }, sep: Seq::empty(), right: None }
            } else {
                Grown {
                    left: Tree::Leaf { id, keys: k2.take(m), vals: v2.take(m) },
                    sep: k2[m],
                    right: Some(Tree::Leaf { id: ids.last(), keys: k2.skip(m), vals: v2.skip(m) }),
                }
            }
        },
        Tree::Inner { id, keys, kids } => {
            let c = upto(keys, key) as int;
            if c < kids.len() {
                let g = grown(kids[c], key, val, ids_below(t, key, val, ids));
                match g.right {
                    None => Grown { left: Tree::Inner { id, keys, kids: kids.update(c, g.left) }, sep: Seq::empty(), right: None },
                    Some(r) => {
                        let k2 = keys.insert(c, g.sep);
                        let kids2 = kids.update(c, g.left).insert(c + 1, r);
                        let m = middle(k2);
                        if inner_fits(k2) {
                            Grown { left: Tree::Inner { id, keys: k2, kids: kids2 }, sep: Seq::empty(), right: None }
                        } else {
                            Grown {
                                left: Tree::Inner { id, keys: k2.take(m), kids: kids2.take(m + 1) },
                                sep: k2[m],
                                right: Some(Tree::Inner { id: ids.last(), keys: k2.skip(m + 1), kids: kids2.skip(m + 1) }),
                            }
                        }
                    },
                }
            } else {
                Grown { left: t, sep: Seq::empty(), right: None }
            }
        },
    }
}

/// Keys up to a key are a beginning of the list.
pub proof fn lemma_upto(keys: Seq<Seq<u8>>, key: Seq<u8>)
    requires
        keys_ascend(keys),
    ensures
        upto(keys, key) <= keys.len(),
        forall|i: int| 0 <= i < upto(keys, key) ==> !lex_less(key, #[trigger] keys[i]),
        forall|i: int| upto(keys, key) <= i < keys.len() ==> lex_less(key, #[trigger] keys[i]),
    decreases keys.len(),
{
    if keys.len() > 0 {
        let d = keys.drop_last();
        assert forall|i: int, j: int| 0 <= i < j < d.len() implies lex_less(#[trigger] d[i], #[trigger] d[j]) by {
            assert(d[i] == keys[i] && d[j] == keys[j]);
        }
        lemma_upto(d, key);
        if lex_less(key, keys.last()) {
            assert forall|i: int| 0 <= i < upto(keys, key) implies !lex_less(key, #[trigger] keys[i]) by {
                assert(d[i] == keys[i]);
            }
            assert forall|i: int| upto(keys, key) <= i < keys.len() implies lex_less(key, #[trigger] keys[i]) by {
                if i < d.len() {
                    assert(d[i] == keys[i]);
                }
            }
        } else {
            assert forall|i: int| 0 <= i < keys.len() implies !lex_less(key, #[trigger] keys[i]) by {
                if i < keys.len() - 1 && lex_less(key, keys[i]) {
                    lemma_lex_trans(key, keys[i], keys.last());
                }
            }
        }
    }
}

/// Keys before a key are a beginning of the list.
pub proof fn lemma_below(keys: Seq<Seq<u8>>, key: Seq<u8>)
    requires
        keys_ascend(keys),
    ensures
        below(keys, key) <= keys.len(),
        forall|i: int| 0 <= i < below(keys, key) ==> lex_less(#[trigger] keys[i], key),
        forall|i: int| below(keys, key) <= i < keys.len() ==> !lex_less(#[trigger] keys[i], key),
    decreases keys.len(),
{
    if keys.len() > 0 {
        let d = keys.drop_last();
        assert forall|i: int, j: int| 0 <= i < j < d.len() implies lex_less(#[trigger] d[i], #[trigger] d[j]) by {
            assert(d[i] == keys[i] && d[j] == keys[j]);
        }
        lemma_below(d, key);
        if lex_less(keys.last(), key) {
            assert forall|i: int| 0 <= i < keys.len() implies lex_less(#[trigger] keys[i], key) by {
                if i < keys.len() - 1 {
                    lemma_lex_trans(keys[i], keys.last(), key);
                }
            }
        } else {
            assert forall|i: int| 0 <= i < below(keys, key) implies lex_less(#[trigger] keys[i], key) by {
                assert(d[i] == keys[i]);
            }
            assert forall|i: int| below(keys, key) <= i < keys.len() implies !lex_less(#[trigger] keys[i], key) by {
                if i < d.len() {
                    assert(d[i] == keys[i]);
                }
            }
        }
    }
}

/// The number of keys up to a key is fixed by its neighbours.
pub proof fn lemma_upto_is(keys: Seq<Seq<u8>>, key: Seq<u8>, c: int)
    requires
        keys_ascend(keys),
        0 <= c <= keys.len(),
        c > 0 ==> !lex_less(key, keys[c - 1]),
        c < keys.len() ==> lex_less(key, keys[c]),
    ensures
        upto(keys, key) == c,
{
    lemma_upto(keys, key);
    let u = upto(keys, key) as int;
    if u < c {
        assert(lex_less(key, keys[c - 1]));
    }
    if u > c {
        assert(!lex_less(key, keys[c]));
    }
}

/// A key stands at most once in an ascending list, and there `below` finds it.
pub proof fn lemma_below_is(keys: Seq<Seq<u8>>, key: Seq<u8>, i: int)
    requires
        keys_ascend(keys),
        0 <= i < keys.len(),
        keys[i] == key,
    ensures
        below(keys, key) == i,
{
    lemma_below(keys, key);
    lemma_lex_total(key, key);
    let b = below(keys, key) as int;
    if b < i {
        assert(!lex_less(keys[b], key));
        assert(lex_less(keys[b], keys[i]));
    }
    if b > i {
        assert(lex_less(keys[i], key));
    }
}

/// A key that fits between its neighbours keeps a list ascending.
pub proof fn lemma_insert_ascends(keys: Seq<Seq<u8>>, c: int, x: Seq<u8>)
    requires
        keys_ascend(keys),
        0 <= c <= keys.len(),
        c > 0 ==> lex_less(keys[c - 1], x),
        c < keys.len() ==> lex_less(x, keys[c]),
    ensures
        keys_ascend(keys.insert(c, x)),
{
    let k2 = keys.insert(c, x);
    assert forall|i: int, j: int| 0 <= i < j < k2.len() implies lex_less(#[trigger] k2[i], #[trigger] k2[j]) by {
        if j < c {
            assert(k2[i] == keys[i] && k2[j] == keys[j]);
        } else if j == c {
            assert(k2[i] == keys[i]);
            if i < c - 1 {
                assert(lex_less(keys[i], keys[c - 1]));
                lemma_lex_trans(keys[i], keys[c - 1], x);
            }
        } else if i < c {
            assert(k2[i] == keys[i] && k2[j] == keys[j - 1]);
        } else if i == c {
            assert(k2[j] == keys[j - 1]);
            if j - 1 > c {
                assert(lex_less(keys[c], keys[j - 1]));
                lemma_lex_trans(x, keys[c], keys[j - 1]);
            }
        } else {
            assert(k2[i] == keys[i - 1] && k2[j] == keys[j - 1]);
        }
    }
}

/// Parts of an ascending list ascend.
pub proof fn lemma_parts_ascend(keys: Seq<Seq<u8>>, m: int)
    requires
        keys_ascend(keys),
        0 <= m <= keys.len(),
    ensures
        keys_ascend(keys.take(m)),
        keys_ascend(keys.skip(m)),
{
    assert forall|i: int, j: int| 0 <= i < j < keys.take(m).len() implies lex_less(#[trigger] keys.take(m)[i], #[trigger] keys.take(m)[j]) by {
        assert(lex_less(keys[i], keys[j]));
    }
    assert forall|i: int, j: int| 0 <= i < j < keys.skip(m).len() implies lex_less(#[trigger] keys.skip(m)[i], #[trigger] keys.skip(m)[j]) by {
        assert(lex_less(keys[m + i], keys[m + j]));
    }
}

/// The keys of a leaf ascend after an insertion, and are those before and the new
/// one.
pub proof fn lemma_leaf_keys(keys: Seq<Seq<u8>>, key: Seq<u8>)
    requires
        keys_ascend(keys),
    ensures
        keys_ascend(leaf_keys(keys, key)),
        forall|i: int| 0 <= i < leaf_keys(keys, key).len() ==> (#[trigger] leaf_keys(keys, key)[i]) == key || keys.contains(leaf_keys(keys, key)[i]),
        leaf_keys(keys, key).len() > 0,
{
    let i = below(keys, key) as int;
    lemma_below(keys, key);
    if i < keys.len() && keys[i] == key {
    } else {
        if i < keys.len() {
            lemma_lex_total(keys[i], key);
        }
        lemma_insert_ascends(keys, i, key);
        let k2 = keys.insert(i, key);
        assert forall|j: int| 0 <= j < k2.len() implies #[trigger] k2[j] == key || keys.contains(k2[j]) by {
            if j < i {
                assert(k2[j] == keys[j]);
            } else if j > i {
                assert(k2[j] == keys[j - 1]);
            }
        }
    }
}

/// A kid that was cut in two leaves the node in order.
pub proof fn lemma_wider_order(id: u32, keys: Seq<Seq<u8>>, kids: Seq<Tree>, lo: Option<Seq<u8>>, hi: Option<Seq<u8>>, c: int, left: Tree, sep: Seq<u8>, right: Tree)
    requires
        ordered(Tree::Inner { id, keys, kids }, lo, hi),
        0 <= c < kids.len(),
        between(sep, kid_low(keys, lo, c), kid_high(keys, hi, c)),
        ordered(left, kid_low(keys, lo, c), Some(sep)),
        ordered(right, Some(sep), kid_high(keys, hi, c)),
    ensures
        ordered(Tree::Inner { id, keys: keys.insert(c, sep), kids: kids.update(c, left).insert(c + 1, right) }, lo, hi),
{
    let k2 = keys.insert(c, sep);
    let kids2 = kids.update(c, left).insert(c + 1, right);
    lemma_insert_ascends(keys, c, sep);
    assert forall|i: int| 0 <= i < k2.len() implies between(#[trigger] k2[i], lo, hi) by {
        if i < c {
            assert(k2[i] == keys[i]);
        } else if i > c {
            assert(k2[i] == keys[i - 1]);
        } else {
            if c > 0 {
                assert(between(keys[c - 1], lo, hi));
                if lo is Some {
                    lemma_lex_trans(lo->0, keys[c - 1], sep);
                }
            }
            if c < keys.len() {
                assert(between(keys[c], lo, hi));
                if hi is Some {
                    lemma_lex_trans(sep, keys[c], hi->0);
                }
            }
        }
    }
    assert forall|i: int| 0 <= i < kids2.len() implies ordered(#[trigger] kids2[i], kid_low(k2, lo, i), kid_high(k2, hi, i)) by {
        if i < c {
            assert(kids2[i] == kids[i]);
            assert(ordered(kids[i], kid_low(keys, lo, i), kid_high(keys, hi, i)));
        } else if i > c + 1 {
            assert(kids2[i] == kids[i - 1]);
            assert(ordered(kids[i - 1], kid_low(keys, lo, i - 1), kid_high(keys, hi, i - 1)));
        }
    }
}

/// Cutting an inner node leaves both parts in order.
pub proof fn lemma_cut_order(id: u32, id2: u32, keys: Seq<Seq<u8>>, kids: Seq<Tree>, lo: Option<Seq<u8>>, hi: Option<Seq<u8>>, m: int)
    requires
        ordered(Tree::Inner { id, keys, kids }, lo, hi),
        0 <= m < keys.len(),
    ensures
        ordered(Tree::Inner { id, keys: keys.take(m), kids: kids.take(m + 1) }, lo, Some(keys[m])),
        ordered(Tree::Inner { id: id2, keys: keys.skip(m + 1), kids: kids.skip(m + 1) }, Some(keys[m]), hi),
        between(keys[m], lo, hi),
{
    lemma_parts_ascend(keys, m);
    lemma_parts_ascend(keys, m + 1);
    let (ka, kb) = (keys.take(m), keys.skip(m + 1));
    let (ta, tb) = (kids.take(m + 1), kids.skip(m + 1));
    assert forall|i: int| 0 <= i < ka.len() implies between(#[trigger] ka[i], lo, Some(keys[m])) by {
        assert(ka[i] == keys[i]);
        assert(between(keys[i], lo, hi));
    }
    assert forall|i: int| 0 <= i < kb.len() implies between(#[trigger] kb[i], Some(keys[m]), hi) by {
        assert(kb[i] == keys[m + 1 + i]);
        assert(between(keys[m + 1 + i], lo, hi));
    }
    assert forall|i: int| 0 <= i < ta.len() implies ordered(#[trigger] ta[i], kid_low(ka, lo, i), kid_high(ka, Some(keys[m]), i)) by {
        assert(ta[i] == kids[i]);
        assert(ordered(kids[i], kid_low(keys, lo, i), kid_high(keys, hi, i)));
    }
    assert forall|i: int| 0 <= i < tb.len() implies ordered(#[trigger] tb[i], kid_low(kb, Some(keys[m]), i), kid_high(kb, hi, i)) by {
        assert(tb[i] == kids[m + 1 + i]);
        assert(ordered(kids[m + 1 + i], kid_low(keys, lo, m + 1 + i), kid_high(keys, hi, m + 1 + i)));
    }
}

/// The kid for a key may hold it.
pub proof fn lemma_kid_for(keys: Seq<Seq<u8>>, lo: Option<Seq<u8>>, hi: Option<Seq<u8>>, key: Seq<u8>)
    requires
        keys_ascend(keys),
        within(key, lo, hi),
    ensures
        upto(keys, key) <= keys.len(),
        within(key, kid_low(keys, lo, upto(keys, key) as int), kid_high(keys, hi, upto(keys, key) as int)),
{
    lemma_upto(keys, key);
}

/// An insertion cuts the top node exactly if `split_key` says so.
pub proof fn lemma_grown_sep(t: Tree, key: Seq<u8>, val: Seq<u8>, ids: Seq<u32>)
    ensures
        ({
            let g = grown(t, key, val, ids);
            &&& g.right is Some <==> split_key(t, key, val) is Some
            &&& g.right is Some ==> split_key(t, key, val) == Some(g.sep)
            &&& tree_id(g.left) == tree_id(t)
            &&& g.right matches Some(r) ==> tree_id(r) == ids.last()
        }),
    decreases t,
{
    match t {
        Tree::Leaf { .. } => {},
        Tree::Inner { id, keys, kids } => {
            let c = upto(keys, key) as int;
            if c < kids.len() {
                lemma_grown_sep(kids[c], key, val, ids_below(t, key, val, ids));
            }
        },
    }
}

/// An insertion keeps the order.
#[verifier::spinoff_prover]
pub proof fn lemma_grown_order(t: Tree, key: Seq<u8>, val: Seq<u8>, ids: Seq<u32>, lo: Option<Seq<u8>>, hi: Option<Seq<u8>>)
    requires
        ordered(t, lo, hi),
        within(key, lo, hi),
        insertion_fits(t, key, val),
    ensures
        ({
            let g = grown(t, key, val, ids);
            match g.right {
                None => ordered(g.left, lo, hi),
                Some(r) => ordered(g.left, lo, Some(g.sep)) && ordered(r, Some(g.sep), hi) && between(g.sep, lo, hi),
            }
        }),
    decreases t,
{
    match t {
        Tree::Leaf { id, keys, vals } => {
            lemma_below(keys, key);
            lemma_leaf_keys(keys, key);
            let k2 = leaf_keys(keys, key);
            let v2 = leaf_vals(keys, vals, key, val);
            let m = middle(k2);
            assert forall|i: int| 0 <= i < k2.len() implies within(#[trigger] k2[i], lo, hi) by {
                if k2[i] != key {
                    let j = choose|j: int| 0 <= j < keys.len() && keys[j] == k2[i];
                    assert(within(keys[j], lo, hi));
                }
            }
            if !leaf_fits(k2, v2) {
                if k2.len() == 1 {
                    assert(k2.skip(0) =~= k2);
                    assert(v2.skip(0) =~= v2);
                }
                lemma_parts_ascend(k2, m);
                assert(lex_less(k2[0], k2[m]));
                assert(within(k2[0], lo, hi));
                assert(within(k2[m], lo, hi));
                if lo is Some {
                    lemma_lex_total(lo->0, k2[0]);
                    if lo->0 != k2[0] {
                        lemma_lex_trans(lo->0, k2[0], k2[m]);
                    }
                }
                let (ka, kb) = (k2.take(m), k2.skip(m));
                assert forall|i: int| 0 <= i < ka.len() implies within(#[trigger] ka[i], lo, Some(k2[m])) by {
                    assert(ka[i] == k2[i]);
                    assert(within(k2[i], lo, hi));
                }
                assert forall|i: int| 0 <= i < kb.len() implies within(#[trigger] kb[i], Some(k2[m]), hi) by {
                    assert(kb[i] == k2[m + i]);
                    assert(within(k2[m + i], lo, hi));
                    lemma_lex_total(k2[m], k2[m + i]);
                }
            }
        },
        Tree::Inner { id, keys, kids } => {
            lemma_kid_for(keys, lo, hi, key);
            let c = upto(keys, key) as int;
            let sub = ids_below(t, key, val, ids);
            assert(ordered(kids[c], kid_low(keys, lo, c), kid_high(keys, hi, c)));
            lemma_grown_order(kids[c], key, val, sub, kid_low(keys, lo, c), kid_high(keys, hi, c));
            let g = grown(kids[c], key, val, sub);
            match g.right {
                None => {
                    let kids2 = kids.update(c, g.left);
                    assert forall|i: int| 0 <= i < kids2.len() implies ordered(#[trigger] kids2[i], kid_low(keys, lo, i), kid_high(keys, hi, i)) by {
                        if i != c {
                            assert(ordered(kids[i], kid_low(keys, lo, i), kid_high(keys, hi, i)));
                        }
                    }
                },
                Some(r) => {
                    lemma_wider_order(id, keys, kids, lo, hi, c, g.left, g.sep, r);
                    let k2 = keys.insert(c, g.sep);
                    let kids2 = kids.update(c, g.left).insert(c + 1, r);
                    lemma_cut_order(id, ids.last(), k2, kids2, lo, hi, middle(k2));
                },
            }
        },
    }
}

/// The value of a key in a leaf.
pub open spec fn find(keys: Seq<Seq<u8>>, vals: Seq<Seq<u8>>, key: Seq<u8>) -> Option<Seq<u8>> {
    let i = below(keys, key) as int;
    if i < keys.len() && keys[i] == key {
        Some(vals[i])
    } else {
        None
    }
}

proof fn lemma_find(keys: Seq<Seq<u8>>, vals: Seq<Seq<u8>>, key: Seq<u8>)
    requires
        keys_ascend(keys),
        vals.len() == keys.len(),
    ensures
        forall|i: int| 0 <= i < keys.len() && #[trigger] keys[i] == key ==> find(keys, vals, key) == Some(vals[i]),
        find(keys, vals, key) is Some ==> keys.contains(key),
{
    assert forall|i: int| 0 <= i < keys.len() && #[trigger] keys[i] == key implies find(keys, vals, key) == Some(vals[i]) by {
        lemma_below_is(keys, key, i);
    }
}

proof fn lemma_leaf_insert(keys: Seq<Seq<u8>>, vals: Seq<Seq<u8>>, key: Seq<u8>, val: Seq<u8>, k: Seq<u8>)
    requires
        keys_ascend(keys),
        vals.len() == keys.len(),
    ensures
        find(leaf_keys(keys, key), leaf_vals(keys, vals, key, val), k) == (if k == key {
            Some(val)
        } else {
            find(keys, vals, k)
        }),
{
    lemma_below(keys, key);
    lemma_leaf_keys(keys, key);
    let k2 = leaf_keys(keys, key);
    let v2 = leaf_vals(keys, vals, key, val);
    lemma_find(keys, vals, k);
    lemma_find(k2, v2, k);
    let i = below(keys, key) as int;
    if k == key {
        assert(k2[i] == key);
    } else if find(keys, vals, k) is Some {
        let j = choose|j: int| 0 <= j < keys.len() && keys[j] == k;
        assert(find(keys, vals, k) == Some(vals[j]));
        if i < keys.len() && keys[i] == key {
            assert(k2[j] == k);
        } else if j < i {
            assert(k2[j] == k);
        } else {
            assert(k2[j + 1] == k);
        }
    } else if find(k2, v2, k) is Some {
        let j = choose|j: int| 0 <= j < k2.len() && k2[j] == k;
        assert(k2[j] == key || keys.contains(k2[j]));
        let q = choose|q: int| 0 <= q < keys.len() && keys[q] == k;
        assert(keys[q] == k);
    }
}

/// What a leaf holds stands in one of its two parts.
pub proof fn lemma_leaf_cut(keys: Seq<Seq<u8>>, vals: Seq<Seq<u8>>, m: int, k: Seq<u8>)
    requires
        keys_ascend(keys),
        vals.len() == keys.len(),
        0 <= m < keys.len(),
    ensures
        find(keys, vals, k) == (if lex_less(k, keys[m]) {
            find(keys.take(m), vals.take(m), k)
        } else {
            find(keys.skip(m), vals.skip(m), k)
        }),
{
    lemma_parts_ascend(keys, m);
    lemma_find(keys, vals, k);
    lemma_find(keys.take(m), vals.take(m), k);
    lemma_find(keys.skip(m), vals.skip(m), k);
    lemma_lex_total(k, keys[m]);
    if keys.contains(k) {
        let j = choose|j: int| 0 <= j < keys.len() && keys[j] == k;
        assert(keys[j] == k);
        if j < m {
            assert(lex_less(keys[j], keys[m]));
            assert(keys.take(m)[j] == k);
        } else {
            if j > m {
                assert(lex_less(keys[m], keys[j]));
            }
            assert(keys.skip(m)[j - m] == k);
        }
    } else {
        if keys.take(m).contains(k) {
            let j = choose|j: int| 0 <= j < m && keys.take(m)[j] == k;
            assert(keys[j] == k);
        }
        if keys.skip(m).contains(k) {
            let j = choose|j: int| 0 <= j < keys.len() - m && keys.skip(m)[j] == k;
            assert(keys[m + j] == k);
        }
    }
}

proof fn lemma_wider_lookup(id: u32, keys: Seq<Seq<u8>>, kids: Seq<Tree>, c: int, left: Tree, sep: Seq<u8>, right: Tree, k: Seq<u8>)
    requires
        keys_ascend(keys),
        kids.len() == keys.len() + 1,
        0 <= c < kids.len(),
        c > 0 ==> lex_less(keys[c - 1], sep),
        c < keys.len() ==> lex_less(sep, keys[c]),
    ensures
        lookup(Tree::Inner { id, keys: keys.insert(c, sep), kids: kids.update(c, left).insert(c + 1, right) }, k) == (if upto(keys, k) != c {
            lookup(kids[upto(keys, k) as int], k)
        } else if lex_less(k, sep) {
            lookup(left, k)
        } else {
            lookup(right, k)
        }),
{
    lemma_upto(keys, k);
    lemma_insert_ascends(keys, c, sep);
    let k2 = keys.insert(c, sep);
    let u = upto(keys, k) as int;
    if u < c {
        assert(k2[u] == keys[u]);
        if u > 0 {
            assert(k2[u - 1] == keys[u - 1]);
        }
        lemma_upto_is(k2, k, u);
    } else if u > c {
        assert(k2[u] == keys[u - 1]);
        if u < keys.len() {
            assert(k2[u + 1] == keys[u]);
        }
        lemma_upto_is(k2, k, u + 1);
    } else if lex_less(k, sep) {
        if c > 0 {
            assert(k2[c - 1] == keys[c - 1]);
        }
        lemma_upto_is(k2, k, c);
    } else {
        if c < keys.len() {
            assert(k2[c + 1] == keys[c]);
        }
        lemma_upto_is(k2, k, c + 1);
    }
}

/// What an inner node holds stands in one of its two parts.
pub proof fn lemma_cut_lookup(id: u32, id2: u32, keys: Seq<Seq<u8>>, kids: Seq<Tree>, m: int, k: Seq<u8>)
    requires
        keys_ascend(keys),
        kids.len() == keys.len() + 1,
        0 <= m < keys.len(),
    ensures
        lookup(Tree::Inner { id, keys, kids }, k) == (if lex_less(k, keys[m]) {
            lookup(Tree::Inner { id, keys: keys.take(m), kids: kids.take(m + 1) }, k)
        } else {
            lookup(Tree::Inner { id: id2, keys: keys.skip(m + 1), kids: kids.skip(m + 1) }, k)
        }),
{
    lemma_upto(keys, k);
    lemma_parts_ascend(keys, m);
    lemma_parts_ascend(keys, m + 1);
    let u = upto(keys, k) as int;
    if lex_less(k, keys[m]) {
        assert(u <= m);
        lemma_upto_is(keys.take(m), k, u);
    } else {
        assert(u > m);
        lemma_upto_is(keys.skip(m + 1), k, u - m - 1);
    }
}

/// The value of a key in a tree that has grown.
pub open spec fn grown_lookup(g: Grown, k: Seq<u8>) -> Option<Seq<u8>> {
    match g.right {
        None => lookup(g.left, k),
        Some(r) => if lex_less(k, g.sep) {
            lookup(g.left, k)
        } else {
            lookup(r, k)
        },
    }
}

/// An insertion sets the value of its key, and no other.
#[verifier::spinoff_prover]
pub proof fn lemma_grown_lookup(t: Tree, key: Seq<u8>, val: Seq<u8>, ids: Seq<u32>, lo: Option<Seq<u8>>, hi: Option<Seq<u8>>, k: Seq<u8>)
    requires
        ordered(t, lo, hi),
        within(key, lo, hi),
        insertion_fits(t, key, val),
    ensures
        grown_lookup(grown(t, key, val, ids), k) == (if k == key {
            Some(val)
        } else {
            lookup(t, k)
        }),
    decreases t,
{
    match t {
        Tree::Leaf { id, keys, vals } => {
            let k2 = leaf_keys(keys, key);
            let v2 = leaf_vals(keys, vals, key, val);
            lemma_below(keys, key);
            lemma_leaf_keys(keys, key);
            lemma_leaf_insert(keys, vals, key, val, k);
            lemma_leaf_cut(k2, v2, middle(k2), k);
        },
        Tree::Inner { id, keys, kids } => {
            lemma_kid_for(keys, lo, hi, key);
            lemma_upto(keys, k);
            let c = upto(keys, key) as int;
            let sub = ids_below(t, key, val, ids);
            assert(ordered(kids[c], kid_low(keys, lo, c), kid_high(keys, hi, c)));
            lemma_grown_lookup(kids[c], key, val, sub, kid_low(keys, lo, c), kid_high(keys, hi, c), k);
            lemma_grown_order(kids[c], key, val, sub, kid_low(keys, lo, c), kid_high(keys, hi, c));
            let g = grown(kids[c], key, val, sub);
            match g.right {
                None => {},
                Some(r) => {
                    lemma_wider_lookup(id, keys, kids, c, g.left, g.sep, r, k);
                    lemma_wider_order(id, keys, kids, lo, hi, c, g.left, g.sep, r);
                    let k2 = keys.insert(c, g.sep);
                    let kids2 = kids.update(c, g.left).insert(c + 1, r);
                    lemma_cut_lookup(id, ids.last(), k2, kids2, middle(k2), k);
                },
            }
        },
    }
}

/// No page is used twice in the kids, nor is `id`.
pub open spec fn kids_apart(kids: Seq<Tree>, id: u32) -> bool {
    &&& forall|i: int| 0 <= i < kids.len() ==> apart(#[trigger] kids[i]) && !has_page(kids[i], id)
    &&& forall|i: int, j: int| 0 <= i < j < kids.len() ==> disjoint(#[trigger] kids[i], #[trigger] kids[j])
}

/// The pages are those of the tree, or new.
pub open spec fn pages_from(t: Tree, ids: Seq<u32>, g: Tree) -> bool {
    forall|x: u32| #[trigger] has_page(g, x) ==> has_page(t, x) || ids.contains(x)
}

/// The pages are none of the tree.
pub open spec fn ids_new(t: Tree, ids: Seq<u32>) -> bool {
    forall|i: int| 0 <= i < ids.len() ==> !has_page(t, #[trigger] ids[i])
}

/// The kids after one of them has grown.
pub open spec fn kids_grown(kids: Seq<Tree>, c: int, g: Grown) -> Seq<Tree> {
    match g.right {
        None => kids.update(c, g.left),
        Some(r) => kids.update(c, g.left).insert(c + 1, r),
    }
}

/// The kid behind a place after one kid has grown: itself, a part of the grown one,
/// or an old one.
pub proof fn lemma_kid_cases(kids: Seq<Tree>, c: int, g: Grown, i: int)
    requires
        0 <= c < kids.len(),
        0 <= i < kids_grown(kids, c, g).len(),
    ensures
        i < c ==> kids_grown(kids, c, g)[i] == kids[i],
        i == c ==> kids_grown(kids, c, g)[i] == g.left,
        i > c && g.right is None ==> kids_grown(kids, c, g)[i] == kids[i],
        i == c + 1 && g.right is Some ==> kids_grown(kids, c, g)[i] == g.right->0,
        i > c + 1 && g.right is Some ==> kids_grown(kids, c, g)[i] == kids[i - 1],
{
}

proof fn lemma_old_and_new(t: Tree, id: u32, keys: Seq<Seq<u8>>, kids: Seq<Tree>, sub: Seq<u32>, c: int, n: Tree)
    requires
        t == (Tree::Inner { id, keys, kids }),
        0 <= c < kids.len(),
        apart(t),
        ids_new(t, sub),
        pages_from(kids[c], sub, n),
    ensures
        !has_page(n, id),
        forall|j: int| 0 <= j < kids.len() && j != c ==> disjoint(#[trigger] kids[j], n) && disjoint(n, kids[j]),
        pages_from(t, sub, n),
{
    assert(t->Inner_kids == kids);
    if has_page(n, id) {
        if sub.contains(id) {
            let i = choose|i: int| 0 <= i < sub.len() && sub[i] == id;
            assert(!has_page(t, sub[i]));
        }
    }
    assert forall|j: int| 0 <= j < kids.len() && j != c implies disjoint(#[trigger] kids[j], n) && disjoint(n, kids[j]) by {
        assert forall|x: u32| !(#[trigger] has_page(kids[j], x) && #[trigger] has_page(n, x)) by {
            if has_page(kids[j], x) && has_page(n, x) {
                assert(has_page(t, x));
                if sub.contains(x) {
                    let i = choose|i: int| 0 <= i < sub.len() && sub[i] == x;
                    assert(!has_page(t, sub[i]));
                } else if j < c {
                    assert(disjoint(kids[j], kids[c]));
                } else {
                    assert(disjoint(kids[c], kids[j]));
                }
            }
        }
    }
    assert forall|x: u32| #[trigger] has_page(n, x) implies has_page(t, x) || sub.contains(x) by {
        if has_page(kids[c], x) {
            assert(has_page(t, x));
        }
    }
}

#[verifier::spinoff_prover]
pub proof fn lemma_kids_grown_apart(t: Tree, id: u32, keys: Seq<Seq<u8>>, kids: Seq<Tree>, sub: Seq<u32>, c: int, g: Grown)
    requires
        t == (Tree::Inner { id, keys, kids }),
        0 <= c < kids.len(),
        apart(t),
        ids_new(t, sub),
        apart(g.left),
        pages_from(kids[c], sub, g.left),
        g.right matches Some(r) ==> apart(r) && pages_from(kids[c], sub, r) && disjoint(g.left, r),
    ensures
        kids_apart(kids_grown(kids, c, g), id),
        forall|i: int| 0 <= i < kids_grown(kids, c, g).len() ==> pages_from(t, sub, #[trigger] kids_grown(kids, c, g)[i]),
{
    let kids2 = kids_grown(kids, c, g);
    assert(t->Inner_kids == kids);
    lemma_old_and_new(t, id, keys, kids, sub, c, g.left);
    if g.right is Some {
        lemma_old_and_new(t, id, keys, kids, sub, c, g.right->0);
    }
    assert forall|i: int| 0 <= i < kids2.len() implies apart(#[trigger] kids2[i]) && !has_page(kids2[i], id) by {
        lemma_kid_cases(kids, c, g, i);
        if i < c {
            assert(apart(kids[i]) && !has_page(kids[i], id));
        } else if i > c && g.right is None {
            assert(apart(kids[i]) && !has_page(kids[i], id));
        } else if i > c + 1 {
            assert(apart(kids[i - 1]) && !has_page(kids[i - 1], id));
        }
    }
    assert forall|i: int, j: int| 0 <= i < j < kids2.len() implies disjoint(#[trigger] kids2[i], #[trigger] kids2[j]) by {
        lemma_kid_cases(kids, c, g, i);
        lemma_kid_cases(kids, c, g, j);
        let shift: int = if g.right is Some { 1 } else { 0 };
        if i < c && j < c {
            assert(disjoint(kids[i], kids[j]));
        } else if i < c && j > c + shift {
            assert(disjoint(kids[i], kids[j - shift]));
        } else if i > c + shift {
            assert(disjoint(kids[i - shift], kids[j - shift]));
        } else if i < c {
            assert(disjoint(kids[i], g.left));
            if shift == 1 {
                assert(disjoint(kids[i], g.right->0));
            }
        } else if j > c + shift {
            assert(disjoint(g.left, kids[j - shift]));
            if shift == 1 {
                assert(disjoint(g.right->0, kids[j - shift]));
            }
        }
    }
    assert forall|i: int| 0 <= i < kids2.len() implies pages_from(t, sub, #[trigger] kids2[i]) by {
        lemma_kid_cases(kids, c, g, i);
        assert forall|x: u32| #[trigger] has_page(kids2[i], x) implies has_page(t, x) || sub.contains(x) by {
            if i < c {
                assert(has_page(kids[i], x));
            } else if i > c && g.right is None {
                assert(has_page(kids[i], x));
            } else if i > c + 1 {
                assert(has_page(kids[i - 1], x));
            }
        }
    }
}

proof fn lemma_cut_apart(kids: Seq<Tree>, m: int, id: u32, id2: u32, ka: Seq<Seq<u8>>, kb: Seq<Seq<u8>>)
    requires
        kids_apart(kids, id),
        id != id2,
        forall|i: int| 0 <= i < kids.len() ==> !has_page(#[trigger] kids[i], id2),
        0 <= m <= kids.len(),
    ensures
        apart(Tree::Inner { id, keys: ka, kids: kids.take(m) }),
        apart(Tree::Inner { id: id2, keys: kb, kids: kids.skip(m) }),
        disjoint(Tree::Inner { id, keys: ka, kids: kids.take(m) }, Tree::Inner { id: id2, keys: kb, kids: kids.skip(m) }),
{
    let (ta, tb) = (kids.take(m), kids.skip(m));
    let a = Tree::Inner { id, keys: ka, kids: ta };
    let b = Tree::Inner { id: id2, keys: kb, kids: tb };
    assert forall|i: int| 0 <= i < ta.len() implies apart(#[trigger] ta[i]) && !has_page(ta[i], id) by {
        assert(ta[i] == kids[i]);
    }
    assert forall|i: int| 0 <= i < tb.len() implies apart(#[trigger] tb[i]) && !has_page(tb[i], id2) by {
        assert(tb[i] == kids[m + i]);
    }
    assert forall|i: int, j: int| 0 <= i < j < ta.len() implies disjoint(#[trigger] ta[i], #[trigger] ta[j]) by {
        assert(disjoint(kids[i], kids[j]));
    }
    assert forall|i: int, j: int| 0 <= i < j < tb.len() implies disjoint(#[trigger] tb[i], #[trigger] tb[j]) by {
        assert(disjoint(kids[m + i], kids[m + j]));
    }
    assert forall|x: u32| !(#[trigger] has_page(a, x) && #[trigger] has_page(b, x)) by {
        if has_page(a, x) && has_page(b, x) {
            if x == id {
                let j = choose|j: int| 0 <= j < tb.len() && has_page(#[trigger] tb[j], x);
                assert(!has_page(kids[m + j], id));
            } else if x == id2 {
                let i = choose|i: int| 0 <= i < ta.len() && has_page(#[trigger] ta[i], x);
                assert(!has_page(kids[i], id2));
            } else {
                let i = choose|i: int| 0 <= i < ta.len() && has_page(#[trigger] ta[i], x);
                let j = choose|j: int| 0 <= j < tb.len() && has_page(#[trigger] tb[j], x);
                assert(disjoint(kids[i], kids[m + j]));
            }
        }
    }
}

/// An inner node has its page and those of its kids.
proof fn lemma_inner_pages(t: Tree, sub: Seq<u32>, ids: Seq<u32>, n: Tree, id: u32, keys: Seq<Seq<u8>>, kids: Seq<Tree>)
    requires
        n == (Tree::Inner { id, keys, kids }),
        has_page(t, id) || ids.contains(id),
        forall|i: int| 0 <= i < kids.len() ==> pages_from(t, sub, #[trigger] kids[i]),
        forall|x: u32| #[trigger] sub.contains(x) ==> ids.contains(x),
    ensures
        pages_from(t, ids, n),
{
    assert forall|x: u32| #[trigger] has_page(n, x) implies has_page(t, x) || ids.contains(x) by {
        if x != id {
            let i = choose|i: int| 0 <= i < kids.len() && has_page(#[trigger] kids[i], x);
            assert(pages_from(t, sub, kids[i]));
        }
    }
}

/// An insertion uses the pages of the tree and the new ones, each once, and the
/// first leaf stays.
#[verifier::spinoff_prover]
#[verifier::rlimit(40)]
pub proof fn lemma_grown_pages(t: Tree, key: Seq<u8>, val: Seq<u8>, ids: Seq<u32>, lo: Option<Seq<u8>>, hi: Option<Seq<u8>>)
    requires
        ordered(t, lo, hi),
        within(key, lo, hi),
        apart(t),
        ids.len() == splits(t, key, val),
        ids.no_duplicates(),
        ids_new(t, ids),
    ensures
        ({
            let g = grown(t, key, val, ids);
            &&& first_leaf(g.left) == first_leaf(t)
            &&& apart(g.left)
            &&& pages_from(t, ids, g.left)
            &&& g.right matches Some(r) ==> apart(r) && pages_from(t, ids, r) && disjoint(g.left, r)
        }),
    decreases t,
{
    match t {
        Tree::Leaf { id, keys, vals } => {
            if split_key(t, key, val) is Some {
                assert(ids[0] == ids.last());
                assert(!has_page(t, ids[0]));
                assert(ids.contains(ids[0]));
            }
        },
        Tree::Inner { id, keys, kids } => {
            lemma_kid_for(keys, lo, hi, key);
            let c = upto(keys, key) as int;
            let sub = ids_below(t, key, val, ids);
            let kid = kids[c];
            assert(ordered(kid, kid_low(keys, lo, c), kid_high(keys, hi, c)));
            assert forall|i: int| 0 <= i < sub.len() implies !has_page(t, #[trigger] sub[i]) by {
                assert(sub[i] == ids[i]);
            }
            assert forall|i: int| 0 <= i < sub.len() implies !has_page(kid, #[trigger] sub[i]) by {
                assert(!has_page(t, sub[i]));
            }
            assert forall|x: u32| #[trigger] sub.contains(x) implies ids.contains(x) by {
                let i = choose|i: int| 0 <= i < sub.len() && sub[i] == x;
                assert(ids[i] == x);
            }
            assert(apart(kid));
            lemma_grown_pages(kid, key, val, sub, kid_low(keys, lo, c), kid_high(keys, hi, c));
            lemma_grown_sep(kid, key, val, sub);
            let g = grown(kid, key, val, sub);
            lemma_kids_grown_apart(t, id, keys, kids, sub, c, g);
            let kids2 = kids_grown(kids, c, g);
            assert(first_leaf(kids2[0]) == first_leaf(kids[0])) by {
                lemma_kid_cases(kids, c, g, 0);
            }
            let res = grown(t, key, val, ids);
            assert(has_page(t, id));
            if res.right is None {
                match g.right {
                    None => {
                        lemma_inner_pages(t, sub, ids, res.left, id, keys, kids2);
                    },
                    Some(r) => {
                        lemma_inner_pages(t, sub, ids, res.left, id, keys.insert(c, g.sep), kids2);
                    },
                }
            } else {
                let k2 = keys.insert(c, g.sep);
                let m = middle(k2);
                let id2 = ids.last();
                assert(ids[ids.len() - 1] == id2);
                assert(ids.contains(id2));
                assert(!has_page(t, id2));
                assert forall|i: int| 0 <= i < kids2.len() implies !has_page(#[trigger] kids2[i], id2) by {
                    assert(pages_from(t, sub, kids2[i]));
                    if sub.contains(id2) {
                        let i = choose|i: int| 0 <= i < sub.len() && sub[i] == id2;
                        assert(ids[i] == id2);
                    }
                }
                lemma_cut_apart(kids2, m + 1, id, id2, k2.take(m), k2.skip(m + 1));
                let (ta, tb) = (kids2.take(m + 1), kids2.skip(m + 1));
                assert forall|i: int| 0 <= i < ta.len() implies pages_from(t, sub, #[trigger] ta[i]) by {
                    assert(ta[i] == kids2[i]);
                }
                assert forall|i: int| 0 <= i < tb.len() implies pages_from(t, sub, #[trigger] tb[i]) by {
                    assert(tb[i] == kids2[m + 1 + i]);
                }
                lemma_inner_pages(t, sub, ids, res.left, id, k2.take(m), ta);
                lemma_inner_pages(t, sub, ids, res.right->0, id2, k2.skip(m + 1), tb);
                assert(ta[0] == kids2[0]);
            }
        },
    }
}

/// The nodes of a tree that has grown fit their pages.
#[verifier::spinoff_prover]
pub proof fn lemma_grown_sized(t: Tree, key: Seq<u8>, val: Seq<u8>, ids: Seq<u32>, lo: Option<Seq<u8>>, hi: Option<Seq<u8>>)
    requires
        sized(t),
        ordered(t, lo, hi),
        insertion_fits(t, key, val),
    ensures
        ({
            let g = grown(t, key, val, ids);
            &&& sized(g.left)
            &&& g.right matches Some(r) ==> sized(r)
        }),
    decreases t,
{
    match t {
        Tree::Leaf { id, keys, vals } => {},
        Tree::Inner { id, keys, kids } => {
            let c = upto(keys, key) as int;
            let sub = ids_below(t, key, val, ids);
            assert(sized(kids[c]));
            assert(ordered(kids[c], kid_low(keys, lo, c), kid_high(keys, hi, c)));
            lemma_grown_sized(kids[c], key, val, sub, kid_low(keys, lo, c), kid_high(keys, hi, c));
            lemma_grown_sep(kids[c], key, val, sub);
            let g = grown(kids[c], key, val, sub);
            let kids2 = kids_grown(kids, c, g);
            assert forall|i: int| 0 <= i < kids2.len() implies sized(#[trigger] kids2[i]) by {
                lemma_kid_cases(kids, c, g, i);
                if i < c {
                    assert(sized(kids[i]));
                } else if i > c && g.right is None {
                    assert(sized(kids[i]));
                } else if i > c + 1 {
                    assert(sized(kids[i - 1]));
                }
            }
            match g.right {
                None => {},
                Some(r) => {
                    let k2 = keys.insert(c, g.sep);
                    let m = middle(k2);
                    if !inner_fits(k2) {
                        assert forall|i: int| 0 <= i < kids2.take(m + 1).len() implies sized(#[trigger] kids2.take(m + 1)[i]) by {
                            assert(sized(kids2[i]));
                        }
                        assert forall|i: int| 0 <= i < kids2.skip(m + 1).len() implies sized(#[trigger] kids2.skip(m + 1)[i]) by {
                            assert(sized(kids2[m + 1 + i]));
                        }
                    }
                },
            }
        },
    }
}

} // verus!
