//! The leaves of a B+ tree, in order, and the entries they hold.

use super::tree::{below, between, kid_high, kid_low, lemma_below, lemma_below_is, lemma_upto, lemma_upto_is, lookup, ordered, tree_id, first_leaf, upto, within, Tree};
use crate::text::{lemma_lex_total, lemma_lex_trans, lex_less};
use vstd::prelude::*;

verus! {

/// A key with its value.
pub type Item = (Seq<u8>, Seq<u8>);

/// The leaves, first to last.
pub open spec fn leaves(t: Tree) -> Seq<Tree>
    decreases t, 0nat,
{
    match t {
        Tree::Leaf { .. } => seq![t],
        Tree::Inner { id, keys, kids } => kid_leaves(kids, kids.len()),
    }
}

/// The leaves of the first `n` kids.
pub open spec fn kid_leaves(kids: Seq<Tree>, n: nat) -> Seq<Tree>
    decreases kids, n,
{
    if n == 0 || n > kids.len() {
        Seq::empty()
    } else {
        kid_leaves(kids, (n - 1) as nat) + leaves(kids[n - 1])
    }
}

/// The entries of a leaf.
pub open spec fn leaf_items(t: Tree) -> Seq<Item> {
    match t {
        Tree::Leaf { id, keys, vals } => Seq::new(keys.len(), |i: int| (keys[i], vals[i])),
        Tree::Inner { .. } => Seq::empty(),
    }
}

/// The entries of some leaves.
pub open spec fn items(ls: Seq<Tree>) -> Seq<Item>
    decreases ls.len(),
{
    if ls.len() == 0 {
        Seq::empty()
    } else {
        items(ls.drop_last()) + leaf_items(ls.last())
    }
}

/// The entries of a tree.
pub open spec fn entries(t: Tree) -> Seq<Item> {
    items(leaves(t))
}

/// Each key comes before all later ones.
pub open spec fn items_ascend(s: Seq<Item>) -> bool {
    forall|i: int, j: int| 0 <= i < j < s.len() ==> lex_less((#[trigger] s[i]).0, (#[trigger] s[j]).0)
}

/// All keys are within the bounds.
pub open spec fn items_within(s: Seq<Item>, lo: Option<Seq<u8>>, hi: Option<Seq<u8>>) -> bool {
    forall|i: int| 0 <= i < s.len() ==> within((#[trigger] s[i]).0, lo, hi)
}

/// The entries of two lists of leaves.
pub proof fn lemma_items_join(a: Seq<Tree>, b: Seq<Tree>)
    ensures
        items(a + b) == items(a) + items(b),
    decreases b.len(),
{
    if b.len() == 0 {
        assert(a + b =~= a);
        assert(items(a) + items(b) =~= items(a));
    } else {
        assert((a + b).drop_last() =~= a + b.drop_last());
        lemma_items_join(a, b.drop_last());
        assert(items(a + b) =~= items(a) + items(b));
    }
}

/// One more leaf.
pub proof fn lemma_items_take(ls: Seq<Tree>, j: int)
    requires
        0 <= j < ls.len(),
    ensures
        items(ls.take(j + 1)) == items(ls.take(j)) + leaf_items(ls[j]),
{
    assert(ls.take(j + 1).drop_last() =~= ls.take(j));
}

proof fn lemma_leaf_only(t: Tree)
    requires
        t is Leaf,
    ensures
        items(seq![t]) == leaf_items(t),
{
    assert(seq![t].drop_last() =~= Seq::<Tree>::empty());
    assert(items(Seq::<Tree>::empty()) =~= Seq::<Item>::empty());
    assert(items(seq![t]) =~= leaf_items(t));
}

/// Entries that come before a bound, then entries that do not.
proof fn lemma_join_ascends(a: Seq<Item>, b: Seq<Item>, lo: Option<Seq<u8>>, mid: Seq<u8>, hi: Option<Seq<u8>>)
    requires
        items_ascend(a),
        items_ascend(b),
        items_within(a, lo, Some(mid)),
        items_within(b, Some(mid), hi),
    ensures
        items_ascend(a + b),
{
    let s = a + b;
    assert forall|i: int, j: int| 0 <= i < j < s.len() implies lex_less((#[trigger] s[i]).0, (#[trigger] s[j]).0) by {
        if j < a.len() {
            assert(s[i] == a[i] && s[j] == a[j]);
        } else if i < a.len() {
            assert(s[i] == a[i] && s[j] == b[j - a.len()]);
            assert(within(a[i].0, lo, Some(mid)));
            assert(within(b[j - a.len()].0, Some(mid), hi));
            lemma_lex_total(mid, b[j - a.len()].0);
            if mid != b[j - a.len()].0 {
                lemma_lex_trans(a[i].0, mid, b[j - a.len()].0);
            }
        } else {
            assert(s[i] == b[i - a.len()] && s[j] == b[j - a.len()]);
        }
    }
}

/// The entry is in the tree.
pub open spec fn holds_item(t: Tree, e: Item) -> bool {
    lookup(t, e.0) == Some(e.1)
}

/// The entries ascend, lie within the bounds, and are what lookups give.
pub proof fn lemma_entries(t: Tree, lo: Option<Seq<u8>>, hi: Option<Seq<u8>>)
    requires
        ordered(t, lo, hi),
    ensures
        items_ascend(entries(t)),
        items_within(entries(t), lo, hi),
        forall|e: Item| #[trigger] entries(t).contains(e) <==> holds_item(t, e),
    decreases t, 0nat,
{
    match t {
        Tree::Leaf { id, keys, vals } => {
            lemma_leaf_only(t);
            let s = entries(t);
            assert forall|i: int, j: int| 0 <= i < j < s.len() implies lex_less((#[trigger] s[i]).0, (#[trigger] s[j]).0) by {
                assert(lex_less(keys[i], keys[j]));
            }
            assert forall|i: int| 0 <= i < s.len() implies within((#[trigger] s[i]).0, lo, hi) by {
                assert(within(keys[i], lo, hi));
            }
            assert forall|e: Item| #[trigger] s.contains(e) <==> holds_item(t, e) by {
                if s.contains(e) {
                    let i = choose|i: int| 0 <= i < s.len() && s[i] == e;
                    lemma_below_is(keys, e.0, i);
                }
                if holds_item(t, e) {
                    lemma_below(keys, e.0);
                    let i = below(keys, e.0) as int;
                    assert(s[i] == e);
                }
            }
        },
        Tree::Inner { id, keys, kids } => {
            lemma_kid_entries(t, id, keys, kids, lo, hi, kids.len());
            let s = entries(t);
            assert forall|e: Item| #[trigger] s.contains(e) <==> holds_item(t, e) by {
                lemma_upto(keys, e.0);
            }
        },
    }
}

#[verifier::spinoff_prover]
proof fn lemma_kid_entries(t: Tree, id: u32, keys: Seq<Seq<u8>>, kids: Seq<Tree>, lo: Option<Seq<u8>>, hi: Option<Seq<u8>>, n: nat)
    requires
        t == (Tree::Inner { id, keys, kids }),
        ordered(t, lo, hi),
        n <= kids.len(),
    ensures
        items_ascend(items(kid_leaves(kids, n))),
        n > 0 ==> items_within(items(kid_leaves(kids, n)), lo, kid_high(keys, hi, n - 1)),
        n == 0 ==> items(kid_leaves(kids, n)).len() == 0,
        forall|e: Item| #[trigger] items(kid_leaves(kids, n)).contains(e) <==> upto(keys, e.0) < n && holds_item(kids[upto(keys, e.0) as int], e),
    decreases kids, n,
{
    assert(t->Inner_kids == kids);
    if n > 0 {
        let m = (n - 1) as nat;
        let kid = kids[n - 1];
        lemma_kid_entries(t, id, keys, kids, lo, hi, m);
        assert(ordered(kid, kid_low(keys, lo, n - 1), kid_high(keys, hi, n - 1)));
        lemma_entries(kid, kid_low(keys, lo, n - 1), kid_high(keys, hi, n - 1));
        lemma_items_join(kid_leaves(kids, m), leaves(kid));
        let a = items(kid_leaves(kids, m));
        let b = entries(kid);
        let s = items(kid_leaves(kids, n));
        assert(s == a + b);
        if m > 0 {
            lemma_join_ascends(a, b, lo, keys[m - 1], kid_high(keys, hi, n - 1));
        } else {
            assert(a + b =~= b);
        }
        assert forall|i: int| 0 <= i < s.len() implies within((#[trigger] s[i]).0, lo, kid_high(keys, hi, n - 1)) by {
            if i < a.len() {
                assert(s[i] == a[i]);
                assert(within(a[i].0, lo, kid_high(keys, hi, m - 1)));
                if n - 1 < keys.len() {
                    lemma_lex_trans(a[i].0, keys[m - 1], keys[n - 1]);
                } else if hi is Some {
                    assert(between(keys[m - 1], lo, hi));
                    lemma_lex_trans(a[i].0, keys[m - 1], hi->0);
                }
            } else {
                assert(s[i] == b[i - a.len()]);
                let k = b[i - a.len()].0;
                assert(within(k, kid_low(keys, lo, n - 1), kid_high(keys, hi, n - 1)));
                if m > 0 && lo is Some {
                    assert(between(keys[m - 1], lo, hi));
                    lemma_lex_total(keys[m - 1], k);
                    lemma_lex_total(k, lo->0);
                    if keys[m - 1] != k {
                        lemma_lex_trans(lo->0, keys[m - 1], k);
                    }
                }
            }
        }
        assert forall|e: Item| #[trigger] s.contains(e) <==> upto(keys, e.0) < n && holds_item(kids[upto(keys, e.0) as int], e) by {
            if s.contains(e) {
                let i = choose|i: int| 0 <= i < s.len() && s[i] == e;
                if i < a.len() {
                    assert(a[i] == e);
                    assert(a.contains(e));
                } else {
                    assert(b[i - a.len()] == e);
                    assert(b.contains(e));
                    assert(within(e.0, kid_low(keys, lo, n - 1), kid_high(keys, hi, n - 1)));
                    lemma_upto_is(keys, e.0, n - 1);
                }
            }
            if upto(keys, e.0) < n && holds_item(kids[upto(keys, e.0) as int], e) {
                if upto(keys, e.0) < m {
                    assert(a.contains(e));
                    let i = choose|i: int| 0 <= i < a.len() && a[i] == e;
                    assert(s[i] == e);
                } else {
                    assert(b.contains(e));
                    let i = choose|i: int| 0 <= i < b.len() && b[i] == e;
                    assert(s[a.len() + i] == e);
                }
            }
        }
    }
}

/// The leaf for a key.
pub open spec fn leaf_for(t: Tree, key: Seq<u8>) -> Tree
    decreases t,
{
    match t {
        Tree::Leaf { .. } => t,
        Tree::Inner { id, keys, kids } => {
            let c = upto(keys, key) as int;
            if c < kids.len() {
                leaf_for(kids[c], key)
            } else {
                t
            }
        },
    }
}

/// Where the leaf for a key stands.
pub open spec fn leaf_at(t: Tree, key: Seq<u8>) -> nat
    decreases t,
{
    match t {
        Tree::Leaf { .. } => 0,
        Tree::Inner { id, keys, kids } => {
            let c = upto(keys, key);
            if c < kids.len() {
                kid_leaves(kids, c).len() + leaf_at(kids[c as int], key)
            } else {
                0
            }
        },
    }
}

proof fn lemma_kid_leaves_split(kids: Seq<Tree>, c: nat, n: nat)
    requires
        c < n <= kids.len(),
    ensures
        kid_leaves(kids, n).len() >= kid_leaves(kids, c).len() + leaves(kids[c as int]).len(),
        kid_leaves(kids, n).take((kid_leaves(kids, c).len() + leaves(kids[c as int]).len()) as int) == kid_leaves(kids, c) + leaves(kids[c as int]),
    decreases n,
{
    let s = kid_leaves(kids, c) + leaves(kids[c as int]);
    if c + 1 == n {
        assert(kid_leaves(kids, n) == s);
        assert(kid_leaves(kids, n).take(s.len() as int) =~= s);
    } else {
        lemma_kid_leaves_split(kids, c, (n - 1) as nat);
        assert(kid_leaves(kids, n).take(s.len() as int) =~= kid_leaves(kids, (n - 1) as nat).take(s.len() as int));
    }
}

/// The leaf for a key stands where `leaf_at` says, and the entries before it come
/// before the key.
#[verifier::spinoff_prover]
pub proof fn lemma_leaf_at(t: Tree, lo: Option<Seq<u8>>, hi: Option<Seq<u8>>, key: Seq<u8>)
    requires
        ordered(t, lo, hi),
    ensures
        leaf_at(t, key) < leaves(t).len(),
        leaves(t)[leaf_at(t, key) as int] == leaf_for(t, key),
        leaf_for(t, key) is Leaf,
        forall|i: int| #![trigger items(leaves(t).take(leaf_at(t, key) as int))[i]] 0 <= i < items(leaves(t).take(leaf_at(t, key) as int)).len() ==> lex_less(items(leaves(t).take(leaf_at(t, key) as int))[i].0, key),
    decreases t,
{
    match t {
        Tree::Leaf { id, keys, vals } => {
            assert(leaves(t).take(0) =~= Seq::<Tree>::empty());
        },
        Tree::Inner { id, keys, kids } => {
            lemma_upto(keys, key);
            let c = upto(keys, key);
            let kid = kids[c as int];
            assert(ordered(kid, kid_low(keys, lo, c as int), kid_high(keys, hi, c as int)));
            lemma_leaf_at(kid, kid_low(keys, lo, c as int), kid_high(keys, hi, c as int), key);
            lemma_kid_leaves_split(kids, c, kids.len());
            let before = kid_leaves(kids, c);
            let j = leaf_at(kid, key) as int;
            let all = leaves(t);
            let head = all.take((before.len() + leaves(kid).len()) as int);
            assert(head == before + leaves(kid));
            assert(all[before.len() + j] == head[before.len() + j]);
            assert(all.take(before.len() + j) =~= head.take(before.len() + j));
            assert(head.take(before.len() + j) =~= before + leaves(kid).take(j));
            lemma_items_join(before, leaves(kid).take(j));
            lemma_kid_entries(t, id, keys, kids, lo, hi, c);
            let s = items(all.take(before.len() + j));
            let a = items(before);
            assert forall|i: int| 0 <= i < s.len() implies lex_less((#[trigger] s[i]).0, key) by {
                if i < a.len() {
                    assert(s[i] == a[i]);
                    assert(c > 0);
                    assert(within(a[i].0, lo, kid_high(keys, hi, c - 1)));
                    lemma_lex_total(keys[c - 1], key);
                    if keys[c - 1] != key {
                        lemma_lex_trans(a[i].0, keys[c - 1], key);
                    }
                } else {
                    assert(s[i] == items(leaves(kid).take(j))[i - a.len()]);
                }
            }
        },
    }
}

/// A tree in order has leaves, and the first is where `first_leaf` says.
pub proof fn lemma_leaves(t: Tree, lo: Option<Seq<u8>>, hi: Option<Seq<u8>>)
    requires
        ordered(t, lo, hi),
    ensures
        leaves(t).len() > 0,
        tree_id(leaves(t)[0]) == first_leaf(t),
    decreases t,
{
    match t {
        Tree::Leaf { .. } => {},
        Tree::Inner { id, keys, kids } => {
            assert(ordered(kids[0], kid_low(keys, lo, 0), kid_high(keys, hi, 0)));
            lemma_leaves(kids[0], kid_low(keys, lo, 0), kid_high(keys, hi, 0));
            lemma_kid_leaves_split(kids, 0, kids.len());
            let n = leaves(kids[0]).len();
            assert(kid_leaves(kids, 0) + leaves(kids[0]) =~= leaves(kids[0]));
            assert(leaves(t).take(n as int)[0] == leaves(t)[0]);
        },
    }
}

} // verus!
