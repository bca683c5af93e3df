//! B+ trees without the numbers of their pages. What a tree holds, and how it grows,
//! does not depend on the pages that its nodes stand on.

use super::small::{law_short_entries_fit, lemma_lone_entry, short, SHORT};
use super::tree::{grown, ids_below, inner_fits, insertion_fits, kid_high, kid_low, kids_grown, leaf_fits, lemma_grown_lookup, lemma_grown_order, lemma_grown_sep, lemma_grown_sized, lemma_upto, lemma_upto_is, lookup, middle, ordered, sized, split_key, splits, upto, Grown, Tree};
use crate::text::lex_less;
use vstd::prelude::*;

verus! {

/// The tree with all page numbers 0.
pub open spec fn shape(t: Tree) -> Tree
    decreases t,
{
    match t {
        Tree::Leaf { id, keys, vals } => Tree::Leaf { id: 0, keys, vals },
        Tree::Inner { id, keys, kids } => Tree::Inner {
            id: 0,
            keys,
            kids: Seq::new(
                kids.len(),
                |i: int|
                    if 0 <= i < kids.len() {
                        shape(kids[i])
                    } else {
                        t
                    },
            ),
        },
    }
}

/// As many zeros.
pub open spec fn no_ids(n: nat) -> Seq<u32> {
    Seq::new(n, |i: int| 0u32)
}

/// The shape of a tree, or of no tree, after an insertion.
pub open spec fn shape_after(s: Option<Tree>, key: Seq<u8>, val: Seq<u8>) -> Option<Tree> {
    match s {
        None => Some(Tree::Leaf { id: 0, keys: seq![key], vals: seq![val] }),
        Some(t) => {
            let g = grown(t, key, val, no_ids(splits(t, key, val)));
            match g.right {
                None => Some(g.left),
                Some(r) => Some(Tree::Inner { id: 0, keys: seq![g.sep], kids: seq![g.left, r] }),
            }
        },
    }
}

/// The insertion leaves nodes that fit their pages.
pub open spec fn shape_fits(s: Option<Tree>, key: Seq<u8>, val: Seq<u8>) -> bool {
    match s {
        None => leaf_fits(seq![key], seq![val]),
        Some(t) => insertion_fits(t, key, val) && (split_key(t, key, val) matches Some(sep) ==> inner_fits(seq![sep])),
    }
}

/// How many pages the insertion takes.
pub open spec fn shape_cost(s: Option<Tree>, key: Seq<u8>, val: Seq<u8>) -> nat {
    match s {
        None => 1,
        Some(t) => splits(t, key, val) + (if split_key(t, key, val) is Some {
            1nat
        } else {
            0nat
        }),
    }
}

/// The value of a key.
pub open spec fn shape_value(s: Option<Tree>, key: Seq<u8>) -> Option<Seq<u8>> {
    match s {
        None => None,
        Some(t) => lookup(t, key),
    }
}

/// The nodes are in order and fit their pages.
pub open spec fn shape_ok(s: Option<Tree>) -> bool {
    s matches Some(t) ==> ordered(t, None, None) && sized(t)
}

/// All entries are short.
pub open spec fn shape_short(s: Option<Tree>) -> bool {
    s matches Some(t) ==> short(t)
}

/// A tree and its shape hold the same.
pub proof fn lemma_shape_lookup(t: Tree, key: Seq<u8>)
    ensures
        lookup(shape(t), key) == lookup(t, key),
    decreases t,
{
    match t {
        Tree::Leaf { .. } => {},
        Tree::Inner { id, keys, kids } => {
            let c = upto(keys, key) as int;
            if c < kids.len() {
                lemma_shape_lookup(kids[c], key);
                assert(shape(t)->Inner_kids[c] == shape(kids[c]));
            }
        },
    }
}

/// A tree and its shape have the same order and sizes.
pub proof fn lemma_shape_ok(t: Tree, lo: Option<Seq<u8>>, hi: Option<Seq<u8>>)
    ensures
        ordered(shape(t), lo, hi) == ordered(t, lo, hi),
        sized(shape(t)) == sized(t),
        short(shape(t)) == short(t),
    decreases t,
{
    match t {
        Tree::Leaf { .. } => {},
        Tree::Inner { id, keys, kids } => {
            let ks = shape(t)->Inner_kids;
            assert forall|i: int| 0 <= i < kids.len() implies #[trigger] ks[i] == shape(kids[i]) by {}
            assert forall|i: int| 0 <= i < kids.len() implies ordered(ks[i], kid_low(keys, lo, i), kid_high(keys, hi, i)) == ordered(#[trigger] kids[i], kid_low(keys, lo, i), kid_high(keys, hi, i)) && sized(ks[i]) == sized(kids[i]) && short(ks[i]) == short(kids[i]) by {
                lemma_shape_ok(kids[i], kid_low(keys, lo, i), kid_high(keys, hi, i));
            }
            if ordered(shape(t), lo, hi) {
                assert forall|i: int| 0 <= i < kids.len() implies ordered(#[trigger] kids[i], kid_low(keys, lo, i), kid_high(keys, hi, i)) by {
                    assert(ordered(ks[i], kid_low(keys, lo, i), kid_high(keys, hi, i)));
                }
            }
            if sized(shape(t)) {
                assert forall|i: int| 0 <= i < kids.len() implies sized(#[trigger] kids[i]) by {
                    assert(sized(ks[i]));
                }
            }
            if short(shape(t)) {
                assert forall|i: int| 0 <= i < kids.len() implies short(#[trigger] kids[i]) by {
                    assert(short(ks[i]));
                }
            }
            if ordered(t, lo, hi) {
                assert forall|i: int| 0 <= i < ks.len() implies ordered(#[trigger] ks[i], kid_low(keys, lo, i), kid_high(keys, hi, i)) by {
                    assert(ordered(kids[i], kid_low(keys, lo, i), kid_high(keys, hi, i)));
                }
            }
            if sized(t) {
                assert forall|i: int| 0 <= i < ks.len() implies sized(#[trigger] ks[i]) by {
                    assert(sized(kids[i]));
                }
            }
            if short(t) {
                assert forall|i: int| 0 <= i < ks.len() implies short(#[trigger] ks[i]) by {
                    assert(short(kids[i]));
                }
            }
        },
    }
}

proof fn lemma_shape_kids(kids: Seq<Tree>, ks: Seq<Tree>, c: int, g: Grown, gs: Grown)
    requires
        ks.len() == kids.len(),
        0 <= c < kids.len(),
        forall|i: int| 0 <= i < kids.len() ==> #[trigger] ks[i] == shape(kids[i]),
        gs.left == shape(g.left),
        match g.right {
            None => gs.right is None,
            Some(r) => gs.right == Some(shape(r)),
        },
    ensures
        kids_grown(ks, c, gs).len() == kids_grown(kids, c, g).len(),
        forall|i: int| 0 <= i < kids_grown(kids, c, g).len() ==> #[trigger] kids_grown(ks, c, gs)[i] == shape(kids_grown(kids, c, g)[i]),
{
    assert forall|i: int| 0 <= i < kids_grown(kids, c, g).len() implies #[trigger] kids_grown(ks, c, gs)[i] == shape(kids_grown(kids, c, g)[i]) by {
        super::tree::lemma_kid_cases(kids, c, g, i);
        super::tree::lemma_kid_cases(ks, c, gs, i);
    }
}

/// A tree and its shape grow alike.
#[verifier::spinoff_prover]
#[verifier::rlimit(40)]
pub proof fn lemma_shape_grown(t: Tree, key: Seq<u8>, val: Seq<u8>, ids: Seq<u32>, lo: Option<Seq<u8>>, hi: Option<Seq<u8>>)
    requires
        ordered(t, lo, hi),
    ensures
        split_key(shape(t), key, val) == split_key(t, key, val),
        splits(shape(t), key, val) == splits(t, key, val),
        insertion_fits(shape(t), key, val) == insertion_fits(t, key, val),
        ({
            let g = grown(t, key, val, ids);
            let gs = grown(shape(t), key, val, no_ids(splits(t, key, val)));
            &&& gs.sep == g.sep
            &&& gs.left == shape(g.left)
            &&& match g.right {
                None => gs.right is None,
                Some(r) => gs.right == Some(shape(r)),
            }
        }),
    decreases t,
{
    let zeros = no_ids(splits(t, key, val));
    match t {
        Tree::Leaf { id, keys, vals } => {
            if split_key(t, key, val) is Some {
                assert(zeros[0] == 0);
                assert(zeros.last() == 0);
            }
        },
        Tree::Inner { id, keys, kids } => {
            lemma_upto(keys, key);
            let c = upto(keys, key) as int;
            let s = shape(t);
            let ks = s->Inner_kids;
            assert forall|i: int| 0 <= i < kids.len() implies #[trigger] ks[i] == shape(kids[i]) by {}
            let sub = ids_below(t, key, val, ids);
            assert(ordered(kids[c], kid_low(keys, lo, c), kid_high(keys, hi, c)));
            lemma_shape_grown(kids[c], key, val, sub, kid_low(keys, lo, c), kid_high(keys, hi, c));
            assert(split_key(s, key, val) == split_key(t, key, val));
            let kid_zeros = no_ids(splits(kids[c], key, val));
            assert(ids_below(s, key, val, zeros) =~= kid_zeros);
            let g = grown(kids[c], key, val, sub);
            let gs = grown(ks[c], key, val, kid_zeros);
            lemma_shape_kids(kids, ks, c, g, gs);
            lemma_grown_sep(kids[c], key, val, sub);
            let kids2 = kids_grown(kids, c, g);
            let ks2 = kids_grown(ks, c, gs);
            let res = grown(t, key, val, ids);
            let rs = grown(s, key, val, zeros);
            match g.right {
                None => {
                    assert(shape(res.left)->Inner_kids =~= ks2);
                },
                Some(r) => {
                    let k2 = keys.insert(c, g.sep);
                    let m = middle(k2);
                    if inner_fits(k2) {
                        assert(shape(res.left)->Inner_kids =~= ks2);
                    } else {
                        assert(zeros.last() == 0);
                        assert(shape(res.left)->Inner_kids =~= ks2.take(m + 1)) by {
                            assert forall|i: int| 0 <= i < m + 1 implies shape(res.left)->Inner_kids[i] == ks2.take(m + 1)[i] by {
                                assert(ks2[i] == shape(kids2[i]));
                            }
                        }
                        let right = res.right->0;
                        assert(shape(right)->Inner_kids =~= ks2.skip(m + 1)) by {
                            assert forall|i: int| 0 <= i < kids2.len() - m - 1 implies shape(right)->Inner_kids[i] == ks2.skip(m + 1)[i] by {
                                assert(ks2[m + 1 + i] == shape(kids2[m + 1 + i]));
                            }
                        }
                    }
                },
            }
        },
    }
}

/// An insertion sets the value of its key and no other, and keeps the order.
#[verifier::spinoff_prover]
pub proof fn lemma_shape_after(s: Option<Tree>, key: Seq<u8>, val: Seq<u8>)
    requires
        shape_ok(s),
        shape_fits(s, key, val),
    ensures
        shape_ok(shape_after(s, key, val)),
        forall|k: Seq<u8>| #[trigger] shape_value(shape_after(s, key, val), k) == (if k == key {
            Some(val)
        } else {
            shape_value(s, k)
        }),
        shape_short(s) && key.len() + val.len() <= SHORT ==> shape_short(shape_after(s, key, val)),
{
    match s {
        None => {
            assert forall|k: Seq<u8>| #[trigger] shape_value(shape_after(s, key, val), k) == (if k == key { Some(val) } else { shape_value(s, k) }) by {
                super::tree::lemma_below(seq![key], k);
                crate::text::lemma_lex_total(key, k);
            }
        },
        Some(t) => {
            let ids = no_ids(splits(t, key, val));
            let g = grown(t, key, val, ids);
            lemma_grown_order(t, key, val, ids, None, None);
            lemma_grown_sized(t, key, val, ids, None, None);
            lemma_grown_sep(t, key, val, ids);
            if shape_short(s) && key.len() + val.len() <= SHORT {
                law_short_entries_fit(t, key, val, ids, None, None);
            }
            if g.right is Some {
                let r = g.right->0;
                let keys = seq![g.sep];
                let kids = seq![g.left, r];
                let top = Tree::Inner { id: 0, keys, kids };
                assert(kids[0] == g.left && kids[1] == r);
                assert forall|i: int| 0 <= i < kids.len() implies ordered(#[trigger] kids[i], kid_low(keys, None, i), kid_high(keys, None, i)) && sized(kids[i]) by {
                    if i != 0 {
                        assert(i == 1);
                    }
                }
                assert(ordered(top, None, None));
                if shape_short(s) && key.len() + val.len() <= SHORT {
                    assert forall|i: int| 0 <= i < kids.len() implies short(#[trigger] kids[i]) by {
                        if i != 0 {
                            assert(i == 1);
                        }
                    }
                }
            }
            assert forall|k: Seq<u8>| #[trigger] shape_value(shape_after(s, key, val), k) == (if k == key { Some(val) } else { shape_value(s, k) }) by {
                lemma_grown_lookup(t, key, val, ids, None, None, k);
                if g.right is Some {
                    lemma_upto(seq![g.sep], k);
                    if lex_less(k, g.sep) {
                        lemma_upto_is(seq![g.sep], k, 0);
                    } else {
                        lemma_upto_is(seq![g.sep], k, 1);
                    }
                }
            }
        },
    }
}

/// Short entries fit a shape of short entries.
pub proof fn lemma_shape_short_fits(s: Option<Tree>, key: Seq<u8>, val: Seq<u8>)
    requires
        shape_ok(s),
        shape_short(s),
        key.len() + val.len() <= SHORT,
    ensures
        shape_fits(s, key, val),
{
    match s {
        None => {
            lemma_lone_entry(key, val);
        },
        Some(t) => {
            law_short_entries_fit(t, key, val, Seq::empty(), None, None);
        },
    }
}

} // verus!
