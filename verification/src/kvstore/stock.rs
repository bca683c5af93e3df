//! What B+ trees take up: every node has a key, and removals give back the pages that
//! a tree needs no longer.

use super::join::{join_place, joinable, joined, narrow_kids, nodes, nodes_upto, packed, settled, settled_freed, stocked};
use super::node::{entry_size, size_to, NodeSpec};
use super::prune::{cut, cut_freed, heir, lemma_shape_without, sep_of, shape_freed, shape_nodes, shape_stocked, shape_without};
use super::shape::{no_ids, shape_after, shape_ok, shape_short};
use super::small::{law_short_entries_fit, lemma_lone_entry, short, SHORT};
use super::tree::{grown, ids_below, inner_fits, kid_high, kid_low, kids_grown, leaf_keys, leaf_vals, lemma_grown_sep, lemma_kid_cases, lemma_leaf_keys, lemma_upto, lookup, middle, ordered, sized, splits, upto, Tree};
use vstd::prelude::*;

verus! {

/// Two short keys always fit an inner node.
proof fn lemma_two_keys_fit(keys: Seq<Seq<u8>>)
    requires
        keys.len() <= 2,
        forall|i: int| 0 <= i < keys.len() ==> (#[trigger] keys[i]).len() <= SHORT,
    ensures
        inner_fits(keys),
{
    let n = NodeSpec { leaf: false, link: 0, keys, vals: Seq::empty(), children: Seq::new(keys.len(), |i: int| 0u32) };
    reveal_with_fuel(size_to, 3);
    if keys.len() > 0 {
        assert(entry_size(n, 0) <= 126);
    }
    if keys.len() > 1 {
        assert(entry_size(n, 1) <= 126);
    }
}

/// Inserting a short entry into a tree of short entries leaves no node without a key.
#[verifier::spinoff_prover]
#[verifier::rlimit(30)]
pub proof fn lemma_grown_stocked(t: Tree, key: Seq<u8>, val: Seq<u8>, ids: Seq<u32>, lo: Option<Seq<u8>>, hi: Option<Seq<u8>>)
    requires
        ordered(t, lo, hi),
        sized(t),
        short(t),
        stocked(t),
        key.len() + val.len() <= SHORT,
    ensures
        stocked(grown(t, key, val, ids).left),
        grown(t, key, val, ids).right matches Some(r) ==> stocked(r),
    decreases t,
{
    match t {
        Tree::Leaf { id, keys, vals } => {
            lemma_leaf_keys(keys, key);
            super::tree::lemma_below(keys, key);
            let k2 = leaf_keys(keys, key);
            let v2 = leaf_vals(keys, vals, key, val);
            if k2.len() == 1 {
                if keys.len() == 1 {
                    assert(k2 == keys);
                    assert(keys[0] == key);
                    assert(k2 =~= seq![key]);
                    assert(v2 =~= seq![val]);
                }
                lemma_lone_entry(key, val);
            }
        },
        Tree::Inner { id, keys, kids } => {
            lemma_upto(keys, key);
            let c = upto(keys, key) as int;
            let sub = ids_below(t, key, val, ids);
            let (l, h) = (kid_low(keys, lo, c), kid_high(keys, hi, c));
            assert(ordered(kids[c], l, h));
            assert(sized(kids[c]) && short(kids[c]) && stocked(kids[c]));
            lemma_grown_stocked(kids[c], key, val, sub, l, h);
            law_short_entries_fit(kids[c], key, val, sub, l, h);
            lemma_grown_sep(kids[c], key, val, sub);
            let g = grown(kids[c], key, val, sub);
            let kids2 = kids_grown(kids, c, g);
            assert forall|i: int| 0 <= i < kids2.len() implies stocked(#[trigger] kids2[i]) by {
                lemma_kid_cases(kids, c, g, i);
                if i < c {
                    assert(stocked(kids[i]));
                } else if i > c && g.right is None {
                    assert(stocked(kids[i]));
                } else if i > c + 1 {
                    assert(stocked(kids[i - 1]));
                }
            }
            if g.right is Some {
                let k2 = keys.insert(c, g.sep);
                let m = middle(k2);
                if !inner_fits(k2) {
                    assert(k2.len() > 2) by {
                        if k2.len() <= 2 {
                            assert forall|i: int| 0 <= i < k2.len() implies (#[trigger] k2[i]).len() <= SHORT by {
                                if i < c {
                                    assert(keys[i].len() <= SHORT);
                                } else if i > c {
                                    assert(keys[i - 1].len() <= SHORT);
                                }
                            }
                            lemma_two_keys_fit(k2);
                        }
                    }
                    assert forall|i: int| 0 <= i < kids2.take(m + 1).len() implies stocked(#[trigger] kids2.take(m + 1)[i]) by {
                        assert(stocked(kids2[i]));
                    }
                    assert forall|i: int| 0 <= i < kids2.skip(m + 1).len() implies stocked(#[trigger] kids2.skip(m + 1)[i]) by {
                        assert(stocked(kids2[m + 1 + i]));
                    }
                }
            }
        },
    }
}

/// No page of a tree of short entries stays without a key, whatever is inserted and
/// removed.
pub proof fn law_nodes_have_keys(s: Option<Tree>, key: Seq<u8>, val: Seq<u8>)
    requires
        shape_ok(s),
        shape_short(s),
        shape_stocked(s),
        key.len() + val.len() <= SHORT,
    ensures
        shape_stocked(shape_after(s, key, val)),
        shape_stocked(shape_without(s, key)),
{
    lemma_shape_without(s, key);
    match s {
        None => {},
        Some(t) => {
            let ids = no_ids(splits(t, key, val));
            lemma_grown_stocked(t, key, val, ids, None, None);
            let g = grown(t, key, val, ids);
            if g.right is Some {
                let kids = seq![g.left, g.right->0];
                assert forall|i: int| 0 <= i < kids.len() implies stocked(#[trigger] kids[i]) by {
                    if i != 0 {
                        assert(i == 1);
                    }
                }
            }
        },
    }
}

proof fn lemma_upto_same(a: Seq<Tree>, b: Seq<Tree>, n: nat)
    requires
        n <= a.len(),
        n <= b.len(),
        forall|i: int| 0 <= i < n ==> #[trigger] a[i] == b[i],
    ensures
        nodes_upto(a, n) == nodes_upto(b, n),
    decreases n,
{
    if n > 0 {
        lemma_upto_same(a, b, (n - 1) as nat);
        assert(a[n - 1] == b[n - 1]);
    }
}

/// The kids from `i` on count the same in another list that has them from `j` on.
proof fn lemma_upto_shift(a: Seq<Tree>, b: Seq<Tree>, i: nat, j: nat, n: nat)
    requires
        i + n <= a.len(),
        j + n <= b.len(),
        forall|k: int| 0 <= k < n ==> #[trigger] a[i + k] == b[j + k],
    ensures
        nodes_upto(a, i + n) - nodes_upto(a, i) == nodes_upto(b, j + n) - nodes_upto(b, j),
    decreases n,
{
    if n > 0 {
        lemma_upto_shift(a, b, i, j, (n - 1) as nat);
        assert(a[i + (n - 1)] == b[j + (n - 1)]);
    }
}

proof fn lemma_nodes_update(kids: Seq<Tree>, c: int, kid: Tree)
    requires
        0 <= c < kids.len(),
    ensures
        nodes_upto(kids.update(c, kid), kids.len()) == nodes_upto(kids, kids.len()) - nodes(kids[c]) + nodes(kid),
{
    let ks = kids.update(c, kid);
    lemma_upto_same(kids, ks, c as nat);
    lemma_upto_shift(kids, ks, (c + 1) as nat, (c + 1) as nat, (kids.len() - c - 1) as nat);
    assert(ks[c] == kid);
}

proof fn lemma_nodes_narrow(kids: Seq<Tree>, i: int, kid: Tree)
    requires
        0 <= i < kids.len() - 1,
    ensures
        nodes_upto(narrow_kids(kids, i, kid), (kids.len() - 1) as nat) == nodes_upto(kids, kids.len()) - nodes(kids[i]) - nodes(kids[i + 1]) + nodes(kid),
{
    let ks = narrow_kids(kids, i, kid);
    lemma_upto_same(kids, ks, i as nat);
    assert forall|k: int| 0 <= k < kids.len() - i - 2 implies #[trigger] ks[i + 1 + k] == kids[i + 2 + k] by {}
    lemma_upto_shift(ks, kids, (i + 1) as nat, (i + 2) as nat, (kids.len() - i - 2) as nat);
    assert(ks[i] == kid);
    assert(nodes_upto(ks, (i + 1) as nat) == nodes_upto(ks, i as nat) + nodes(kid));
    assert(nodes_upto(kids, (i + 1) as nat) == nodes_upto(kids, i as nat) + nodes(kids[i]));
    assert(nodes_upto(kids, (i + 2) as nat) == nodes_upto(kids, (i + 1) as nat) + nodes(kids[i + 1]));
}

proof fn lemma_nodes_joined(a: Tree, sep: Seq<u8>, b: Tree)
    requires
        joinable(a, sep, b),
    ensures
        nodes(joined(a, sep, b)) + 1 == nodes(a) + nodes(b),
{
    if a is Inner {
        let (ca, cb) = (a->Inner_kids, b->Inner_kids);
        let all = ca + cb;
        lemma_upto_same(ca, all, ca.len());
        assert forall|k: int| 0 <= k < cb.len() implies #[trigger] all[ca.len() + k] == cb[0 + k] by {}
        lemma_upto_shift(all, cb, ca.len(), 0, cb.len());
    }
}

proof fn lemma_nodes_packed(id: u32, keys: Seq<Seq<u8>>, kids: Seq<Tree>)
    requires
        kids.len() > 0,
    ensures
        nodes(packed(id, keys, kids)) + (if kids.len() == 1 {
            1int
        } else {
            0
        }) == 1 + nodes_upto(kids, kids.len()),
{
    reveal_with_fuel(nodes_upto, 2);
}

proof fn lemma_nodes_settled(id: u32, keys: Seq<Seq<u8>>, kids: Seq<Tree>, c: int)
    requires
        0 <= c < kids.len(),
    ensures
        nodes(settled(id, keys, kids, c)) + settled_freed(keys, kids, c) == 1 + nodes_upto(kids, kids.len()),
{
    match join_place(keys, kids, c) {
        Some(i) => {
            let kid = joined(kids[i], keys[i], kids[i + 1]);
            lemma_nodes_joined(kids[i], keys[i], kids[i + 1]);
            lemma_nodes_narrow(kids, i, kid);
            lemma_nodes_packed(id, keys.remove(i), narrow_kids(kids, i, kid));
        },
        None => {
            lemma_nodes_packed(id, keys, kids);
        },
    }
}

/// The pages that a removal gives back are those that the tree needs no longer.
#[verifier::spinoff_prover]
pub proof fn lemma_cut_nodes(t: Tree, key: Seq<u8>, lo: Option<Seq<u8>>, hi: Option<Seq<u8>>)
    requires
        ordered(t, lo, hi),
        lookup(t, key) is Some,
    ensures
        cut_freed(t, key) + (match cut(t, key) {
            None => 0,
            Some(u) => nodes(u),
        }) == nodes(t),
    decreases t,
{
    match t {
        Tree::Leaf { id, keys, vals } => {},
        Tree::Inner { id, keys, kids } => {
            lemma_upto(keys, key);
            let c = upto(keys, key) as int;
            let (l, h) = (kid_low(keys, lo, c), kid_high(keys, hi, c));
            assert(ordered(kids[c], l, h));
            lemma_cut_nodes(kids[c], key, l, h);
            match cut(kids[c], key) {
                Some(kid) => {
                    lemma_nodes_update(kids, c, kid);
                    lemma_nodes_settled(id, keys, kids.update(c, kid), c);
                },
                None => {
                    if kids.len() == 1 {
                        reveal_with_fuel(nodes_upto, 2);
                    } else {
                        let i = sep_of(c);
                        let ks = narrow_kids(kids, i, heir(kids, c));
                        lemma_nodes_narrow(kids, i, heir(kids, c));
                        lemma_nodes_packed(id, keys.remove(i), ks);
                    }
                },
            }
        },
    }
}

/// Removal gives back exactly the pages that the tree takes less: what it takes and what
/// is free stay the same in all.
pub proof fn law_removal_gives_pages_back(s: Option<Tree>, key: Seq<u8>)
    requires
        shape_ok(s),
    ensures
        shape_nodes(shape_without(s, key)) + shape_freed(s, key) == shape_nodes(s),
{
    if s is Some && lookup(s->0, key) is Some {
        lemma_cut_nodes(s->0, key, None, None);
    }
}

} // verus!
