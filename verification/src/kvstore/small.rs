//! Short entries always fit: a tree of them can take any further short entry.

use super::node::{entry_size, node_size, size_to, NodeSpec, NODE_HEAD};
use super::tree::{below, grown, ids_below, inner_fits, insertion_fits, kid_high, kid_low, kids_grown, leaf_fits, leaf_keys, leaf_vals, lemma_below, lemma_grown_sep, lemma_kid_cases, lemma_leaf_keys, lemma_upto, middle, ordered, sized, split_key, upto, Tree};
use super::wal::PAGE_SIZE;
use vstd::prelude::*;

verus! {

/// The most bytes that a key and its value have together in a short entry.
pub const SHORT: usize = 120;

/// All entries of the tree are short, and so are the keys of its inner nodes.
pub open spec fn short(t: Tree) -> bool
    decreases t,
{
    match t {
        Tree::Leaf { id, keys, vals } => short_leaf(keys, vals),
        Tree::Inner { id, keys, kids } => short_keys(keys) && forall|i: int| 0 <= i < kids.len() ==> short(#[trigger] kids[i]),
    }
}

/// Short entries.
pub open spec fn short_leaf(keys: Seq<Seq<u8>>, vals: Seq<Seq<u8>>) -> bool {
    forall|i: int| 0 <= i < keys.len() ==> (#[trigger] keys[i]).len() + vals[i].len() <= SHORT
}

/// Short keys.
pub open spec fn short_keys(keys: Seq<Seq<u8>>) -> bool {
    forall|i: int| 0 <= i < keys.len() ==> (#[trigger] keys[i]).len() <= SHORT
}

spec fn leaf_node(keys: Seq<Seq<u8>>, vals: Seq<Seq<u8>>) -> NodeSpec {
    NodeSpec { leaf: true, link: 0, keys, vals, children: Seq::empty() }
}

spec fn inner_node(keys: Seq<Seq<u8>>) -> NodeSpec {
    NodeSpec { leaf: false, link: 0, keys, vals: Seq::empty(), children: Seq::new(keys.len(), |i: int| 0u32) }
}

/// The size of the entries from `i` on, up to `k`.
proof fn lemma_size_range(n: NodeSpec, i: nat, k: nat, least: nat, most: nat)
    requires
        i <= k <= n.keys.len(),
        forall|j: int| i <= j < k ==> least <= #[trigger] entry_size(n, j) <= most,
    ensures
        size_to(n, i) + least * (k - i) <= size_to(n, k) <= size_to(n, i) + most * (k - i),
    decreases k,
{
    if i < k {
        lemma_size_range(n, i, (k - 1) as nat, least, most);
        assert(least <= entry_size(n, k - 1) <= most);
        assert(least * (k - i) == least * (k - 1 - i) + least) by (nonlinear_arith)
            requires
                i < k,
        ;
        assert(most * (k - i) == most * (k - 1 - i) + most) by (nonlinear_arith)
            requires
                i < k,
        ;
    }
}

/// Nodes that agree on some entries differ there by the same sizes.
proof fn lemma_size_shift(a: NodeSpec, i: nat, b: NodeSpec, j: nat, n: nat)
    requires
        a.leaf == b.leaf,
        forall|k: int| 0 <= k < n ==> entry_size(a, i + k) == #[trigger] entry_size(b, j + k),
    ensures
        size_to(a, i + n) - size_to(a, i) == size_to(b, j + n) - size_to(b, j),
    decreases n,
{
    if n > 0 {
        lemma_size_shift(a, i, b, j, (n - 1) as nat);
        assert(entry_size(a, i + (n - 1)) == entry_size(b, j + (n - 1)));
    }
}

/// Cutting a node with small entries that is a little too large gives two that fit.
proof fn lemma_halves_fit(n: NodeSpec, a: NodeSpec, b: NodeSpec, m: nat, skip: nat)
    requires
        a.leaf == n.leaf,
        b.leaf == n.leaf,
        n.keys.len() > 0,
        m == n.keys.len() / 2,
        skip == (if n.leaf { 0nat } else { 1nat }),
        a.keys.len() == m,
        b.keys.len() == n.keys.len() - m - skip,
        forall|k: int| 0 <= k < m ==> entry_size(a, k) == #[trigger] entry_size(n, k),
        forall|k: int| 0 <= k < b.keys.len() ==> #[trigger] entry_size(b, k) == entry_size(n, m + skip + k),
        forall|j: int| 0 <= j < n.keys.len() ==> (if n.leaf { 4nat } else { 6nat }) <= #[trigger] entry_size(n, j) <= (if n.leaf { 124nat } else { 126nat }),
        node_size(n) <= PAGE_SIZE + (if n.leaf { 124nat } else { 126nat }),
    ensures
        node_size(a) <= PAGE_SIZE,
        node_size(b) <= PAGE_SIZE,
{
    let len = n.keys.len();
    let least = if n.leaf { 4nat } else { 6nat };
    let most = if n.leaf { 124nat } else { 126nat };
    assert forall|k: int| 0 <= k < m implies entry_size(a, 0 + k) == #[trigger] entry_size(n, 0 + k) by {
        assert(entry_size(a, k) == entry_size(n, k));
    }
    lemma_size_shift(a, 0, n, 0, m);
    assert forall|k: int| 0 <= k < b.keys.len() implies entry_size(b, 0 + k) == #[trigger] entry_size(n, m + skip + k) by {
        assert(entry_size(b, k) == entry_size(n, m + skip + k));
    }
    lemma_size_shift(b, 0, n, (m + skip) as nat, b.keys.len());
    lemma_size_range(n, 0, m, least, most);
    lemma_size_range(n, m, len, least, most);
    lemma_size_range(n, m, (m + skip) as nat, least, most);
    lemma_size_range(n, (m + skip) as nat, len, least, most);
    lemma_size_range(n, 0, (m + skip) as nat, least, most);
}

/// The sizes of entries that are inserted in a leaf.
proof fn lemma_leaf_growth(keys: Seq<Seq<u8>>, vals: Seq<Seq<u8>>, key: Seq<u8>, val: Seq<u8>)
    requires
        vals.len() == keys.len(),
        below(keys, key) <= keys.len(),
        short_leaf(keys, vals),
        key.len() + val.len() <= SHORT,
    ensures
        short_leaf(leaf_keys(keys, key), leaf_vals(keys, vals, key, val)),
        leaf_vals(keys, vals, key, val).len() == leaf_keys(keys, key).len(),
        node_size(leaf_node(leaf_keys(keys, key), leaf_vals(keys, vals, key, val))) <= node_size(leaf_node(keys, vals)) + 124,
{
    let i = below(keys, key) as int;
    let k2 = leaf_keys(keys, key);
    let v2 = leaf_vals(keys, vals, key, val);
    let (a, b) = (leaf_node(keys, vals), leaf_node(k2, v2));
    assert forall|j: int| 0 <= j < i implies entry_size(a, 0 + j) == #[trigger] entry_size(b, 0 + j) by {
        assert(k2[j] == keys[j] && v2[j] == vals[j]);
    }
    lemma_size_shift(a, 0, b, 0, i as nat);
    assert forall|j: int| 0 <= j < k2.len() implies (#[trigger] k2[j]).len() + v2[j].len() <= SHORT by {
        if i < keys.len() && keys[i] == key {
            assert(keys[j].len() + vals[j].len() <= SHORT);
        } else if j < i {
            assert(keys[j].len() + vals[j].len() <= SHORT);
        } else if j > i {
            assert(keys[j - 1].len() + vals[j - 1].len() <= SHORT);
        }
    }
    assert(k2[i].len() + v2[i].len() <= SHORT);
    if i < keys.len() && keys[i] == key {
        let rest = (keys.len() - i - 1) as nat;
        assert forall|j: int| 0 <= j < rest implies entry_size(a, i + 1 + j) == #[trigger] entry_size(b, i + 1 + j) by {
            assert(v2[i + 1 + j] == vals[i + 1 + j]);
        }
        lemma_size_shift(a, (i + 1) as nat, b, (i + 1) as nat, rest);
    } else {
        let rest = (keys.len() - i) as nat;
        assert forall|j: int| 0 <= j < rest implies entry_size(a, i + j) == #[trigger] entry_size(b, i + 1 + j) by {
            assert(k2[i + 1 + j] == keys[i + j] && v2[i + 1 + j] == vals[i + j]);
        }
        lemma_size_shift(a, i as nat, b, (i + 1) as nat, rest);
    }
}

proof fn lemma_inner_growth(keys: Seq<Seq<u8>>, c: int, sep: Seq<u8>)
    requires
        0 <= c <= keys.len(),
        short_keys(keys),
        sep.len() <= SHORT,
    ensures
        short_keys(keys.insert(c, sep)),
        node_size(inner_node(keys.insert(c, sep))) <= node_size(inner_node(keys)) + 126,
{
    let k2 = keys.insert(c, sep);
    let (a, b) = (inner_node(keys), inner_node(k2));
    assert forall|j: int| 0 <= j < c implies entry_size(a, 0 + j) == #[trigger] entry_size(b, 0 + j) by {
        assert(k2[j] == keys[j]);
    }
    lemma_size_shift(a, 0, b, 0, c as nat);
    let rest = (keys.len() - c) as nat;
    assert forall|j: int| 0 <= j < rest implies entry_size(a, c + j) == #[trigger] entry_size(b, c + 1 + j) by {
        assert(k2[c + 1 + j] == keys[c + j]);
    }
    lemma_size_shift(a, c as nat, b, (c + 1) as nat, rest);
    assert(k2[c] == sep);
    assert forall|j: int| 0 <= j < k2.len() implies (#[trigger] k2[j]).len() <= SHORT by {
        if j < c {
            assert(k2[j] == keys[j]);
        } else if j > c {
            assert(k2[j] == keys[j - 1]);
        }
    }
}

/// A tree of short entries can take a short entry, and stays one of short entries.
#[verifier::spinoff_prover]
#[verifier::rlimit(40)]
pub proof fn law_short_entries_fit(t: Tree, key: Seq<u8>, val: Seq<u8>, ids: Seq<u32>, lo: Option<Seq<u8>>, hi: Option<Seq<u8>>)
    requires
        ordered(t, lo, hi),
        sized(t),
        short(t),
        key.len() + val.len() <= SHORT,
    ensures
        insertion_fits(t, key, val),
        split_key(t, key, val) matches Some(sep) ==> sep.len() <= SHORT && inner_fits(seq![sep]),
        short(grown(t, key, val, ids).left),
        grown(t, key, val, ids).right matches Some(r) ==> short(r),
    decreases t,
{
    match t {
        Tree::Leaf { id, keys, vals } => {
            lemma_below(keys, key);
            lemma_leaf_keys(keys, key);
            lemma_leaf_growth(keys, vals, key, val);
            let k2 = leaf_keys(keys, key);
            let v2 = leaf_vals(keys, vals, key, val);
            let m = middle(k2);
            assert(leaf_fits(keys, vals) == (node_size(leaf_node(keys, vals)) <= PAGE_SIZE));
            if !leaf_fits(k2, v2) {
                let n = leaf_node(k2, v2);
                let a = leaf_node(k2.take(m), v2.take(m));
                let b = leaf_node(k2.skip(m), v2.skip(m));
                assert forall|j: int| 0 <= j < n.keys.len() implies 4 <= #[trigger] entry_size(n, j) <= 124 by {
                    assert(k2[j].len() + v2[j].len() <= SHORT);
                }
                lemma_halves_fit(n, a, b, m as nat, 0);
                assert(k2[m].len() + v2[m].len() <= SHORT);
                lemma_lone_key(k2[m]);
                assert forall|i: int| 0 <= i < k2.take(m).len() implies (#[trigger] k2.take(m)[i]).len() + v2.take(m)[i].len() <= SHORT by {
                    assert(k2[i].len() + v2[i].len() <= SHORT);
                }
                assert forall|i: int| 0 <= i < k2.skip(m).len() implies (#[trigger] k2.skip(m)[i]).len() + v2.skip(m)[i].len() <= SHORT by {
                    assert(k2[m + i].len() + v2[m + i].len() <= SHORT);
                }
            }
        },
        Tree::Inner { id, keys, kids } => {
            lemma_upto(keys, key);
            let c = upto(keys, key) as int;
            let sub = ids_below(t, key, val, ids);
            assert(ordered(kids[c], kid_low(keys, lo, c), kid_high(keys, hi, c)));
            assert(sized(kids[c]));
            assert(short(kids[c]));
            law_short_entries_fit(kids[c], key, val, sub, kid_low(keys, lo, c), kid_high(keys, hi, c));
            lemma_grown_sep(kids[c], key, val, sub);
            let g = grown(kids[c], key, val, sub);
            let kids2 = kids_grown(kids, c, g);
            assert forall|i: int| 0 <= i < kids2.len() implies short(#[trigger] kids2[i]) by {
                lemma_kid_cases(kids, c, g, i);
                if i < c {
                    assert(short(kids[i]));
                } else if i > c && g.right is None {
                    assert(short(kids[i]));
                } else if i > c + 1 {
                    assert(short(kids[i - 1]));
                }
            }
            if g.right is Some {
                lemma_inner_growth(keys, c, g.sep);
                let k2 = keys.insert(c, g.sep);
                let m = middle(k2);
                assert(inner_fits(keys) == (node_size(inner_node(keys)) <= PAGE_SIZE));
                if !inner_fits(k2) {
                    let n = inner_node(k2);
                    let a = inner_node(k2.take(m));
                    let b = inner_node(k2.skip(m + 1));
                    assert forall|j: int| 0 <= j < n.keys.len() implies 6 <= #[trigger] entry_size(n, j) <= 126 by {
                        assert(k2[j].len() <= SHORT);
                    }
                    lemma_halves_fit(n, a, b, m as nat, 1);
                    assert(k2[m].len() <= SHORT);
                    lemma_lone_key(k2[m]);
                    assert forall|i: int| 0 <= i < kids2.take(m + 1).len() implies short(#[trigger] kids2.take(m + 1)[i]) by {
                        assert(short(kids2[i]));
                    }
                    assert forall|i: int| 0 <= i < kids2.skip(m + 1).len() implies short(#[trigger] kids2.skip(m + 1)[i]) by {
                        assert(short(kids2[m + 1 + i]));
                    }
                    assert forall|i: int| 0 <= i < k2.take(m).len() implies (#[trigger] k2.take(m)[i]).len() <= SHORT by {
                        assert(k2[i].len() <= SHORT);
                    }
                    assert forall|i: int| 0 <= i < k2.skip(m + 1).len() implies (#[trigger] k2.skip(m + 1)[i]).len() <= SHORT by {
                        assert(k2[m + 1 + i].len() <= SHORT);
                    }
                }
            }
        },
    }
}

/// A short key alone fits.
pub proof fn lemma_lone_key(key: Seq<u8>)
    requires
        key.len() <= SHORT,
    ensures
        inner_fits(seq![key]),
{
    let n = inner_node(seq![key]);
    assert(n.keys[0] == key);
    assert(size_to(n, 0) == NODE_HEAD);
    assert(size_to(n, 1) == NODE_HEAD + entry_size(n, 0));
}

/// A short entry alone fits.
pub proof fn lemma_lone_entry(key: Seq<u8>, val: Seq<u8>)
    requires
        key.len() + val.len() <= SHORT,
    ensures
        leaf_fits(seq![key], seq![val]),
{
    let n = leaf_node(seq![key], seq![val]);
    assert(n.keys[0] == key && n.vals[0] == val);
    assert(size_to(n, 0) == NODE_HEAD);
    assert(size_to(n, 1) == NODE_HEAD + entry_size(n, 0));
}

} // verus!
