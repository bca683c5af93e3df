//! A B+ tree on the pages of a pager, from byte strings to byte strings. Leaves are
//! linked, so that entries can be read in the order of their keys.

use super::heap::{get_page, heap, law_heap_survives_reopening, lemma_heap, pages_left, put_page, put_root, sound, take_page, Pages};
use super::leaves::{entries, holds_item, items, items_ascend, leaf_at, leaf_for, leaf_items, leaves, lemma_entries, lemma_items_join, lemma_items_take, lemma_leaf_at, lemma_leaves, kid_leaves, Item};
use super::node::{fits_page, lemma_size_ext, node_of, shaped, views, Node, NodeSpec};
use super::pager::{committed, opened, Pager, PagerSpec, NROOTS};
use super::prune::{cut, cut_freed, cut_lookup, lemma_cut, lemma_cut_pages, lemma_cut_shape, shape_freed, shape_without};
use super::removal::{remove_in, removed_on, Removed};
use super::shape::{lemma_shape_grown, lemma_shape_lookup, lemma_shape_ok, shape, shape_after, shape_cost, shape_fits, shape_ok, shape_short, shape_value};
use super::small::{law_short_entries_fit, lemma_lone_entry, short, SHORT};
use super::tree::{apart, below, disjoint, find, first_leaf, grown, has_page, ids_below, inner_fits, insertion_fits, keys_ascend, kid_high, kid_low, kids_apart, kids_grown, later_kids, leaf_fits, leaf_keys, leaf_vals, lemma_below, lemma_grown_lookup, lemma_grown_order, lemma_grown_pages, lemma_grown_sep, lemma_grown_sized, lemma_kid_cases, lemma_kid_for, lemma_kids_grown_apart, lemma_upto, lemma_upto_is, lookup, middle, ordered, pages_from, sized, split_key, splits, top_node, tree_id, upto, within, Grown, Tree};
use super::wal::{copy_bytes, PageId, PAGE_SIZE};
use crate::codec::{be32_bytes, get_be32, lemma_be32, push_be32, push_slice, read_be32};
use crate::db::logs::is_database_error;
use crate::error::{GStoreError, Result};
use crate::text::{bytes_less, lemma_lex_total, lex_less, same_bytes};
use vstd::prelude::*;

verus! {

/// The leaf behind a kid.
pub open spec fn kid_next(kids: Seq<Tree>, i: int, next: u32) -> u32 {
    if i + 1 < kids.len() {
        first_leaf(kids[i + 1])
    } else {
        next
    }
}

/// The nodes of the tree stand on their pages; the leaf behind the last is `next`.
pub open spec fn stored(h: Pages, t: Tree, next: u32) -> bool
    decreases t,
{
    &&& h.contains_key(tree_id(t))
    &&& node_of(h[tree_id(t)]) == Some(top_node(t, next))
    &&& match t {
        Tree::Leaf { .. } => true,
        Tree::Inner { id, keys, kids } => forall|i: int| 0 <= i < kids.len() ==> stored(h, kids[i], #[trigger] kid_next(kids, i, next)),
    }
}

/// The pages of a stored tree are in use.
pub proof fn lemma_stored_pages(h: Pages, t: Tree, next: u32, x: u32)
    requires
        stored(h, t, next),
        has_page(t, x),
    ensures
        h.contains_key(x),
    decreases t,
{
    match t {
        Tree::Leaf { .. } => {},
        Tree::Inner { id, keys, kids } => {
            if x != id {
                let i = choose|i: int| 0 <= i < kids.len() && has_page(#[trigger] kids[i], x);
                assert(stored(h, kids[i], kid_next(kids, i, next)));
                lemma_stored_pages(h, kids[i], kid_next(kids, i, next), x);
            }
        },
    }
}

/// The pages of the tree hold the same.
pub open spec fn same_pages(h: Pages, g: Pages, t: Tree) -> bool {
    forall|x: u32| #[trigger] has_page(t, x) && h.contains_key(x) ==> g.contains_key(x) && g[x] == h[x]
}

/// A tree stays stored if its pages do.
pub proof fn lemma_stored_frame(h: Pages, g: Pages, t: Tree, next: u32)
    requires
        stored(h, t, next),
        same_pages(h, g, t),
    ensures
        stored(g, t, next),
    decreases t,
{
    assert(has_page(t, tree_id(t)));
    match t {
        Tree::Leaf { .. } => {},
        Tree::Inner { id, keys, kids } => {
            assert forall|i: int| 0 <= i < kids.len() implies stored(g, kids[i], #[trigger] kid_next(kids, i, next)) by {
                assert forall|x: u32| #[trigger] has_page(kids[i], x) && h.contains_key(x) implies g.contains_key(x) && g[x] == h[x] by {
                    assert(has_page(t, x));
                }
                lemma_stored_frame(h, g, kids[i], kid_next(kids, i, next));
            }
        },
    }
}

/// One page stands for one tree.
#[verifier::spinoff_prover]
#[verifier::rlimit(40)]
pub proof fn lemma_stored_unique(h: Pages, a: Tree, b: Tree, na: u32, nb: u32, la: Option<Seq<u8>>, ha: Option<Seq<u8>>, lb: Option<Seq<u8>>, hb: Option<Seq<u8>>)
    requires
        stored(h, a, na),
        stored(h, b, nb),
        tree_id(a) == tree_id(b),
        ordered(a, la, ha),
        ordered(b, lb, hb),
    ensures
        a == b,
    decreases a,
{
    match a {
        Tree::Leaf { .. } => {},
        Tree::Inner { id, keys, kids } => {
            match b {
                Tree::Leaf { .. } => {},
                Tree::Inner { id: id2, keys: keys2, kids: kids2 } => {
                    assert(keys == keys2);
                    let (ca, cb) = (later_kids(kids), later_kids(kids2));
                    assert(ca == cb);
                    assert forall|i: int| 0 <= i < kids.len() implies kids[i] == kids2[i] by {
                        assert(stored(h, kids[i], kid_next(kids, i, na)));
                        assert(stored(h, kids2[i], kid_next(kids2, i, nb)));
                        if i > 0 {
                            assert(ca[i - 1] == tree_id(kids[i]));
                            assert(cb[i - 1] == tree_id(kids2[i]));
                        }
                        assert(ordered(kids[i], kid_low(keys, la, i), kid_high(keys, ha, i)));
                        assert(ordered(kids2[i], kid_low(keys2, lb, i), kid_high(keys2, hb, i)));
                        lemma_stored_unique(h, kids[i], kids2[i], kid_next(kids, i, na), kid_next(kids2, i, nb), kid_low(keys, la, i), kid_high(keys, ha, i), kid_low(keys2, lb, i), kid_high(keys2, hb, i));
                    }
                    assert(kids =~= kids2);
                },
            }
        },
    }
}

/// A tree on the pages of a heap.
pub open spec fn tree_at(h: Pages, root: u32, t: Tree) -> bool {
    &&& tree_id(t) == root
    &&& stored(h, t, 0)
    &&& ordered(t, None, None)
    &&& apart(t)
    &&& sized(t)
}

/// The root page of a slot, or 0.
pub open spec fn root_of(p: PagerSpec, slot: int) -> u32 {
    p.roots[slot] as u32
}

/// The slot holds a tree, or nothing.
pub open spec fn is_tree(p: PagerSpec, slot: int) -> bool {
    &&& sound(p)
    &&& 0 <= slot < NROOTS
    &&& p.roots.len() == NROOTS
    &&& p.roots[slot] <= u32::MAX
    &&& root_of(p, slot) != 0 ==> exists|t: Tree| tree_at(heap(p), root_of(p, slot), t)
}

/// The tree of a slot that is not empty.
pub open spec fn tree_in(p: PagerSpec, slot: int) -> Tree {
    choose|t: Tree| tree_at(heap(p), root_of(p, slot), t)
}

/// The value of a key.
pub open spec fn value_in(p: PagerSpec, slot: int, key: Seq<u8>) -> Option<Seq<u8>> {
    if root_of(p, slot) == 0 {
        None
    } else {
        lookup(tree_in(p, slot), key)
    }
}

/// What the tree of a slot holds.
pub open spec fn map_in(p: PagerSpec, slot: int) -> Map<Seq<u8>, Seq<u8>> {
    Map::new(|k: Seq<u8>| value_in(p, slot, k) is Some, |k: Seq<u8>| value_in(p, slot, k)->0)
}

/// The page belongs to the tree of the slot.
pub open spec fn page_in(p: PagerSpec, slot: int, x: u32) -> bool {
    root_of(p, slot) != 0 && has_page(tree_in(p, slot), x)
}

/// The tree of a slot is the one that its root page stands for.
pub proof fn lemma_tree_in(p: PagerSpec, slot: int, t: Tree)
    requires
        sound(p),
        0 <= slot < NROOTS,
        tree_at(heap(p), root_of(p, slot), t),
    ensures
        tree_in(p, slot) == t,
        root_of(p, slot) != 0,
{
    lemma_heap(p);
    lemma_stored_unique(heap(p), tree_in(p, slot), t, 0, 0, None, None, None, None);
}

/// How many keys do not come behind `key`.
pub(super) fn place_of(keys: &Vec<Vec<u8>>, key: &[u8]) -> (r: usize)
    requires
        keys_ascend(views(keys@)),
    ensures
        r == upto(views(keys@), key@),
        r <= keys@.len(),
{
    let ghost ks = views(keys@);
    let mut lo: usize = 0;
    let mut hi: usize = keys.len();
    while lo < hi
        invariant
            ks == views(keys@),
            keys_ascend(ks),
            lo <= hi <= keys@.len(),
            lo > 0 ==> !lex_less(key@, ks[lo - 1]),
            hi < keys@.len() ==> lex_less(key@, ks[hi as int]),
        decreases hi - lo,
    {
        let mid: usize = lo + (hi - lo) / 2;
        assert(ks[mid as int] == keys@[mid as int]@);
        if bytes_less(key, &keys[mid]) {
            hi = mid;
        } else {
            lo = mid + 1;
        }
    }
    proof {
        lemma_upto_is(ks, key@, lo as int);
    }
    lo
}

/// How many keys come before `key`.
pub(super) fn place_before(keys: &Vec<Vec<u8>>, key: &[u8]) -> (r: usize)
    requires
        keys_ascend(views(keys@)),
    ensures
        r == below(views(keys@), key@),
        r <= keys@.len(),
{
    let ghost ks = views(keys@);
    let mut lo: usize = 0;
    let mut hi: usize = keys.len();
    proof {
        lemma_below(ks, key@);
    }
    while lo < hi
        invariant
            ks == views(keys@),
            keys_ascend(ks),
            lo <= hi <= keys@.len(),
            lo <= below(ks, key@) <= hi,
            forall|i: int| 0 <= i < below(ks, key@) ==> lex_less(#[trigger] ks[i], key@),
            forall|i: int| below(ks, key@) <= i < ks.len() ==> !lex_less(#[trigger] ks[i], key@),
        decreases hi - lo,
    {
        let mid: usize = lo + (hi - lo) / 2;
        assert(ks[mid as int] == keys@[mid as int]@);
        if bytes_less(&keys[mid], key) {
            lo = mid + 1;
        } else {
            hi = mid;
        }
    }
    lo
}

/// The page of the kid for a key.
fn child_for(node: &Node, key: &[u8]) -> (r: PageId)
    requires
        !node.leaf,
        shaped(node@),
        keys_ascend(node@.keys),
    ensures
        r == (if upto(node@.keys, key@) == 0 {
            node.link
        } else {
            node@.children[upto(node@.keys, key@) - 1]
        }),
{
    let i: usize = place_of(&node.keys, key);
    if i == 0 {
        node.link
    } else {
        node.children[i - 1]
    }
}

/// The leaf with an entry more, or with another value for a key that it has.
fn with_entry(node: Node, key: &[u8], val: &[u8]) -> (r: Node)
    requires
        node.leaf,
        shaped(node@),
        keys_ascend(node@.keys),
    ensures
        r@ == (NodeSpec { leaf: true, link: node.link, keys: leaf_keys(node@.keys, key@), vals: leaf_vals(node@.keys, node@.vals, key@, val@), children: Seq::empty() }),
        shaped(r@),
        r@.keys.len() > 0,
{
    let mut node = node;
    let ghost n0 = node;
    proof {
        lemma_below(node@.keys, key@);
    }
    let i: usize = place_before(&node.keys, key);
    let mut found: bool = false;
    if i < node.keys.len() {
        assert(node@.keys[i as int] == node.keys@[i as int]@);
        found = same_bytes(&node.keys[i], key);
    }
    if found {
        let mut v: Vec<u8> = Vec::new();
        push_slice(&mut v, val);
        assert(v@ =~= val@);
        node.vals.set(i, v);
        assert(views(node.vals@) =~= views(n0.vals@).update(i as int, val@));
    } else {
        let mut k: Vec<u8> = Vec::new();
        push_slice(&mut k, key);
        assert(k@ =~= key@);
        let mut v: Vec<u8> = Vec::new();
        push_slice(&mut v, val);
        assert(v@ =~= val@);
        node.keys.insert(i, k);
        node.vals.insert(i, v);
        assert(views(node.keys@) =~= views(n0.keys@).insert(i as int, key@));
        assert(views(node.vals@) =~= views(n0.vals@).insert(i as int, val@));
    }
    assert(node@.children =~= Seq::<u32>::empty());
    node
}

/// A B+ tree with its root in a slot of the pager.
pub struct BTree {
    root_slot: usize,
}

impl BTree {
    /// The slot of the root.
    pub closed spec fn slot(&self) -> int {
        self.root_slot as int
    }

    /// A tree with its root in a slot.
    pub fn new(root_slot: usize) -> (r: BTree)
        ensures
            r.slot() == root_slot,
    {
        BTree { root_slot }
    }

    /// The leaf for a key, and its page.
    fn leaf_page(&self, pager: &mut Pager, root: PageId, key: &[u8], Ghost(t): Ghost<Tree>) -> (r: (PageId, Node))
        requires
            old(pager).wf(),
            sound(old(pager)@),
            tree_at(heap(old(pager)@), root, t),
        ensures
            final(pager).wf(),
            sound(final(pager)@),
            heap(final(pager)@) == heap(old(pager)@),
            pages_left(final(pager)@) == pages_left(old(pager)@),
            final(pager)@.roots == old(pager)@.roots,
            r.1.leaf,
            shaped(r.1@),
            leaf_for(t, key@) matches Tree::Leaf { id, keys, vals } && r.0 == id && r.1@.keys == keys && r.1@.vals == vals && node_of(heap(old(pager)@)[id]) == Some(r.1@),
            keys_ascend(r.1@.keys),
            lookup(t, key@) == find(r.1@.keys, r.1@.vals, key@),
    {
        let mut page: PageId = root;
        let ghost h = heap(pager@);
        let ghost mut cur: Tree = t;
        let ghost mut next: u32 = 0;
        let ghost mut lo: Option<Seq<u8>> = None;
        let ghost mut hi: Option<Seq<u8>> = None;
        loop
            invariant
                pager.wf(),
                sound(pager@),
                heap(pager@) == h,
                pages_left(pager@) == pages_left(old(pager)@),
                pager@.roots == old(pager)@.roots,
                h == heap(old(pager)@),
                tree_id(cur) == page,
                stored(h, cur, next),
                ordered(cur, lo, hi),
                leaf_for(cur, key@) == leaf_for(t, key@),
                lookup(cur, key@) == lookup(t, key@),
            decreases cur,
        {
            let bytes: Vec<u8> = get_page(pager, page);
            let node: Node = Node::parse(&bytes);
            if node.leaf {
                return (page, node);
            }
            proof {
                match cur {
                    Tree::Leaf { .. } => {},
                    Tree::Inner { id, keys, kids } => {
                        lemma_upto(keys, key@);
                        let c = upto(keys, key@) as int;
                        assert(stored(h, kids[c], kid_next(kids, c, next)));
                        assert(ordered(kids[c], kid_low(keys, lo, c), kid_high(keys, hi, c)));
                        if c > 0 {
                            assert(later_kids(kids)[c - 1] == tree_id(kids[c]));
                        }
                    },
                }
            }
            page = child_for(&node, key);
            proof {
                match cur {
                    Tree::Leaf { .. } => {},
                    Tree::Inner { id, keys, kids } => {
                        let c = upto(keys, key@) as int;
                        next = kid_next(kids, c, next);
                        lo = kid_low(keys, lo, c);
                        hi = kid_high(keys, hi, c);
                        cur = kids[c];
                    },
                }
            }
        }
    }

    /// The value of a key.
    pub fn get(&self, pager: &mut Pager, key: &[u8]) -> (r: Result<Option<Vec<u8>>>)
        requires
            old(pager).wf(),
            is_tree(old(pager)@, self.slot()),
        ensures
            final(pager).wf(),
            same_trees(old(pager)@, final(pager)@),
            r matches Ok(v) && match value_in(old(pager)@, self.slot(), key@) {
                Some(x) => v matches Some(b) && b@ == x,
                None => v is None,
            },
    {
        let root: PageId = pager.root(self.root_slot) as PageId;
        if root == 0 {
            return Ok(None);
        }
        let ghost t = tree_in(pager@, self.slot());
        let (_, node): (PageId, Node) = self.leaf_page(pager, root, key, Ghost(t));
        let i: usize = place_before(&node.keys, key);
        if i < node.keys.len() {
            assert(node@.keys[i as int] == node.keys@[i as int]@);
            assert(node@.vals[i as int] == node.vals@[i as int]@);
            if same_bytes(&node.keys[i], key) {
                return Ok(Some(copy_bytes(&node.vals[i])));
            }
        }
        Ok(None)
    }
}

/// A pager with the same pages in use and the same roots: all trees are the same.
pub open spec fn same_trees(p: PagerSpec, q: PagerSpec) -> bool {
    &&& sound(q)
    &&& heap(q) == heap(p)
    &&& q.roots == p.roots
    &&& pages_left(q) == pages_left(p)
}

/// Whether a leaf fits does not depend on its link.
pub proof fn lemma_leaf_fits(n: NodeSpec)
    requires
        n.leaf,
        shaped(n),
    ensures
        fits_page(n) == leaf_fits(n.keys, n.vals),
{
    let m = NodeSpec { leaf: true, link: 0, keys: n.keys, vals: n.vals, children: Seq::empty() };
    lemma_size_ext(n, m, n.keys.len());
}

/// Whether an inner node fits does not depend on its kids.
pub proof fn lemma_inner_fits(n: NodeSpec)
    requires
        !n.leaf,
        shaped(n),
    ensures
        fits_page(n) == inner_fits(n.keys),
{
    let m = NodeSpec { leaf: false, link: 0, keys: n.keys, vals: Seq::empty(), children: Seq::new(n.keys.len(), |i: int| 0u32) };
    lemma_size_ext(n, m, n.keys.len());
}

/// The kids of a node stay stored while one of them grows.
#[verifier::spinoff_prover]
#[verifier::rlimit(40)]
proof fn lemma_kids_stored(h: Pages, h1: Pages, t: Tree, id: u32, keys: Seq<Seq<u8>>, kids: Seq<Tree>, next: u32, c: int, g: Grown)
    requires
        t == (Tree::Inner { id, keys, kids }),
        stored(h, t, next),
        apart(t),
        0 <= c < kids.len(),
        first_leaf(g.left) == first_leaf(kids[c]),
        stored(h1, g.left, match g.right {
            Some(r) => first_leaf(r),
            None => kid_next(kids, c, next),
        }),
        g.right matches Some(r) ==> stored(h1, r, kid_next(kids, c, next)),
        forall|x: u32| #[trigger] h.contains_key(x) && !has_page(kids[c], x) ==> h1.contains_key(x) && h1[x] == h[x],
    ensures
        forall|i: int| 0 <= i < kids_grown(kids, c, g).len() ==> stored(h1, kids_grown(kids, c, g)[i], #[trigger] kid_next(kids_grown(kids, c, g), i, next)),
{
    let kids2 = kids_grown(kids, c, g);
    assert(t->Inner_kids == kids);
    assert forall|j: int| 0 <= j < kids.len() && j != c implies stored(h1, kids[j], #[trigger] kid_next(kids, j, next)) by {
        assert(stored(h, kids[j], kid_next(kids, j, next)));
        assert forall|x: u32| #[trigger] has_page(kids[j], x) && h.contains_key(x) implies h1.contains_key(x) && h1[x] == h[x] by {
            if j < c {
                assert(disjoint(kids[j], kids[c]));
            } else {
                assert(disjoint(kids[c], kids[j]));
            }
            assert(!has_page(kids[c], x));
        }
        lemma_stored_frame(h, h1, kids[j], kid_next(kids, j, next));
    }
    assert forall|i: int| 0 <= i < kids2.len() implies stored(h1, kids2[i], #[trigger] kid_next(kids2, i, next)) by {
        lemma_kid_cases(kids, c, g, i);
        if i + 1 < kids2.len() {
            lemma_kid_cases(kids, c, g, i + 1);
        }
        let shift: int = if g.right is Some { 1 } else { 0 };
        if i < c {
            assert(stored(h1, kids[i], kid_next(kids, i, next)));
            assert(kid_next(kids2, i, next) == kid_next(kids, i, next));
        } else if i > c + shift {
            assert(stored(h1, kids[i - shift], kid_next(kids, i - shift, next)));
            assert(kid_next(kids2, i, next) == kid_next(kids, i - shift, next));
        } else if i == c {
            if shift == 1 {
                assert(kid_next(kids2, i, next) == first_leaf(g.right->0));
            } else {
                assert(kid_next(kids2, i, next) == kid_next(kids, c, next));
            }
        } else {
            assert(kid_next(kids2, i, next) == kid_next(kids, c, next));
        }
    }
}

/// Kids stay stored if only other pages change.
pub proof fn lemma_kids_frame(h: Pages, h1: Pages, kids: Seq<Tree>, next: u32)
    requires
        forall|i: int| 0 <= i < kids.len() ==> stored(h, kids[i], #[trigger] kid_next(kids, i, next)),
        forall|i: int| 0 <= i < kids.len() ==> same_pages(h, h1, #[trigger] kids[i]),
    ensures
        forall|i: int| 0 <= i < kids.len() ==> stored(h1, kids[i], #[trigger] kid_next(kids, i, next)),
{
    assert forall|i: int| 0 <= i < kids.len() implies stored(h1, kids[i], #[trigger] kid_next(kids, i, next)) by {
        lemma_stored_frame(h, h1, kids[i], kid_next(kids, i, next));
    }
}

/// What an insertion into a tree leaves behind on the heap.
pub open spec fn grown_on(h: Pages, h1: Pages, t: Tree, next: u32, key: Seq<u8>, val: Seq<u8>, ids: Seq<u32>) -> bool {
    let g = grown(t, key, val, ids);
    &&& ids.len() == splits(t, key, val)
    &&& ids.no_duplicates()
    &&& forall|i: int| 0 <= i < ids.len() ==> !h.contains_key(#[trigger] ids[i])
    &&& forall|x: u32| #[trigger] h1.contains_key(x) <==> h.contains_key(x) || ids.contains(x)
    &&& forall|x: u32| #[trigger] h.contains_key(x) && !has_page(t, x) ==> h1[x] == h[x]
    &&& stored(h1, g.left, match g.right {
        Some(r) => first_leaf(r),
        None => next,
    })
    &&& g.right matches Some(r) ==> stored(h1, r, next)
}

/// The kids after one of them has grown.
pub open spec fn wider_kids(t: Tree, key: Seq<u8>, val: Seq<u8>, sub: Seq<u32>) -> Seq<Tree> {
    match t {
        Tree::Leaf { .. } => Seq::empty(),
        Tree::Inner { id, keys, kids } => {
            let c = upto(keys, key) as int;
            kids_grown(kids, c, grown(kids[c], key, val, sub))
        },
    }
}

/// The keys after a kid was cut in two.
pub open spec fn wider_keys(t: Tree, key: Seq<u8>, val: Seq<u8>, sub: Seq<u32>) -> Seq<Seq<u8>> {
    match t {
        Tree::Leaf { .. } => Seq::empty(),
        Tree::Inner { id, keys, kids } => {
            let c = upto(keys, key) as int;
            keys.insert(c, grown(kids[c], key, val, sub).sep)
        },
    }
}

/// All that is needed of the kids after one of them has grown.
#[verifier::spinoff_prover]
#[verifier::rlimit(40)]
proof fn lemma_kid_has_grown(h: Pages, h1: Pages, t: Tree, id: u32, keys: Seq<Seq<u8>>, kids: Seq<Tree>, next: u32, key: Seq<u8>, val: Seq<u8>, sub: Seq<u32>, lo: Option<Seq<u8>>, hi: Option<Seq<u8>>)
    requires
        t == (Tree::Inner { id, keys, kids }),
        stored(h, t, next),
        apart(t),
        ordered(t, lo, hi),
        within(key, lo, hi),
        ({
            let c = upto(keys, key) as int;
            grown_on(h, h1, kids[c], kid_next(kids, c, next), key, val, sub)
        }),
    ensures
        ({
            let c = upto(keys, key) as int;
            let g = grown(kids[c], key, val, sub);
            let kids2 = wider_kids(t, key, val, sub);
            &&& 0 <= c < kids.len()
            &&& kids_apart(kids2, id)
            &&& forall|i: int| 0 <= i < kids2.len() ==> stored(h1, kids2[i], #[trigger] kid_next(kids2, i, next))
            &&& tree_id(g.left) == tree_id(kids[c])
            &&& !has_page(kids[c], id)
            &&& h.contains_key(id)
            &&& h1.contains_key(id)
            &&& h1[id] == h[id]
            &&& forall|i: int| 0 <= i < kids2.len() && i <= c ==> tree_id(#[trigger] kids2[i]) == tree_id(kids[i])
            &&& first_leaf(g.left) == first_leaf(kids[c])
            &&& (g.right is Some <==> split_key(kids[c], key, val) is Some)
            &&& (g.right is Some ==> split_key(kids[c], key, val) == Some(g.sep))
            &&& kids2.len() == (if g.right is Some { kids.len() + 1 } else { kids.len() })
            &&& kids.len() == keys.len() + 1
        }),
{
    assert(t->Inner_kids == kids);
    lemma_kid_for(keys, lo, hi, key);
    let c = upto(keys, key) as int;
    let kid = kids[c];
    assert(ordered(kid, kid_low(keys, lo, c), kid_high(keys, hi, c)));
    assert(stored(h, kid, kid_next(kids, c, next)));
    assert(apart(kid) && !has_page(kid, id));
    assert forall|i: int| 0 <= i < sub.len() implies !has_page(t, #[trigger] sub[i]) by {
        if has_page(t, sub[i]) {
            lemma_stored_pages(h, t, next, sub[i]);
        }
    }
    assert forall|i: int| 0 <= i < sub.len() implies !has_page(kid, #[trigger] sub[i]) by {
        if has_page(kid, sub[i]) {
            lemma_stored_pages(h, kid, kid_next(kids, c, next), sub[i]);
        }
    }
    lemma_grown_pages(kid, key, val, sub, kid_low(keys, lo, c), kid_high(keys, hi, c));
    lemma_grown_sep(kid, key, val, sub);
    let g = grown(kid, key, val, sub);
    lemma_kids_grown_apart(t, id, keys, kids, sub, c, g);
    assert forall|x: u32| #[trigger] h.contains_key(x) && !has_page(kid, x) implies h1.contains_key(x) && h1[x] == h[x] by {
        assert(h1.contains_key(x));
    }
    lemma_kids_stored(h, h1, t, id, keys, kids, next, c, g);
    let kids2 = wider_kids(t, key, val, sub);
    assert forall|i: int| 0 <= i < kids2.len() && i <= c implies tree_id(#[trigger] kids2[i]) == tree_id(kids[i]) by {
        lemma_kid_cases(kids, c, g, i);
    }
}

/// The tree after one of its kids has grown without a cut.
#[verifier::spinoff_prover]
proof fn lemma_same_node(h: Pages, h1: Pages, t: Tree, id: u32, keys: Seq<Seq<u8>>, kids: Seq<Tree>, next: u32, key: Seq<u8>, val: Seq<u8>, sub: Seq<u32>, lo: Option<Seq<u8>>, hi: Option<Seq<u8>>)
    requires
        t == (Tree::Inner { id, keys, kids }),
        stored(h, t, next),
        apart(t),
        ordered(t, lo, hi),
        within(key, lo, hi),
        ({
            let c = upto(keys, key) as int;
            grown_on(h, h1, kids[c], kid_next(kids, c, next), key, val, sub) && grown(kids[c], key, val, sub).right is None
        }),
    ensures
        grown_on(h, h1, t, next, key, val, sub),
        grown(t, key, val, sub).right is None,
{
    lemma_kid_has_grown(h, h1, t, id, keys, kids, next, key, val, sub, lo, hi);
    let c = upto(keys, key) as int;
    let kid = kids[c];
    let g = grown(kid, key, val, sub);
    let kids2 = wider_kids(t, key, val, sub);
    assert(kids2 == kids.update(c, g.left));
    assert(split_key(t, key, val) is None);
    assert(ids_below(t, key, val, sub) == sub);
    let t2 = Tree::Inner { id, keys, kids: kids2 };
    assert(grown(t, key, val, sub).left == t2);
    assert(later_kids(kids2) =~= later_kids(kids)) by {
        assert forall|i: int| 0 <= i < kids.len() - 1 implies later_kids(kids2)[i] == later_kids(kids)[i] by {
            assert(tree_id(kids2[i + 1]) == tree_id(kids[i + 1]));
        }
    }
    assert(tree_id(kids2[0]) == tree_id(kids[0]));
    assert(top_node(t2, next) == top_node(t, next));
    assert(stored(h1, t2, next));
    assert forall|x: u32| #[trigger] h.contains_key(x) && !has_page(t, x) implies h1[x] == h[x] by {
        assert(t->Inner_kids == kids);
        assert(has_page(kid, x) ==> has_page(t, x));
    }
}

/// The tree after one of its kids was cut and the node was written again.
#[verifier::spinoff_prover]
#[verifier::rlimit(40)]
proof fn lemma_wider_node(h: Pages, h1: Pages, h2: Pages, t: Tree, id: u32, keys: Seq<Seq<u8>>, kids: Seq<Tree>, next: u32, key: Seq<u8>, val: Seq<u8>, sub: Seq<u32>, lo: Option<Seq<u8>>, hi: Option<Seq<u8>>, page: Seq<u8>)
    requires
        t == (Tree::Inner { id, keys, kids }),
        stored(h, t, next),
        apart(t),
        ordered(t, lo, hi),
        within(key, lo, hi),
        ({
            let c = upto(keys, key) as int;
            grown_on(h, h1, kids[c], kid_next(kids, c, next), key, val, sub) && grown(kids[c], key, val, sub).right is Some
        }),
        inner_fits(wider_keys(t, key, val, sub)),
        h2 == h1.insert(id, page),
        node_of(page) == Some(top_node(Tree::Inner { id, keys: wider_keys(t, key, val, sub), kids: wider_kids(t, key, val, sub) }, next)),
    ensures
        grown_on(h, h2, t, next, key, val, sub),
        grown(t, key, val, sub).right is None,
{
    lemma_kid_has_grown(h, h1, t, id, keys, kids, next, key, val, sub, lo, hi);
    let c = upto(keys, key) as int;
    let kid = kids[c];
    let g = grown(kid, key, val, sub);
    let kids2 = wider_kids(t, key, val, sub);
    let k2 = wider_keys(t, key, val, sub);
    assert(split_key(t, key, val) is None);
    assert(ids_below(t, key, val, sub) == sub);
    let t2 = Tree::Inner { id, keys: k2, kids: kids2 };
    assert(grown(t, key, val, sub).left == t2);
    assert forall|i: int| 0 <= i < kids2.len() implies same_pages(h1, h2, #[trigger] kids2[i]) by {
        assert(!has_page(kids2[i], id));
    }
    lemma_kids_frame(h1, h2, kids2, next);
    assert(stored(h2, t2, next));
    assert(t->Inner_kids == kids);
    assert forall|x: u32| #[trigger] h.contains_key(x) && !has_page(t, x) implies h2[x] == h[x] by {
        assert(has_page(kid, x) ==> has_page(t, x));
        assert(has_page(t, id));
    }
}

/// The tree after one of its kids and the node itself were cut.
#[verifier::spinoff_prover]
#[verifier::rlimit(60)]
proof fn lemma_cut_node(h: Pages, h1: Pages, h2: Pages, t: Tree, id: u32, keys: Seq<Seq<u8>>, kids: Seq<Tree>, next: u32, key: Seq<u8>, val: Seq<u8>, sub: Seq<u32>, lo: Option<Seq<u8>>, hi: Option<Seq<u8>>, id2: u32, page: Seq<u8>, page2: Seq<u8>)
    requires
        t == (Tree::Inner { id, keys, kids }),
        stored(h, t, next),
        apart(t),
        ordered(t, lo, hi),
        within(key, lo, hi),
        ({
            let c = upto(keys, key) as int;
            grown_on(h, h1, kids[c], kid_next(kids, c, next), key, val, sub) && grown(kids[c], key, val, sub).right is Some
        }),
        !inner_fits(wider_keys(t, key, val, sub)),
        !h1.contains_key(id2),
        h2 == h1.insert(id2, page2).insert(id, page),
        ({
            let k2 = wider_keys(t, key, val, sub);
            let kids2 = wider_kids(t, key, val, sub);
            let m = middle(k2);
            &&& node_of(page) == Some(top_node(Tree::Inner { id, keys: k2.take(m), kids: kids2.take(m + 1) }, next))
            &&& node_of(page2) == Some(top_node(Tree::Inner { id: id2, keys: k2.skip(m + 1), kids: kids2.skip(m + 1) }, next))
        }),
    ensures
        grown_on(h, h2, t, next, key, val, sub.push(id2)),
        ({
            let k2 = wider_keys(t, key, val, sub);
            let kids2 = wider_kids(t, key, val, sub);
            let m = middle(k2);
            grown(t, key, val, sub.push(id2)) == (Grown {
                left: Tree::Inner { id, keys: k2.take(m), kids: kids2.take(m + 1) },
                sep: k2[m],
                right: Some(Tree::Inner { id: id2, keys: k2.skip(m + 1), kids: kids2.skip(m + 1) }),
            })
        }),
{
    lemma_kid_has_grown(h, h1, t, id, keys, kids, next, key, val, sub, lo, hi);
    let c = upto(keys, key) as int;
    let kid = kids[c];
    let g = grown(kid, key, val, sub);
    let kids2 = wider_kids(t, key, val, sub);
    let k2 = wider_keys(t, key, val, sub);
    let m = middle(k2);
    let ids = sub.push(id2);
    assert(split_key(t, key, val) is Some);
    assert(ids.drop_last() =~= sub);
    assert(ids_below(t, key, val, ids) == sub);
    assert(ids.last() == id2);
    let (ta, tb) = (kids2.take(m + 1), kids2.skip(m + 1));
    let left = Tree::Inner { id, keys: k2.take(m), kids: ta };
    let right = Tree::Inner { id: id2, keys: k2.skip(m + 1), kids: tb };
    assert forall|i: int| 0 <= i < kids2.len() implies same_pages(h1, h2, #[trigger] kids2[i]) by {
        assert(!has_page(kids2[i], id));
    }
    lemma_kids_frame(h1, h2, kids2, next);
    assert(first_leaf(right) == first_leaf(kids2[m + 1])) by {
        assert(tb[0] == kids2[m + 1]);
    }
    assert forall|i: int| 0 <= i < ta.len() implies stored(h2, ta[i], #[trigger] kid_next(ta, i, first_leaf(right))) by {
        assert(ta[i] == kids2[i]);
        assert(stored(h2, kids2[i], kid_next(kids2, i, next)));
        assert(kid_next(ta, i, first_leaf(right)) == kid_next(kids2, i, next));
    }
    assert forall|i: int| 0 <= i < tb.len() implies stored(h2, tb[i], #[trigger] kid_next(tb, i, next)) by {
        assert(tb[i] == kids2[m + 1 + i]);
        assert(stored(h2, kids2[m + 1 + i], kid_next(kids2, m + 1 + i, next)));
        assert(kid_next(tb, i, next) == kid_next(kids2, m + 1 + i, next));
    }
    assert(top_node(left, first_leaf(right)) == top_node(left, next));
    assert(id != id2);
    assert(stored(h2, left, first_leaf(right)));
    assert(stored(h2, right, next));
    assert(t->Inner_kids == kids);
    assert forall|x: u32| #[trigger] h.contains_key(x) && !has_page(t, x) implies h2[x] == h[x] by {
        assert(has_page(kid, x) ==> has_page(t, x));
        assert(has_page(t, id));
        assert(h1.contains_key(x));
    }
    assert forall|i: int| 0 <= i < ids.len() implies !h.contains_key(#[trigger] ids[i]) by {
        if i < sub.len() {
            assert(ids[i] == sub[i]);
        } else if h.contains_key(id2) {
            assert(h1.contains_key(id2));
        }
    }
    assert forall|x: u32| #[trigger] ids.contains(x) <==> sub.contains(x) || x == id2 by {
        if sub.contains(x) {
            let i = choose|i: int| 0 <= i < sub.len() && sub[i] == x;
            assert(ids[i] == x);
        }
        assert(ids[sub.len() as int] == id2);
    }
    assert(ids.no_duplicates()) by {
        assert forall|i: int, j: int| 0 <= i < j < ids.len() implies ids[i] != ids[j] by {
            if j == sub.len() {
                assert(sub.contains(sub[i]));
                assert(h1.contains_key(sub[i]));
            }
        }
    }
}

impl BTree {
    /// Cut a leaf in two.
    fn split_leaf(&self, pager: &mut Pager, page: PageId, node: Node, Ghost(t): Ghost<Tree>, Ghost(next): Ghost<u32>, Ghost(key): Ghost<Seq<u8>>, Ghost(val): Ghost<Seq<u8>>) -> (r: Result<(Option<(Vec<u8>, PageId)>, Ghost<Seq<u32>>)>)
        requires
            old(pager).wf(),
            sound(old(pager)@),
            stored(heap(old(pager)@), t, next),
            tree_id(t) == page,
            t matches Tree::Leaf { id, keys, vals } && node@ == (NodeSpec { leaf: true, link: next, keys: leaf_keys(keys, key), vals: leaf_vals(keys, vals, key, val), children: Seq::empty() }),
            shaped(node@),
            node@.keys.len() > 0,
            split_key(t, key, val) is Some,
            insertion_fits(t, key, val),
        ensures
            insertion_outcome(old(pager)@, final(pager)@, t, next, key, val, r),
            final(pager).wf(),
    {
        let ghost h = heap(pager@);
        let ghost full = node@;
        let mut node = node;
        let mid: usize = node.keys.len() / 2;
        let right_keys: Vec<Vec<u8>> = node.keys.split_off(mid);
        let right_vals: Vec<Vec<u8>> = node.vals.split_off(mid);
        assert(views(right_keys@) =~= full.keys.skip(mid as int));
        assert(views(right_vals@) =~= full.vals.skip(mid as int));
        assert(views(node.keys@) =~= full.keys.take(mid as int));
        assert(views(node.vals@) =~= full.vals.take(mid as int));
        assert(views(right_keys@)[0] == right_keys@[0]@);
        let sep: Vec<u8> = copy_bytes(&right_keys[0]);
        match take_page(pager) {
            Err(e) => Err(e),
            Ok(right_id) => {
                let ghost h1 = heap(pager@);
                let right = Node { leaf: true, link: node.link, keys: right_keys, vals: right_vals, children: Vec::new() };
                node.link = right_id;
                proof {
                    lemma_leaf_fits(right@);
                    lemma_leaf_fits(node@);
                    assert(right@.children =~= Seq::<u32>::empty());
                    assert(h1.contains_key(right_id));
                    assert(page != right_id);
                    assert(h1.contains_key(page));
                }
                let right_page: Vec<u8> = right.serialize();
                put_page(pager, right_id, &right_page);
                assert(heap(pager@).contains_key(page));
                let left_page: Vec<u8> = node.serialize();
                put_page(pager, page, &left_page);
                let ghost ids: Seq<u32> = seq![right_id];
                proof {
                    assert(ids.last() == right_id);
                    let h2 = heap(pager@);
                    assert(h2 =~= h.insert(right_id, right_page@).insert(page, left_page@));
                    assert forall|x: u32| #[trigger] h2.contains_key(x) <==> h.contains_key(x) || ids.contains(x) by {
                        assert(ids.contains(x) <==> x == right_id) by {
                            assert(ids[0] == right_id);
                        }
                    }
                    assert forall|x: u32| #[trigger] h.contains_key(x) && !has_page(t, x) implies h2[x] == h[x] by {
                        assert(has_page(t, page));
                    }
                    let g = grown(t, key, val, ids);
                    assert(right@ == top_node(g.right->0, next));
                    assert(node@ =~= top_node(g.left, right_id));
                    assert(grown_on(h, h2, t, next, key, val, ids));
                }
                Ok((Some((sep, right_id)), Ghost(ids)))
            },
        }
    }
}

impl BTree {
    /// Write an inner node one kid of which was cut, and cut the node if it does not
    /// fit its page.
    #[verifier::spinoff_prover]
    #[verifier::rlimit(60)]
    fn widen(&self, pager: &mut Pager, page: PageId, node: Node, Ghost(h): Ghost<Pages>, Ghost(t): Ghost<Tree>, Ghost(next): Ghost<u32>, Ghost(key): Ghost<Seq<u8>>, Ghost(val): Ghost<Seq<u8>>, Ghost(sub): Ghost<Seq<u32>>, Ghost(lo): Ghost<Option<Seq<u8>>>, Ghost(hi): Ghost<Option<Seq<u8>>>) -> (r: Result<(Option<(Vec<u8>, PageId)>, Ghost<Seq<u32>>)>)
        requires
            old(pager).wf(),
            sound(old(pager)@),
            stored(h, t, next),
            tree_id(t) == page,
            apart(t),
            ordered(t, lo, hi),
            within(key, lo, hi),
            insertion_fits(t, key, val),
            t matches Tree::Inner { id, keys, kids } && ({
                let c = upto(keys, key) as int;
                grown_on(h, heap(old(pager)@), kids[c], kid_next(kids, c, next), key, val, sub) && grown(kids[c], key, val, sub).right is Some
            }),
            node@ == top_node(Tree::Inner { id: page, keys: wider_keys(t, key, val, sub), kids: wider_kids(t, key, val, sub) }, next),
            shaped(node@),
        ensures
            final(pager).wf(),
            sound(final(pager)@),
            final(pager)@.roots == old(pager)@.roots,
            r is Ok <==> split_key(t, key, val) is None || pages_left(old(pager)@) > 0,
            match r {
                Ok((cut, ids)) => {
                    let g = grown(t, key, val, ids@);
                    &&& grown_on(h, heap(final(pager)@), t, next, key, val, ids@)
                    &&& pages_left(final(pager)@) == pages_left(old(pager)@) + sub.len() - ids@.len()
                    &&& match g.right {
                        Some(r) => cut matches Some((sep, id)) && sep@ == g.sep && id == tree_id(r),
                        None => cut is None,
                    }
                },
                Err(e) => is_database_error(e, "page count overflow"@) && final(pager)@ == old(pager)@,
            },
    {
        let ghost h1 = heap(pager@);
        let ghost full = node@;
        let ghost keys = t->Inner_keys;
        let ghost kids = t->Inner_kids;
        let ghost c = upto(keys, key) as int;
        let ghost kids2 = wider_kids(t, key, val, sub);
        let ghost k2 = wider_keys(t, key, val, sub);
        proof {
            lemma_kid_has_grown(h, h1, t, page, keys, kids, next, key, val, sub, lo, hi);
            lemma_inner_fits(full);
        }
        if node.size() <= PAGE_SIZE {
            let bytes: Vec<u8> = node.serialize();
            put_page(pager, page, &bytes);
            proof {
                lemma_wider_node(h, h1, heap(pager@), t, page, keys, kids, next, key, val, sub, lo, hi, bytes@);
            }
            return Ok((None, Ghost(sub)));
        }
        let mut node = node;
        let mid: usize = node.keys.len() / 2;
        proof {
            assert(mid == middle(k2));
            assert(full.keys[mid as int] == node.keys@[mid as int]@);
        }
        let sep: Vec<u8> = copy_bytes(&node.keys[mid]);
        let right_keys: Vec<Vec<u8>> = node.keys.split_off(mid + 1);
        let right_children: Vec<PageId> = node.children.split_off(mid + 1);
        let _ = node.keys.pop();
        let last: Option<PageId> = node.children.pop();
        let right_link: PageId = match last {
            Some(x) => x,
            None => 0,
        };
        let ghost left_t = Tree::Inner { id: page, keys: k2.take(mid as int), kids: kids2.take(mid + 1) };
        proof {
            assert(views(right_keys@) =~= k2.skip(mid + 1));
            assert(views(node.keys@) =~= k2.take(mid as int));
            assert(right_link == full.children[mid as int]);
            assert(right_link == tree_id(kids2[mid + 1]));
            assert(right_children@ =~= later_kids(kids2.skip(mid + 1)));
            assert(node.children@ =~= later_kids(kids2.take(mid + 1)));
            assert(node.link == tree_id(kids2.take(mid + 1)[0]));
            assert(node@ =~= top_node(left_t, next));
        }
        match take_page(pager) {
            Err(e) => Err(e),
            Ok(right_id) => {
                let right = Node { leaf: false, link: right_link, keys: right_keys, vals: Vec::new(), children: right_children };
                let ghost right_t = Tree::Inner { id: right_id, keys: k2.skip(mid + 1), kids: kids2.skip(mid + 1) };
                proof {
                    assert(views(right.vals@) =~= Seq::<Seq<u8>>::empty());
                    assert(right@ =~= top_node(right_t, next));
                    lemma_inner_fits(right@);
                    lemma_inner_fits(node@);
                    assert(heap(pager@).contains_key(right_id));
                }
                let right_page: Vec<u8> = right.serialize();
                put_page(pager, right_id, &right_page);
                assert(heap(pager@).contains_key(page));
                let left_page: Vec<u8> = node.serialize();
                put_page(pager, page, &left_page);
                proof {
                    assert(heap(pager@) =~= h1.insert(right_id, right_page@).insert(page, left_page@));
                    lemma_cut_node(h, h1, heap(pager@), t, page, keys, kids, next, key, val, sub, lo, hi, right_id, left_page@, right_page@);
                }
                Ok((Some((sep, right_id)), Ghost(sub.push(right_id))))
            },
        }
    }

    /// Insert into a leaf.
    #[verifier::spinoff_prover]
    fn insert_leaf(&self, pager: &mut Pager, page: PageId, node: Node, key: &[u8], val: &[u8], Ghost(t): Ghost<Tree>, Ghost(next): Ghost<u32>, Ghost(lo): Ghost<Option<Seq<u8>>>, Ghost(hi): Ghost<Option<Seq<u8>>>) -> (r: Result<(Option<(Vec<u8>, PageId)>, Ghost<Seq<u32>>)>)
        requires
            old(pager).wf(),
            sound(old(pager)@),
            stored(heap(old(pager)@), t, next),
            tree_id(t) == page,
            ordered(t, lo, hi),
            t is Leaf,
            node@ == top_node(t, next),
            shaped(node@),
            insertion_fits(t, key@, val@),
        ensures
            final(pager).wf(),
            insertion_outcome(old(pager)@, final(pager)@, t, next, key@, val@, r),
    {
        let ghost h = heap(pager@);
        let ghost keys = t->Leaf_keys;
        let ghost vals = t->Leaf_vals;
        let node: Node = with_entry(node, key, val);
        proof {
            lemma_below(keys, key@);
            lemma_leaf_fits(node@);
        }
        if node.size() <= PAGE_SIZE {
            let bytes: Vec<u8> = node.serialize();
            put_page(pager, page, &bytes);
            let ghost ids: Seq<u32> = Seq::empty();
            proof {
                let g = grown(t, key@, val@, ids);
                assert(g.right is None);
                assert(top_node(g.left, next) == node@);
                assert(has_page(t, page));
                assert(grown_on(h, heap(pager@), t, next, key@, val@, ids));
            }
            return Ok((None, Ghost(ids)));
        }
        self.split_leaf(pager, page, node, Ghost(t), Ghost(next), Ghost(key@), Ghost(val@))
    }

    /// Insert into the tree on a page.
    #[verifier::spinoff_prover]
    #[verifier::rlimit(60)]
    fn insert_rec(&self, pager: &mut Pager, page: PageId, key: &[u8], val: &[u8], Ghost(t): Ghost<Tree>, Ghost(next): Ghost<u32>, Ghost(lo): Ghost<Option<Seq<u8>>>, Ghost(hi): Ghost<Option<Seq<u8>>>) -> (r: Result<(Option<(Vec<u8>, PageId)>, Ghost<Seq<u32>>)>)
        requires
            old(pager).wf(),
            sound(old(pager)@),
            stored(heap(old(pager)@), t, next),
            tree_id(t) == page,
            ordered(t, lo, hi),
            within(key@, lo, hi),
            apart(t),
            insertion_fits(t, key@, val@),
        ensures
            final(pager).wf(),
            insertion_outcome(old(pager)@, final(pager)@, t, next, key@, val@, r),
        decreases t,
    {
        let ghost h = heap(pager@);
        let bytes: Vec<u8> = get_page(pager, page);
        let mut node: Node = Node::parse(&bytes);
        if node.leaf {
            return self.insert_leaf(pager, page, node, key, val, Ghost(t), Ghost(next), Ghost(lo), Ghost(hi));
        }
        let ghost keys = t->Inner_keys;
        let ghost kids = t->Inner_kids;
        let ghost c = upto(keys, key@) as int;
        let ghost kid = kids[c];
        proof {
            lemma_kid_for(keys, lo, hi, key@);
            assert(stored(h, kids[c], kid_next(kids, c, next)));
            assert(ordered(kids[c], kid_low(keys, lo, c), kid_high(keys, hi, c)));
            assert(apart(kids[c]));
            if c > 0 {
                assert(later_kids(kids)[c - 1] == tree_id(kids[c]));
            }
        }
        let child: PageId = child_for(&node, key);
        let pos: usize = place_of(&node.keys, key);
        match self.insert_rec(pager, child, key, val, Ghost(kid), Ghost(kid_next(kids, c, next)), Ghost(kid_low(keys, lo, c)), Ghost(kid_high(keys, hi, c))) {
            Err(e) => {
                proof {
                    assert forall|x: u32| #[trigger] h.contains_key(x) && !has_page(t, x) implies heap(pager@)[x] == h[x] by {
                        assert(has_page(kids[c], x) ==> has_page(t, x));
                    }
                }
                Err(e)
            },
            Ok((cut, new_ids)) => {
                let ghost sub = new_ids@;
                let ghost h1 = heap(pager@);
                let ghost g = grown(kid, key@, val@, sub);
                proof {
                    lemma_kid_has_grown(h, h1, t, page, keys, kids, next, key@, val@, sub, lo, hi);
                }
                match cut {
                    None => {
                        proof {
                            lemma_same_node(h, h1, t, page, keys, kids, next, key@, val@, sub, lo, hi);
                        }
                        Ok((None, Ghost(sub)))
                    },
                    Some((sep, right)) => {
                        let ghost n0 = node;
                        node.keys.insert(pos, sep);
                        node.children.insert(pos, right);
                        let ghost kids2 = wider_kids(t, key@, val@, sub);
                        proof {
                            assert(views(node.keys@) =~= keys.insert(c, g.sep));
                            assert(node.children@ =~= later_kids(kids2)) by {
                                assert forall|i: int| 0 <= i < kids2.len() - 1 implies node.children@[i] == #[trigger] later_kids(kids2)[i] by {
                                    lemma_kid_cases(kids, c, g, i + 1);
                                    if i < c {
                                        assert(later_kids(kids)[i] == tree_id(kids[i + 1]));
                                    } else if i > c {
                                        assert(later_kids(kids)[i - 1] == tree_id(kids[i]));
                                    }
                                }
                            }
                            assert(tree_id(kids2[0]) == tree_id(kids[0]));
                            assert(node@ =~= top_node(Tree::Inner { id: page, keys: wider_keys(t, key@, val@, sub), kids: kids2 }, next));
                        }
                        let r = self.widen(pager, page, node, Ghost(h), Ghost(t), Ghost(next), Ghost(key@), Ghost(val@), Ghost(sub), Ghost(lo), Ghost(hi));
                        proof {
                            assert(splits(t, key@, val@) == splits(kid, key@, val@) + (if split_key(t, key@, val@) is Some { 1nat } else { 0nat }));
                            if r is Err {
                                assert forall|x: u32| #[trigger] h.contains_key(x) && !has_page(t, x) implies heap(pager@)[x] == h[x] by {
                                    assert(has_page(kids[c], x) ==> has_page(t, x));
                                }
                            }
                        }
                        r
                    },
                }
            },
        }
    }
}

/// How an insertion ends: with a tree that has grown, or without enough pages. In
/// the latter case pages of other trees stay as they were.
pub open spec fn insertion_outcome(p: PagerSpec, q: PagerSpec, t: Tree, next: u32, key: Seq<u8>, val: Seq<u8>, r: Result<(Option<(Vec<u8>, PageId)>, Ghost<Seq<u32>>)>) -> bool {
    &&& sound(q)
    &&& q.roots == p.roots
    &&& r is Ok <==> pages_left(p) >= splits(t, key, val)
    &&& match r {
        Ok((cut, ids)) => {
            let g = grown(t, key, val, ids@);
            &&& grown_on(heap(p), heap(q), t, next, key, val, ids@)
            &&& pages_left(q) == pages_left(p) - ids@.len()
            &&& match g.right {
                Some(r) => cut matches Some((sep, id)) && sep@ == g.sep && id == tree_id(r),
                None => cut is None,
            }
        },
        Err(e) => {
            &&& is_database_error(e, "page count overflow"@)
            &&& kept_apart(heap(p), heap(q), t)
        },
    }
}

/// Pages outside the tree stay as they were, and new pages were not in use.
pub open spec fn kept_apart(h: Pages, h1: Pages, t: Tree) -> bool {
    &&& forall|x: u32| #[trigger] h.contains_key(x) ==> h1.contains_key(x)
    &&& forall|x: u32| #[trigger] h.contains_key(x) && !has_page(t, x) ==> h1[x] == h[x]
}

/// After the insertion every node fits its page: a node that is too large is cut
/// once, and each part must fit.
pub open spec fn insert_fits(p: PagerSpec, slot: int, key: Seq<u8>, val: Seq<u8>) -> bool {
    if root_of(p, slot) == 0 {
        leaf_fits(seq![key], seq![val])
    } else {
        let t = tree_in(p, slot);
        insertion_fits(t, key, val) && (split_key(t, key, val) matches Some(sep) ==> inner_fits(seq![sep]))
    }
}

/// Whether a leaf fits a page, cut in two if need be; and the first key of the right part
/// if it is cut.
fn leaf_room(node: Node) -> (r: (bool, Option<Vec<u8>>))
    requires
        node.leaf,
        shaped(node@),
        node@.keys.len() > 0,
    ensures
        ({
            let (k, v) = (node@.keys, node@.vals);
            let m = middle(k);
            &&& r.0 == (leaf_fits(k, v) || (leaf_fits(k.take(m), v.take(m)) && leaf_fits(k.skip(m), v.skip(m))))
            &&& opt_view(r.1) == (if leaf_fits(k, v) { None } else { Some(k[m]) })
        }),
{
    let ghost full = node@;
    proof {
        lemma_leaf_fits(full);
    }
    if node.size() <= PAGE_SIZE {
        return (true, None);
    }
    let mut node = node;
    let mid: usize = node.keys.len() / 2;
    let right_keys: Vec<Vec<u8>> = node.keys.split_off(mid);
    let right_vals: Vec<Vec<u8>> = node.vals.split_off(mid);
    assert(views(right_keys@) =~= full.keys.skip(mid as int));
    assert(views(right_vals@) =~= full.vals.skip(mid as int));
    assert(views(node.keys@) =~= full.keys.take(mid as int));
    assert(views(node.vals@) =~= full.vals.take(mid as int));
    assert(views(right_keys@)[0] == right_keys@[0]@);
    let sep: Vec<u8> = copy_bytes(&right_keys[0]);
    let right = Node { leaf: true, link: node.link, keys: right_keys, vals: right_vals, children: Vec::new() };
    proof {
        assert(right@.children =~= Seq::<u32>::empty());
        lemma_leaf_fits(right@);
        lemma_leaf_fits(node@);
    }
    (node.size() <= PAGE_SIZE && right.size() <= PAGE_SIZE, Some(sep))
}

/// Whether an inner node fits a page, cut in two if need be; and the key in the middle if
/// it is cut.
fn inner_room(node: Node) -> (r: (bool, Option<Vec<u8>>))
    requires
        !node.leaf,
        shaped(node@),
        node@.keys.len() > 0,
    ensures
        ({
            let k = node@.keys;
            let m = middle(k);
            &&& r.0 == (inner_fits(k) || (inner_fits(k.take(m)) && inner_fits(k.skip(m + 1))))
            &&& opt_view(r.1) == (if inner_fits(k) { None } else { Some(k[m]) })
        }),
{
    let ghost full = node@;
    proof {
        lemma_inner_fits(full);
    }
    if node.size() <= PAGE_SIZE {
        return (true, None);
    }
    let mut node = node;
    let mid: usize = node.keys.len() / 2;
    assert(full.keys[mid as int] == node.keys@[mid as int]@);
    let sep: Vec<u8> = copy_bytes(&node.keys[mid]);
    let right_keys: Vec<Vec<u8>> = node.keys.split_off(mid + 1);
    let right_children: Vec<PageId> = node.children.split_off(mid + 1);
    let _ = node.keys.pop();
    let _ = node.children.pop();
    let right = Node { leaf: false, link: 0, keys: right_keys, vals: Vec::new(), children: right_children };
    proof {
        assert(views(right.keys@) =~= full.keys.skip(mid + 1));
        assert(views(node.keys@) =~= full.keys.take(mid as int));
        assert(views(right.vals@) =~= Seq::<Seq<u8>>::empty());
        lemma_inner_fits(right@);
        lemma_inner_fits(node@);
    }
    (node.size() <= PAGE_SIZE && right.size() <= PAGE_SIZE, Some(sep))
}

/// The bytes, where there are any.
pub open spec fn opt_view(v: Option<Vec<u8>>) -> Option<Seq<u8>> {
    match v {
        None => None,
        Some(b) => Some(b@),
    }
}

impl BTree {
    /// Whether all nodes of the tree on a page would fit after an insertion; and, if so,
    /// the key that would go up.
    #[verifier::spinoff_prover]
    fn room_below(&self, pager: &mut Pager, page: PageId, key: &[u8], val: &[u8], Ghost(t): Ghost<Tree>, Ghost(next): Ghost<u32>, Ghost(lo): Ghost<Option<Seq<u8>>>, Ghost(hi): Ghost<Option<Seq<u8>>>) -> (r: (bool, Option<Vec<u8>>))
        requires
            old(pager).wf(),
            sound(old(pager)@),
            stored(heap(old(pager)@), t, next),
            tree_id(t) == page,
            ordered(t, lo, hi),
            within(key@, lo, hi),
        ensures
            final(pager).wf(),
            same_trees(old(pager)@, final(pager)@),
            r.0 == insertion_fits(t, key@, val@),
            r.0 ==> opt_view(r.1) == split_key(t, key@, val@),
        decreases t,
    {
        let ghost h = heap(pager@);
        let bytes: Vec<u8> = get_page(pager, page);
        let mut node: Node = Node::parse(&bytes);
        if node.leaf {
            let wider: Node = with_entry(node, key, val);
            return leaf_room(wider);
        }
        let ghost keys = t->Inner_keys;
        let ghost kids = t->Inner_kids;
        let ghost c = upto(keys, key@) as int;
        proof {
            lemma_kid_for(keys, lo, hi, key@);
            assert(stored(h, kids[c], kid_next(kids, c, next)));
            assert(ordered(kids[c], kid_low(keys, lo, c), kid_high(keys, hi, c)));
            if c > 0 {
                assert(later_kids(kids)[c - 1] == tree_id(kids[c]));
            }
        }
        let child: PageId = child_for(&node, key);
        let pos: usize = place_of(&node.keys, key);
        let (fits, cut): (bool, Option<Vec<u8>>) = self.room_below(pager, child, key, val, Ghost(kids[c]), Ghost(kid_next(kids, c, next)), Ghost(kid_low(keys, lo, c)), Ghost(kid_high(keys, hi, c)));
        if !fits {
            return (false, None);
        }
        match cut {
            None => (true, None),
            Some(sep) => {
                let ghost s = sep@;
                node.keys.insert(pos, sep);
                node.children.insert(pos, 0);
                assert(views(node.keys@) =~= keys.insert(c, s));
                inner_room(node)
            },
        }
    }

    /// Whether an entry can be inserted: every node fits its page afterwards.
    pub fn has_room(&self, pager: &mut Pager, key: &[u8], val: &[u8]) -> (b: bool)
        requires
            old(pager).wf(),
            is_tree(old(pager)@, self.slot()),
        ensures
            final(pager).wf(),
            same_trees(old(pager)@, final(pager)@),
            b == insert_fits(old(pager)@, self.slot(), key@, val@),
    {
        let root: PageId = pager.root(self.root_slot) as PageId;
        if root == 0 {
            let empty = Node { leaf: true, link: 0, keys: Vec::new(), vals: Vec::new(), children: Vec::new() };
            assert(empty@.keys =~= Seq::<Seq<u8>>::empty());
            assert(empty@.vals =~= Seq::<Seq<u8>>::empty());
            let leaf: Node = with_entry(empty, key, val);
            proof {
                assert(leaf@.keys =~= seq![key@]);
                assert(leaf@.vals =~= seq![val@]);
                lemma_leaf_fits(leaf@);
            }
            return leaf.size() <= PAGE_SIZE;
        }
        let ghost t = tree_in(pager@, self.slot());
        let (fits, cut): (bool, Option<Vec<u8>>) = self.room_below(pager, root, key, val, Ghost(t), Ghost(0), Ghost(None), Ghost(None));
        if !fits {
            return false;
        }
        match cut {
            None => true,
            Some(sep) => {
                let ghost s = sep@;
                let mut keys: Vec<Vec<u8>> = Vec::new();
                keys.push(sep);
                let mut children: Vec<PageId> = Vec::new();
                children.push(0);
                let top = Node { leaf: false, link: 0, keys, vals: Vec::new(), children };
                proof {
                    assert(top@.keys =~= seq![s]);
                    assert(top@.vals =~= Seq::<Seq<u8>>::empty());
                    lemma_inner_fits(top@);
                }
                top.size() <= PAGE_SIZE
            },
        }
    }
}

/// The tree of a slot without the numbers of its pages.
pub open spec fn shape_in(p: PagerSpec, slot: int) -> Option<Tree> {
    if root_of(p, slot) == 0 {
        None
    } else {
        Some(shape(tree_in(p, slot)))
    }
}

/// What the tree of a slot holds, what fits it and what an insertion takes can be
/// said of its shape.
pub proof fn lemma_shape_in(p: PagerSpec, slot: int)
    requires
        is_tree(p, slot),
    ensures
        shape_ok(shape_in(p, slot)),
        shape_short(shape_in(p, slot)) == short_in(p, slot),
        forall|k: Seq<u8>| #[trigger] value_in(p, slot, k) == shape_value(shape_in(p, slot), k),
        forall|k: Seq<u8>, v: Seq<u8>| #[trigger] insert_fits(p, slot, k, v) == shape_fits(shape_in(p, slot), k, v),
        forall|k: Seq<u8>, v: Seq<u8>| #[trigger] pages_taken(p, slot, k, v) == shape_cost(shape_in(p, slot), k, v),
{
    if root_of(p, slot) != 0 {
        let t = tree_in(p, slot);
        assert(tree_at(heap(p), root_of(p, slot), t));
        lemma_shape_ok(t, None, None);
        assert forall|k: Seq<u8>| #[trigger] value_in(p, slot, k) == shape_value(shape_in(p, slot), k) by {
            lemma_shape_lookup(t, k);
        }
        assert forall|k: Seq<u8>, v: Seq<u8>| #[trigger] insert_fits(p, slot, k, v) == shape_fits(shape_in(p, slot), k, v) by {
            lemma_shape_grown(t, k, v, Seq::empty(), None, None);
        }
        assert forall|k: Seq<u8>, v: Seq<u8>| #[trigger] pages_taken(p, slot, k, v) == shape_cost(shape_in(p, slot), k, v) by {
            lemma_shape_grown(t, k, v, Seq::empty(), None, None);
        }
    }
}

/// The tree of the slot has short entries only.
pub open spec fn short_in(p: PagerSpec, slot: int) -> bool {
    root_of(p, slot) == 0 || short(tree_in(p, slot))
}

/// A tree of short entries can take any short entry.
pub proof fn law_short_insertion_fits(p: PagerSpec, slot: int, key: Seq<u8>, val: Seq<u8>)
    requires
        is_tree(p, slot),
        short_in(p, slot),
        key.len() + val.len() <= SHORT,
    ensures
        insert_fits(p, slot, key, val),
{
    if root_of(p, slot) == 0 {
        lemma_lone_entry(key, val);
    } else {
        let t = tree_in(p, slot);
        assert(tree_at(heap(p), root_of(p, slot), t));
        law_short_entries_fit(t, key, val, Seq::empty(), None, None);
    }
}

/// How many pages an insertion takes.
pub open spec fn pages_taken(p: PagerSpec, slot: int, key: Seq<u8>, val: Seq<u8>) -> nat {
    if root_of(p, slot) == 0 {
        1
    } else {
        let t = tree_in(p, slot);
        splits(t, key, val) + (if split_key(t, key, val) is Some {
            1nat
        } else {
            0nat
        })
    }
}

/// Pages that are not of the tree in the slot stay as they were, and do not become
/// pages of that tree.
pub open spec fn keeps_others(p: PagerSpec, q: PagerSpec, slot: int) -> bool {
    forall|x: u32| #[trigger] heap(p).contains_key(x) && !page_in(p, slot, x) ==> heap(q).contains_key(x) && heap(q)[x] == heap(p)[x] && !page_in(q, slot, x)
}

/// Only the root in one slot changed.
pub open spec fn keeps_roots(p: PagerSpec, q: PagerSpec, slot: int) -> bool {
    q.roots == p.roots.update(slot, q.roots[slot])
}

proof fn lemma_first_leaf_tree(p: PagerSpec, q: PagerSpec, slot: int, id: u32, key: Seq<u8>, val: Seq<u8>, page: Seq<u8>)
    requires
        is_tree(p, slot),
        sound(q),
        root_of(p, slot) == 0,
        leaf_fits(seq![key], seq![val]),
        id != 0,
        !heap(p).contains_key(id),
        heap(q) == heap(p).insert(id, page),
        node_of(page) == Some(NodeSpec { leaf: true, link: 0, keys: seq![key], vals: seq![val], children: Seq::empty() }),
        q.roots == p.roots.update(slot, id as u64),
    ensures
        is_tree(q, slot),
        map_in(q, slot) == map_in(p, slot).insert(key, val),
        keeps_others(p, q, slot),
        short_in(p, slot) && key.len() + val.len() <= SHORT ==> short_in(q, slot),
        shape_in(q, slot) == shape_after(shape_in(p, slot), key, val),
{
    let t = Tree::Leaf { id, keys: seq![key], vals: seq![val] };
    assert(tree_at(heap(q), root_of(q, slot), t));
    lemma_tree_in(q, slot, t);
    assert forall|k: Seq<u8>| value_in(q, slot, k) == (if k == key { Some(val) } else { None::<Seq<u8>> }) by {
        lemma_below(seq![key], k);
        lemma_lex_total(key, k);
    }
    assert(map_in(q, slot) =~= map_in(p, slot).insert(key, val));
}

#[verifier::spinoff_prover]
proof fn lemma_tree_grown(p: PagerSpec, q: PagerSpec, slot: int, key: Seq<u8>, val: Seq<u8>, ids: Seq<u32>)
    requires
        is_tree(p, slot),
        root_of(p, slot) != 0,
        insert_fits(p, slot, key, val),
        sound(q),
        grown_on(heap(p), heap(q), tree_in(p, slot), 0, key, val, ids),
        grown(tree_in(p, slot), key, val, ids).right is None,
        q.roots == p.roots,
    ensures
        is_tree(q, slot),
        map_in(q, slot) == map_in(p, slot).insert(key, val),
        keeps_others(p, q, slot),
        short_in(p, slot) && key.len() + val.len() <= SHORT ==> short_in(q, slot),
        shape_in(q, slot) == shape_after(shape_in(p, slot), key, val),
{
    let t = tree_in(p, slot);
    let g = grown(t, key, val, ids);
    assert(tree_at(heap(p), root_of(p, slot), t));
    lemma_grown_facts(heap(p), heap(q), t, key, val, ids);
    assert(tree_at(heap(q), root_of(q, slot), g.left));
    lemma_tree_in(q, slot, g.left);
    lemma_shape_grown(t, key, val, ids, None, None);
    if short_in(p, slot) && key.len() + val.len() <= SHORT {
        law_short_entries_fit(t, key, val, ids, None, None);
    }
    assert forall|k: Seq<u8>| value_in(q, slot, k) == (if k == key { Some(val) } else { value_in(p, slot, k) }) by {
        lemma_grown_lookup(t, key, val, ids, None, None, k);
    }
    assert(map_in(q, slot) =~= map_in(p, slot).insert(key, val));
    assert forall|x: u32| #[trigger] heap(p).contains_key(x) && !page_in(p, slot, x) implies heap(q).contains_key(x) && heap(q)[x] == heap(p)[x] && !page_in(q, slot, x) by {
        if ids.contains(x) {
            let i = choose|i: int| 0 <= i < ids.len() && ids[i] == x;
            assert(!heap(p).contains_key(ids[i]));
        }
        assert(heap(q).contains_key(x));
        assert(has_page(g.left, x) ==> has_page(t, x) || ids.contains(x));
    }
}

proof fn lemma_grown_facts(h: Pages, h1: Pages, t: Tree, key: Seq<u8>, val: Seq<u8>, ids: Seq<u32>)
    requires
        stored(h, t, 0),
        ordered(t, None, None),
        apart(t),
        sized(t),
        insertion_fits(t, key, val),
        grown_on(h, h1, t, 0, key, val, ids),
    ensures
        ({
            let g = grown(t, key, val, ids);
            &&& tree_id(g.left) == tree_id(t)
            &&& first_leaf(g.left) == first_leaf(t)
            &&& apart(g.left)
            &&& sized(g.left)
            &&& pages_from(t, ids, g.left)
            &&& match g.right {
                None => ordered(g.left, None, None),
                Some(r) => {
                    &&& ordered(g.left, None, Some(g.sep))
                    &&& ordered(r, Some(g.sep), None)
                    &&& apart(r)
                    &&& sized(r)
                    &&& pages_from(t, ids, r)
                    &&& disjoint(g.left, r)
                },
            }
            &&& (g.right is Some <==> split_key(t, key, val) is Some)
            &&& (g.right is Some ==> split_key(t, key, val) == Some(g.sep))
        }),
{
    assert forall|i: int| 0 <= i < ids.len() implies !has_page(t, #[trigger] ids[i]) by {
        if has_page(t, ids[i]) {
            lemma_stored_pages(h, t, 0, ids[i]);
        }
    }
    lemma_grown_pages(t, key, val, ids, None, None);
    lemma_grown_order(t, key, val, ids, None, None);
    lemma_grown_sized(t, key, val, ids, None, None);
    lemma_grown_sep(t, key, val, ids);
}

#[verifier::spinoff_prover]
#[verifier::rlimit(40)]
proof fn lemma_new_root(p: PagerSpec, h1: Pages, q: PagerSpec, slot: int, key: Seq<u8>, val: Seq<u8>, ids: Seq<u32>, id: u32, page: Seq<u8>)
    requires
        is_tree(p, slot),
        root_of(p, slot) != 0,
        insert_fits(p, slot, key, val),
        sound(q),
        grown_on(heap(p), h1, tree_in(p, slot), 0, key, val, ids),
        grown(tree_in(p, slot), key, val, ids).right is Some,
        id != 0,
        !h1.contains_key(id),
        heap(q) == h1.insert(id, page),
        ({
            let g = grown(tree_in(p, slot), key, val, ids);
            node_of(page) == Some(NodeSpec { leaf: false, link: root_of(p, slot), keys: seq![g.sep], vals: Seq::empty(), children: seq![tree_id(g.right->0)] })
        }),
        q.roots == p.roots.update(slot, id as u64),
    ensures
        is_tree(q, slot),
        map_in(q, slot) == map_in(p, slot).insert(key, val),
        keeps_others(p, q, slot),
        short_in(p, slot) && key.len() + val.len() <= SHORT ==> short_in(q, slot),
        shape_in(q, slot) == shape_after(shape_in(p, slot), key, val),
{
    let t = tree_in(p, slot);
    let g = grown(t, key, val, ids);
    let r = g.right->0;
    let h = heap(p);
    let h2 = heap(q);
    assert(tree_at(h, root_of(p, slot), t));
    lemma_grown_facts(h, h1, t, key, val, ids);
    let kids = seq![g.left, r];
    let top = Tree::Inner { id, keys: seq![g.sep], kids };
    assert forall|x: u32| #[trigger] has_page(g.left, x) implies x != id by {
        lemma_stored_pages(h1, g.left, first_leaf(r), x);
    }
    assert forall|x: u32| #[trigger] has_page(r, x) implies x != id by {
        lemma_stored_pages(h1, r, 0, x);
    }
    lemma_stored_frame(h1, h2, g.left, first_leaf(r));
    lemma_stored_frame(h1, h2, r, 0);
    assert(kids[0] == g.left && kids[1] == r);
    assert(later_kids(kids) =~= seq![tree_id(r)]);
    assert forall|i: int| 0 <= i < kids.len() implies stored(h2, kids[i], #[trigger] kid_next(kids, i, 0)) by {
        if i == 0 {
            assert(kid_next(kids, 0, 0) == first_leaf(r));
        } else {
            assert(kid_next(kids, 1, 0) == 0);
        }
    }
    assert(stored(h2, top, 0));
    assert forall|i: int| 0 <= i < kids.len() implies ordered(#[trigger] kids[i], kid_low(seq![g.sep], None, i), kid_high(seq![g.sep], None, i)) by {
        if i == 0 {
        } else {
            assert(i == 1);
        }
    }
    assert(ordered(top, None, None));
    assert(apart(top)) by {
        assert forall|i: int| 0 <= i < kids.len() implies apart(#[trigger] kids[i]) && !has_page(kids[i], id) by {
            if i != 0 {
                assert(i == 1);
            }
        }
        assert forall|i: int, j: int| 0 <= i < j < kids.len() implies disjoint(#[trigger] kids[i], #[trigger] kids[j]) by {
            assert(i == 0 && j == 1);
        }
    }
    assert(sized(top)) by {
        assert forall|i: int| 0 <= i < kids.len() implies sized(#[trigger] kids[i]) by {
            if i != 0 {
                assert(i == 1);
            }
        }
    }
    assert(tree_at(h2, root_of(q, slot), top));
    lemma_tree_in(q, slot, top);
    lemma_shape_grown(t, key, val, ids, None, None);
    assert(shape(top)->Inner_kids =~= seq![shape(g.left), shape(r)]);
    if short_in(p, slot) && key.len() + val.len() <= SHORT {
        law_short_entries_fit(t, key, val, ids, None, None);
        assert forall|i: int| 0 <= i < kids.len() implies short(#[trigger] kids[i]) by {
            if i != 0 {
                assert(i == 1);
            }
        }
        assert(short(top));
    }
    assert forall|k: Seq<u8>| value_in(q, slot, k) == (if k == key { Some(val) } else { value_in(p, slot, k) }) by {
        lemma_grown_lookup(t, key, val, ids, None, None, k);
        lemma_upto(seq![g.sep], k);
        if lex_less(k, g.sep) {
            lemma_upto_is(seq![g.sep], k, 0);
        } else {
            lemma_upto_is(seq![g.sep], k, 1);
        }
    }
    assert(map_in(q, slot) =~= map_in(p, slot).insert(key, val));
    assert forall|x: u32| #[trigger] h.contains_key(x) && !page_in(p, slot, x) implies h2.contains_key(x) && h2[x] == h[x] && !page_in(q, slot, x) by {
        if ids.contains(x) {
            let i = choose|i: int| 0 <= i < ids.len() && ids[i] == x;
            assert(!h.contains_key(ids[i]));
        }
        assert(h1.contains_key(x));
        if has_page(top, x) {
            let i = choose|i: int| 0 <= i < kids.len() && has_page(#[trigger] kids[i], x);
            if i != 0 {
                assert(i == 1);
            }
        }
    }
}

impl BTree {
    /// Insert a key or replace its value. Fails if there are not enough pages; the
    /// entries of this tree may then be out of reach, those of others are not.
    #[verifier::spinoff_prover]
    #[verifier::rlimit(40)]
    pub fn insert(&self, pager: &mut Pager, key: &[u8], val: &[u8]) -> (r: Result<()>)
        requires
            old(pager).wf(),
            is_tree(old(pager)@, self.slot()),
            insert_fits(old(pager)@, self.slot(), key@, val@),
        ensures
            final(pager).wf(),
            sound(final(pager)@),
            r is Ok <==> pages_left(old(pager)@) >= pages_taken(old(pager)@, self.slot(), key@, val@),
            r is Ok ==> {
                &&& is_tree(final(pager)@, self.slot())
                &&& map_in(final(pager)@, self.slot()) == map_in(old(pager)@, self.slot()).insert(key@, val@)
                &&& keeps_others(old(pager)@, final(pager)@, self.slot())
                &&& keeps_roots(old(pager)@, final(pager)@, self.slot())
                &&& pages_left(final(pager)@) == pages_left(old(pager)@) - pages_taken(old(pager)@, self.slot(), key@, val@)
                &&& shape_in(final(pager)@, self.slot()) == shape_after(shape_in(old(pager)@, self.slot()), key@, val@)
                &&& short_in(old(pager)@, self.slot()) && key@.len() + val@.len() <= SHORT ==> short_in(final(pager)@, self.slot())
            },
            r matches Err(e) ==> {
                &&& is_database_error(e, "page count overflow"@)
                &&& final(pager)@.roots == old(pager)@.roots
                &&& forall|x: u32| #[trigger] heap(old(pager)@).contains_key(x) && !page_in(old(pager)@, self.slot(), x) ==> heap(final(pager)@).contains_key(x) && heap(final(pager)@)[x] == heap(old(pager)@)[x]
            },
    {
        let ghost p = pager@;
        let ghost slot = self.slot();
        let root: PageId = pager.root(self.root_slot) as PageId;
        if root == 0 {
            match take_page(pager) {
                Err(e) => {
                    return Err(e);
                },
                Ok(id) => {
                    let mut k: Vec<u8> = Vec::new();
                    push_slice(&mut k, key);
                    let mut v: Vec<u8> = Vec::new();
                    push_slice(&mut v, val);
                    assert(k@ =~= key@);
                    assert(v@ =~= val@);
                    let mut keys: Vec<Vec<u8>> = Vec::new();
                    keys.push(k);
                    let mut vals: Vec<Vec<u8>> = Vec::new();
                    vals.push(v);
                    let leaf = Node { leaf: true, link: 0, keys, vals, children: Vec::new() };
                    proof {
                        assert(leaf@ =~= (NodeSpec { leaf: true, link: 0, keys: seq![key@], vals: seq![val@], children: Seq::empty() })) by {
                            assert(leaf@.keys =~= seq![key@]);
                            assert(leaf@.vals =~= seq![val@]);
                        }
                        lemma_leaf_fits(leaf@);
                        assert(heap(pager@).contains_key(id));
                    }
                    let page: Vec<u8> = leaf.serialize();
                    put_page(pager, id, &page);
                    put_root(pager, self.root_slot, id as u64);
                    proof {
                        assert(heap(pager@) =~= heap(p).insert(id, page@));
                        lemma_first_leaf_tree(p, pager@, slot, id, key@, val@, page@);
                    }
                    return Ok(());
                },
            }
        }
        let ghost t = tree_in(p, slot);
        assert(tree_at(heap(p), root_of(p, slot), t));
        match self.insert_rec(pager, root, key, val, Ghost(t), Ghost(0u32), Ghost(None), Ghost(None)) {
            Err(e) => Err(e),
            Ok((cut, new_ids)) => {
                let ghost ids = new_ids@;
                let ghost h1 = heap(pager@);
                proof {
                    lemma_grown_facts(heap(p), h1, t, key@, val@, ids);
                }
                match cut {
                    None => {
                        proof {
                            lemma_tree_grown(p, pager@, slot, key@, val@, ids);
                            assert(pager@.roots =~= p.roots.update(slot, pager@.roots[slot]));
                        }
                        Ok(())
                    },
                    Some((sep, right)) => {
                        let ghost g = grown(t, key@, val@, ids);
                        match take_page(pager) {
                            Err(e) => {
                                proof {
                                    assert forall|x: u32| #[trigger] heap(p).contains_key(x) && !page_in(p, slot, x) implies heap(pager@).contains_key(x) && heap(pager@)[x] == heap(p)[x] by {
                                        assert(h1.contains_key(x));
                                    }
                                }
                                Err(e)
                            },
                            Ok(new_root) => {
                                let mut keys: Vec<Vec<u8>> = Vec::new();
                                keys.push(sep);
                                let mut children: Vec<PageId> = Vec::new();
                                children.push(right);
                                let node = Node { leaf: false, link: root, keys, vals: Vec::new(), children };
                                proof {
                                    assert(node@ =~= (NodeSpec { leaf: false, link: root, keys: seq![g.sep], vals: Seq::empty(), children: seq![right] })) by {
                                        assert(node@.keys =~= seq![g.sep]);
                                        assert(node@.vals =~= Seq::<Seq<u8>>::empty());
                                        assert(node@.children =~= seq![right]);
                                    }
                                    lemma_inner_fits(node@);
                                    assert(heap(pager@).contains_key(new_root));
                                }
                                let page: Vec<u8> = node.serialize();
                                put_page(pager, new_root, &page);
                                put_root(pager, self.root_slot, new_root as u64);
                                proof {
                                    assert(heap(pager@) =~= h1.insert(new_root, page@));
                                    lemma_new_root(p, h1, pager@, slot, key@, val@, ids, new_root, page@);
                                }
                                Ok(())
                            },
                        }
                    },
                }
            },
        }
    }
}

/// The tree of a slot after a key was removed.
#[verifier::spinoff_prover]
proof fn lemma_tree_cut(p: PagerSpec, q: PagerSpec, slot: int, key: Seq<u8>)
    requires
        is_tree(p, slot),
        root_of(p, slot) != 0,
        sound(q),
        lookup(tree_in(p, slot), key) is Some,
        removed_on(heap(p), heap(q), tree_in(p, slot), 0, key),
        q.roots == p.roots.update(slot, (match cut(tree_in(p, slot), key) {
            None => 0u64,
            Some(u) => tree_id(u) as u64,
        })),
    ensures
        is_tree(q, slot),
        map_in(q, slot) == map_in(p, slot).remove(key),
        keeps_others(p, q, slot),
        shape_in(q, slot) == shape_without(shape_in(p, slot), key),
        shape_freed(shape_in(p, slot), key) == cut_freed(tree_in(p, slot), key),
{
    let t = tree_in(p, slot);
    assert(tree_at(heap(p), root_of(p, slot), t));
    lemma_cut(t, key, None, None);
    lemma_cut_pages(t, key, None, None);
    lemma_cut_shape(t, key);
    lemma_shape_lookup(t, key);
    lemma_heap(q);
    match cut(t, key) {
        None => {
            assert(root_of(q, slot) == 0);
        },
        Some(u) => {
            assert(tree_at(heap(q), tree_id(u), u));
            assert(heap(q).contains_key(tree_id(u)));
            assert(root_of(q, slot) == tree_id(u));
            lemma_tree_in(q, slot, u);
        },
    }
    assert forall|k: Seq<u8>| value_in(q, slot, k) == (if k == key { None } else { value_in(p, slot, k) }) by {
        assert(value_in(q, slot, k) == cut_lookup(cut(t, key), k));
    }
    assert(map_in(q, slot) =~= map_in(p, slot).remove(key));
}

impl BTree {
    /// Remove a key. Gives whether it was there. A leaf without entries leaves the tree,
    /// neighbours that fit one page are joined, and a node with a single kid gives way
    /// to it; the pages of all these are free then.
    #[verifier::spinoff_prover]
    pub fn delete(&self, pager: &mut Pager, key: &[u8]) -> (r: Result<bool>)
        requires
            old(pager).wf(),
            is_tree(old(pager)@, self.slot()),
        ensures
            final(pager).wf(),
            r == Ok::<bool, GStoreError>(value_in(old(pager)@, self.slot(), key@) is Some),
            is_tree(final(pager)@, self.slot()),
            map_in(final(pager)@, self.slot()) == map_in(old(pager)@, self.slot()).remove(key@),
            keeps_others(old(pager)@, final(pager)@, self.slot()),
            keeps_roots(old(pager)@, final(pager)@, self.slot()),
            pages_left(final(pager)@) == pages_left(old(pager)@) + shape_freed(shape_in(old(pager)@, self.slot()), key@),
            shape_in(final(pager)@, self.slot()) == shape_without(shape_in(old(pager)@, self.slot()), key@),
    {
        let ghost p = pager@;
        let ghost slot = self.slot();
        let root: PageId = pager.root(self.root_slot) as PageId;
        if root == 0 {
            proof {
                law_empty_slot_holds_nothing(p, slot);
                assert(map_in(p, slot) =~= map_in(p, slot).remove(key@));
                assert(p.roots =~= p.roots.update(slot, p.roots[slot]));
            }
            return Ok(false);
        }
        let ghost t = tree_in(p, slot);
        assert(tree_at(heap(p), root_of(p, slot), t));
        let (_, node): (PageId, Node) = self.leaf_page(pager, root, key, Ghost(t));
        let i: usize = place_before(&node.keys, key);
        let mut there: bool = false;
        if i < node.keys.len() {
            assert(node@.keys[i as int] == node.keys@[i as int]@);
            there = same_bytes(&node.keys[i], key);
        }
        if !there {
            proof {
                lemma_same_trees(p, pager@, slot);
                lemma_shape_lookup(t, key@);
                assert(value_in(p, slot, key@) is None);
                assert(map_in(p, slot) =~= map_in(p, slot).remove(key@));
                assert(pager@.roots =~= p.roots.update(slot, pager@.roots[slot]));
            }
            return Ok(false);
        }
        let left: Removed = remove_in(pager, root, key, Ghost(t), Ghost(0u32), Ghost(None), Ghost(None));
        let top: u64 = match left.kept {
            Some(page) => page as u64,
            None => 0,
        };
        if top != root as u64 {
            put_root(pager, self.root_slot, top);
        }
        proof {
            assert(p.roots[slot] == root);
            assert(pager@.roots =~= p.roots.update(slot, top));
            lemma_tree_cut(p, pager@, slot, key@);
        }
        Ok(true)
    }
}

/// A tree whose pages and root stay is the same tree.
pub proof fn lemma_tree_kept(p: PagerSpec, q: PagerSpec, slot: int)
    requires
        is_tree(p, slot),
        sound(q),
        q.roots.len() == NROOTS,
        q.roots[slot] == p.roots[slot],
        forall|x: u32| #[trigger] page_in(p, slot, x) ==> heap(q).contains_key(x) && heap(q)[x] == heap(p)[x],
    ensures
        is_tree(q, slot),
        map_in(q, slot) == map_in(p, slot),
        forall|x: u32| page_in(q, slot, x) == page_in(p, slot, x),
        root_of(p, slot) != 0 ==> tree_in(q, slot) == tree_in(p, slot),
{
    if root_of(p, slot) != 0 {
        let t = tree_in(p, slot);
        assert(tree_at(heap(p), root_of(p, slot), t));
        assert forall|x: u32| #[trigger] has_page(t, x) && heap(p).contains_key(x) implies heap(q).contains_key(x) && heap(q)[x] == heap(p)[x] by {
            assert(page_in(p, slot, x));
        }
        lemma_stored_frame(heap(p), heap(q), t, 0);
        assert(tree_at(heap(q), root_of(q, slot), t));
        lemma_tree_in(q, slot, t);
    }
    assert(map_in(q, slot) =~= map_in(p, slot));
}

/// Two slots hold trees without a common page.
pub open spec fn slots_apart(p: PagerSpec, a: int, b: int) -> bool {
    forall|x: u32| !(#[trigger] page_in(p, a, x) && #[trigger] page_in(p, b, x))
}

/// An insertion into one tree leaves the trees in other slots as they are.
pub proof fn law_insertion_keeps_other_trees(p: PagerSpec, q: PagerSpec, slot: int, other: int)
    requires
        is_tree(p, slot),
        is_tree(p, other),
        slot != other,
        slots_apart(p, slot, other),
        is_tree(q, slot),
        keeps_others(p, q, slot),
        keeps_roots(p, q, slot),
    ensures
        is_tree(q, other),
        map_in(q, other) == map_in(p, other),
        shape_in(q, other) == shape_in(p, other),
        slots_apart(q, slot, other),
{
    assert forall|x: u32| #[trigger] page_in(p, other, x) implies heap(p).contains_key(x) && heap(q).contains_key(x) && heap(q)[x] == heap(p)[x] && !page_in(q, slot, x) by {
        let t = tree_in(p, other);
        assert(tree_at(heap(p), root_of(p, other), t));
        lemma_stored_pages(heap(p), t, 0, x);
        assert(!page_in(p, slot, x));
    }
    lemma_tree_kept(p, q, other);
}

/// An insertion into one tree leaves the pages of the trees in other slots theirs.
pub proof fn lemma_other_pages(p: PagerSpec, q: PagerSpec, slot: int, other: int)
    requires
        is_tree(p, slot),
        is_tree(p, other),
        slot != other,
        slots_apart(p, slot, other),
        is_tree(q, slot),
        keeps_others(p, q, slot),
        keeps_roots(p, q, slot),
    ensures
        forall|x: u32| page_in(q, other, x) == page_in(p, other, x),
{
    assert forall|x: u32| #[trigger] page_in(p, other, x) implies heap(q).contains_key(x) && heap(q)[x] == heap(p)[x] by {
        let t = tree_in(p, other);
        assert(tree_at(heap(p), root_of(p, other), t));
        lemma_stored_pages(heap(p), t, 0, x);
        assert(!page_in(p, slot, x));
    }
    lemma_tree_kept(p, q, other);
}

/// What was committed is what a file opens with: the same trees, with the same
/// entries.
pub proof fn law_trees_survive_reopening(p: PagerSpec, capacity: nat, slot: int)
    requires
        is_tree(p, slot),
        capacity >= 8,
    ensures
        ({
            let q = opened(committed(p).file, capacity, Seq::empty());
            &&& same_trees(p, q)
            &&& is_tree(q, slot)
            &&& map_in(q, slot) == map_in(p, slot)
            &&& shape_in(q, slot) == shape_in(p, slot)
        }),
{
    law_heap_survives_reopening(p, capacity);
    lemma_same_trees(p, opened(committed(p).file, capacity, Seq::empty()), slot);
}

/// A pager with the same pages and roots has the same trees.
pub proof fn lemma_same_trees(p: PagerSpec, q: PagerSpec, slot: int)
    requires
        is_tree(p, slot),
        same_trees(p, q),
    ensures
        is_tree(q, slot),
        map_in(q, slot) == map_in(p, slot),
        shape_in(q, slot) == shape_in(p, slot),
        forall|x: u32| page_in(q, slot, x) == page_in(p, slot, x),
{
    assert(map_in(q, slot) =~= map_in(p, slot));
}

/// A tree in an empty slot holds nothing.
pub proof fn law_empty_slot_holds_nothing(p: PagerSpec, slot: int)
    requires
        is_tree(p, slot),
        root_of(p, slot) == 0,
    ensures
        map_in(p, slot) == Map::<Seq<u8>, Seq<u8>>::empty(),
{
    assert(map_in(p, slot) =~= Map::<Seq<u8>, Seq<u8>>::empty());
}

/// The leaf behind a leaf in a list.
pub open spec fn leaf_after(ls: Seq<Tree>, i: int, next: u32) -> u32 {
    if i + 1 < ls.len() {
        tree_id(ls[i + 1])
    } else {
        next
    }
}

/// A leaf of the list stands on its page and is linked to the one behind it.
pub open spec fn leaf_linked(h: Pages, ls: Seq<Tree>, next: u32, i: int) -> bool {
    &&& ls[i] is Leaf
    &&& h.contains_key(tree_id(ls[i]))
    &&& node_of(h[tree_id(ls[i])]) == Some(top_node(ls[i], leaf_after(ls, i, next)))
}

/// The leaves are linked in order.
pub open spec fn chain(h: Pages, ls: Seq<Tree>, next: u32) -> bool {
    forall|i: int| 0 <= i < ls.len() ==> #[trigger] leaf_linked(h, ls, next, i)
}

proof fn lemma_chain_join(h: Pages, a: Seq<Tree>, b: Seq<Tree>, mid: u32, next: u32)
    requires
        chain(h, a, mid),
        chain(h, b, next),
        b.len() > 0,
        tree_id(b[0]) == mid,
    ensures
        chain(h, a + b, next),
{
    let s = a + b;
    assert forall|i: int| 0 <= i < s.len() implies #[trigger] leaf_linked(h, s, next, i) by {
        if i < a.len() {
            assert(leaf_linked(h, a, mid, i));
            assert(s[i] == a[i]);
            if i + 1 < a.len() {
                assert(s[i + 1] == a[i + 1]);
            } else {
                assert(s[i + 1] == b[0]);
            }
            assert(leaf_after(s, i, next) == leaf_after(a, i, mid));
        } else {
            let j = i - a.len();
            assert(leaf_linked(h, b, next, j));
            assert(s[i] == b[j]);
            if i + 1 < s.len() {
                assert(s[i + 1] == b[j + 1]);
            }
            assert(leaf_after(s, i, next) == leaf_after(b, j, next));
        }
    }
}

/// The leaves of a stored tree are linked in order.
proof fn lemma_chain(h: Pages, t: Tree, next: u32, lo: Option<Seq<u8>>, hi: Option<Seq<u8>>)
    requires
        stored(h, t, next),
        ordered(t, lo, hi),
    ensures
        chain(h, leaves(t), next),
    decreases t, 0nat,
{
    match t {
        Tree::Leaf { .. } => {
            let s = leaves(t);
            assert forall|i: int| 0 <= i < s.len() implies #[trigger] leaf_linked(h, s, next, i) by {
                assert(s[i] == t);
            }
        },
        Tree::Inner { id, keys, kids } => {
            lemma_kid_chain(h, t, id, keys, kids, next, lo, hi, kids.len());
        },
    }
}

proof fn lemma_kid_chain(h: Pages, t: Tree, id: u32, keys: Seq<Seq<u8>>, kids: Seq<Tree>, next: u32, lo: Option<Seq<u8>>, hi: Option<Seq<u8>>, n: nat)
    requires
        t == (Tree::Inner { id, keys, kids }),
        stored(h, t, next),
        ordered(t, lo, hi),
        n <= kids.len(),
    ensures
        chain(h, kid_leaves(kids, n), kid_next(kids, n - 1, next)),
    decreases kids, n,
{
    assert(t->Inner_kids == kids);
    if n > 0 {
        let m = (n - 1) as nat;
        let kid = kids[n - 1];
        lemma_kid_chain(h, t, id, keys, kids, next, lo, hi, m);
        assert(stored(h, kids[n - 1], kid_next(kids, n - 1, next)));
        assert(ordered(kid, kid_low(keys, lo, n - 1), kid_high(keys, hi, n - 1)));
        lemma_chain(h, kid, kid_next(kids, n - 1, next), kid_low(keys, lo, n - 1), kid_high(keys, hi, n - 1));
        lemma_leaves(kid, kid_low(keys, lo, n - 1), kid_high(keys, hi, n - 1));
        lemma_chain_join(h, kid_leaves(kids, m), leaves(kid), kid_next(kids, m - 1, next), kid_next(kids, n - 1, next));
    }
}

/// Whether a key starts with a prefix.
pub open spec fn starts(key: Seq<u8>, prefix: Seq<u8>) -> bool {
    key.len() >= prefix.len() && key.take(prefix.len() as int) == prefix
}

/// The entries whose keys start with a prefix.
pub open spec fn picked(s: Seq<Item>, prefix: Seq<u8>) -> Seq<Item> {
    s.filter(|e: Item| starts(e.0, prefix))
}

/// A list of the entries of a map whose keys start with a prefix, in the order of
/// the keys.
pub open spec fn listed(r: Seq<Item>, m: Map<Seq<u8>, Seq<u8>>, prefix: Seq<u8>) -> bool {
    &&& items_ascend(r)
    &&& forall|e: Item| #[trigger] r.contains(e) <==> m.contains_key(e.0) && m[e.0] == e.1 && starts(e.0, prefix)
}

/// Keys that start with a prefix do not come before it, and what comes behind such
/// a key or behind the prefix comes behind all of them or is one of them.
pub proof fn lemma_starts(prefix: Seq<u8>, a: Seq<u8>, b: Seq<u8>)
    ensures
        starts(a, prefix) ==> !lex_less(a, prefix),
        lex_less(prefix, a) && !starts(a, prefix) && lex_less(a, b) ==> !starts(b, prefix),
    decreases prefix.len(),
{
    if prefix.len() > 0 && a.len() > 0 {
        let p2 = prefix.drop_first();
        let a2 = a.drop_first();
        if b.len() > 0 {
            let b2 = b.drop_first();
            lemma_starts(p2, a2, b2);
            if starts(b, prefix) {
                assert(b.take(prefix.len() as int)[0] == b[0]);
                assert(b2.take(p2.len() as int) =~= b.take(prefix.len() as int).drop_first());
                assert(starts(b2, p2));
            }
        } else {
            lemma_starts(p2, a2, b);
        }
        if starts(a, prefix) {
            assert(a.take(prefix.len() as int)[0] == a[0]);
            assert(a2.take(p2.len() as int) =~= a.take(prefix.len() as int).drop_first());
        }
        if a[0] == prefix[0] && starts(a2, p2) {
            assert(a.take(prefix.len() as int) =~= seq![a[0]] + a2.take(p2.len() as int));
            assert(prefix =~= seq![prefix[0]] + p2);
        }
    } else if prefix.len() == 0 {
        assert(a.take(0) =~= prefix);
    }
}

proof fn lemma_picked_join(a: Seq<Item>, b: Seq<Item>, prefix: Seq<u8>)
    ensures
        picked(a + b, prefix) == picked(a, prefix) + picked(b, prefix),
{
    let f = |e: Item| starts(e.0, prefix);
    Seq::filter_distributes_over_add(a, b, f);
}

proof fn lemma_picked_none(s: Seq<Item>, prefix: Seq<u8>)
    requires
        forall|i: int| 0 <= i < s.len() ==> !starts((#[trigger] s[i]).0, prefix),
    ensures
        picked(s, prefix).len() == 0,
    decreases s.len(),
{
    let f = |e: Item| starts(e.0, prefix);
    reveal(Seq::filter);
    if s.len() > 0 {
        assert forall|i: int| 0 <= i < s.drop_last().len() implies !starts((#[trigger] s.drop_last()[i]).0, prefix) by {
            assert(s.drop_last()[i] == s[i]);
        }
        lemma_picked_none(s.drop_last(), prefix);
        assert(s.last() == s[s.len() - 1]);
    }
}

/// The picked entries of a tree list what it holds.
proof fn lemma_picked_listed(t: Tree, m: Map<Seq<u8>, Seq<u8>>, prefix: Seq<u8>)
    requires
        ordered(t, None, None),
        forall|k: Seq<u8>| #[trigger] m.contains_key(k) <==> lookup(t, k) is Some,
        forall|k: Seq<u8>| #[trigger] m.contains_key(k) ==> lookup(t, k) == Some(m[k]),
    ensures
        listed(picked(entries(t), prefix), m, prefix),
{
    lemma_entries(t, None, None);
    let s = entries(t);
    let f = |e: Item| starts(e.0, prefix);
    let r = picked(s, prefix);
    assert(r == s.filter(f));
    lemma_filter_ascends(s, prefix);
    assert forall|e: Item| #[trigger] r.contains(e) <==> m.contains_key(e.0) && m[e.0] == e.1 && starts(e.0, prefix) by {
        broadcast use vstd::seq_lib::group_filter_ensures;

        if r.contains(e) {
            let i = choose|i: int| 0 <= i < r.len() && r[i] == e;
            assert(f(r[i]));
            assert(s.contains(e));
            assert(holds_item(t, e));
        }
        if m.contains_key(e.0) && m[e.0] == e.1 && starts(e.0, prefix) {
            assert(holds_item(t, e));
            assert(s.contains(e));
            let i = choose|i: int| 0 <= i < s.len() && s[i] == e;
            assert(f(s[i]));
            assert(r.contains(s[i]));
        }
    }
}

proof fn lemma_filter_ascends(s: Seq<Item>, prefix: Seq<u8>)
    requires
        items_ascend(s),
    ensures
        items_ascend(picked(s, prefix)),
        forall|i: int| 0 <= i < picked(s, prefix).len() ==> s.contains(#[trigger] picked(s, prefix)[i]),
    decreases s.len(),
{
    reveal(Seq::filter);
    if s.len() > 0 {
        let d = s.drop_last();
        assert forall|i: int, j: int| 0 <= i < j < d.len() implies lex_less((#[trigger] d[i]).0, (#[trigger] d[j]).0) by {
            assert(d[i] == s[i] && d[j] == s[j]);
        }
        lemma_filter_ascends(d, prefix);
        let r = picked(s, prefix);
        let rd = picked(d, prefix);
        assert(r == rd || r == rd.push(s.last()));
        assert forall|i: int| 0 <= i < r.len() implies s.contains(#[trigger] r[i]) by {
            if i < rd.len() {
                assert(d.contains(rd[i]));
                let k = choose|k: int| 0 <= k < d.len() && d[k] == rd[i];
                assert(s[k] == r[i]);
            } else {
                assert(s[s.len() - 1] == r[i]);
            }
        }
        assert forall|i: int, j: int| 0 <= i < j < r.len() implies lex_less((#[trigger] r[i]).0, (#[trigger] r[j]).0) by {
            if j < rd.len() {
                assert(r[i] == rd[i] && r[j] == rd[j]);
            } else {
                assert(d.contains(rd[i]));
                let k = choose|k: int| 0 <= k < d.len() && d[k] == rd[i];
                assert(s[k] == r[i]);
                assert(r[j] == s[s.len() - 1]);
            }
        }
    }
}

/// Entries as mathematical values.
pub open spec fn item_views(v: Seq<(Vec<u8>, Vec<u8>)>) -> Seq<Item> {
    v.map_values(|e: (Vec<u8>, Vec<u8>)| (e.0@, e.1@))
}

/// Whether `key` starts with `prefix`.
pub fn has_prefix(key: &Vec<u8>, prefix: &[u8]) -> (b: bool)
    ensures
        b == starts(key@, prefix@),
{
    if key.len() < prefix.len() {
        return false;
    }
    let mut i: usize = 0;
    while i < prefix.len()
        invariant
            i <= prefix@.len() <= key@.len(),
            forall|j: int| 0 <= j < i ==> key@[j] == prefix@[j],
        decreases prefix.len() - i,
    {
        if key[i] != prefix[i] {
            assert(key@.take(prefix@.len() as int)[i as int] != prefix@[i as int]);
            return false;
        }
        i = i + 1;
    }
    assert(key@.take(prefix@.len() as int) =~= prefix@);
    true
}

impl BTree {
    /// All entries whose keys start with `prefix`, in the order of the keys.
    #[verifier::spinoff_prover]
    #[verifier::rlimit(60)]
    pub fn scan_prefix(&self, pager: &mut Pager, prefix: &[u8]) -> (r: Result<Vec<(Vec<u8>, Vec<u8>)>>)
        requires
            old(pager).wf(),
            is_tree(old(pager)@, self.slot()),
        ensures
            final(pager).wf(),
            same_trees(old(pager)@, final(pager)@),
            r matches Ok(v) && listed(item_views(v@), map_in(old(pager)@, self.slot()), prefix@),
    {
        let ghost p = pager@;
        let ghost m = map_in(p, self.slot());
        let mut out: Vec<(Vec<u8>, Vec<u8>)> = Vec::new();
        let root: PageId = pager.root(self.root_slot) as PageId;
        assert(item_views(out@) =~= Seq::<Item>::empty());
        if root == 0 {
            return Ok(out);
        }
        let ghost t = tree_in(p, self.slot());
        let ghost h = heap(p);
        assert(tree_at(h, root, t));
        let ghost ls = leaves(t);
        let ghost all = entries(t);
        let (_, first): (PageId, Node) = self.leaf_page(pager, root, prefix, Ghost(t));
        let mut node: Node = first;
        let ghost mut j: int = leaf_at(t, prefix@) as int;
        proof {
            lemma_chain(h, t, 0, None, None);
            lemma_leaf_at(t, None, None, prefix@);
            lemma_entries(t, None, None);
            lemma_heap(p);
            assert(leaf_linked(h, ls, 0, j));
        }
        let mut idx: usize = place_before(&node.keys, prefix);
        proof {
            let before = items(ls.take(j)) + leaf_items(ls[j]).take(idx as int);
            lemma_below(node@.keys, prefix@);
            assert forall|i: int| 0 <= i < before.len() implies !starts((#[trigger] before[i]).0, prefix@) by {
                let a = items(ls.take(j));
                if i < a.len() {
                    assert(before[i] == a[i]);
                } else {
                    assert(before[i].0 == node@.keys[i - a.len()]);
                }
                lemma_starts(prefix@, before[i].0, before[i].0);
            }
            lemma_picked_none(before, prefix@);
            assert(picked(before, prefix@) =~= Seq::<Item>::empty());
        }
        loop
            invariant
                p == old(pager)@,
                pager.wf(),
                same_trees(p, pager@),
                h == heap(p),
                h == heap(pager@),
                is_tree(p, self.slot()),
                m == map_in(p, self.slot()),
                t == tree_in(p, self.slot()),
                root_of(p, self.slot()) != 0,
                tree_at(h, root_of(p, self.slot()), t),
                ls == leaves(t),
                all == items(ls),
                items_ascend(all),
                chain(h, ls, 0),
                !h.contains_key(0),
                0 <= j < ls.len(),
                ls[j] is Leaf,
                node@ == top_node(ls[j], leaf_after(ls, j, 0)),
                shaped(node@),
                idx <= node.keys@.len(),
                item_views(out@) == picked(items(ls.take(j)) + leaf_items(ls[j]).take(idx as int), prefix@),
            decreases ls.len() - j,
        {
            let ghost base = items(ls.take(j));
            let ghost here = leaf_items(ls[j]);
            proof {
                lemma_items_take(ls, j);
                assert(ls =~= ls.take(j + 1) + ls.skip(j + 1));
                lemma_items_join(ls.take(j + 1), ls.skip(j + 1));
                assert(here.len() == node@.keys.len());
            }
            while idx < node.keys.len()
                invariant
                    p == old(pager)@,
                    pager.wf(),
                    same_trees(p, pager@),
                    m == map_in(p, self.slot()),
                    t == tree_in(p, self.slot()),
                    is_tree(p, self.slot()),
                    root_of(p, self.slot()) != 0,
                    ordered(t, None, None),
                    ls == leaves(t),
                    all == items(ls),
                    items_ascend(all),
                    all == base + here + items(ls.skip(j + 1)),
                    here == leaf_items(ls[j]),
                    ls[j] is Leaf,
                    node@ == top_node(ls[j], leaf_after(ls, j, 0)),
                    shaped(node@),
                    here.len() == node@.keys.len(),
                    idx <= node.keys@.len(),
                    item_views(out@) == picked(base + here.take(idx as int), prefix@),
                decreases node.keys.len() - idx,
            {
                let ghost e = here[idx as int];
                let ghost done = base + here.take(idx as int);
                let ghost out0 = out@;
                proof {
                    assert(node@.keys[idx as int] == node.keys@[idx as int]@);
                    assert(node@.vals[idx as int] == node.vals@[idx as int]@);
                    assert(here.take(idx + 1) =~= here.take(idx as int).push(e));
                    assert(base + here.take(idx + 1) =~= done + seq![e]);
                    lemma_picked_join(done, seq![e], prefix@);
                    reveal(Seq::filter);
                    assert(seq![e].drop_last() =~= Seq::<Item>::empty());
                    assert(picked(Seq::<Item>::empty(), prefix@) =~= Seq::<Item>::empty());
                }
                if has_prefix(&node.keys[idx], prefix) {
                    let k: Vec<u8> = copy_bytes(&node.keys[idx]);
                    let v: Vec<u8> = copy_bytes(&node.vals[idx]);
                    let ghost pair = (k@, v@);
                    out.push((k, v));
                    proof {
                        assert(picked(seq![e], prefix@) =~= seq![e]);
                        assert(item_views(out@) =~= item_views(out0).push(pair));
                        assert(item_views(out@) =~= picked(done, prefix@) + seq![e]);
                    }
                } else {
                    assert(picked(seq![e], prefix@) =~= Seq::<Item>::empty());
                    assert(picked(done, prefix@) + Seq::<Item>::empty() =~= picked(done, prefix@));
                    if bytes_less(prefix, &node.keys[idx]) {
                        proof {
                            let rest = here.skip(idx as int) + items(ls.skip(j + 1));
                            assert(all =~= done + rest);
                            assert forall|i: int| 0 <= i < rest.len() implies !starts((#[trigger] rest[i]).0, prefix@) by {
                                assert(rest[i] == all[done.len() + i]);
                                assert(rest[0] == e);
                                assert(all[done.len() as int] == e);
                                if i > 0 {
                                    assert(lex_less(all[done.len() as int].0, all[done.len() + i].0));
                                    lemma_starts(prefix@, e.0, rest[i].0);
                                }
                            }
                            lemma_picked_none(rest, prefix@);
                            lemma_picked_join(done, rest, prefix@);
                            assert(picked(all, prefix@) =~= picked(done, prefix@));
                            lemma_picked_listed(t, m, prefix@);
                        }
                        return Ok(out);
                    }
                }
                idx = idx + 1;
            }
            assert(here.take(idx as int) =~= here);
            if node.link == 0 {
                proof {
                    if j + 1 < ls.len() {
                        assert(leaf_linked(h, ls, 0, j + 1));
                    }
                    assert(ls.take(j + 1) =~= ls);
                    lemma_picked_listed(t, m, prefix@);
                }
                return Ok(out);
            }
            proof {
                assert(leaf_linked(h, ls, 0, j + 1));
                j = j + 1;
                assert(base + here =~= items(ls.take(j)) + leaf_items(ls[j]).take(0));
            }
            let bytes: Vec<u8> = get_page(pager, node.link);
            node = Node::parse(&bytes);
            idx = 0;
        }
    }

    /// All entries, in the order of the keys.
    pub fn iter_all(&self, pager: &mut Pager) -> (r: Result<Vec<(Vec<u8>, Vec<u8>)>>)
        requires
            old(pager).wf(),
            is_tree(old(pager)@, self.slot()),
        ensures
            final(pager).wf(),
            same_trees(old(pager)@, final(pager)@),
            r matches Ok(v) && listed(item_views(v@), map_in(old(pager)@, self.slot()), Seq::empty()),
    {
        let none: Vec<u8> = Vec::new();
        assert(none@ =~= Seq::<u8>::empty());
        self.scan_prefix(pager, &none)
    }
}

/// Four bytes, most significant first, so that the order of the bytes is that of
/// the numbers.
pub fn be32(x: u32) -> (r: Vec<u8>)
    ensures
        r@ == be32_bytes(x),
{
    let mut r: Vec<u8> = Vec::new();
    push_be32(&mut r, x);
    assert(r@ =~= be32_bytes(x));
    r
}

/// The number in four bytes, most significant first.
pub fn de32(b: &[u8]) -> (r: u32)
    requires
        b@.len() == 4,
    ensures
        r == get_be32(b@, 0),
{
    read_be32(b, 0)
}

/// Decoding undoes encoding.
pub proof fn law_be32_roundtrip(x: u32)
    ensures
        be32_bytes(x).len() == 4,
        get_be32(be32_bytes(x), 0) == x,
{
    let b = be32_bytes(x);
    assert(b.subrange(0, 4) =~= b);
    lemma_be32(x, b, 0);
}

/// The order of the encodings is that of the numbers.
pub proof fn law_be32_order(x: u32, y: u32)
    ensures
        lex_less(be32_bytes(x), be32_bytes(y)) <==> x < y,
{
    let (a, b) = (be32_bytes(x), be32_bytes(y));
    law_be32_roundtrip(x);
    law_be32_roundtrip(y);
    let (a1, b1) = (seq![a[1], a[2], a[3]], seq![b[1], b[2], b[3]]);
    let (a2, b2) = (seq![a[2], a[3]], seq![b[2], b[3]]);
    let (a3, b3) = (seq![a[3]], seq![b[3]]);
    assert(a.drop_first() =~= a1);
    assert(b.drop_first() =~= b1);
    assert(a1.drop_first() =~= a2);
    assert(b1.drop_first() =~= b2);
    assert(a2.drop_first() =~= a3);
    assert(b2.drop_first() =~= b3);
    assert(a3.drop_first() =~= Seq::<u8>::empty());
    assert(b3.drop_first() =~= Seq::<u8>::empty());
    assert(!lex_less(Seq::<u8>::empty(), Seq::<u8>::empty()));
    assert(lex_less(a3, b3) == (a[3] < b[3]));
    assert(lex_less(a2, b2) == (a[2] < b[2] || (a[2] == b[2] && a[3] < b[3])));
    assert(lex_less(a1, b1) == (a[1] < b[1] || (a[1] == b[1] && (a[2] < b[2] || (a[2] == b[2] && a[3] < b[3])))));
    assert(x == a[0] * 16777216 + a[1] * 65536 + a[2] * 256 + a[3]);
    assert(y == b[0] * 16777216 + b[1] * 65536 + b[2] * 256 + b[3]);
}

} // verus!
