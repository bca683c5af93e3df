//! Removal from B+ trees on pages: entries leave, nodes without keys give their pages
//! back, and neighbours that fit one page are joined.

use super::bptree::{kid_next, lemma_inner_fits, lemma_kids_frame, lemma_leaf_fits, lemma_stored_frame, place_before, place_of, same_pages, stored};
use super::heap::{drop_page, get_page, heap, pages_left, put_page, sound, Pages};
use super::join::{in_kids, joinable, joined, lemma_joined_pages, lemma_narrow_pages, lemma_packed_pages, lemma_settled_pages, narrow_kids, packed, settled, settled_freed};
use super::node::{node_of, shaped, Node, NodeSpec};
use super::pager::Pager;
use super::prune::{cut, cut_freed, heir, lemma_cut, lemma_cut_leaf, lemma_cut_pages, lemma_kid_replaced, lemma_kids_less, sep_of};
use super::tree::{apart, disjoint, first_leaf, has_page, inner_fits, kid_high, kid_low, kids_apart, later_kids, lemma_upto, lookup, ordered, sized, top_node, tree_id, upto, Tree};
use super::wal::{copy_bytes, PageId, PAGE_SIZE};
use vstd::prelude::*;

verus! {

/// The kids stand on their pages.
pub open spec fn kids_stored(h: Pages, kids: Seq<Tree>, next: u32) -> bool {
    forall|i: int| 0 <= i < kids.len() ==> stored(h, kids[i], #[trigger] kid_next(kids, i, next))
}

/// No page is new, and pages outside the tree stay as they are.
pub open spec fn only_pages(h: Pages, h1: Pages, t: Tree) -> bool {
    &&& forall|x: u32| #[trigger] h1.contains_key(x) ==> h.contains_key(x)
    &&& forall|x: u32| #[trigger] h.contains_key(x) && !has_page(t, x) ==> h1.contains_key(x) && h1[x] == h[x]
}

/// No page is new, and pages outside the kids stay as they are.
pub open spec fn only_kids(h: Pages, h1: Pages, kids: Seq<Tree>) -> bool {
    &&& forall|x: u32| #[trigger] h1.contains_key(x) ==> h.contains_key(x)
    &&& forall|x: u32| #[trigger] h.contains_key(x) && !in_kids(kids, x) ==> h1.contains_key(x) && h1[x] == h[x]
}

/// What a removal leaves of a tree.
pub(super) struct Removed {
    /// The page of the top node, if there is one left.
    pub kept: Option<PageId>,
    /// The first leaf is another one now.
    pub moved: bool,
    /// The first leaf then, or the one behind the tree if nothing is left.
    pub first: PageId,
}

/// Let the last leaf of a tree link to another leaf.
#[verifier::spinoff_prover]
fn retarget(pager: &mut Pager, id: PageId, link: PageId, Ghost(t): Ghost<Tree>, Ghost(next): Ghost<u32>, Ghost(lo): Ghost<Option<Seq<u8>>>, Ghost(hi): Ghost<Option<Seq<u8>>>)
    requires
        old(pager).wf(),
        sound(old(pager)@),
        tree_id(t) == id,
        stored(heap(old(pager)@), t, next),
        ordered(t, lo, hi),
        apart(t),
        sized(t),
    ensures
        final(pager).wf(),
        sound(final(pager)@),
        final(pager)@.roots == old(pager)@.roots,
        pages_left(final(pager)@) == pages_left(old(pager)@),
        stored(heap(final(pager)@), t, link),
        only_pages(heap(old(pager)@), heap(final(pager)@), t),
    decreases t,
{
    let ghost h = heap(pager@);
    let bytes: Vec<u8> = get_page(pager, id);
    let mut node: Node = Node::parse(&bytes);
    if node.leaf {
        node.link = link;
        proof {
            lemma_leaf_fits(node@);
        }
        let page: Vec<u8> = node.serialize();
        put_page(pager, id, &page);
        proof {
            assert(node@ == top_node(t, link));
        }
    } else {
        let ghost (keys, kids) = (t->Inner_keys, t->Inner_kids);
        let ghost last = kids.len() - 1;
        let n: usize = node.children.len();
        let child: PageId = if n == 0 {
            node.link
        } else {
            node.children[n - 1]
        };
        proof {
            assert(later_kids(kids).len() == last);
            if last > 0 {
                assert(later_kids(kids)[last - 1] == tree_id(kids[last]));
            }
            assert(stored(h, kids[last], kid_next(kids, last, next)));
            assert(ordered(kids[last], kid_low(keys, lo, last), kid_high(keys, hi, last)));
            assert(apart(kids[last]) && !has_page(kids[last], id));
            assert(sized(kids[last]));
        }
        retarget(pager, child, link, Ghost(kids[last]), Ghost(next), Ghost(kid_low(keys, lo, last)), Ghost(kid_high(keys, hi, last)));
        proof {
            let h1 = heap(pager@);
            assert(h.contains_key(id));
            assert forall|i: int| 0 <= i < kids.len() implies stored(h1, kids[i], #[trigger] kid_next(kids, i, link)) by {
                if i < last {
                    assert(kid_next(kids, i, link) == kid_next(kids, i, next));
                    assert(disjoint(kids[i], kids[last]));
                    assert(stored(h, kids[i], kid_next(kids, i, next)));
                    lemma_stored_frame(h, h1, kids[i], kid_next(kids, i, next));
                }
            }
            assert(top_node(t, link) == top_node(t, next));
            assert forall|x: u32| #[trigger] h.contains_key(x) && !has_page(t, x) implies h1.contains_key(x) && h1[x] == h[x] by {
                assert(!has_page(kids[last], x));
            }
        }
    }
}

/// Write an inner node, or free its page if it has a single kid. Gives the page of what
/// stands in its place.
fn pack(pager: &mut Pager, id: PageId, node: Node, Ghost(keys): Ghost<Seq<Seq<u8>>>, Ghost(kids): Ghost<Seq<Tree>>, Ghost(next): Ghost<u32>) -> (r: PageId)
    requires
        old(pager).wf(),
        sound(old(pager)@),
        heap(old(pager)@).contains_key(id),
        kids.len() == keys.len() + 1,
        node@ == top_node(Tree::Inner { id, keys, kids }, next),
        kids_stored(heap(old(pager)@), kids, next),
        kids_apart(kids, id),
        inner_fits(keys),
    ensures
        final(pager).wf(),
        sound(final(pager)@),
        final(pager)@.roots == old(pager)@.roots,
        pages_left(final(pager)@) == pages_left(old(pager)@) + (if kids.len() == 1 { 1int } else { 0 }),
        r == tree_id(packed(id, keys, kids)),
        stored(heap(final(pager)@), packed(id, keys, kids), next),
        forall|x: u32| #[trigger] heap(final(pager)@).contains_key(x) ==> heap(old(pager)@).contains_key(x),
        forall|x: u32| #[trigger] heap(old(pager)@).contains_key(x) && x != id ==> heap(final(pager)@).contains_key(x) && heap(final(pager)@)[x] == heap(old(pager)@)[x],
{
    let ghost h = heap(pager@);
    let ghost t = Tree::Inner { id, keys, kids };
    if node.keys.len() == 0 {
        drop_page(pager, id);
        proof {
            let h1 = heap(pager@);
            assert(stored(h, kids[0], kid_next(kids, 0, next)));
            assert(!has_page(kids[0], id));
            lemma_stored_frame(h, h1, kids[0], next);
        }
        return node.link;
    }
    proof {
        assert(later_kids(kids).len() == keys.len());
        lemma_inner_fits(node@);
    }
    let page: Vec<u8> = node.serialize();
    put_page(pager, id, &page);
    proof {
        let h1 = heap(pager@);
        assert forall|i: int| 0 <= i < kids.len() implies same_pages(h, h1, #[trigger] kids[i]) by {
            assert(!has_page(kids[i], id));
        }
        lemma_kids_frame(h, h1, kids, next);
        assert(stored(h1, t, next));
    }
    id
}

/// The kids are stored after two neighbours were joined.
#[verifier::spinoff_prover]
#[verifier::rlimit(30)]
proof fn lemma_joined_stored(h: Pages, h1: Pages, id: u32, keys: Seq<Seq<u8>>, kids: Seq<Tree>, next: u32, i: int, lo: Option<Seq<u8>>, hi: Option<Seq<u8>>, page: Seq<u8>)
    requires
        kids_stored(h, kids, next),
        kids_apart(kids, id),
        ordered(Tree::Inner { id, keys, kids }, lo, hi),
        0 <= i < keys.len(),
        joinable(kids[i], keys[i], kids[i + 1]),
        h1 == h.insert(tree_id(kids[i]), page).remove(tree_id(kids[i + 1])),
        node_of(page) == Some(top_node(joined(kids[i], keys[i], kids[i + 1]), kid_next(kids, i + 1, next))),
    ensures
        kids_stored(h1, narrow_kids(kids, i, joined(kids[i], keys[i], kids[i + 1])), next),
        only_kids(h, h1, kids),
        h.contains_key(tree_id(kids[i])),
        h.contains_key(tree_id(kids[i + 1])),
        tree_id(kids[i]) != tree_id(kids[i + 1]),
        tree_id(joined(kids[i], keys[i], kids[i + 1])) == tree_id(kids[i]),
{
    let (a, sep, b) = (kids[i], keys[i], kids[i + 1]);
    let (x, y) = (tree_id(a), tree_id(b));
    let kid = joined(a, sep, b);
    let ks = narrow_kids(kids, i, kid);
    let na = kid_next(kids, i, next);
    let nb = kid_next(kids, i + 1, next);
    assert(stored(h, a, na) && stored(h, b, nb));
    assert(apart(a) && apart(b) && disjoint(a, b));
    assert(has_page(a, x) && has_page(b, y));
    assert(ordered(a, kid_low(keys, lo, i), kid_high(keys, hi, i)));
    assert(ordered(b, kid_low(keys, lo, i + 1), kid_high(keys, hi, i + 1)));
    lemma_joined_pages(a, sep, b, kid_low(keys, lo, i));
    assert(stored(h1, kid, nb)) by {
        if a is Inner {
            let (ca, cb) = (a->Inner_kids, b->Inner_kids);
            let all = ca + cb;
            assert(kid->Inner_kids == all);
            assert forall|j: int| 0 <= j < all.len() implies stored(h1, all[j], #[trigger] kid_next(all, j, nb)) by {
                if j < ca.len() {
                    assert(stored(h, ca[j], kid_next(ca, j, na)));
                    assert(kid_next(all, j, nb) == kid_next(ca, j, na));
                    assert(!has_page(ca[j], x));
                    if has_page(ca[j], y) {
                        assert(has_page(a, y));
                    }
                    lemma_stored_frame(h, h1, ca[j], kid_next(ca, j, na));
                } else {
                    let o = j - ca.len();
                    assert(stored(h, cb[o], kid_next(cb, o, nb)));
                    assert(kid_next(all, j, nb) == kid_next(cb, o, nb));
                    assert(!has_page(cb[o], y));
                    if has_page(cb[o], x) {
                        assert(has_page(b, x));
                    }
                    lemma_stored_frame(h, h1, cb[o], kid_next(cb, o, nb));
                }
            }
        }
    }
    assert forall|j: int| 0 <= j < ks.len() implies stored(h1, ks[j], #[trigger] kid_next(ks, j, next)) by {
        let o: int = if j <= i { j } else { j + 1 };
        if j != i {
            assert(stored(h, kids[o], kid_next(kids, o, next)));
            if o < i {
                assert(disjoint(kids[o], kids[i]) && disjoint(kids[o], kids[i + 1]));
            } else {
                assert(disjoint(kids[i], kids[o]) && disjoint(kids[i + 1], kids[o]));
            }
            assert(ks[j] == kids[o]);
            assert(kid_next(ks, j, next) == kid_next(kids, o, next)) by {
                if j + 1 < ks.len() {
                    assert(ks[j + 1] == (if j + 1 < i { kids[j + 1] } else if j + 1 == i { kid } else { kids[j + 2] }));
                }
            }
            lemma_stored_frame(h, h1, kids[o], kid_next(kids, o, next));
        } else {
            assert(kid_next(ks, j, next) == nb) by {
                if j + 1 < ks.len() {
                    assert(ks[j + 1] == kids[j + 2]);
                }
            }
        }
    }
    assert forall|z: u32| #[trigger] h.contains_key(z) && !in_kids(kids, z) implies h1.contains_key(z) && h1[z] == h[z] by {
        assert(!has_page(kids[i], z) && !has_page(kids[i + 1], z));
    }
}

/// The node of two neighbours together.
fn together(a: Node, sep: &Vec<u8>, b: Node) -> (r: Node)
    requires
        shaped(a@),
        shaped(b@),
        a.leaf == b.leaf,
    ensures
        shaped(r@),
        r@ == (if a.leaf {
            NodeSpec { leaf: true, link: b.link, keys: a@.keys + b@.keys, vals: a@.vals + b@.vals, children: Seq::empty() }
        } else {
            NodeSpec { leaf: false, link: a.link, keys: a@.keys.push(sep@) + b@.keys, vals: Seq::empty(), children: a@.children.push(b.link) + b@.children }
        }),
{
    let ghost (a0, b0) = (a@, b@);
    let mut a: Node = a;
    let mut b: Node = b;
    if a.leaf {
        a.link = b.link;
        a.keys.append(&mut b.keys);
        a.vals.append(&mut b.vals);
        proof {
            assert(a@.keys =~= a0.keys + b0.keys);
            assert(a@.vals =~= a0.vals + b0.vals);
            assert(a@.children =~= Seq::<u32>::empty());
        }
    } else {
        a.keys.push(copy_bytes(sep));
        a.children.push(b.link);
        a.keys.append(&mut b.keys);
        a.children.append(&mut b.children);
        proof {
            assert(a@.keys =~= a0.keys.push(sep@) + b0.keys);
            assert(a@.children =~= a0.children.push(b0.link) + b0.children);
            assert(a@.vals =~= Seq::<Seq<u8>>::empty());
        }
    }
    a
}

/// The kids of an inner node by their pages.
fn kid_page(node: &Node, i: usize, Ghost(keys): Ghost<Seq<Seq<u8>>>, Ghost(kids): Ghost<Seq<Tree>>) -> (r: PageId)
    requires
        kids.len() == keys.len() + 1,
        node@.link == tree_id(kids[0]),
        node@.children == later_kids(kids),
        i < kids.len(),
    ensures
        r == tree_id(kids[i as int]),
{
    if i == 0 {
        node.link
    } else {
        assert(later_kids(kids)[i - 1] == tree_id(kids[i as int]));
        node.children[i - 1]
    }
}

/// Join two neighbours if they fit one page. Gives whether they did.
#[verifier::spinoff_prover]
#[verifier::rlimit(40)]
fn join_kids(pager: &mut Pager, node: &mut Node, i: usize, Ghost(id): Ghost<u32>, Ghost(keys): Ghost<Seq<Seq<u8>>>, Ghost(kids): Ghost<Seq<Tree>>, Ghost(next): Ghost<u32>, Ghost(lo): Ghost<Option<Seq<u8>>>, Ghost(hi): Ghost<Option<Seq<u8>>>) -> (r: bool)
    requires
        old(pager).wf(),
        sound(old(pager)@),
        old(node)@ == top_node(Tree::Inner { id, keys, kids }, next),
        kids_stored(heap(old(pager)@), kids, next),
        kids_apart(kids, id),
        ordered(Tree::Inner { id, keys, kids }, lo, hi),
        i < keys.len(),
    ensures
        final(pager).wf(),
        sound(final(pager)@),
        final(pager)@.roots == old(pager)@.roots,
        r == joinable(kids[i as int], keys[i as int], kids[i + 1]),
        !r ==> *final(node) == *old(node) && heap(final(pager)@) == heap(old(pager)@) && pages_left(final(pager)@) == pages_left(old(pager)@),
        r ==> {
            let ks = narrow_kids(kids, i as int, joined(kids[i as int], keys[i as int], kids[i + 1]));
            &&& final(node)@ == top_node(Tree::Inner { id, keys: keys.remove(i as int), kids: ks }, next)
            &&& kids_stored(heap(final(pager)@), ks, next)
            &&& only_kids(heap(old(pager)@), heap(final(pager)@), kids)
            &&& pages_left(final(pager)@) == pages_left(old(pager)@) + 1
        },
{
    let ghost h = heap(pager@);
    let ghost n = i as int;
    let ghost (ta, tb) = (kids[n], kids[n + 1]);
    let x: PageId = kid_page(node, i, Ghost(keys), Ghost(kids));
    let count: usize = node.keys.len();
    assert(count == node@.keys.len());
    let y: PageId = kid_page(node, i + 1, Ghost(keys), Ghost(kids));
    proof {
        assert(stored(h, ta, kid_next(kids, n, next)));
        assert(stored(h, tb, kid_next(kids, n + 1, next)));
        assert(ordered(ta, kid_low(keys, lo, n), kid_high(keys, hi, n)));
        assert(ordered(tb, kid_low(keys, lo, n + 1), kid_high(keys, hi, n + 1)));
    }
    let bytes: Vec<u8> = get_page(pager, x);
    let a: Node = Node::parse(&bytes);
    let bytes: Vec<u8> = get_page(pager, y);
    let b: Node = Node::parse(&bytes);
    if a.leaf != b.leaf {
        return false;
    }
    let ghost (a0, b0) = (a@, b@);
    assert(node@.keys[n] == node.keys@[n]@);
    let j: Node = together(a, &node.keys[i], b);
    let ghost kid = joined(ta, keys[n], tb);
    proof {
        if a0.leaf {
            lemma_leaf_fits(j@);
        } else {
            lemma_inner_fits(j@);
            let (ca, cb) = (ta->Inner_kids, tb->Inner_kids);
            assert(j@.children =~= later_kids(ca + cb));
            assert((ca + cb)[0] == ca[0]);
        }
    }
    if j.size() > PAGE_SIZE {
        return false;
    }
    assert(j@ == top_node(kid, kid_next(kids, n + 1, next)));
    let page: Vec<u8> = j.serialize();
    put_page(pager, x, &page);
    proof {
        assert(apart(ta) && apart(tb) && disjoint(ta, tb));
        assert(has_page(ta, x) && has_page(tb, y));
    }
    drop_page(pager, y);
    let ghost node0 = node@;
    let _ = node.keys.remove(i);
    let _ = node.children.remove(i);
    proof {
        lemma_joined_stored(h, heap(pager@), id, keys, kids, next, n, lo, hi, page@);
        let ks = narrow_kids(kids, n, kid);
        assert(node@.keys =~= keys.remove(n));
        assert(node@.children =~= later_kids(ks)) by {
            assert forall|p: int| 0 <= p < ks.len() - 1 implies node@.children[p] == later_kids(ks)[p] by {
                assert(ks[p + 1] == (if p + 1 < n { kids[p + 1] } else if p + 1 == n { kid } else { kids[p + 2] }));
                assert(later_kids(kids)[p] == tree_id(kids[p + 1]));
                if p >= n {
                    assert(later_kids(kids)[p + 1] == tree_id(kids[p + 2]));
                }
            }
        }
        assert(ks[0] == (if n == 0 { kid } else { kids[0] }));
    }
    true
}

/// Join kid `c` of a node with a neighbour where that is possible, and write the node.
/// Gives the page of what stands in its place.
#[verifier::spinoff_prover]
#[verifier::rlimit(40)]
fn settle(pager: &mut Pager, id: PageId, node: Node, c: usize, Ghost(keys): Ghost<Seq<Seq<u8>>>, Ghost(kids): Ghost<Seq<Tree>>, Ghost(next): Ghost<u32>, Ghost(lo): Ghost<Option<Seq<u8>>>, Ghost(hi): Ghost<Option<Seq<u8>>>) -> (r: PageId)
    requires
        old(pager).wf(),
        sound(old(pager)@),
        heap(old(pager)@).contains_key(id),
        node@ == top_node(Tree::Inner { id, keys, kids }, next),
        kids_stored(heap(old(pager)@), kids, next),
        kids_apart(kids, id),
        ordered(Tree::Inner { id, keys, kids }, lo, hi),
        inner_fits(keys),
        c < kids.len(),
    ensures
        final(pager).wf(),
        sound(final(pager)@),
        final(pager)@.roots == old(pager)@.roots,
        pages_left(final(pager)@) == pages_left(old(pager)@) + settled_freed(keys, kids, c as int),
        r == tree_id(settled(id, keys, kids, c as int)),
        stored(heap(final(pager)@), settled(id, keys, kids, c as int), next),
        only_pages(heap(old(pager)@), heap(final(pager)@), Tree::Inner { id, keys, kids }),
{
    let ghost h = heap(pager@);
    let ghost t = Tree::Inner { id, keys, kids };
    let mut node: Node = node;
    let mut place: Option<usize> = None;
    if c < node.keys.len() {
        if join_kids(pager, &mut node, c, Ghost(id), Ghost(keys), Ghost(kids), Ghost(next), Ghost(lo), Ghost(hi)) {
            place = Some(c);
        }
    }
    if place.is_none() && c > 0 {
        if join_kids(pager, &mut node, c - 1, Ghost(id), Ghost(keys), Ghost(kids), Ghost(next), Ghost(lo), Ghost(hi)) {
            place = Some(c - 1);
        }
    }
    let ghost (k2, ks) = match place {
        None => (keys, kids),
        Some(i) => (keys.remove(i as int), narrow_kids(kids, i as int, joined(kids[i as int], keys[i as int], kids[i + 1]))),
    };
    proof {
        if place is Some {
            let i = place->0 as int;
            let kid = joined(kids[i], keys[i], kids[i + 1]);
            assert(ordered(kids[i], kid_low(keys, lo, i), kid_high(keys, hi, i)));
            assert(apart(kids[i]) && apart(kids[i + 1]) && disjoint(kids[i], kids[i + 1]));
            lemma_joined_pages(kids[i], keys[i], kids[i + 1], kid_low(keys, lo, i));
            lemma_narrow_pages(id, keys, kids, i, kid);
            super::join::lemma_fewer_keys_fit(keys, i);
        }
        assert(!in_kids(kids, id)) by {
            if in_kids(kids, id) {
                let j = choose|j: int| 0 <= j < kids.len() && has_page(#[trigger] kids[j], id);
                assert(!has_page(kids[j], id));
            }
        }
    }
    let ghost h1 = heap(pager@);
    let r: PageId = pack(pager, id, node, Ghost(k2), Ghost(ks), Ghost(next));
    proof {
        let h2 = heap(pager@);
        assert(t->Inner_kids == kids);
        assert forall|x: u32| #[trigger] h.contains_key(x) && !has_page(t, x) implies h2.contains_key(x) && h2[x] == h[x] by {
            assert(x != id && !in_kids(kids, x));
        }
        assert forall|x: u32| #[trigger] h2.contains_key(x) implies h.contains_key(x) by {
            assert(h1.contains_key(x));
        }
    }
    r
}

/// What the removal of a key leaves on the heap.
pub open spec fn removed_on(h: Pages, h1: Pages, t: Tree, next: u32, key: Seq<u8>) -> bool {
    &&& only_pages(h, h1, t)
    &&& cut(t, key) matches Some(u) ==> stored(h1, u, next)
}

/// What a removal tells of the tree it leaves.
pub(super) open spec fn tells(r: Removed, t: Tree, next: u32, key: Seq<u8>) -> bool {
    match cut(t, key) {
        None => r.kept is None && r.moved && r.first == next,
        Some(u) => r.kept == Some(tree_id(u)) && (if r.moved {
            r.first == first_leaf(u)
        } else {
            first_leaf(u) == first_leaf(t)
        }),
    }
}

/// The kids after the removal of a key from one of them, before the node is written.
#[verifier::spinoff_prover]
#[verifier::rlimit(30)]
proof fn lemma_kids_removed(h: Pages, h1: Pages, h2: Pages, id: u32, keys: Seq<Seq<u8>>, kids: Seq<Tree>, next: u32, key: Seq<u8>, lo: Option<Seq<u8>>, hi: Option<Seq<u8>>, moved: bool)
    requires
        ordered(Tree::Inner { id, keys, kids }, lo, hi),
        kids_stored(h, kids, next),
        kids_apart(kids, id),
        h.contains_key(id),
        lookup(Tree::Inner { id, keys, kids }, key) is Some,
        ({
            let c = upto(keys, key) as int;
            let kid = cut(kids[c], key);
            let first = match kid {
                None => kid_next(kids, c, next),
                Some(u) => first_leaf(u),
            };
            &&& removed_on(h, h1, kids[c], kid_next(kids, c, next), key)
            &&& !moved ==> (kid matches Some(u) && first_leaf(u) == first_leaf(kids[c]))
            &&& if moved && c > 0 {
                only_pages(h1, h2, kids[c - 1]) && stored(h2, kids[c - 1], first)
            } else {
                h2 == h1
            }
        }),
    ensures
        ({
            let c = upto(keys, key) as int;
            &&& 0 <= c < kids.len()
            &&& only_kids(h, h2, kids)
            &&& h2.contains_key(id)
            &&& match cut(kids[c], key) {
                Some(u) => {
                    let ks = kids.update(c, u);
                    &&& kids_stored(h2, ks, next)
                    &&& kids_apart(ks, id)
                    &&& ordered(Tree::Inner { id, keys, kids: ks }, lo, hi)
                    &&& forall|x: u32| #[trigger] in_kids(ks, x) ==> in_kids(kids, x)
                },
                None => kids.len() > 1 ==> {
                    let ks = narrow_kids(kids, sep_of(c), heir(kids, c));
                    &&& kids_stored(h2, ks, next)
                    &&& kids_apart(ks, id)
                    &&& forall|x: u32| #[trigger] in_kids(ks, x) ==> in_kids(kids, x)
                },
            }
        }),
{
    lemma_upto(keys, key);
    let c = upto(keys, key) as int;
    let kid = kids[c];
    let (l, r) = (kid_low(keys, lo, c), kid_high(keys, hi, c));
    assert(ordered(kid, l, r));
    assert(apart(kid) && !has_page(kid, id));
    lemma_cut(kid, key, l, r);
    lemma_cut_pages(kid, key, l, r);
    assert(!has_page(kids[c], id));
    if moved && c > 0 {
        assert(disjoint(kids[c - 1], kids[c]));
        assert(!has_page(kids[c - 1], id));
    }
    assert forall|i: int| 0 <= i < kids.len() && i != c && !(moved && i == c - 1) implies stored(h2, #[trigger] kids[i], kid_next(kids, i, next)) by {
        assert(stored(h, kids[i], kid_next(kids, i, next)));
        if i < c {
            assert(disjoint(kids[i], kids[c]));
        } else {
            assert(disjoint(kids[c], kids[i]));
        }
        if c > 0 {
            if i < c - 1 {
                assert(disjoint(kids[i], kids[c - 1]));
            } else if i > c {
                assert(disjoint(kids[c - 1], kids[i]));
            }
        }
        lemma_stored_frame(h, h1, kids[i], kid_next(kids, i, next));
        lemma_stored_frame(h1, h2, kids[i], kid_next(kids, i, next));
    }
    assert forall|x: u32| #[trigger] h.contains_key(x) && !in_kids(kids, x) implies h2.contains_key(x) && h2[x] == h[x] by {
        assert(!has_page(kids[c], x));
        assert(h1.contains_key(x));
        if c > 0 {
            assert(!has_page(kids[c - 1], x));
        }
    }
    assert(!in_kids(kids, id)) by {
        if in_kids(kids, id) {
            let j = choose|j: int| 0 <= j < kids.len() && has_page(#[trigger] kids[j], id);
            assert(!has_page(kids[j], id));
        }
    }
    assert forall|x: u32| #[trigger] h2.contains_key(x) implies h.contains_key(x) by {
        assert(h1.contains_key(x));
    }
    match cut(kid, key) {
        Some(u) => {
            let ks = kids.update(c, u);
            lemma_kid_replaced(id, keys, kids, lo, hi, c, u);
            lemma_kids_less(id, keys, kids, c, u);
            assert(stored(h2, u, kid_next(kids, c, next))) by {
                if moved && c > 0 {
                    assert forall|x: u32| #[trigger] has_page(u, x) && h1.contains_key(x) implies h2.contains_key(x) && h2[x] == h1[x] by {
                        assert(has_page(kids[c], x));
                        assert(!has_page(kids[c - 1], x));
                    }
                    lemma_stored_frame(h1, h2, u, kid_next(kids, c, next));
                }
            }
            assert forall|i: int| 0 <= i < ks.len() implies stored(h2, ks[i], #[trigger] kid_next(ks, i, next)) by {
                if i + 1 < ks.len() {
                    assert(ks[i + 1] == (if i + 1 == c { u } else { kids[i + 1] }));
                }
                if i == c {
                    assert(kid_next(ks, i, next) == kid_next(kids, c, next));
                } else if i == c - 1 {
                    assert(ks[i] == kids[c - 1]);
                    assert(kid_next(ks, i, next) == first_leaf(u));
                    if !moved {
                        assert(stored(h2, kids[i], kid_next(kids, i, next)));
                    }
                } else {
                    assert(kid_next(ks, i, next) == kid_next(kids, i, next));
                    assert(stored(h2, kids[i], kid_next(kids, i, next)));
                }
            }
        },
        None => {
            if kids.len() > 1 {
                let p = sep_of(c);
                let ks = narrow_kids(kids, p, heir(kids, c));
                assert(apart(kids[p]) && apart(kids[p + 1]));
                lemma_narrow_pages(id, keys, kids, p, heir(kids, c));
                assert forall|i: int| 0 <= i < ks.len() implies #[trigger] ks[i] == kids[if i < c { i } else { i + 1 }] by {}
                assert forall|i: int| 0 <= i < ks.len() implies stored(h2, ks[i], #[trigger] kid_next(ks, i, next)) by {
                    let o: int = if i < c { i } else { i + 1 };
                    assert(ks[i] == kids[o]);
                    if i + 1 < ks.len() {
                        assert(ks[i + 1] == kids[if i + 1 < c { i + 1 } else { i + 2 }]);
                    }
                    if i == c - 1 {
                        assert(kid_next(ks, i, next) == kid_next(kids, c, next));
                    } else {
                        assert(kid_next(ks, i, next) == kid_next(kids, o, next));
                        assert(stored(h2, kids[o], kid_next(kids, o, next)));
                    }
                }
            }
        },
    }
}

/// Set the page of a kid in the memory of a node.
fn set_kid(node: &mut Node, c: usize, page: PageId, Ghost(id): Ghost<u32>, Ghost(keys): Ghost<Seq<Seq<u8>>>, Ghost(kids): Ghost<Seq<Tree>>, Ghost(kid): Ghost<Tree>, Ghost(next): Ghost<u32>)
    requires
        kids.len() == keys.len() + 1,
        old(node)@ == top_node(Tree::Inner { id, keys, kids }, next),
        c < kids.len(),
        page == tree_id(kid),
    ensures
        final(node)@ == top_node(Tree::Inner { id, keys, kids: kids.update(c as int, kid) }, next),
{
    let ghost ks = kids.update(c as int, kid);
    if c == 0 {
        node.link = page;
    } else {
        node.children.set(c - 1, page);
    }
    proof {
        assert(node@.children =~= later_kids(ks)) by {
            assert forall|p: int| 0 <= p < ks.len() - 1 implies node@.children[p] == later_kids(ks)[p] by {
                assert(later_kids(kids)[p] == tree_id(kids[p + 1]));
                assert(ks[p + 1] == (if p + 1 == c { kid } else { kids[p + 1] }));
            }
        }
        assert(ks[0] == (if c == 0 { kid } else { kids[0] }));
    }
}

/// Take a kid and its separator out of the memory of a node.
fn drop_kid(node: &mut Node, c: usize, Ghost(id): Ghost<u32>, Ghost(keys): Ghost<Seq<Seq<u8>>>, Ghost(kids): Ghost<Seq<Tree>>, Ghost(next): Ghost<u32>)
    requires
        kids.len() == keys.len() + 1,
        keys.len() > 0,
        old(node)@ == top_node(Tree::Inner { id, keys, kids }, next),
        c < kids.len(),
    ensures
        final(node)@ == top_node(Tree::Inner { id, keys: keys.remove(sep_of(c as int)), kids: narrow_kids(kids, sep_of(c as int), heir(kids, c as int)) }, next),
{
    let ghost p = sep_of(c as int);
    let ghost ks = narrow_kids(kids, p, heir(kids, c as int));
    let i: usize = if c == 0 {
        0
    } else {
        c - 1
    };
    assert(later_kids(kids).len() == keys.len());
    let _ = node.keys.remove(i);
    let page: PageId = node.children.remove(i);
    if c == 0 {
        node.link = page;
    }
    proof {
        assert(node@.keys =~= keys.remove(p));
        assert forall|q: int| 0 <= q < ks.len() implies #[trigger] ks[q] == kids[if q < c { q } else { q + 1 }] by {}
        assert(node@.children =~= later_kids(ks)) by {
            assert forall|q: int| 0 <= q < ks.len() - 1 implies node@.children[q] == later_kids(ks)[q] by {
                assert(ks[q + 1] == kids[if q + 1 < c { q + 1 } else { q + 2 }]);
                assert(later_kids(kids)[q] == tree_id(kids[q + 1]));
                assert(later_kids(kids)[q + 1] == tree_id(kids[q + 2]));
            }
        }
        assert(later_kids(kids)[0] == tree_id(kids[1]));
    }
}

/// Remove a key from a leaf that has it.
#[verifier::spinoff_prover]
fn remove_leaf(pager: &mut Pager, id: PageId, node: Node, key: &[u8], Ghost(t): Ghost<Tree>, Ghost(next): Ghost<u32>, Ghost(lo): Ghost<Option<Seq<u8>>>, Ghost(hi): Ghost<Option<Seq<u8>>>) -> (r: Removed)
    requires
        old(pager).wf(),
        sound(old(pager)@),
        t is Leaf,
        tree_id(t) == id,
        stored(heap(old(pager)@), t, next),
        node@ == top_node(t, next),
        shaped(node@),
        ordered(t, lo, hi),
        sized(t),
        lookup(t, key@) is Some,
    ensures
        final(pager).wf(),
        sound(final(pager)@),
        final(pager)@.roots == old(pager)@.roots,
        pages_left(final(pager)@) == pages_left(old(pager)@) + cut_freed(t, key@),
        removed_on(heap(old(pager)@), heap(final(pager)@), t, next, key@),
        tells(r, t, next, key@),
{
    let mut node: Node = node;
    let ghost full = node@;
    proof {
        lemma_cut_leaf(t, key@, lo, hi);
    }
    let i: usize = place_before(&node.keys, key);
    if node.keys.len() == 1 {
        drop_page(pager, id);
        return Removed { kept: None, moved: true, first: node.link };
    }
    let _ = node.keys.remove(i);
    let _ = node.vals.remove(i);
    proof {
        assert(node@.keys =~= full.keys.remove(i as int));
        assert(node@.vals =~= full.vals.remove(i as int));
        assert(node@.children =~= Seq::<u32>::empty());
        lemma_leaf_fits(node@);
    }
    let page: Vec<u8> = node.serialize();
    put_page(pager, id, &page);
    Removed { kept: Some(id), moved: false, first: 0 }
}

/// Remove a key from a tree that has it.
#[verifier::spinoff_prover]
#[verifier::rlimit(60)]
pub(super) fn remove_in(pager: &mut Pager, id: PageId, key: &[u8], Ghost(t): Ghost<Tree>, Ghost(next): Ghost<u32>, Ghost(lo): Ghost<Option<Seq<u8>>>, Ghost(hi): Ghost<Option<Seq<u8>>>) -> (r: Removed)
    requires
        old(pager).wf(),
        sound(old(pager)@),
        tree_id(t) == id,
        stored(heap(old(pager)@), t, next),
        ordered(t, lo, hi),
        apart(t),
        sized(t),
        lookup(t, key@) is Some,
    ensures
        final(pager).wf(),
        sound(final(pager)@),
        final(pager)@.roots == old(pager)@.roots,
        pages_left(final(pager)@) == pages_left(old(pager)@) + cut_freed(t, key@),
        removed_on(heap(old(pager)@), heap(final(pager)@), t, next, key@),
        tells(r, t, next, key@),
    decreases t,
{
    let ghost h = heap(pager@);
    let bytes: Vec<u8> = get_page(pager, id);
    let node: Node = Node::parse(&bytes);
    if node.leaf {
        return remove_leaf(pager, id, node, key, Ghost(t), Ghost(next), Ghost(lo), Ghost(hi));
    }
    let mut node: Node = node;
    let ghost (keys, kids) = (t->Inner_keys, t->Inner_kids);
    let c: usize = place_of(&node.keys, key);
    let ghost cc = c as int;
    proof {
        assert(t == Tree::Inner { id, keys, kids });
        lemma_upto(keys, key@);
        assert(stored(h, kids[cc], kid_next(kids, cc, next)));
        assert(ordered(kids[cc], kid_low(keys, lo, cc), kid_high(keys, hi, cc)));
        assert(apart(kids[cc]) && !has_page(kids[cc], id));
        assert(sized(kids[cc]));
        assert(kids_stored(h, kids, next));
        assert(kids_apart(kids, id));
    }
    let child: PageId = kid_page(&node, c, Ghost(keys), Ghost(kids));
    let sub: Removed = remove_in(pager, child, key, Ghost(kids[cc]), Ghost(kid_next(kids, cc, next)), Ghost(kid_low(keys, lo, cc)), Ghost(kid_high(keys, hi, cc)));
    let ghost h1 = heap(pager@);
    if sub.moved && c > 0 {
        let left: PageId = kid_page(&node, c - 1, Ghost(keys), Ghost(kids));
        proof {
            let b = cc - 1;
            assert(stored(h, kids[b], kid_next(kids, b, next)));
            assert(disjoint(kids[b], kids[cc]));
            lemma_stored_frame(h, h1, kids[b], kid_next(kids, b, next));
            assert(ordered(kids[b], kid_low(keys, lo, b), kid_high(keys, hi, b)));
            assert(apart(kids[b]) && sized(kids[b]));
        }
        retarget(pager, left, sub.first, Ghost(kids[cc - 1]), Ghost(kid_next(kids, cc - 1, next)), Ghost(kid_low(keys, lo, cc - 1)), Ghost(kid_high(keys, hi, cc - 1)));
    }
    let ghost h2 = heap(pager@);
    proof {
        lemma_kids_removed(h, h1, h2, id, keys, kids, next, key@, lo, hi, sub.moved);
        lemma_only(h, h2, t, id, keys, kids);
    }
    match sub.kept {
        Some(page) => {
            let ghost u = cut(kids[cc], key@)->0;
            let ghost ks = kids.update(cc, u);
            set_kid(&mut node, c, page, Ghost(id), Ghost(keys), Ghost(kids), Ghost(u), Ghost(next));
            let top: PageId = settle(pager, id, node, c, Ghost(keys), Ghost(ks), Ghost(next), Ghost(lo), Ghost(hi));
            proof {
                let mid = Tree::Inner { id, keys, kids: ks };
                assert(apart(mid));
                lemma_settled_pages(id, keys, ks, cc, lo, hi);
                lemma_only_more(h, h2, heap(pager@), t, mid, id, keys, kids, ks);
                assert(first_leaf(mid) == first_leaf(ks[0]));
                assert(ks[0] == (if cc == 0 { u } else { kids[0] }));
            }
            Removed { kept: Some(top), moved: sub.moved && c == 0, first: sub.first }
        },
        None => {
            if node.keys.len() == 0 {
                drop_page(pager, id);
                proof {
                    assert(has_page(t, id));
                }
                return Removed { kept: None, moved: true, first: sub.first };
            }
            let ghost p = sep_of(cc);
            let ghost ks = narrow_kids(kids, p, heir(kids, cc));
            proof {
                super::join::lemma_fewer_keys_fit(keys, p);
            }
            drop_kid(&mut node, c, Ghost(id), Ghost(keys), Ghost(kids), Ghost(next));
            let top: PageId = pack(pager, id, node, Ghost(keys.remove(p)), Ghost(ks), Ghost(next));
            proof {
                lemma_packed_pages(id, keys.remove(p), ks);
                assert(has_page(t, id));
                assert(ks[0] == (if cc == 0 { kids[1] } else { kids[0] }));
                let h3 = heap(pager@);
                assert forall|x: u32| #[trigger] h3.contains_key(x) implies h.contains_key(x) by {
                    assert(h2.contains_key(x));
                }
                assert forall|x: u32| #[trigger] h.contains_key(x) && !has_page(t, x) implies h3.contains_key(x) && h3[x] == h[x] by {
                    assert(h2.contains_key(x));
                }
            }
            Removed { kept: Some(top), moved: c == 0, first: sub.first }
        },
    }
}

/// Pages of the kids are pages of the tree.
proof fn lemma_only(h: Pages, h1: Pages, t: Tree, id: u32, keys: Seq<Seq<u8>>, kids: Seq<Tree>)
    requires
        t == (Tree::Inner { id, keys, kids }),
        only_kids(h, h1, kids),
    ensures
        only_pages(h, h1, t),
{
    assert forall|x: u32| #[trigger] h.contains_key(x) && !has_page(t, x) implies h1.contains_key(x) && h1[x] == h[x] by {
        assert(t->Inner_kids == kids);
        assert(!in_kids(kids, x));
    }
}

proof fn lemma_only_more(h: Pages, h1: Pages, h2: Pages, t: Tree, mid: Tree, id: u32, keys: Seq<Seq<u8>>, kids: Seq<Tree>, ks: Seq<Tree>)
    requires
        t == (Tree::Inner { id, keys, kids }),
        mid == (Tree::Inner { id, keys, kids: ks }),
        only_pages(h, h1, t),
        only_pages(h1, h2, mid),
        forall|x: u32| #[trigger] in_kids(ks, x) ==> in_kids(kids, x),
    ensures
        only_pages(h, h2, t),
{
    assert forall|x: u32| #[trigger] h2.contains_key(x) implies h.contains_key(x) by {
        assert(h1.contains_key(x));
    }
    assert forall|x: u32| #[trigger] h.contains_key(x) && !has_page(t, x) implies h2.contains_key(x) && h2[x] == h[x] by {
        assert(h1.contains_key(x) && h1[x] == h[x]);
        assert(!has_page(mid, x)) by {
            if has_page(mid, x) {
                assert(mid->Inner_kids == ks && t->Inner_kids == kids);
                assert(x == id || in_kids(ks, x));
                assert(x == id || in_kids(kids, x));
            }
        }
    }
}

} // verus!
