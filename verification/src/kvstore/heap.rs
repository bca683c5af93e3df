//! The pages of a pager as a heap: pages in use with what they hold.

use super::pager::{after_alloc, after_free, after_read, after_write, can_alloc, chain_next, committed, contents, free_after_alloc, free_link, heap_ok, in_use, keeps_pages, lemma_after_read, lemma_after_write, lemma_alloc, lemma_free, lemma_reopened, new_pager, next_page, opened, Pager, PagerSpec, NROOTS};
use super::wal::{zeros, PageId, PAGE_SIZE};
use crate::db::logs::is_database_error;
use crate::error::Result;
use vstd::prelude::*;

verus! {

/// Pages by id.
pub type Pages = Map<u32, Seq<u8>>;

/// The free list of a pager is a chain of distinct pages, and all pages exist.
pub open spec fn sound(p: PagerSpec) -> bool {
    exists|free: Seq<u32>| heap_ok(p, free)
}

/// The free list.
pub open spec fn free_of(p: PagerSpec) -> Seq<u32> {
    choose|free: Seq<u32>| heap_ok(p, free)
}

/// The pages in use.
pub open spec fn heap(p: PagerSpec) -> Pages {
    Map::new(|id: u32| in_use(p, free_of(p), id), |id: u32| contents(p, id)->0)
}

/// How many pages can be allocated.
pub open spec fn pages_left(p: PagerSpec) -> int {
    free_of(p).len() + (u32::MAX - p.page_count)
}

proof fn lemma_free_same(p: PagerSpec, a: Seq<u32>, b: Seq<u32>, k: int)
    requires
        heap_ok(p, a),
        heap_ok(p, b),
        0 <= k < a.len(),
    ensures
        k < b.len(),
        a[k] == b[k],
    decreases k,
{
    assert(free_link(p, a, k));
    if k == 0 {
        assert(p.free_head == chain_next(a, -1));
        assert(p.free_head == chain_next(b, -1));
    } else {
        lemma_free_same(p, a, b, k - 1);
        assert(free_link(p, a, k - 1));
        assert(free_link(p, b, k - 1));
    }
}

/// A pager has one free list.
pub proof fn lemma_free_of(p: PagerSpec, free: Seq<u32>)
    requires
        heap_ok(p, free),
    ensures
        sound(p),
        free_of(p) == free,
{
    let b = free_of(p);
    assert forall|k: int| 0 <= k < free.len() implies k < b.len() && free[k] == b[k] by {
        lemma_free_same(p, free, b, k);
    }
    assert forall|k: int| 0 <= k < b.len() implies k < free.len() && free[k] == b[k] by {
        lemma_free_same(p, b, free, k);
    }
    assert(free.len() == b.len()) by {
        if free.len() > b.len() {
            lemma_free_same(p, free, b, b.len() as int);
        }
        if free.len() < b.len() {
            lemma_free_same(p, b, free, free.len() as int);
        }
    }
    assert(free =~= b);
}

/// Pages in use have the right size, and the header is not among them.
pub proof fn lemma_heap(p: PagerSpec)
    requires
        sound(p),
    ensures
        !heap(p).contains_key(0),
        forall|id: u32| #[trigger] heap(p).contains_key(id) ==> heap(p)[id].len() == PAGE_SIZE && contents(p, id) == Some(heap(p)[id]),
{
    assert forall|id: u32| #[trigger] heap(p).contains_key(id) implies heap(p)[id].len() == PAGE_SIZE && contents(p, id) == Some(heap(p)[id]) by {
        lemma_after_read(p, id);
    }
}

/// The number of pages that can be allocated is not negative.
pub proof fn lemma_left(p: PagerSpec)
    requires
        sound(p),
    ensures
        pages_left(p) >= 0,
{
    assert(heap_ok(p, free_of(p)));
}

/// A pager with the same pages and header has the same heap.
pub proof fn lemma_same_heap(p: PagerSpec, q: PagerSpec)
    requires
        sound(p),
        super::pager::pager_ok(q),
        keeps_pages(p, q),
        q.page_count == p.page_count,
        q.free_head == p.free_head,
    ensures
        sound(q),
        heap(q) == heap(p),
        pages_left(q) == pages_left(p),
{
    let free = free_of(p);
    assert(heap_ok(p, free));
    assert forall|k: int| 0 <= k < free.len() implies free_link(q, free, k) by {
        assert(free_link(p, free, k));
        assert(contents(q, free[k]) == contents(p, free[k]));
    }
    assert forall|id: u32| 0 < id < q.page_count implies (#[trigger] contents(q, id)) is Some by {
        assert(contents(p, id) is Some);
    }
    assert(heap_ok(q, free));
    lemma_free_of(q, free);
    assert forall|id: u32| in_use(p, free, id) implies contents(q, id) == #[trigger] contents(p, id) by {
        assert(contents(p, id) is Some);
    }
    assert(heap(q) =~= heap(p));
}

/// Read a page in use.
pub(super) fn get_page(pager: &mut Pager, id: PageId) -> (r: Vec<u8>)
    requires
        old(pager).wf(),
        sound(old(pager)@),
        heap(old(pager)@).contains_key(id),
    ensures
        final(pager).wf(),
        sound(final(pager)@),
        final(pager)@ == after_read(old(pager)@, id),
        heap(final(pager)@) == heap(old(pager)@),
        pages_left(final(pager)@) == pages_left(old(pager)@),
        final(pager)@.roots == old(pager)@.roots,
        r@ == heap(old(pager)@)[id],
        r@.len() == PAGE_SIZE,
{
    let ghost p = pager@;
    proof {
        lemma_heap(p);
    }
    match pager.read_page(id) {
        Ok(d) => {
            proof {
                lemma_same_heap(p, pager@);
            }
            d
        },
        Err(e) => Vec::new(),
    }
}

/// Write a page in use.
pub(super) fn put_page(pager: &mut Pager, id: PageId, data: &Vec<u8>)
    requires
        old(pager).wf(),
        sound(old(pager)@),
        heap(old(pager)@).contains_key(id),
        data@.len() == PAGE_SIZE,
    ensures
        final(pager).wf(),
        sound(final(pager)@),
        final(pager)@ == after_write(old(pager)@, id, data@),
        heap(final(pager)@) == heap(old(pager)@).insert(id, data@),
        pages_left(final(pager)@) == pages_left(old(pager)@),
        final(pager)@.roots == old(pager)@.roots,
{
    let ghost p = pager@;
    let ghost free = free_of(p);
    proof {
        lemma_heap(p);
    }
    match pager.write_page(id, data) {
        Ok(u) => {
            proof {
                let q = pager@;
                assert forall|k: int| 0 <= k < free.len() implies free_link(q, free, k) by {
                    assert(free_link(p, free, k));
                    assert(free.contains(free[k]));
                    assert(contents(q, free[k]) == contents(p, free[k]));
                }
                assert forall|x: u32| 0 < x < q.page_count implies (#[trigger] contents(q, x)) is Some by {
                    assert(contents(p, x) is Some);
                }
                assert(heap_ok(q, free));
                lemma_free_of(q, free);
                assert forall|x: u32| in_use(p, free, x) && x != id implies contents(q, x) == #[trigger] contents(p, x) by {
                    assert(contents(p, x) is Some);
                }
                assert(heap(q) =~= heap(p).insert(id, data@));
            }
        },
        Err(e) => {},
    }
}

/// Allocate a page.
pub(super) fn take_page(pager: &mut Pager) -> (r: Result<PageId>)
    requires
        old(pager).wf(),
        sound(old(pager)@),
    ensures
        final(pager).wf(),
        sound(final(pager)@),
        pages_left(old(pager)@) >= 0,
        r is Ok <==> pages_left(old(pager)@) > 0,
        r matches Err(e) ==> is_database_error(e, "page count overflow"@) && final(pager)@ == old(pager)@,
        r matches Ok(id) ==> {
            &&& id != 0
            &&& id == next_page(old(pager)@)
            &&& final(pager)@ == after_alloc(old(pager)@)
            &&& !heap(old(pager)@).contains_key(id)
            &&& heap(final(pager)@) == heap(old(pager)@).insert(id, zeros())
            &&& pages_left(final(pager)@) == pages_left(old(pager)@) - 1
            &&& final(pager)@.roots == old(pager)@.roots
        },
{
    let ghost p = pager@;
    let ghost free = free_of(p);
    proof {
        assert(heap_ok(p, free));
        if free.len() > 0 {
            assert(free_link(p, free, 0));
        }
        if can_alloc(p) {
            lemma_alloc(p, free);
            let q = after_alloc(p);
            let f1 = free_after_alloc(free);
            let id = next_page(p);
            lemma_free_of(q, f1);
            if free.len() == 0 {
                lemma_after_write(PagerSpec { page_count: (p.page_count + 1) as u32, ..p }, p.page_count, zeros());
            } else {
                lemma_after_read(p, p.free_head);
                lemma_after_write(PagerSpec { free_head: super::pager::chain_next(free, 0), ..after_read(p, p.free_head) }, p.free_head, zeros());
            }
            assert forall|x: u32| in_use(q, f1, x) && x != id implies in_use(p, free, x) by {
                if free.contains(x) {
                    let k = choose|k: int| 0 <= k < free.len() && free[k] == x;
                    assert(k != 0);
                    assert(f1[k - 1] == x);
                }
            }
            assert forall|x: u32| in_use(p, free, x) implies contents(q, x) == #[trigger] contents(p, x) by {
                assert(contents(p, x) is Some);
            }
            assert(heap(q) =~= heap(p).insert(id, zeros()));
        }
    }
    pager.allocate()
}

/// Free a page in use.
pub(super) fn drop_page(pager: &mut Pager, id: PageId)
    requires
        old(pager).wf(),
        sound(old(pager)@),
        heap(old(pager)@).contains_key(id),
    ensures
        final(pager).wf(),
        sound(final(pager)@),
        final(pager)@ == after_free(old(pager)@, id),
        heap(final(pager)@) == heap(old(pager)@).remove(id),
        pages_left(final(pager)@) == pages_left(old(pager)@) + 1,
        final(pager)@.roots == old(pager)@.roots,
{
    let ghost p = pager@;
    let ghost free = free_of(p);
    proof {
        lemma_heap(p);
        lemma_free(p, free, id);
        let q = after_free(p, id);
        lemma_free_of(q, seq![id] + free);
        assert forall|x: u32| in_use(p, free, x) && x != id implies contents(q, x) == #[trigger] contents(p, x) by {
            assert(contents(p, x) is Some);
        }
        assert(heap(q) =~= heap(p).remove(id)) by {
            assert forall|x: u32| heap(q).contains_key(x) <==> heap(p).remove(id).contains_key(x) by {
                assert(x != id ==> (in_use(p, free, x) <==> in_use(q, seq![id] + free, x)));
            }
        }
    }
    match pager.free(id) {
        Ok(u) => {},
        Err(e) => {},
    }
}

/// Set a root slot: the pages stay.
pub(super) fn put_root(pager: &mut Pager, i: usize, v: u64)
    requires
        old(pager).wf(),
        sound(old(pager)@),
        i < super::pager::NROOTS,
    ensures
        final(pager).wf(),
        sound(final(pager)@),
        final(pager)@ == (PagerSpec { roots: old(pager)@.roots.update(i as int, v), ..old(pager)@ }),
        heap(final(pager)@) == heap(old(pager)@),
        pages_left(final(pager)@) == pages_left(old(pager)@),
{
    let ghost p = pager@;
    pager.set_root(i, v);
    proof {
        lemma_same_heap(p, pager@);
    }
}

/// A new file has no page in use.
pub proof fn law_new_file_is_sound(capacity: nat, commits: Seq<Seq<super::wal::PageSpec>>)
    requires
        capacity >= 8,
    ensures
        sound(new_pager(capacity, commits)),
        heap(new_pager(capacity, commits)) == Pages::empty(),
        forall|i: int| 0 <= i < NROOTS ==> #[trigger] new_pager(capacity, commits).roots[i] == 0,
{
    let roots = Seq::new(NROOTS as nat, |i: int| 0u64);
    let h = super::pager::header(1, 0, roots);
    let f = super::wal::page_written(super::wal::FileSpec { pages: 0, data: Map::empty() }, (0u32, h));
    let p = PagerSpec { file: f, page_count: 1, free_head: 0, roots, cache: Seq::empty(), capacity, commits };
    super::pager::law_header_roundtrip(1, 0, roots);
    assert(super::pager::pager_ok(p));
    super::pager::lemma_committed(p);
    let q = committed(p);
    assert(heap_ok(q, Seq::empty()));
    lemma_free_of(q, Seq::empty());
    assert(heap(q) =~= Pages::empty());
}

/// What was committed is what a file opens with: the same pages in use, with what
/// they held, and the same roots.
pub proof fn law_heap_survives_reopening(p: PagerSpec, capacity: nat)
    requires
        sound(p),
        capacity >= 8,
    ensures
        ({
            let q = opened(committed(p).file, capacity, Seq::empty());
            &&& sound(q)
            &&& heap(q) == heap(p)
            &&& q.roots == p.roots
            &&& pages_left(q) == pages_left(p)
        }),
{
    lemma_reopened(p, capacity);
    lemma_same_heap(p, opened(committed(p).file, capacity, Seq::empty()));
}

} // verus!
