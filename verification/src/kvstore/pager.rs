//! A paged file with a write-back cache and a free list.
//!
//! The pager keeps the pages of the file, a cache of recently used ones, and the
//! header. Written pages stay in the cache until a commit; a commit is one batch of
//! pages that the host writes to the log and then to the file. Page 0 is the header.

use super::wal::{batch_applied, copy_bytes, file_page, images, lemma_applied_at, lemma_applied_pages, page_written, parse_wal, recovered, sized, touches, last_write, wal_read, zero_page, zeros, FileSpec, PageId, PageImage, PageSpec, PAGE_SIZE};
use crate::codec::{get32, get64, le32, le64, lemma_le32, lemma_le64, push_le32, push_le64, read_le32, read_le64, slice_copy};
use crate::db::logs::is_database_error;
use crate::error::{GStoreError, Result};
use crate::text::same_bytes;
use std::collections::HashMap;
use vstd::prelude::*;

verus! {

broadcast use vstd::std_specs::hash::group_hash_axioms;

/// Number of root slots in the header.
pub const NROOTS: usize = 16;

/// A cached page and whether it differs from the file.
pub struct CachedPage {
    pub id: PageId,
    pub data: Vec<u8>,
    pub dirty: bool,
}

/// A cached page as a mathematical value.
#[verifier::ext_equal]
pub ghost struct CachedSpec {
    pub id: u32,
    pub data: Seq<u8>,
    pub dirty: bool,
}

/// A pager as a mathematical value.
#[verifier::ext_equal]
pub ghost struct PagerSpec {
    pub file: FileSpec,
    pub page_count: u32,
    pub free_head: u32,
    pub roots: Seq<u64>,
    /// The cached pages from the least to the most recently used.
    pub cache: Seq<CachedSpec>,
    pub capacity: nat,
    /// The committed batches that the host has not written yet.
    pub commits: Seq<Seq<PageSpec>>,
}

/// The magic at the start of the header.
pub open spec fn header_magic() -> Seq<u8> {
    seq![71u8, 83, 84, 79, 82, 69, 75, 86]
}

/// The root slots as bytes.
pub open spec fn roots_bytes(roots: Seq<u64>) -> Seq<u8>
    decreases roots.len(),
{
    if roots.len() == 0 {
        Seq::empty()
    } else {
        roots_bytes(roots.drop_last()) + le64(roots.last())
    }
}

/// The fields of the header.
pub open spec fn header_fields(page_count: u32, free_head: u32, roots: Seq<u64>) -> Seq<u8> {
    header_magic() + le32(page_count) + le32(free_head) + roots_bytes(roots)
}

/// The header page: the magic, the number of pages, the head of the free list, the
/// root slots, and zeros.
pub open spec fn header(page_count: u32, free_head: u32, roots: Seq<u64>) -> Seq<u8> {
    let f = header_fields(page_count, free_head, roots);
    f + Seq::new((PAGE_SIZE - f.len()) as nat, |i: int| 0u8)
}

/// The root slots in a header page.
pub open spec fn header_roots(page: Seq<u8>) -> Seq<u64> {
    Seq::new(NROOTS as nat, |i: int| get64(page, 16 + i * 8))
}

proof fn lemma_roots_len(roots: Seq<u64>)
    ensures
        roots_bytes(roots).len() == 8 * roots.len(),
    decreases roots.len(),
{
    if roots.len() > 0 {
        lemma_roots_len(roots.drop_last());
    }
}

proof fn lemma_root_at(roots: Seq<u64>, i: int)
    requires
        0 <= i < roots.len(),
    ensures
        roots_bytes(roots).subrange(i * 8, i * 8 + 8) == le64(roots[i]),
        roots_bytes(roots).len() == 8 * roots.len(),
    decreases roots.len(),
{
    let front = roots.drop_last();
    lemma_roots_len(front);
    lemma_roots_len(roots);
    let b = roots_bytes(roots);
    if i < front.len() {
        lemma_root_at(front, i);
        assert(b.subrange(i * 8, i * 8 + 8) =~= roots_bytes(front).subrange(i * 8, i * 8 + 8));
    } else {
        assert(b.subrange(i * 8, i * 8 + 8) =~= le64(roots[i]));
    }
}

/// The header reads back: the magic, the number of pages, the head of the free
/// list and the root slots are those that were written.
pub proof fn law_header_roundtrip(page_count: u32, free_head: u32, roots: Seq<u64>)
    requires
        roots.len() == NROOTS,
    ensures
        ({
            let h = header(page_count, free_head, roots);
            &&& h.len() == PAGE_SIZE
            &&& h.subrange(0, 8) == header_magic()
            &&& get32(h, 8) == page_count
            &&& get32(h, 12) == free_head
            &&& header_roots(h) == roots
        }),
{
    let h = header(page_count, free_head, roots);
    lemma_roots_len(roots);
    assert(header_magic().len() == 8);
    assert(h.subrange(0, 8) =~= header_magic());
    assert(h.subrange(8, 12) =~= le32(page_count));
    assert(h.subrange(12, 16) =~= le32(free_head));
    lemma_le32(page_count, h, 8);
    lemma_le32(free_head, h, 12);
    assert forall|i: int| 0 <= i < NROOTS implies #[trigger] header_roots(h)[i] == roots[i] by {
        lemma_root_at(roots, i);
        assert(h.subrange(16 + i * 8, 16 + i * 8 + 8) =~= roots_bytes(roots).subrange(i * 8, i * 8 + 8));
        lemma_le64(roots[i], h, 16 + i * 8);
    }
    assert(header_roots(h) =~= roots);
}

/// No page is cached twice.
pub open spec fn ids_apart(c: Seq<CachedSpec>) -> bool {
    forall|i: int, j: int| 0 <= i < j < c.len() ==> (#[trigger] c[i]).id != (#[trigger] c[j]).id
}

/// The page is cached.
pub open spec fn is_cached(c: Seq<CachedSpec>, id: u32) -> bool {
    exists|i: int| 0 <= i < c.len() && (#[trigger] c[i]).id == id
}

/// The place of a cached page.
pub open spec fn place(c: Seq<CachedSpec>, id: u32) -> int {
    choose|i: int| 0 <= i < c.len() && (#[trigger] c[i]).id == id
}

/// What a page holds now: what the cache has of it, or what the file has.
pub open spec fn contents(p: PagerSpec, id: u32) -> Option<Seq<u8>> {
    if is_cached(p.cache, id) {
        Some(p.cache[place(p.cache, id)].data)
    } else {
        file_page(p.file, id)
    }
}

/// The pages that differ from the file.
pub open spec fn dirty_pages(c: Seq<CachedSpec>) -> Seq<PageSpec>
    decreases c.len(),
{
    if c.len() == 0 {
        Seq::empty()
    } else if c.last().dirty {
        dirty_pages(c.drop_last()).push((c.last().id, c.last().data))
    } else {
        dirty_pages(c.drop_last())
    }
}

/// The cache with no page marked.
pub open spec fn all_clean(c: Seq<CachedSpec>) -> Seq<CachedSpec> {
    c.map_values(|e: CachedSpec| CachedSpec { dirty: false, ..e })
}

/// The batch of a commit: the header and the pages that differ from the file.
pub open spec fn commit_batch(p: PagerSpec) -> Seq<PageSpec> {
    seq![(0u32, header(p.page_count, p.free_head, p.roots))] + dirty_pages(p.cache)
}

/// The pager after a commit.
pub open spec fn committed(p: PagerSpec) -> PagerSpec {
    PagerSpec {
        file: batch_applied(p.file, commit_batch(p)),
        cache: all_clean(p.cache),
        commits: p.commits.push(commit_batch(p)),
        ..p
    }
}

/// The first page that does not differ from the file, or the end.
pub open spec fn first_clean(c: Seq<CachedSpec>) -> int
    decreases c.len(),
{
    if c.len() == 0 {
        0
    } else {
        let k = first_clean(c.drop_last());
        if k < c.len() - 1 || !c.last().dirty {
            k
        } else {
            c.len() as int
        }
    }
}

/// The pager after it dropped a page from the cache: the least recently used of
/// those that do not differ from the file. If all differ, they are committed first.
pub open spec fn evicted(p: PagerSpec) -> PagerSpec {
    let k = first_clean(p.cache);
    if k < p.cache.len() {
        PagerSpec { cache: p.cache.remove(k), ..p }
    } else {
        let q = committed(p);
        PagerSpec { cache: q.cache.remove(0), ..q }
    }
}

/// The pager after a page was added to the cache.
pub open spec fn added(p: PagerSpec, e: CachedSpec) -> PagerSpec {
    let q = if p.cache.len() >= p.capacity {
        evicted(p)
    } else {
        p
    };
    PagerSpec { cache: q.cache.push(e), ..q }
}

/// The pager after a page was read.
pub open spec fn after_read(p: PagerSpec, id: u32) -> PagerSpec {
    if is_cached(p.cache, id) {
        let i = place(p.cache, id);
        PagerSpec { cache: p.cache.remove(i).push(p.cache[i]), ..p }
    } else {
        match file_page(p.file, id) {
            Some(d) => added(p, CachedSpec { id, data: d, dirty: false }),
            None => p,
        }
    }
}

/// The pager after a page was written.
pub open spec fn after_write(p: PagerSpec, id: u32, data: Seq<u8>) -> PagerSpec {
    let e = CachedSpec { id, data, dirty: true };
    if is_cached(p.cache, id) {
        PagerSpec { cache: p.cache.remove(place(p.cache, id)).push(e), ..p }
    } else {
        added(p, e)
    }
}

/// Every data page that `p` has holds in `q` what it holds in `p`.
pub open spec fn keeps_pages(p: PagerSpec, q: PagerSpec) -> bool {
    forall|id: u32| id != 0 && contents(p, id) is Some ==> #[trigger] contents(q, id) == contents(p, id)
}

/// What holds of every pager.
pub open spec fn pager_ok(p: PagerSpec) -> bool {
    &&& p.roots.len() == NROOTS
    &&& p.capacity >= 8
    &&& p.cache.len() <= p.capacity
    &&& ids_apart(p.cache)
    &&& forall|i: int| 0 <= i < p.cache.len() ==> entry_ok(p.file, #[trigger] p.cache[i])
    &&& file_ok(p.file)
}

/// A cached page has the right size; if it does not differ from the file it is what
/// the file has, and the header is never written through the cache.
pub open spec fn entry_ok(f: FileSpec, e: CachedSpec) -> bool {
    &&& e.data.len() == PAGE_SIZE
    &&& e.dirty ==> e.id != 0
    &&& !e.dirty && e.id != 0 ==> file_page(f, e.id) == Some(e.data)
}

/// All pages of a file have the right size.
pub open spec fn file_ok(f: FileSpec) -> bool {
    forall|id: u32| #[trigger] f.data.contains_key(id) ==> f.data[id].len() == PAGE_SIZE && id < f.pages
}

proof fn lemma_place(c: Seq<CachedSpec>, i: int)
    requires
        ids_apart(c),
        0 <= i < c.len(),
    ensures
        is_cached(c, c[i].id),
        place(c, c[i].id) == i,
{
    let j = place(c, c[i].id);
    assert(c[i].id == c[i].id);
    assert(0 <= j < c.len() && c[j].id == c[i].id);
    if j < i {
        assert(c[j].id != c[i].id);
    } else if i < j {
        assert(c[i].id != c[j].id);
    }
}

/// Contents after an entry was moved to the end, with new data.
proof fn lemma_moved(c: Seq<CachedSpec>, i: int, e: CachedSpec)
    requires
        ids_apart(c),
        0 <= i < c.len(),
        e.id == c[i].id,
    ensures
        ({
            let d = c.remove(i).push(e);
            &&& ids_apart(d)
            &&& d.len() == c.len()
            &&& forall|k: int| 0 <= k < d.len() ==> #[trigger] d[k] == e || exists|j: int| 0 <= j < c.len() && d[k] == #[trigger] c[j]
            &&& is_cached(d, e.id) && d[place(d, e.id)] == e
            &&& forall|x: u32| x != e.id ==> (#[trigger] is_cached(d, x) <==> is_cached(c, x)) && (is_cached(c, x) ==> d[place(d, x)] == c[place(c, x)])
        }),
{
    let d = c.remove(i).push(e);
    let n = c.len() - 1;
    assert forall|a: int, b: int| 0 <= a < b < d.len() implies (#[trigger] d[a]).id != (#[trigger] d[b]).id by {
        let oa = if a < i { a } else { a + 1 };
        assert(d[a] == c[oa]);
        if b < n {
            let ob = if b < i { b } else { b + 1 };
            assert(d[b] == c[ob]);
        } else {
            assert(d[b] == e);
            assert(c[oa].id != c[i].id);
        }
    }
    assert(d[n as int] == e);
    lemma_place(d, n as int);
    assert forall|k: int| 0 <= k < d.len() implies #[trigger] d[k] == e || exists|j: int| 0 <= j < c.len() && d[k] == #[trigger] c[j] by {
        if k < n {
            let o = if k < i { k } else { k + 1 };
            assert(d[k] == c[o]);
        }
    }
    assert forall|x: u32| x != e.id implies (#[trigger] is_cached(d, x) <==> is_cached(c, x)) && (is_cached(c, x) ==> d[place(d, x)] == c[place(c, x)]) by {
        if is_cached(c, x) {
            let o = place(c, x);
            assert(c[o].id == x);
            let k = if o < i { o } else { o - 1 };
            assert(d[k] == c[o]);
            lemma_place(d, k);
        }
        if is_cached(d, x) {
            let k = place(d, x);
            assert(d[k].id == x);
            let o = if k < i { k } else { k + 1 };
            assert(d[k] == c[o]);
        }
    }
}

/// Contents after an entry was removed.
proof fn lemma_removed(c: Seq<CachedSpec>, i: int)
    requires
        ids_apart(c),
        0 <= i < c.len(),
    ensures
        ({
            let d = c.remove(i);
            &&& ids_apart(d)
            &&& !is_cached(d, c[i].id)
            &&& forall|k: int| 0 <= k < d.len() ==> exists|j: int| 0 <= j < c.len() && #[trigger] d[k] == #[trigger] c[j]
            &&& forall|x: u32| x != c[i].id ==> (#[trigger] is_cached(d, x) <==> is_cached(c, x)) && (is_cached(c, x) ==> d[place(d, x)] == c[place(c, x)])
        }),
{
    let d = c.remove(i);
    assert forall|a: int, b: int| 0 <= a < b < d.len() implies (#[trigger] d[a]).id != (#[trigger] d[b]).id by {
        let oa = if a < i { a } else { a + 1 };
        let ob = if b < i { b } else { b + 1 };
        assert(d[a] == c[oa] && d[b] == c[ob]);
    }
    assert forall|k: int| 0 <= k < d.len() implies exists|j: int| 0 <= j < c.len() && #[trigger] d[k] == #[trigger] c[j] by {
        let o = if k < i { k } else { k + 1 };
        assert(d[k] == c[o]);
    }
    if is_cached(d, c[i].id) {
        let k = place(d, c[i].id);
        let o = if k < i { k } else { k + 1 };
        assert(d[k] == c[o] && d[k].id == c[i].id);
        if o < i {
            assert(c[o].id != c[i].id);
        } else {
            assert(c[i].id != c[o].id);
        }
    }
    assert forall|x: u32| x != c[i].id implies (#[trigger] is_cached(d, x) <==> is_cached(c, x)) && (is_cached(c, x) ==> d[place(d, x)] == c[place(c, x)]) by {
        if is_cached(c, x) {
            let o = place(c, x);
            assert(c[o].id == x);
            let k = if o < i { o } else { o - 1 };
            assert(d[k] == c[o]);
            lemma_place(d, k);
        }
        if is_cached(d, x) {
            let k = place(d, x);
            assert(d[k].id == x);
            let o = if k < i { k } else { k + 1 };
            assert(d[k] == c[o]);
        }
    }
}

/// Contents after an entry was added for a page that was not cached.
proof fn lemma_pushed(c: Seq<CachedSpec>, e: CachedSpec)
    requires
        ids_apart(c),
        !is_cached(c, e.id),
    ensures
        ({
            let d = c.push(e);
            &&& ids_apart(d)
            &&& is_cached(d, e.id) && d[place(d, e.id)] == e
            &&& forall|x: u32| x != e.id ==> (#[trigger] is_cached(d, x) <==> is_cached(c, x)) && (is_cached(c, x) ==> d[place(d, x)] == c[place(c, x)])
        }),
{
    let d = c.push(e);
    assert forall|a: int, b: int| 0 <= a < b < d.len() implies (#[trigger] d[a]).id != (#[trigger] d[b]).id by {
        if b == c.len() {
            assert(c[a].id != e.id);
        } else {
            assert(d[a] == c[a] && d[b] == c[b]);
        }
    }
    assert(d[c.len() as int] == e);
    lemma_place(d, c.len() as int);
    assert forall|x: u32| x != e.id implies (#[trigger] is_cached(d, x) <==> is_cached(c, x)) && (is_cached(c, x) ==> d[place(d, x)] == c[place(c, x)]) by {
        if is_cached(c, x) {
            let o = place(c, x);
            assert(c[o].id == x);
            assert(d[o] == c[o]);
            lemma_place(d, o);
        }
        if is_cached(d, x) {
            let k = place(d, x);
            assert(d[k].id == x);
            assert(k < c.len());
            assert(c[k].id == x);
        }
    }
}

proof fn lemma_dirty(c: Seq<CachedSpec>, id: u32)
    requires
        ids_apart(c),
    ensures
        touches(dirty_pages(c), id) <==> is_cached(c, id) && c[place(c, id)].dirty,
        touches(dirty_pages(c), id) ==> last_write(dirty_pages(c), id) == c[place(c, id)].data,
        forall|k: int| 0 <= k < dirty_pages(c).len() ==> from_dirty(c, #[trigger] dirty_pages(c)[k]),
    decreases c.len(),
{
    if c.len() > 0 {
        let front = c.drop_last();
        let e = c.last();
        assert(c[c.len() - 1] == e);
        assert(ids_apart(front)) by {
            assert forall|a: int, b: int| 0 <= a < b < front.len() implies (#[trigger] front[a]).id != (#[trigger] front[b]).id by {
                assert(c[a].id != c[b].id);
            }
        }
        assert(!is_cached(front, e.id)) by {
            if is_cached(front, e.id) {
                let k = place(front, e.id);
                assert(c[k].id != c[c.len() - 1].id);
            }
        }
        lemma_dirty(front, id);
        lemma_dirty(front, e.id);
        lemma_pushed(front, e);
        assert(front.push(e) =~= c);
        let d0 = dirty_pages(front);
        let d = dirty_pages(c);
        if e.dirty {
            assert(d =~= d0.push((e.id, e.data)));
            assert(d.drop_last() =~= d0);
            if touches(d, id) {
                let k = choose|k: int| 0 <= k < d.len() && (#[trigger] d[k]).0 == id;
                if k < d0.len() {
                    assert(d0[k].0 == id);
                }
            }
            if touches(d0, id) {
                let k = choose|k: int| 0 <= k < d0.len() && (#[trigger] d0[k]).0 == id;
                assert(d[k].0 == id);
            }
            assert(d[d0.len() as int].0 == e.id);
        }
        assert forall|k: int| 0 <= k < d.len() implies from_dirty(c, #[trigger] dirty_pages(c)[k]) by {
            if k < d0.len() {
                assert(d[k] == d0[k]);
                assert(from_dirty(front, dirty_pages(front)[k]));
                let j = choose|j: int| 0 <= j < front.len() && front[j].dirty && d0[k] == ((#[trigger] front[j]).id, front[j].data);
                assert(c[j] == front[j]);
            } else {
                assert(c[c.len() - 1].dirty && d[k] == (c[c.len() - 1].id, c[c.len() - 1].data));
            }
        }
    }
}

/// The page comes from a cached page that differs from the file.
spec fn from_dirty(c: Seq<CachedSpec>, x: PageSpec) -> bool {
    exists|j: int| 0 <= j < c.len() && c[j].dirty && x == ((#[trigger] c[j]).id, c[j].data)
}

/// A commit makes the file hold what the pages hold.
proof fn lemma_commit_file(p: PagerSpec, id: u32)
    requires
        pager_ok(p),
        id != 0,
        contents(p, id) is Some,
    ensures
        file_page(committed(p).file, id) == contents(p, id),
{
    let q = committed(p);
    let b = commit_batch(p);
    let d = dirty_pages(p.cache);
    lemma_front_batch(b[0], d, id);
    lemma_dirty(p.cache, id);
    lemma_applied_at(p.file, b, id);
    lemma_applied_pages(p.file, b);
    if touches(d, id) {
        let k = choose|k: int| 0 <= k < d.len() && (#[trigger] d[k]).0 == id;
        assert(b[k + 1] == d[k]);
        assert(b[k + 1].0 < q.file.pages);
    } else if is_cached(p.cache, id) {
        let i = place(p.cache, id);
        assert(p.cache[i].id == id);
        assert(entry_ok(p.file, p.cache[i]));
    }
}

proof fn lemma_commit_sized(p: PagerSpec)
    requires
        pager_ok(p),
    ensures
        sized(commit_batch(p)),
{
    let b = commit_batch(p);
    let d = dirty_pages(p.cache);
    law_header_roundtrip(p.page_count, p.free_head, p.roots);
    lemma_dirty(p.cache, 0);
    assert forall|k: int| 0 <= k < b.len() implies (#[trigger] b[k]).1.len() == PAGE_SIZE by {
        if k > 0 {
            assert(b[k] == d[k - 1]);
            assert(from_dirty(p.cache, dirty_pages(p.cache)[k - 1]));
            let j = choose|j: int| 0 <= j < p.cache.len() && p.cache[j].dirty && d[k - 1] == ((#[trigger] p.cache[j]).id, p.cache[j].data);
            assert(entry_ok(p.file, p.cache[j]));
        }
    }
}

/// A commit keeps what the pages hold, and makes the file hold it too.
pub proof fn lemma_committed(p: PagerSpec)
    requires
        pager_ok(p),
    ensures
        pager_ok(committed(p)),
        keeps_pages(p, committed(p)),
        sized(commit_batch(p)),
        file_page(committed(p).file, 0) == Some(header(p.page_count, p.free_head, p.roots)),
        forall|id: u32| id != 0 && contents(p, id) is Some ==> #[trigger] file_page(committed(p).file, id) == contents(p, id),
{
    let q = committed(p);
    let b = commit_batch(p);
    let d = dirty_pages(p.cache);
    lemma_commit_sized(p);
    lemma_applied_pages(p.file, b);
    assert(b[0].0 == 0);
    assert forall|id: u32| id != 0 && contents(p, id) is Some implies #[trigger] file_page(q.file, id) == contents(p, id) by {
        lemma_commit_file(p, id);
    }
    lemma_applied_at(p.file, b, 0);
    assert(touches(b, 0));
    lemma_last_zero(b[0], d, p);
    assert(q.cache.len() == p.cache.len());
    assert forall|i: int, j: int| 0 <= i < j < q.cache.len() implies (#[trigger] q.cache[i]).id != (#[trigger] q.cache[j]).id by {
        assert(p.cache[i].id != p.cache[j].id);
    }
    assert forall|i: int| 0 <= i < q.cache.len() implies entry_ok(q.file, #[trigger] q.cache[i]) by {
        assert(entry_ok(p.file, p.cache[i]));
        if p.cache[i].id != 0 {
            lemma_place(p.cache, i);
            lemma_commit_file(p, p.cache[i].id);
        }
    }
    assert forall|id: u32| #[trigger] q.file.data.contains_key(id) implies q.file.data[id].len() == PAGE_SIZE && id < q.file.pages by {
        lemma_applied_at(p.file, b, id);
        if touches(b, id) {
            lemma_last_sized(b, id);
            let k = choose|k: int| 0 <= k < b.len() && (#[trigger] b[k]).0 == id;
            assert(b[k].0 < q.file.pages);
        } else {
            assert(p.file.data.contains_key(id));
        }
    }
    assert forall|id: u32| id != 0 && contents(p, id) is Some implies #[trigger] contents(q, id) == contents(p, id) by {
        lemma_commit_file(p, id);
        if is_cached(q.cache, id) {
            let i = place(q.cache, id);
            assert(q.cache[i].id == id);
            assert(p.cache[i].id == id);
            lemma_place(p.cache, i);
        }
    }
}

proof fn lemma_last_sized(b: Seq<PageSpec>, id: u32)
    requires
        sized(b),
        touches(b, id),
    ensures
        last_write(b, id).len() == PAGE_SIZE,
    decreases b.len(),
{
    let k = choose|k: int| 0 <= k < b.len() && (#[trigger] b[k]).0 == id;
    if b.last().0 == id {
        assert(b[b.len() - 1].1.len() == PAGE_SIZE);
    } else {
        let front = b.drop_last();
        assert(front[k].0 == id);
        assert forall|j: int| 0 <= j < front.len() implies (#[trigger] front[j]).1.len() == PAGE_SIZE by {
            assert(b[j].1.len() == PAGE_SIZE);
        }
        lemma_last_sized(front, id);
    }
}

proof fn lemma_front_batch(h: PageSpec, d: Seq<PageSpec>, id: u32)
    requires
        h.0 != id,
    ensures
        touches(seq![h] + d, id) <==> touches(d, id),
        last_write(seq![h] + d, id) == last_write(d, id),
    decreases d.len(),
{
    let b = seq![h] + d;
    if touches(b, id) {
        let k = choose|k: int| 0 <= k < b.len() && (#[trigger] b[k]).0 == id;
        assert(d[k - 1].0 == id);
    }
    if touches(d, id) {
        let k = choose|k: int| 0 <= k < d.len() && (#[trigger] d[k]).0 == id;
        assert(b[k + 1].0 == id);
    }
    if d.len() > 0 {
        assert(b.drop_last() =~= seq![h] + d.drop_last());
        lemma_front_batch(h, d.drop_last(), id);
    } else {
        assert(b =~= seq![h]);
        assert(b.drop_last() =~= Seq::<PageSpec>::empty());
        reveal_with_fuel(last_write, 2);
        assert(last_write(b.drop_last(), id) == last_write(d, id)) by {
            assert(d =~= b.drop_last());
        }
    }
}

proof fn lemma_last_zero(h: PageSpec, d: Seq<PageSpec>, p: PagerSpec)
    requires
        pager_ok(p),
        h.0 == 0,
        d == dirty_pages(p.cache),
    ensures
        last_write(seq![h] + d, 0) == h.1,
{
    lemma_dirty(p.cache, 0);
    assert(!touches(d, 0)) by {
        if touches(d, 0) {
            let i = place(p.cache, 0);
            assert(p.cache[i].id == 0);
            assert(entry_ok(p.file, p.cache[i]));
        }
    }
    lemma_last_first(h, d);
}

proof fn lemma_last_first(h: PageSpec, d: Seq<PageSpec>)
    requires
        !touches(d, h.0),
    ensures
        last_write(seq![h] + d, h.0) == h.1,
    decreases d.len(),
{
    let b = seq![h] + d;
    if d.len() > 0 {
        assert(b.drop_last() =~= seq![h] + d.drop_last());
        assert(d[d.len() - 1].0 != h.0);
        assert(!touches(d.drop_last(), h.0)) by {
            if touches(d.drop_last(), h.0) {
                let k = choose|k: int| 0 <= k < d.drop_last().len() && (#[trigger] d.drop_last()[k]).0 == h.0;
                assert(d[k].0 == h.0);
            }
        }
        lemma_last_first(h, d.drop_last());
    } else {
        assert(b =~= seq![h]);
    }
}

/// The data pages of `p` other than `id` hold in `q` what they hold in `p`.
pub open spec fn keeps_others(p: PagerSpec, q: PagerSpec, id: u32) -> bool {
    forall|x: u32| x != 0 && x != id && contents(p, x) is Some ==> #[trigger] contents(q, x) == contents(p, x)
}

/// The header fields are the same.
pub open spec fn same_header(p: PagerSpec, q: PagerSpec) -> bool {
    &&& q.page_count == p.page_count
    &&& q.free_head == p.free_head
    &&& q.roots == p.roots
    &&& q.capacity == p.capacity
}

proof fn lemma_first_clean(c: Seq<CachedSpec>)
    ensures
        0 <= first_clean(c) <= c.len(),
        first_clean(c) < c.len() ==> !c[first_clean(c)].dirty,
        forall|k: int| 0 <= k < first_clean(c) ==> (#[trigger] c[k]).dirty,
    decreases c.len(),
{
    if c.len() > 0 {
        let front = c.drop_last();
        lemma_first_clean(front);
        let k = first_clean(front);
        if k < front.len() {
            assert(front[k] == c[k]);
        }
        assert forall|j: int| 0 <= j < first_clean(c) implies (#[trigger] c[j]).dirty by {
            if j < front.len() {
                assert(front[j] == c[j]);
            }
        }
    }
}

proof fn lemma_dropped(p: PagerSpec, k: int)
    requires
        pager_ok(p),
        0 <= k < p.cache.len(),
        !p.cache[k].dirty,
    ensures
        ({
            let q = PagerSpec { cache: p.cache.remove(k), ..p };
            &&& pager_ok(q)
            &&& keeps_pages(p, q)
            &&& forall|x: u32| !is_cached(p.cache, x) ==> !#[trigger] is_cached(q.cache, x)
        }),
{
    let c = p.cache;
    let q = PagerSpec { cache: c.remove(k), ..p };
    lemma_removed(c, k);
    assert(entry_ok(p.file, c[k]));
    lemma_place(c, k);
    assert forall|i: int| 0 <= i < q.cache.len() implies entry_ok(q.file, #[trigger] q.cache[i]) by {
        let o = if i < k { i } else { i + 1 };
        assert(q.cache[i] == c[o]);
        assert(entry_ok(p.file, c[o]));
    }
    assert forall|x: u32| x != 0 && contents(p, x) is Some implies #[trigger] contents(q, x) == contents(p, x) by {
        if x == c[k].id {
            assert(!is_cached(q.cache, x));
        } else {
            assert(is_cached(q.cache, x) <==> is_cached(c, x));
        }
    }
    assert forall|x: u32| !is_cached(c, x) implies !#[trigger] is_cached(q.cache, x) by {
        if x == c[k].id {
            assert(is_cached(c, x));
        } else {
            assert(is_cached(q.cache, x) <==> is_cached(c, x));
        }
    }
}

proof fn lemma_evicted(p: PagerSpec)
    requires
        pager_ok(p),
        p.cache.len() > 0,
    ensures
        pager_ok(evicted(p)),
        keeps_pages(p, evicted(p)),
        same_header(p, evicted(p)),
        evicted(p).cache.len() == p.cache.len() - 1,
        forall|x: u32| !is_cached(p.cache, x) ==> !#[trigger] is_cached(evicted(p).cache, x),
{
    lemma_first_clean(p.cache);
    let k = first_clean(p.cache);
    if k < p.cache.len() {
        lemma_dropped(p, k);
    } else {
        let q = committed(p);
        lemma_committed(p);
        assert(!q.cache[0].dirty);
        lemma_dropped(q, 0);
        let r = evicted(p);
        assert forall|x: u32| x != 0 && contents(p, x) is Some implies #[trigger] contents(r, x) == contents(p, x) by {
            assert(contents(q, x) == contents(p, x));
        }
        assert forall|x: u32| !is_cached(p.cache, x) implies !#[trigger] is_cached(r.cache, x) by {
            assert(!is_cached(q.cache, x)) by {
                if is_cached(q.cache, x) {
                    let i = place(q.cache, x);
                    assert(q.cache[i].id == x);
                    assert(p.cache[i].id == x);
                }
            }
        }
    }
}

proof fn lemma_added(p: PagerSpec, e: CachedSpec)
    requires
        pager_ok(p),
        !is_cached(p.cache, e.id),
        e.data.len() == PAGE_SIZE,
        e.dirty ==> e.id != 0,
        !e.dirty ==> file_page(p.file, e.id) == Some(e.data),
    ensures
        pager_ok(added(p, e)),
        same_header(p, added(p, e)),
        contents(added(p, e), e.id) == Some(e.data),
        keeps_others(p, added(p, e), e.id),
{
    let q = if p.cache.len() >= p.capacity {
        evicted(p)
    } else {
        p
    };
    if p.cache.len() >= p.capacity {
        lemma_evicted(p);
    }
    let r = added(p, e);
    assert(!is_cached(q.cache, e.id));
    lemma_pushed(q.cache, e);
    if !e.dirty && e.id != 0 {
        assert(contents(p, e.id) == Some(e.data));
        assert(contents(q, e.id) == Some(e.data));
    }
    assert forall|i: int| 0 <= i < r.cache.len() implies entry_ok(r.file, #[trigger] r.cache[i]) by {
        if i < q.cache.len() {
            assert(r.cache[i] == q.cache[i]);
            assert(entry_ok(q.file, q.cache[i]));
        }
    }
    assert forall|x: u32| x != 0 && x != e.id && contents(p, x) is Some implies #[trigger] contents(r, x) == contents(p, x) by {
        assert(contents(q, x) == contents(p, x));
        assert(is_cached(r.cache, x) <==> is_cached(q.cache, x));
    }
}

/// Reading keeps what the pages hold.
pub proof fn lemma_after_read(p: PagerSpec, id: u32)
    requires
        pager_ok(p),
        contents(p, id) is Some,
    ensures
        pager_ok(after_read(p, id)),
        same_header(p, after_read(p, id)),
        keeps_pages(p, after_read(p, id)),
        contents(after_read(p, id), id) == contents(p, id),
        contents(p, id)->0.len() == PAGE_SIZE,
{
    let q = after_read(p, id);
    if is_cached(p.cache, id) {
        let i = place(p.cache, id);
        assert(p.cache[i].id == id);
        assert(entry_ok(p.file, p.cache[i]));
        lemma_moved(p.cache, i, p.cache[i]);
        assert forall|k: int| 0 <= k < q.cache.len() implies entry_ok(q.file, #[trigger] q.cache[k]) by {
            if q.cache[k] != p.cache[i] {
                let j = choose|j: int| 0 <= j < p.cache.len() && q.cache[k] == #[trigger] p.cache[j];
                assert(entry_ok(p.file, p.cache[j]));
            }
        }
        assert forall|x: u32| x != 0 && contents(p, x) is Some implies #[trigger] contents(q, x) == contents(p, x) by {
            if x != id {
                assert(is_cached(q.cache, x) <==> is_cached(p.cache, x));
            }
        }
    } else {
        let d = file_page(p.file, id)->0;
        assert(d.len() == PAGE_SIZE) by {
            if p.file.data.contains_key(id) {
            }
        }
        lemma_added(p, CachedSpec { id, data: d, dirty: false });
        assert forall|x: u32| x != 0 && contents(p, x) is Some implies #[trigger] contents(q, x) == contents(p, x) by {
        }
    }
}

/// Writing changes the page and keeps what the others hold.
pub proof fn lemma_after_write(p: PagerSpec, id: u32, data: Seq<u8>)
    requires
        pager_ok(p),
        id != 0,
        data.len() == PAGE_SIZE,
    ensures
        pager_ok(after_write(p, id, data)),
        same_header(p, after_write(p, id, data)),
        contents(after_write(p, id, data), id) == Some(data),
        keeps_others(p, after_write(p, id, data), id),
{
    let q = after_write(p, id, data);
    let e = CachedSpec { id, data, dirty: true };
    if is_cached(p.cache, id) {
        let i = place(p.cache, id);
        assert(p.cache[i].id == id);
        lemma_moved(p.cache, i, e);
        assert forall|k: int| 0 <= k < q.cache.len() implies entry_ok(q.file, #[trigger] q.cache[k]) by {
            if q.cache[k] != e {
                let j = choose|j: int| 0 <= j < p.cache.len() && q.cache[k] == #[trigger] p.cache[j];
                assert(entry_ok(p.file, p.cache[j]));
            }
        }
        assert forall|x: u32| x != 0 && x != id && contents(p, x) is Some implies #[trigger] contents(q, x) == contents(p, x) by {
            assert(is_cached(q.cache, x) <==> is_cached(p.cache, x));
        }
    } else {
        lemma_added(p, e);
    }
}

/// A paged file with a cache.
pub struct Pager {
    file: HashMap<u32, Vec<u8>>,
    file_pages: u64,
    page_count: u32,
    free_head: PageId,
    roots: Vec<u64>,
    cache: Vec<CachedPage>,
    capacity: usize,
    commits: Vec<Vec<PageImage>>,
}

/// Committed batches as mathematical values.
pub open spec fn batches(v: Seq<Vec<PageImage>>) -> Seq<Seq<PageSpec>> {
    v.map_values(|b: Vec<PageImage>| images(b@))
}

/// Cached pages as mathematical values.
pub open spec fn cached_views(v: Seq<CachedPage>) -> Seq<CachedSpec> {
    v.map_values(|e: CachedPage| CachedSpec { id: e.id, data: e.data@, dirty: e.dirty })
}

impl View for Pager {
    type V = PagerSpec;

    closed spec fn view(&self) -> PagerSpec {
        PagerSpec {
            file: FileSpec { pages: self.file_pages as nat, data: self.file@.map_values(|v: Vec<u8>| v@) },
            page_count: self.page_count,
            free_head: self.free_head,
            roots: self.roots@,
            cache: cached_views(self.cache@),
            capacity: self.capacity as nat,
            commits: batches(self.commits@),
        }
    }
}

/// The error of reading past the end of a file.
pub open spec fn is_eof(e: GStoreError) -> bool {
    e matches GStoreError::Io(m) && m@ == "failed to fill whole buffer"@
}

fn eof() -> (e: GStoreError)
    ensures
        is_eof(e),
{
    GStoreError::Io("failed to fill whole buffer".to_owned())
}

/// A file as read from disk. A part of a page at the end does not count.
pub open spec fn file_of(bytes: Seq<u8>) -> FileSpec {
    FileSpec {
        pages: (bytes.len() / PAGE_SIZE as nat) as nat,
        data: Map::new(|id: u32| (id + 1) * PAGE_SIZE <= bytes.len(), |id: u32| bytes.subrange(id * PAGE_SIZE, (id + 1) * PAGE_SIZE)),
    }
}

/// An empty file with its header.
pub open spec fn new_pager(capacity: nat, commits: Seq<Seq<PageSpec>>) -> PagerSpec {
    let roots = Seq::new(NROOTS as nat, |i: int| 0u64);
    let h = header(1, 0, roots);
    committed(
        PagerSpec {
            file: page_written(FileSpec { pages: 0, data: Map::empty() }, (0u32, h)),
            page_count: 1,
            free_head: 0,
            roots,
            cache: Seq::empty(),
            capacity,
            commits,
        },
    )
}

/// The cache holds at least eight pages.
pub open spec fn at_least_eight(capacity: nat) -> nat {
    if capacity < 8 {
        8
    } else {
        capacity
    }
}

/// The pager of a file with a header.
pub open spec fn opened(f: FileSpec, capacity: nat, commits: Seq<Seq<PageSpec>>) -> PagerSpec {
    let h = file_page(f, 0)->0;
    PagerSpec { file: f, page_count: get32(h, 8), free_head: get32(h, 12), roots: header_roots(h), cache: Seq::empty(), capacity, commits }
}

/// The batch that recovery writes to the file.
pub open spec fn replayed(wal: Option<Seq<u8>>) -> Seq<Seq<PageSpec>> {
    match wal {
        Some(w) => match wal_read(w) {
            Some(b) => seq![b],
            None => Seq::empty(),
        },
        None => Seq::empty(),
    }
}

impl Pager {
    pub open spec fn wf(&self) -> bool {
        pager_ok(self@)
    }

    fn find(&self, id: PageId) -> (r: Option<usize>)
        requires
            ids_apart(self@.cache),
        ensures
            r is Some <==> is_cached(self@.cache, id),
            r matches Some(i) ==> i < self@.cache.len() && place(self@.cache, id) == i && self@.cache[i as int].id == id,
    {
        let mut i: usize = 0;
        while i < self.cache.len()
            invariant
                ids_apart(self@.cache),
                i <= self.cache@.len(),
                self@.cache.len() == self.cache@.len(),
                forall|k: int| 0 <= k < i ==> (#[trigger] self@.cache[k]).id != id,
            decreases self.cache.len() - i,
        {
            if self.cache[i].id == id {
                proof {
                    assert(self@.cache[i as int].id == id);
                    lemma_place(self@.cache, i as int);
                }
                return Some(i);
            }
            assert(self@.cache[i as int].id != id);
            i = i + 1;
        }
        None
    }

    fn header_bytes(&self) -> (r: Vec<u8>)
        requires
            self@.roots.len() == NROOTS,
        ensures
            r@ == header(self@.page_count, self@.free_head, self@.roots),
    {
        let mut r: Vec<u8> = vec![71, 83, 84, 79, 82, 69, 75, 86];
        assert(r@ =~= header_magic());
        push_le32(&mut r, self.page_count);
        push_le32(&mut r, self.free_head);
        let mut i: usize = 0;
        let ghost start = r@;
        proof {
            assert(self.roots@.take(0) =~= Seq::<u64>::empty());
            assert(r@ =~= start + roots_bytes(self.roots@.take(0)));
        }
        while i < self.roots.len()
            invariant
                i <= self.roots@.len(),
                r@ == start + roots_bytes(self.roots@.take(i as int)),
            decreases self.roots.len() - i,
        {
            proof {
                assert(self.roots@.take(i + 1).drop_last() =~= self.roots@.take(i as int));
            }
            push_le64(&mut r, self.roots[i]);
            i = i + 1;
            assert(r@ =~= start + roots_bytes(self.roots@.take(i as int)));
        }
        proof {
            assert(self.roots@.take(self.roots@.len() as int) =~= self.roots@);
            lemma_roots_len(self.roots@);
        }
        let ghost f = r@;
        while r.len() < PAGE_SIZE
            invariant
                f.len() <= r@.len() <= PAGE_SIZE,
                r@.take(f.len() as int) =~= f,
                forall|k: int| f.len() <= k < r@.len() ==> r@[k] == 0,
            decreases PAGE_SIZE - r.len(),
        {
            r.push(0);
        }
        proof {
            let h = header(self@.page_count, self@.free_head, self@.roots);
            assert(f =~= header_fields(self@.page_count, self@.free_head, self@.roots));
            assert(r@ =~= h) by {
                assert forall|k: int| 0 <= k < r@.len() implies r@[k] == h[k] by {
                    if k < f.len() {
                        assert(r@.take(f.len() as int)[k] == f[k]);
                    }
                }
            }
        }
        r
    }

    /// Write a page of a committed batch to the file.
    fn write_file(&mut self, id: PageId, data: &Vec<u8>)
        ensures
            final(self)@ == (PagerSpec { file: page_written(old(self)@.file, (id, data@)), ..old(self)@ }),
    {
        self.file.insert(id, copy_bytes(data));
        if id as u64 >= self.file_pages {
            self.file_pages = id as u64 + 1;
        }
        proof {
            assert(self@.file.data =~= old(self)@.file.data.insert(id, data@));
            assert(self@ =~= (PagerSpec { file: page_written(old(self)@.file, (id, data@)), ..old(self)@ }));
        }
    }

    fn apply(&mut self, batch: &Vec<PageImage>)
        ensures
            final(self)@ == (PagerSpec { file: batch_applied(old(self)@.file, images(batch@)), ..old(self)@ }),
    {
        let ghost b = images(batch@);
        let mut i: usize = 0;
        assert(b.take(0) =~= Seq::<PageSpec>::empty());
        while i < batch.len()
            invariant
                i <= batch@.len(),
                b == images(batch@),
                self@ == (PagerSpec { file: batch_applied(old(self)@.file, b.take(i as int)), ..old(self)@ }),
            decreases batch.len() - i,
        {
            proof {
                assert(b.take(i + 1).drop_last() =~= b.take(i as int));
                assert(b.take(i + 1).last() == b[i as int]);
            }
            self.write_file(batch[i].id, &batch[i].data);
            i = i + 1;
        }
        assert(b.take(b.len() as int) =~= b);
    }

    /// Commit: make the header and all written pages one batch, for the host to
    /// write, and mark all cached pages as written.
    pub fn flush(&mut self)
        requires
            old(self).wf(),
        ensures
            final(self).wf(),
            final(self)@ == committed(old(self)@),
            keeps_pages(old(self)@, final(self)@),
    {
        let ghost p = self@;
        let mut batch: Vec<PageImage> = Vec::new();
        batch.push(PageImage { id: 0, data: self.header_bytes() });
        let ghost h = images(batch@);
        let mut i: usize = 0;
        proof {
            lemma_committed(p);
            assert(p.cache.take(0) =~= Seq::<CachedSpec>::empty());
            assert(h =~= seq![(0u32, header(p.page_count, p.free_head, p.roots))]);
            assert(images(batch@) =~= h + dirty_pages(p.cache.take(0)));
        }
        while i < self.cache.len()
            invariant
                i <= self.cache@.len(),
                p == old(self)@,
                *self == *old(self),
                p.cache == cached_views(self.cache@),
                images(batch@) == h + dirty_pages(p.cache.take(i as int)),
            decreases self.cache.len() - i,
        {
            proof {
                assert(p.cache.take(i + 1).drop_last() =~= p.cache.take(i as int));
                assert(p.cache.take(i + 1).last() == p.cache[i as int]);
            }
            let ghost before = images(batch@);
            if self.cache[i].dirty {
                batch.push(PageImage { id: self.cache[i].id, data: copy_bytes(&self.cache[i].data) });
                assert(images(batch@) =~= before.push((p.cache[i as int].id, p.cache[i as int].data)));
            }
            i = i + 1;
            assert(images(batch@) =~= h + dirty_pages(p.cache.take(i as int)));
        }
        assert(p.cache.take(p.cache.len() as int) =~= p.cache);
        assert(images(batch@) =~= commit_batch(p));
        self.apply(&batch);
        let ghost q = self@;
        let mut k: usize = 0;
        while k < self.cache.len()
            invariant
                k <= self.cache@.len(),
                self@.cache.len() == self.cache@.len(),
                self@ == (PagerSpec { cache: self@.cache, ..q }),
                self@.cache.len() == q.cache.len(),
                forall|j: int| 0 <= j < k ==> #[trigger] self@.cache[j] == (CachedSpec { dirty: false, ..q.cache[j] }),
                forall|j: int| k <= j < self@.cache.len() ==> #[trigger] self@.cache[j] == q.cache[j],
            decreases self.cache.len() - k,
        {
            let ghost c0 = self@.cache;
            let ghost raw = self.cache@;
            let e: CachedPage = self.cache.remove(k);
            assert(c0[k as int] == (CachedSpec { id: raw[k as int].id, data: raw[k as int].data@, dirty: raw[k as int].dirty }));
            self.cache.insert(k, CachedPage { id: e.id, data: e.data, dirty: false });
            proof {
                let c1 = self@.cache;
                assert(c1 =~= c0.update(k as int, CachedSpec { dirty: false, ..c0[k as int] }));
                assert(self@ =~= (PagerSpec { cache: self@.cache, ..q }));
            }
            k = k + 1;
        }
        let ghost c0 = self.commits@;
        let ghost bv = images(batch@);
        self.commits.push(batch);
        proof {
            assert(batches(self.commits@) =~= batches(c0).push(bv));
            assert(self@.cache =~= all_clean(p.cache));
            assert(self@ =~= committed(p));
        }
    }

    /// Drop a page from the cache.
    fn evict_one(&mut self)
        requires
            old(self).wf(),
            old(self)@.cache.len() > 0,
        ensures
            final(self).wf(),
            final(self)@ == evicted(old(self)@),
    {
        let ghost p = self@;
        proof {
            lemma_evicted(p);
            lemma_first_clean(p.cache);
        }
        let mut k: usize = 0;
        while k < self.cache.len() && self.cache[k].dirty
            invariant
                k <= self.cache@.len(),
                p == self@,
                *self == *old(self),
                p.cache == cached_views(self.cache@),
                k <= first_clean(p.cache) <= p.cache.len(),
                first_clean(p.cache) < p.cache.len() ==> !p.cache[first_clean(p.cache)].dirty,
            decreases self.cache.len() - k,
        {
            assert(p.cache[k as int].dirty);
            k = k + 1;
        }
        if k < self.cache.len() {
            assert(!p.cache[k as int].dirty);
            let ghost raw = self.cache@;
            self.cache.remove(k);
            proof {
                assert(k == first_clean(p.cache));
                assert(cached_views(self.cache@) =~= p.cache.remove(k as int));
                assert(self@ =~= evicted(p));
            }
        } else {
            self.flush();
            let ghost q = self@;
            self.cache.remove(0);
            proof {
                assert(cached_views(self.cache@) =~= q.cache.remove(0));
                assert(self@ =~= evicted(p));
            }
        }
    }

    fn insert_cache(&mut self, id: PageId, data: Vec<u8>, dirty: bool)
        requires
            old(self).wf(),
            !is_cached(old(self)@.cache, id),
            data@.len() == PAGE_SIZE,
            dirty ==> id != 0,
            !dirty ==> file_page(old(self)@.file, id) == Some(data@),
        ensures
            final(self).wf(),
            final(self)@ == added(old(self)@, CachedSpec { id, data: data@, dirty }),
    {
        let ghost p = self@;
        let ghost e = CachedSpec { id, data: data@, dirty };
        proof {
            lemma_added(p, e);
        }
        if self.cache.len() >= self.capacity {
            self.evict_one();
        }
        let ghost q = self@;
        self.cache.push(CachedPage { id, data, dirty });
        proof {
            assert(cached_views(self.cache@) =~= q.cache.push(e));
            assert(self@ =~= added(p, e));
        }
    }

    /// Read a page. Fails if the file ends before it.
    pub fn read_page(&mut self, id: PageId) -> (r: Result<Vec<u8>>)
        requires
            old(self).wf(),
        ensures
            final(self).wf(),
            final(self)@ == after_read(old(self)@, id),
            same_header(old(self)@, final(self)@),
            keeps_pages(old(self)@, final(self)@),
            match contents(old(self)@, id) {
                Some(d) => r matches Ok(v) && v@ == d && v@.len() == PAGE_SIZE,
                None => r matches Err(e) && is_eof(e),
            },
    {
        let ghost p = self@;
        proof {
            if contents(p, id) is Some {
                lemma_after_read(p, id);
            }
        }
        match self.find(id) {
            Some(i) => {
                let e: CachedPage = self.cache.remove(i);
                let r: Vec<u8> = copy_bytes(&e.data);
                self.cache.push(e);
                proof {
                    assert(cached_views(self.cache@) =~= p.cache.remove(i as int).push(p.cache[i as int]));
                    assert(self@ =~= after_read(p, id));
                }
                Ok(r)
            },
            None => {
                if id as u64 >= self.file_pages {
                    return Err(eof());
                }
                let data: Vec<u8> = match self.file.get(&id) {
                    Some(d) => copy_bytes(d),
                    None => zero_page(),
                };
                let r: Vec<u8> = copy_bytes(&data);
                proof {
                    assert(file_page(p.file, id) == Some(data@)) by {
                        if p.file.data.contains_key(id) {
                            assert(self.file@.contains_key(id));
                        }
                    }
                }
                self.insert_cache(id, data, false);
                Ok(r)
            },
        }
    }

    /// Write a page, other than the header.
    pub fn write_page(&mut self, id: PageId, data: &Vec<u8>) -> (r: Result<()>)
        requires
            old(self).wf(),
            data@.len() == PAGE_SIZE,
        ensures
            final(self).wf(),
            r is Ok <==> id != 0,
            r matches Err(e) ==> is_database_error(e, "page 0 is reserved for header"@) && final(self)@ == old(self)@,
            r is Ok ==> {
                &&& final(self)@ == after_write(old(self)@, id, data@)
                &&& same_header(old(self)@, final(self)@)
                &&& contents(final(self)@, id) == Some(data@)
                &&& keeps_others(old(self)@, final(self)@, id)
            },
    {
        if id == 0 {
            return Err(GStoreError::Database("page 0 is reserved for header".to_owned()));
        }
        let ghost p = self@;
        proof {
            lemma_after_write(p, id, data@);
        }
        match self.find(id) {
            Some(i) => {
                self.cache.remove(i);
                self.cache.push(CachedPage { id, data: copy_bytes(data), dirty: true });
                proof {
                    assert(cached_views(self.cache@) =~= p.cache.remove(i as int).push(CachedSpec { id, data: data@, dirty: true }));
                    assert(self@ =~= after_write(p, id, data@));
                }
            },
            None => {
                self.insert_cache(id, copy_bytes(data), true);
            },
        }
        Ok(())
    }

    /// A root slot.
    pub fn root(&self, i: usize) -> (v: u64)
        requires
            self.wf(),
            i < NROOTS,
        ensures
            v == self@.roots[i as int],
    {
        self.roots[i]
    }

    /// Set a root slot.
    pub fn set_root(&mut self, i: usize, v: u64)
        requires
            old(self).wf(),
            i < NROOTS,
        ensures
            final(self).wf(),
            final(self)@ == (PagerSpec { roots: old(self)@.roots.update(i as int, v), ..old(self)@ }),
            keeps_pages(old(self)@, final(self)@),
    {
        self.roots.set(i, v);
        assert(self@ =~= (PagerSpec { roots: old(self)@.roots.update(i as int, v), ..old(self)@ }));
    }

    /// Number of pages, with the header.
    pub fn page_count(&self) -> (n: u32)
        ensures
            n == self@.page_count,
    {
        self.page_count
    }
}


proof fn lemma_file_of(bytes: Seq<u8>)
    ensures
        file_ok(file_of(bytes)),
{
    let f = file_of(bytes);
    assert forall|id: u32| #[trigger] f.data.contains_key(id) implies f.data[id].len() == PAGE_SIZE && id < f.pages by {
        assert((id + 1) * 4096 <= bytes.len());
    }
}

proof fn lemma_applied_ok(f: FileSpec, b: Seq<PageSpec>)
    requires
        file_ok(f),
        sized(b),
    ensures
        file_ok(batch_applied(f, b)),
{
    let g = batch_applied(f, b);
    lemma_applied_pages(f, b);
    assert forall|id: u32| #[trigger] g.data.contains_key(id) implies g.data[id].len() == PAGE_SIZE && id < g.pages by {
        lemma_applied_at(f, b, id);
        if touches(b, id) {
            lemma_last_sized(b, id);
            let k = choose|k: int| 0 <= k < b.len() && (#[trigger] b[k]).0 == id;
            assert(b[k].0 < g.pages);
        } else {
            assert(f.data.contains_key(id));
        }
    }
}

/// A file that was committed opens with all that was in it.
pub proof fn lemma_reopened(p: PagerSpec, capacity: nat)
    requires
        pager_ok(p),
        capacity >= 8,
    ensures
        ({
            let q = opened(committed(p).file, capacity, Seq::empty());
            &&& pager_ok(q)
            &&& q.page_count == p.page_count
            &&& q.free_head == p.free_head
            &&& q.roots == p.roots
            &&& keeps_pages(p, q)
        }),
{
    lemma_committed(p);
    law_header_roundtrip(p.page_count, p.free_head, p.roots);
    let q = opened(committed(p).file, capacity, Seq::empty());
    assert forall|id: u32| id != 0 && contents(p, id) is Some implies #[trigger] contents(q, id) == contents(p, id) by {
        assert(!is_cached(q.cache, id));
        assert(file_page(committed(p).file, id) == contents(p, id));
    }
}

/// A file that was committed opens with the header and the data pages that it was
/// committed with.
pub proof fn law_committed_is_opened(p: PagerSpec, capacity: nat, id: u32)
    requires
        pager_ok(p),
        capacity >= 8,
        id != 0,
        contents(p, id) is Some,
    ensures
        ({
            let q = opened(committed(p).file, capacity, Seq::empty());
            &&& file_page(committed(p).file, 0) is Some
            &&& file_page(committed(p).file, 0)->0.subrange(0, 8) == header_magic()
            &&& pager_ok(q)
            &&& q.page_count == p.page_count
            &&& q.free_head == p.free_head
            &&& q.roots == p.roots
            &&& contents(q, id) == contents(p, id)
        }),
{
    lemma_committed(p);
    law_header_roundtrip(p.page_count, p.free_head, p.roots);
    let q = opened(committed(p).file, capacity, Seq::empty());
    assert(!is_cached(q.cache, id));
    assert(file_page(committed(p).file, id) == contents(p, id));
}

/// What was written but not committed is not in the file: it opens with what the
/// page held at the last commit.
pub proof fn law_uncommitted_is_lost(p: PagerSpec, id: u32, data: Seq<u8>)
    requires
        pager_ok(p),
        is_cached(p.cache, id) || p.cache.len() < p.capacity,
        id != 0,
        data.len() == PAGE_SIZE,
    ensures
        after_write(p, id, data).file == p.file,
        contents(opened(after_write(p, id, data).file, p.capacity, Seq::empty()), id) == file_page(p.file, id),
{
    let q = opened(p.file, p.capacity, Seq::empty());
    assert(!is_cached(q.cache, id));
}

impl Pager {
    /// Open a paged file with a cache for `capacity` pages. `file` is what the file
    /// holds, `wal` what the log beside it holds. A complete log is replayed, any
    /// other is ignored. An empty file gets a header.
    pub fn open(file: &[u8], wal: Option<&[u8]>, capacity: usize) -> (r: Result<Pager>)
        ensures
            ({
                let log = (match wal {
                    Some(w) => Some(w@),
                    None => None,
                });
                let f = recovered(file_of(file@), log);
                let cap = at_least_eight(capacity as nat);
                if file@.len() == 0 && f.pages == 0 {
                    r matches Ok(p) && p.wf() && p@ == new_pager(cap, replayed(log))
                } else if f.pages == 0 {
                    r matches Err(e) && is_eof(e)
                } else if file_page(f, 0)->0.subrange(0, 8) != header_magic() {
                    r matches Err(e) && is_database_error(e, "not a gStore KV file"@)
                } else {
                    r matches Ok(p) && p.wf() && p@ == opened(f, cap, replayed(log))
                }
            }),
    {
        let cap: usize = if capacity < 8 { 8 } else { capacity };
        let mut roots: Vec<u64> = Vec::new();
        let mut i: usize = 0;
        while i < NROOTS
            invariant
                i <= NROOTS,
                roots@.len() == i,
                forall|k: int| 0 <= k < i ==> roots@[k] == 0,
            decreases NROOTS - i,
        {
            roots.push(0);
            i = i + 1;
        }
        let ghost zero_roots = roots@;
        assert(zero_roots =~= Seq::new(NROOTS as nat, |i: int| 0u64));
        let mut p = Pager { file: HashMap::new(), file_pages: 0, page_count: 1, free_head: 0, roots, cache: Vec::new(), capacity: cap, commits: Vec::new() };
        assert(p@.file.data =~= Map::<u32, Seq<u8>>::empty());
        assert(p@.commits =~= Seq::<Seq<PageSpec>>::empty());
        p.load_file(file);
        let ghost f0 = p@.file;
        proof {
            lemma_file_of(file@);
            assert(f0 =~= file_of(file@));
            assert(p@.cache =~= Seq::<CachedSpec>::empty());
        }
        let ghost log = (match wal {
            Some(w) => Some(w@),
            None => None,
        });
        match wal {
            None => {},
            Some(w) => match parse_wal(w) {
                None => {},
                Some(batch) => {
                    p.apply(&batch);
                    proof {
                        lemma_applied_ok(f0, images(batch@));
                    }
                    let ghost bv = images(batch@);
                    assert(batches(p.commits@).len() == 0);
                    p.commits.push(batch);
                    assert(batches(p.commits@) =~= seq![bv]);
                },
            },
        }
        let ghost f = recovered(file_of(file@), log);
        proof {
            assert(p@.file == f);
            assert(p@.commits =~= replayed(log));
        }
        if file.len() == 0 && p.file_pages == 0 {
            proof {
                assert(p@.file.data =~= Map::<u32, Seq<u8>>::empty()) by {
                    assert forall|id: u32| !p@.file.data.contains_key(id) by {
                        if p@.file.data.contains_key(id) {
                            assert(id < p@.file.pages);
                        }
                    }
                }
                law_header_roundtrip(1, 0, zero_roots);
            }
            let h: Vec<u8> = p.header_bytes();
            let ghost before = p@;
            p.write_file(0, &h);
            proof {
                assert forall|id: u32| #[trigger] p@.file.data.contains_key(id) implies p@.file.data[id].len() == PAGE_SIZE && id < p@.file.pages by {
                    assert(id == 0);
                }
                assert(p.wf());
            }
            p.flush();
            assert(p@ =~= new_pager(at_least_eight(capacity as nat), replayed(log)));
            return Ok(p);
        }
        if p.file_pages == 0 {
            return Err(eof());
        }
        let h: Vec<u8> = match p.file.get(&0) {
            Some(d) => copy_bytes(d),
            None => zero_page(),
        };
        proof {
            assert(file_page(f, 0) == Some(h@)) by {
                if f.data.contains_key(0) {
                    assert(p.file@.contains_key(0));
                }
            }
            assert(h@.len() == PAGE_SIZE);
        }
        let head: Vec<u8> = slice_copy(h.as_slice(), 0, 8);
        let magic: Vec<u8> = vec![71, 83, 84, 79, 82, 69, 75, 86];
        assert(magic@ =~= header_magic());
        if !same_bytes(head.as_slice(), magic.as_slice()) {
            return Err(GStoreError::Database("not a gStore KV file".to_owned()));
        }
        p.page_count = read_le32(h.as_slice(), 8);
        p.free_head = read_le32(h.as_slice(), 12);
        let mut roots: Vec<u64> = Vec::new();
        let mut i: usize = 0;
        while i < NROOTS
            invariant
                i <= NROOTS,
                h@.len() == PAGE_SIZE,
                roots@.len() == i,
                forall|k: int| 0 <= k < i ==> #[trigger] roots@[k] == header_roots(h@)[k],
            decreases NROOTS - i,
        {
            let v: u64 = read_le64(h.as_slice(), 16 + i * 8);
            roots.push(v);
            i = i + 1;
        }
        assert(roots@ =~= header_roots(h@));
        p.roots = roots;
        proof {
            assert(p@ =~= opened(f, at_least_eight(capacity as nat), replayed(log)));
            assert(p.wf());
        }
        Ok(p)
    }

    fn load_file(&mut self, bytes: &[u8])
        requires
            old(self)@.file == (FileSpec { pages: 0, data: Map::<u32, Seq<u8>>::empty() }),
        ensures
            final(self)@ == (PagerSpec { file: file_of(bytes@), ..old(self)@ }),
    {
        let len: usize = bytes.len();
        let pages: usize = len / PAGE_SIZE;
        let mut i: usize = 0;
        while i < pages && i as u64 <= u32::MAX as u64
            invariant
                i <= pages,
                i <= u32::MAX + 1,
                len == bytes@.len(),
                pages == len / 4096,
                self@ == (PagerSpec { file: self@.file, ..old(self)@ }),
                self@.file.pages == 0,
                forall|id: u32| #[trigger] self@.file.data.contains_key(id) <==> id < i,
                forall|id: u32| id < i ==> #[trigger] self@.file.data[id] == bytes@.subrange(id * 4096, (id + 1) * 4096),
            decreases pages - i,
        {
            let page: Vec<u8> = slice_copy(bytes, i * 4096, (i + 1) * 4096);
            let ghost d0 = self@.file.data;
            let ghost pv = page@;
            self.file.insert(i as u32, page);
            proof {
                assert(self@.file.data =~= d0.insert(i as u32, pv));
                assert(self@ =~= (PagerSpec { file: self@.file, ..old(self)@ }));
            }
            i = i + 1;
        }
        let ghost d = self@.file.data;
        self.file_pages = pages as u64;
        proof {
            let want = file_of(bytes@);
            assert(self@.file.data =~= d);
            assert forall|id: u32| #[trigger] d.contains_key(id) <==> want.data.contains_key(id) by {
                assert(want.data.contains_key(id) <==> (id + 1) * 4096 <= len);
            }
            assert forall|id: u32| d.contains_key(id) implies #[trigger] d[id] == want.data[id] by {
                assert(want.data[id] == bytes@.subrange(id * 4096, (id + 1) * 4096));
            }
            assert(d =~= want.data);
            assert(self@.file =~= want);
            assert(self@ =~= (PagerSpec { file: want, ..old(self)@ }));
        }
    }

    /// Take the committed batches that the host is to write, in order.
    pub fn take_commits(&mut self) -> (r: Vec<Vec<PageImage>>)
        requires
            old(self).wf(),
        ensures
            final(self).wf(),
            batches(r@) == old(self)@.commits,
            final(self)@ == (PagerSpec { commits: Seq::empty(), ..old(self)@ }),
            keeps_pages(old(self)@, final(self)@),
    {
        let mut r: Vec<Vec<PageImage>> = Vec::new();
        r.append(&mut self.commits);
        proof {
            assert(r@ =~= old(self).commits@);
            assert(batches(self.commits@) =~= Seq::<Seq<PageSpec>>::empty());
            assert(self@ =~= (PagerSpec { commits: Seq::empty(), ..old(self)@ }));
        }
        r
    }
}

/// The free list: a chain of distinct data pages, each of which starts with the id
/// of the next.
pub open spec fn free_chain(p: PagerSpec, free: Seq<u32>) -> bool {
    &&& free.no_duplicates()
    &&& p.free_head == chain_next(free, -1)
    &&& forall|k: int| 0 <= k < free.len() ==> free_link(p, free, k)
}

/// The page behind the one at `k`, or none.
pub open spec fn chain_next(free: Seq<u32>, k: int) -> u32 {
    if k + 1 < free.len() {
        free[k + 1]
    } else {
        0
    }
}

/// One link of the free list.
pub open spec fn free_link(p: PagerSpec, free: Seq<u32>, k: int) -> bool {
    &&& 0 < free[k] < p.page_count
    &&& contents(p, free[k]) matches Some(d) && get32(d, 0) == chain_next(free, k)
}

/// A pager whose free list is a chain and whose data pages all exist.
pub open spec fn heap_ok(p: PagerSpec, free: Seq<u32>) -> bool {
    &&& pager_ok(p)
    &&& p.page_count >= 1
    &&& free_chain(p, free)
    &&& forall|id: u32| 0 < id < p.page_count ==> (#[trigger] contents(p, id)) is Some
}

/// A data page that is not on the free list.
pub open spec fn in_use(p: PagerSpec, free: Seq<u32>, id: u32) -> bool {
    0 < id < p.page_count && !free.contains(id)
}

/// Can a page be allocated?
pub open spec fn can_alloc(p: PagerSpec) -> bool {
    p.free_head != 0 || p.page_count < u32::MAX
}

/// The page that is allocated next.
pub open spec fn next_page(p: PagerSpec) -> u32 {
    if p.free_head != 0 {
        p.free_head
    } else {
        p.page_count
    }
}

/// The free list after a page was allocated.
pub open spec fn free_after_alloc(free: Seq<u32>) -> Seq<u32> {
    if free.len() > 0 {
        free.drop_first()
    } else {
        free
    }
}

/// The pager after a page was allocated, if it can be.
pub open spec fn after_alloc(p: PagerSpec) -> PagerSpec {
    if p.free_head != 0 {
        let q = after_read(p, p.free_head);
        after_write(PagerSpec { free_head: get32(contents(p, p.free_head)->0, 0), ..q }, p.free_head, zeros())
    } else {
        after_write(PagerSpec { page_count: (p.page_count + 1) as u32, ..p }, p.page_count, zeros())
    }
}

/// The first four bytes with the id of the next free page, then zeros.
pub open spec fn free_page(next: u32) -> Seq<u8> {
    le32(next) + zeros().skip(4)
}

/// The pager after a page was freed.
pub open spec fn after_free(p: PagerSpec, id: u32) -> PagerSpec {
    PagerSpec { free_head: id, ..after_write(p, id, free_page(p.free_head)) }
}

/// What allocation does to a heap: the page was not in use and holds zeros, all
/// other pages keep what they hold, and the free list loses the page.
pub proof fn lemma_alloc(p: PagerSpec, free: Seq<u32>)
    requires
        heap_ok(p, free),
        can_alloc(p),
    ensures
        ({
            let q = after_alloc(p);
            let id = next_page(p);
            &&& heap_ok(q, free_after_alloc(free))
            &&& id != 0
            &&& !in_use(p, free, id)
            &&& in_use(q, free_after_alloc(free), id)
            &&& contents(q, id) == Some(zeros())
            &&& keeps_others(p, q, id)
            &&& q.roots == p.roots
            &&& q.page_count >= p.page_count
            &&& forall|x: u32| in_use(p, free, x) ==> #[trigger] in_use(q, free_after_alloc(free), x)
        }),
{
    let q = after_alloc(p);
    let id = next_page(p);
    let f1 = free_after_alloc(free);
    if p.free_head != 0 {
        assert(free.len() > 0);
        assert(id == free[0]);
        assert(free_link(p, free, 0));
        let r = after_read(p, id);
        lemma_after_read(p, id);
        let d = contents(p, id)->0;
        let m = PagerSpec { free_head: get32(d, 0), ..r };
        assert(pager_ok(m));
        lemma_after_write(m, id, zeros());
        assert forall|x: u32| x != 0 && x != id && contents(p, x) is Some implies #[trigger] contents(q, x) == contents(p, x) by {
            assert(contents(r, x) == contents(p, x));
            assert(contents(m, x) == contents(r, x));
        }
        assert forall|k: int| 0 <= k < f1.len() implies free_link(q, f1, k) by {
            assert(free_link(p, free, k + 1));
            assert(f1[k] == free[k + 1]);
            assert(free[k + 1] != free[0]);
            assert(contents(q, f1[k]) == contents(p, f1[k]));
            assert(chain_next(f1, k) == chain_next(free, k + 1));
        }
        assert(q.free_head == chain_next(f1, -1)) by {
            assert(get32(d, 0) == chain_next(free, 0));
        }
        assert forall|x: u32| 0 < x < q.page_count implies (#[trigger] contents(q, x)) is Some by {
            if x != id {
                assert(contents(p, x) is Some);
                assert(contents(q, x) == contents(p, x));
            }
        }
        assert(free.contains(id)) by {
            assert(free[0] == id);
        }
        assert(!f1.contains(id)) by {
            if f1.contains(id) {
                let k = choose|k: int| 0 <= k < f1.len() && f1[k] == id;
                assert(free[k + 1] == free[0]);
            }
        }
        assert forall|x: u32| in_use(p, free, x) implies #[trigger] in_use(q, f1, x) by {
            if f1.contains(x) {
                let k = choose|k: int| 0 <= k < f1.len() && f1[k] == x;
                assert(free[k + 1] == x);
                assert(free.contains(x));
            }
        }
    } else {
        assert(free.len() == 0) by {
            if free.len() > 0 {
                assert(free_link(p, free, 0));
            }
        }
        assert(f1 == free);
        let m = PagerSpec { page_count: (p.page_count + 1) as u32, ..p };
        assert(pager_ok(m));
        lemma_after_write(m, id, zeros());
        assert forall|x: u32| x != 0 && x != id && contents(p, x) is Some implies #[trigger] contents(q, x) == contents(p, x) by {
            assert(contents(m, x) == contents(p, x));
        }
        assert forall|x: u32| 0 < x < q.page_count implies (#[trigger] contents(q, x)) is Some by {
            if x != id {
                assert(contents(p, x) is Some);
                assert(contents(q, x) == contents(p, x));
            }
        }
        assert(!free.contains(id));
        assert forall|x: u32| in_use(p, free, x) implies #[trigger] in_use(q, f1, x) by {
        }
    }
}

/// What freeing does to a heap: the page goes to the front of the free list, and
/// all other pages keep what they hold.
pub proof fn lemma_free(p: PagerSpec, free: Seq<u32>, id: u32)
    requires
        heap_ok(p, free),
        in_use(p, free, id),
    ensures
        ({
            let q = after_free(p, id);
            let f1 = seq![id] + free;
            &&& heap_ok(q, f1)
            &&& keeps_others(p, q, id)
            &&& q.roots == p.roots
            &&& q.page_count == p.page_count
            &&& !in_use(q, f1, id)
            &&& forall|x: u32| x != id ==> (in_use(p, free, x) <==> #[trigger] in_use(q, f1, x))
        }),
{
    let f1 = seq![id] + free;
    let page = free_page(p.free_head);
    assert(page.len() == PAGE_SIZE);
    let m = after_write(p, id, page);
    lemma_after_write(p, id, page);
    let q = after_free(p, id);
    assert(pager_ok(q));
    assert forall|x: u32| x != 0 && x != id && contents(p, x) is Some implies #[trigger] contents(q, x) == contents(p, x) by {
        assert(contents(m, x) == contents(p, x));
    }
    assert(contents(q, id) == Some(page));
    assert(page.subrange(0, 4) =~= le32(p.free_head));
    lemma_le32(p.free_head, page, 0);
    assert(f1.no_duplicates()) by {
        assert forall|a: int, b: int| 0 <= a < f1.len() && 0 <= b < f1.len() && a != b implies f1[a] != f1[b] by {
            if a == 0 {
                assert(f1[b] == free[b - 1]);
                assert(free.contains(free[b - 1]));
            } else if b == 0 {
                assert(f1[a] == free[a - 1]);
                assert(free.contains(free[a - 1]));
            } else {
                assert(f1[a] == free[a - 1] && f1[b] == free[b - 1]);
            }
        }
    }
    assert forall|k: int| 0 <= k < f1.len() implies free_link(q, f1, k) by {
        if k == 0 {
            assert(chain_next(f1, 0) == chain_next(free, -1)) by {
                if free.len() > 0 {
                    assert(f1[1] == free[0]);
                }
            }
        } else {
            assert(free_link(p, free, k - 1));
            assert(f1[k] == free[k - 1]);
            assert(free.contains(free[k - 1]));
            assert(chain_next(f1, k) == chain_next(free, k - 1)) by {
                if k + 1 < f1.len() {
                    assert(f1[k + 1] == free[k]);
                }
            }
            assert(contents(q, f1[k]) == contents(p, f1[k]));
        }
    }
    assert forall|x: u32| 0 < x < q.page_count implies (#[trigger] contents(q, x)) is Some by {
        if x != id {
            assert(contents(p, x) is Some);
            assert(contents(q, x) == contents(p, x));
        }
    }
    assert(f1[0] == id);
    assert(f1.contains(id));
    assert forall|x: u32| x != id implies (in_use(p, free, x) <==> #[trigger] in_use(q, f1, x)) by {
        if f1.contains(x) {
            let k = choose|k: int| 0 <= k < f1.len() && f1[k] == x;
            assert(free[k - 1] == x);
        }
        if free.contains(x) {
            let k = choose|k: int| 0 <= k < free.len() && free[k] == x;
            assert(f1[k + 1] == x);
        }
    }
}

/// A freed page is the next that is allocated.
pub proof fn law_freed_is_reused(p: PagerSpec, free: Seq<u32>, id: u32)
    requires
        heap_ok(p, free),
        in_use(p, free, id),
    ensures
        can_alloc(after_free(p, id)),
        next_page(after_free(p, id)) == id,
        after_alloc(after_free(p, id)).page_count == p.page_count,
{
    lemma_free(p, free, id);
    lemma_alloc(after_free(p, id), seq![id] + free);
    let q = after_free(p, id);
    assert(free_link(q, seq![id] + free, 0));
    lemma_after_read(q, id);
    let m = PagerSpec { free_head: get32(contents(q, id)->0, 0), ..after_read(q, id) };
    lemma_after_write(m, id, zeros());
}

impl Pager {
    /// Allocate a page of zeros: the last one that was freed, else a new one.
    pub fn allocate(&mut self) -> (r: Result<PageId>)
        requires
            old(self).wf(),
        ensures
            final(self).wf(),
            ({
                let p = old(self)@;
                if p.free_head != 0 && contents(p, p.free_head) is None {
                    final(self)@ == p && (r matches Err(e) && is_eof(e))
                } else if p.free_head == 0 && p.page_count == u32::MAX {
                    final(self)@ == p && (r matches Err(e) && is_database_error(e, "page count overflow"@))
                } else if next_page(p) == 0 {
                    final(self)@ == (PagerSpec { page_count: 1, ..p }) && (r matches Err(e) && is_database_error(e, "page 0 is reserved for header"@))
                } else {
                    final(self)@ == after_alloc(p) && r == Ok::<u32, GStoreError>(next_page(p))
                }
            }),
    {
        let zero: Vec<u8> = zero_page();
        if self.free_head != 0 {
            let id: u32 = self.free_head;
            let ghost p = self@;
            let page: Vec<u8> = match self.read_page(id) {
                Ok(d) => d,
                Err(e) => {
                    return Err(e);
                },
            };
            let ghost q = self@;
            self.free_head = read_le32(page.as_slice(), 0);
            proof {
                assert(self@ =~= (PagerSpec { free_head: get32(contents(p, id)->0, 0), ..q }));
                assert(self.wf());
            }
            match self.write_page(id, &zero) {
                Ok(u) => Ok(id),
                Err(e) => Err(e),
            }
        } else {
            let id: u32 = self.page_count;
            if id == u32::MAX {
                return Err(GStoreError::Database("page count overflow".to_owned()));
            }
            let ghost p = self@;
            self.page_count = id + 1;
            proof {
                assert(self@ =~= (PagerSpec { page_count: (p.page_count + 1) as u32, ..p }));
                assert(self.wf());
            }
            match self.write_page(id, &zero) {
                Ok(u) => Ok(id),
                Err(e) => Err(e),
            }
        }
    }

    /// Put a page on the free list.
    pub fn free(&mut self, id: PageId) -> (r: Result<()>)
        requires
            old(self).wf(),
        ensures
            final(self).wf(),
            r is Ok <==> id != 0,
            r matches Err(e) ==> is_database_error(e, "page 0 is reserved for header"@) && final(self)@ == old(self)@,
            r is Ok ==> final(self)@ == after_free(old(self)@, id),
    {
        if id == 0 {
            return Err(GStoreError::Database("page 0 is reserved for header".to_owned()));
        }
        let mut page: Vec<u8> = Vec::new();
        push_le32(&mut page, self.free_head);
        let ghost head = page@;
        while page.len() < PAGE_SIZE
            invariant
                4 <= page@.len() <= PAGE_SIZE,
                page@.take(4) =~= head,
                forall|k: int| 4 <= k < page@.len() ==> page@[k] == 0,
            decreases PAGE_SIZE - page.len(),
        {
            page.push(0);
        }
        proof {
            let want = free_page(self@.free_head);
            assert forall|k: int| 0 <= k < page@.len() implies page@[k] == want[k] by {
                if k < 4 {
                    assert(page@.take(4)[k] == head[k]);
                }
            }
            assert(page@ =~= want);
        }
        match self.write_page(id, &page) {
            Err(e) => Err(e),
            Ok(u) => {
                let ghost q = self@;
                self.free_head = id;
                proof {
                    assert(self@ =~= (PagerSpec { free_head: id, ..q }));
                }
                Ok(())
            },
        }
    }
}

} // verus!
