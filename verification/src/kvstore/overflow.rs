//! Values that are longer than a page, kept in chains of pages.
//!
//! The first four bytes of a chain page hold the id of the next page, 0 at the end;
//! the rest holds a part of the value.

use super::heap::{drop_page, get_page, heap, lemma_heap, lemma_same_heap, pages_left, put_page, sound, take_page, Pages};
use super::pager::{after_read, chain_next, contents, is_eof, keeps_pages, lemma_after_read, same_header, Pager, PagerSpec};
use super::wal::{PageId, PAGE_SIZE};
use crate::codec::{get32, le32, lemma_le32, push_le32, push_slice, read_le32, slice_copy};
use crate::db::logs::is_database_error;
use crate::error::Result;
use vstd::prelude::*;

verus! {

/// Bytes of a value in one chain page.
pub const CHAIN_PAYLOAD: usize = 4092;

/// How many pages a value takes: at least one.
pub open spec fn chain_len(len: nat) -> nat {
    if len == 0 {
        1
    } else {
        ((len + CHAIN_PAYLOAD - 1) / CHAIN_PAYLOAD as int) as nat
    }
}

/// The part of a value that goes to page `k` of its chain.
pub open spec fn chain_part(data: Seq<u8>, k: int) -> Seq<u8> {
    let from = k * CHAIN_PAYLOAD;
    let to = if from + CHAIN_PAYLOAD < data.len() {
        from + CHAIN_PAYLOAD
    } else {
        data.len() as int
    };
    if from < to {
        data.subrange(from, to)
    } else {
        Seq::empty()
    }
}

/// Page `k` of the chain of a value.
pub open spec fn chain_page(data: Seq<u8>, k: int, next: u32) -> Seq<u8> {
    let part = chain_part(data, k);
    le32(next) + part + Seq::new((CHAIN_PAYLOAD - part.len()) as nat, |i: int| 0u8)
}

/// The pages hold the chain of a value.
pub open spec fn chain_holds(h: Pages, ids: Seq<u32>, data: Seq<u8>) -> bool {
    &&& ids.len() == chain_len(data.len())
    &&& ids.no_duplicates()
    &&& forall|k: int| 0 <= k < ids.len() ==> chain_page_at(h, ids, data, k)
}

/// One page of a chain.
pub open spec fn chain_page_at(h: Pages, ids: Seq<u32>, data: Seq<u8>, k: int) -> bool {
    ids[k] != 0 && h.contains_key(ids[k]) && h[ids[k]] == chain_page(data, k, chain_next(ids, k))
}

/// The pages are linked, and the last links to none.
pub open spec fn chain_linked(h: Pages, ids: Seq<u32>) -> bool {
    &&& ids.no_duplicates()
    &&& forall|k: int| 0 <= k < ids.len() ==> chain_link(h, ids, k)
}

/// One link of a chain.
pub open spec fn chain_link(h: Pages, ids: Seq<u32>, k: int) -> bool {
    ids[k] != 0 && h.contains_key(ids[k]) && get32(h[ids[k]], 0) == chain_next(ids, k)
}

/// Following a chain for `len` bytes: the bytes, or none where the file ends.
pub open spec fn chain_read(p: PagerSpec, head: u32, len: nat) -> Option<Seq<u8>>
    decreases len,
{
    if head == 0 || len == 0 {
        Some(Seq::empty())
    } else {
        match contents(p, head) {
            None => None,
            Some(d) => {
                let take: nat = chain_take(len);
                match chain_read(after_read(p, head), get32(d, 0), (len - take) as nat) {
                    None => None,
                    Some(rest) => Some(d.subrange(4, 4 + take as int) + rest),
                }
            },
        }
    }
}

/// How many of `len` bytes the next page of a chain holds.
pub open spec fn chain_take(len: nat) -> nat {
    if len < CHAIN_PAYLOAD {
        len
    } else {
        CHAIN_PAYLOAD as nat
    }
}

/// The pager after a chain was followed.
pub open spec fn chain_walked(p: PagerSpec, head: u32, len: nat) -> PagerSpec
    decreases len,
{
    if head == 0 || len == 0 {
        p
    } else {
        match contents(p, head) {
            None => after_read(p, head),
            Some(d) => chain_walked(after_read(p, head), get32(d, 0), (len - chain_take(len)) as nat),
        }
    }
}

/// The chain of a value is linked.
pub proof fn lemma_holds_linked(h: Pages, ids: Seq<u32>, data: Seq<u8>)
    requires
        chain_holds(h, ids, data),
    ensures
        chain_linked(h, ids),
{
    assert forall|k: int| 0 <= k < ids.len() implies chain_link(h, ids, k) by {
        assert(chain_page_at(h, ids, data, k));
        let d = h[ids[k]];
        assert(d.subrange(0, 4) =~= le32(chain_next(ids, k)));
        lemma_le32(chain_next(ids, k), d, 0);
    }
}

/// What is left of a value behind its first `k` pages.
pub open spec fn chain_rest(data: Seq<u8>, k: int) -> Seq<u8> {
    if k * CHAIN_PAYLOAD < data.len() {
        data.skip(k * CHAIN_PAYLOAD)
    } else {
        Seq::empty()
    }
}

proof fn lemma_chain_read_from(p: PagerSpec, h: Pages, ids: Seq<u32>, data: Seq<u8>, k: int)
    requires
        sound(p),
        heap(p) == h,
        chain_holds(h, ids, data),
        0 <= k <= ids.len(),
    ensures
        chain_read(p, chain_next(ids, k - 1), chain_rest(data, k).len()) == Some(chain_rest(data, k)),
    decreases ids.len() - k,
{
    if k * CHAIN_PAYLOAD < data.len() {
        assert(k < ids.len());
        let rest = chain_rest(data, k);
        let len = rest.len();
        let id = ids[k];
        assert(chain_next(ids, k - 1) == id);
        assert(chain_page_at(h, ids, data, k));
        lemma_heap(p);
        assert(contents(p, id) == Some(h[id]));
        lemma_holds_linked(h, ids, data);
        assert(chain_link(h, ids, k));
        let d = h[id];
        let take = chain_take(len);
        assert(chain_part(data, k).len() == take);
        assert(d.subrange(4, 4 + take as int) =~= chain_part(data, k));
        lemma_after_read(p, id);
        lemma_same_heap(p, after_read(p, id));
        lemma_chain_read_from(after_read(p, id), h, ids, data, k + 1);
        assert((k + 1) * CHAIN_PAYLOAD == k * CHAIN_PAYLOAD + CHAIN_PAYLOAD);
        assert(chain_rest(data, k + 1).len() == (len - take) as nat);
        assert(chain_part(data, k) + chain_rest(data, k + 1) =~= rest);
    }
}

/// Reading a chain gives back what was written to it.
pub proof fn law_chain_roundtrip(p: PagerSpec, ids: Seq<u32>, data: Seq<u8>)
    requires
        sound(p),
        chain_holds(heap(p), ids, data),
    ensures
        chain_read(p, ids[0], data.len()) == Some(data),
{
    assert(ids.len() > 0);
    lemma_chain_read_from(p, heap(p), ids, data, 0);
    assert(chain_rest(data, 0) =~= data);
    assert(chain_next(ids, -1) == ids[0]);
}

/// Follow the chain from `head` until it ends or `len` bytes are there.
pub fn read_chain(pager: &mut Pager, head: PageId, len: usize) -> (r: Result<Vec<u8>>)
    requires
        old(pager).wf(),
    ensures
        final(pager).wf(),
        final(pager)@ == chain_walked(old(pager)@, head, len as nat),
        same_header(old(pager)@, final(pager)@),
        keeps_pages(old(pager)@, final(pager)@),
        match chain_read(old(pager)@, head, len as nat) {
            Some(d) => r matches Ok(v) && v@ == d,
            None => r matches Err(e) && is_eof(e),
        },
{
    let mut out: Vec<u8> = Vec::new();
    let mut id: PageId = head;
    let ghost p = pager@;
    let ghost want = chain_read(p, head, len as nat);
    proof {
        if want is Some {
            assert(out@ + want->0 =~= want->0);
        }
    }
    while id != 0 && out.len() < len
        invariant
            pager.wf(),
            p == old(pager)@,
            out@.len() <= len,
            same_header(p, pager@),
            keeps_pages(p, pager@),
            want == chain_read(p, head, len as nat),
            chain_walked(p, head, len as nat) == chain_walked(pager@, id, (len - out@.len()) as nat),
            match want {
                Some(w) => chain_read(pager@, id, (len - out@.len()) as nat) matches Some(rest) && w == out@ + rest,
                None => chain_read(pager@, id, (len - out@.len()) as nat) is None,
            },
        decreases len - out.len(),
    {
        let ghost before = pager@;
        let ghost left = (len - out@.len()) as nat;
        let ghost o0 = out@;
        let page: Vec<u8> = match pager.read_page(id) {
            Ok(d) => d,
            Err(e) => {
                return Err(e);
            },
        };
        let next: u32 = read_le32(page.as_slice(), 0);
        let room: usize = len - out.len();
        let take: usize = if room < CHAIN_PAYLOAD { room } else { CHAIN_PAYLOAD };
        let part: Vec<u8> = slice_copy(page.as_slice(), 4, 4 + take);
        push_slice(&mut out, part.as_slice());
        proof {
            let rest = chain_read(pager@, next, (left - take) as nat);
            if want is Some {
                assert(o0 + (part@ + rest->0) =~= out@ + rest->0);
            }
        }
        id = next;
    }
    proof {
        if want is Some {
            assert(want->0 =~= out@);
        }
    }
    Ok(out)
}

proof fn lemma_push_set(s: Seq<u32>, id: u32)
    ensures
        s.push(id).to_set() == s.to_set().insert(id),
{
    let t = s.push(id);
    assert forall|x: u32| t.to_set().contains(x) <==> s.to_set().insert(id).contains(x) by {
        if s.contains(x) {
            let j = choose|j: int| 0 <= j < s.len() && s[j] == x;
            assert(t[j] == x);
        }
        if t.contains(x) && x != id {
            let j = choose|j: int| 0 <= j < t.len() && t[j] == x;
            assert(s[j] == x);
        }
        assert(t[s.len() as int] == id);
    }
    assert(t.to_set() =~= s.to_set().insert(id));
}

/// The pages of a chain go to `h`, its other pages stay.
pub open spec fn chain_added(h: Pages, q: Pages, ids: Seq<u32>, data: Seq<u8>) -> bool {
    &&& chain_holds(q, ids, data)
    &&& forall|k: int| 0 <= k < ids.len() ==> !h.contains_key(#[trigger] ids[k])
    &&& q.dom() == h.dom().union(ids.to_set())
    &&& forall|x: u32| #[trigger] h.contains_key(x) ==> q[x] == h[x]
}

fn pages_for(len: usize) -> (n: usize)
    ensures
        n == chain_len(len as nat),
        n * CHAIN_PAYLOAD >= len,
        n >= 1,
{
    if len == 0 {
        1
    } else {
        let n: usize = (len - 1) / CHAIN_PAYLOAD + 1;
        assert(n == chain_len(len as nat)) by {
            assert((len + CHAIN_PAYLOAD - 1) / CHAIN_PAYLOAD as int == (len - 1) / CHAIN_PAYLOAD as int + 1) by (nonlinear_arith)
                requires
                    len >= 1,
                    CHAIN_PAYLOAD == 4092,
            ;
        }
        n
    }
}

/// One page of a chain as bytes.
fn page_of(data: &[u8], k: usize, next: u32) -> (r: Vec<u8>)
    requires
        k * CHAIN_PAYLOAD <= usize::MAX,
    ensures
        r@ == chain_page(data@, k as int, next),
        r@.len() == PAGE_SIZE,
{
    let mut page: Vec<u8> = Vec::new();
    push_le32(&mut page, next);
    let total: usize = data.len();
    let from: usize = k * CHAIN_PAYLOAD;
    if from < total {
        let to: usize = if total - from > CHAIN_PAYLOAD { from + CHAIN_PAYLOAD } else { total };
        let part: Vec<u8> = slice_copy(data, from, to);
        push_slice(&mut page, part.as_slice());
        assert(part@ == chain_part(data@, k as int));
    }
    let ghost head = page@;
    assert(head =~= le32(next) + chain_part(data@, k as int));
    while page.len() < PAGE_SIZE
        invariant
            head.len() <= page@.len() <= PAGE_SIZE,
            page@.take(head.len() as int) =~= head,
            forall|i: int| head.len() <= i < page@.len() ==> page@[i] == 0,
        decreases PAGE_SIZE - page.len(),
    {
        page.push(0);
    }
    proof {
        let want = chain_page(data@, k as int, next);
        assert(want.len() == page@.len());
        assert forall|i: int| 0 <= i < page@.len() implies page@[i] == want[i] by {
            if i < head.len() {
                assert(page@.take(head.len() as int)[i] == head[i]);
            }
        }
        assert(page@ =~= want);
    }
    page
}

/// Write a value to a new chain and return its first page. Fails if there are not
/// enough pages; the pages that could be had stay allocated.
pub fn write_chain(pager: &mut Pager, data: &[u8]) -> (r: Result<PageId>)
    requires
        old(pager).wf(),
        sound(old(pager)@),
    ensures
        final(pager).wf(),
        sound(final(pager)@),
        final(pager)@.roots == old(pager)@.roots,
        r is Ok <==> pages_left(old(pager)@) >= chain_len(data@.len()),
        r matches Ok(head) ==> {
            &&& pages_left(final(pager)@) == pages_left(old(pager)@) - chain_len(data@.len())
            &&& exists|ids: Seq<u32>| #[trigger] chain_added(heap(old(pager)@), heap(final(pager)@), ids, data@) && ids[0] == head
        },
        r matches Err(e) ==> {
            &&& is_database_error(e, "page count overflow"@)
            &&& pages_left(final(pager)@) == 0
            &&& forall|x: u32| #[trigger] heap(old(pager)@).contains_key(x) ==> heap(final(pager)@).contains_key(x) && heap(final(pager)@)[x] == heap(old(pager)@)[x]
        },
{
    let ghost p = pager@;
    let ghost h = heap(p);
    let total: usize = data.len();
    let n: usize = pages_for(total);
    let mut ids: Vec<PageId> = Vec::new();
    while ids.len() < n
        invariant
            pager.wf(),
            sound(pager@),
            p == old(pager)@,
            h == heap(p),
            n == chain_len(data@.len()),
            pager@.roots == p.roots,
            ids@.len() <= n,
            pages_left(pager@) == pages_left(p) - ids@.len(),
            pages_left(pager@) >= 0 || ids@.len() == 0,
            ids@.no_duplicates(),
            forall|k: int| 0 <= k < ids@.len() ==> ids@[k] != 0 && !h.contains_key(#[trigger] ids@[k]),
            heap(pager@).dom() == h.dom().union(ids@.to_set()),
            forall|x: u32| #[trigger] h.contains_key(x) ==> heap(pager@)[x] == h[x],
        decreases n - ids.len(),
    {
        let ghost i0 = ids@;
        let ghost h0 = heap(pager@);
        let id: PageId = match take_page(pager) {
            Ok(id) => id,
            Err(e) => {
                assert forall|x: u32| #[trigger] h.contains_key(x) implies heap(pager@).contains_key(x) && heap(pager@)[x] == h[x] by {
                    assert(heap(pager@).dom().contains(x));
                }
                return Err(e);
            },
        };
        ids.push(id);
        proof {
            assert(!h0.dom().contains(id));
            assert(!i0.contains(id)) by {
                if i0.contains(id) {
                    assert(i0.to_set().contains(id));
                }
            }
            assert forall|a: int, b: int| 0 <= a < b < ids@.len() implies ids@[a] != ids@[b] by {
                if b == i0.len() {
                    assert(i0[a] == ids@[a]);
                }
            }
            lemma_push_set(i0, id);
            assert(heap(pager@).dom() =~= h.dom().union(ids@.to_set()));
        }
    }
    let ghost all = ids@;
    let mut i: usize = 0;
    while i < n
        invariant
            pager.wf(),
            sound(pager@),
            p == old(pager)@,
            h == heap(p),
            n == chain_len(data@.len()),
            n >= 1,
            total == data@.len(),
            (n - 1) * CHAIN_PAYLOAD <= total,
            pager@.roots == p.roots,
            ids@ == all,
            all.len() == n,
            i <= n,
            pages_left(pager@) == pages_left(p) - n,
            all.no_duplicates(),
            forall|k: int| 0 <= k < all.len() ==> all[k] != 0 && !h.contains_key(#[trigger] all[k]),
            heap(pager@).dom() == h.dom().union(all.to_set()),
            forall|x: u32| #[trigger] h.contains_key(x) ==> heap(pager@)[x] == h[x],
            forall|k: int| 0 <= k < i ==> chain_page_at(heap(pager@), all, data@, k),
        decreases n - i,
    {
        let next: PageId = if i + 1 < n { ids[i + 1] } else { 0 };
        assert(i * CHAIN_PAYLOAD <= (n - 1) * CHAIN_PAYLOAD) by (nonlinear_arith)
            requires
                i <= n - 1,
        ;
        let page: Vec<u8> = page_of(data, i, next);
        let ghost h0 = heap(pager@);
        assert(all.to_set().contains(all[i as int]));
        assert(h0.dom().contains(all[i as int]));
        put_page(pager, ids[i], &page);
        proof {
            let h1 = heap(pager@);
            assert forall|k: int| 0 <= k < i + 1 implies chain_page_at(h1, all, data@, k) by {
                if k < i {
                    assert(chain_page_at(h0, all, data@, k));
                    assert(all[k] != all[i as int]);
                }
            }
            assert(h1.dom() =~= h0.dom());
        }
        i = i + 1;
    }
    proof {
        assert(chain_holds(heap(pager@), all, data@));
        assert(chain_added(h, heap(pager@), all, data@));
    }
    Ok(ids[0])
}

/// Put all pages of a chain on the free list.
pub fn free_chain(pager: &mut Pager, head: PageId) -> (r: Result<()>)
    requires
        old(pager).wf(),
        sound(old(pager)@),
        exists|ids: Seq<u32>| #[trigger] chain_linked(heap(old(pager)@), ids) && head == chain_next(ids, -1),
    ensures
        final(pager).wf(),
        sound(final(pager)@),
        final(pager)@.roots == old(pager)@.roots,
        r is Ok,
        forall|ids: Seq<u32>| #[trigger] chain_linked(heap(old(pager)@), ids) && head == chain_next(ids, -1) ==> {
            &&& heap(final(pager)@) == heap(old(pager)@).remove_keys(ids.to_set())
            &&& pages_left(final(pager)@) == pages_left(old(pager)@) + ids.len()
        },
{
    let ghost p = pager@;
    let ghost h = heap(p);
    let ghost ids = choose|ids: Seq<u32>| #[trigger] chain_linked(h, ids) && head == chain_next(ids, -1);
    let ghost mut n: int = 0;
    let mut id: PageId = head;
    proof {
        assert(ids.take(0).to_set() =~= Set::<u32>::empty());
        assert(h.remove_keys(ids.take(0).to_set()) =~= h);
    }
    while id != 0
        invariant
            pager.wf(),
            sound(pager@),
            p == old(pager)@,
            h == heap(p),
            pager@.roots == p.roots,
            chain_linked(h, ids),
            0 <= n <= ids.len(),
            id == chain_next(ids, n - 1),
            heap(pager@) == h.remove_keys(ids.take(n).to_set()),
            pages_left(pager@) == pages_left(p) + n,
        decreases ids.len() - n,
    {
        assert(chain_link(h, ids, n));
        proof {
            if ids.take(n).contains(id) {
                let j = choose|j: int| 0 <= j < n && ids.take(n)[j] == id;
                assert(ids[j] == id);
            }
        }
        let page: Vec<u8> = get_page(pager, id);
        let next: u32 = read_le32(page.as_slice(), 0);
        drop_page(pager, id);
        proof {
            assert(ids.take(n + 1) =~= ids.take(n).push(id));
            lemma_push_set(ids.take(n), id);
            assert(heap(pager@) =~= h.remove_keys(ids.take(n + 1).to_set()));
            n = n + 1;
        }
        id = next;
    }
    proof {
        if n < ids.len() {
            assert(chain_link(h, ids, n));
        }
        assert(ids.take(n) =~= ids);
        assert forall|other: Seq<u32>| #[trigger] chain_linked(h, other) && head == chain_next(other, -1) implies other == ids by {
            lemma_chain_unique(h, ids, other);
        }
    }
    Ok(())
}

proof fn lemma_chain_same(h: Pages, a: Seq<u32>, b: Seq<u32>, k: int)
    requires
        chain_linked(h, a),
        chain_linked(h, b),
        chain_next(a, -1) == chain_next(b, -1),
        0 <= k < a.len(),
    ensures
        k < b.len(),
        a[k] == b[k],
    decreases k,
{
    assert(chain_link(h, a, k));
    if k > 0 {
        lemma_chain_same(h, a, b, k - 1);
        assert(chain_link(h, a, k - 1));
        assert(chain_link(h, b, k - 1));
    }
}

/// A page starts one chain.
pub proof fn lemma_chain_unique(h: Pages, a: Seq<u32>, b: Seq<u32>)
    requires
        chain_linked(h, a),
        chain_linked(h, b),
        chain_next(a, -1) == chain_next(b, -1),
    ensures
        a == b,
{
    assert(a.len() == b.len()) by {
        if a.len() > b.len() {
            lemma_chain_same(h, a, b, b.len() as int);
        }
        if a.len() < b.len() {
            lemma_chain_same(h, b, a, a.len() as int);
        }
    }
    assert forall|k: int| 0 <= k < a.len() implies a[k] == b[k] by {
        lemma_chain_same(h, a, b, k);
    }
    assert(a =~= b);
}

/// A chain that is written and freed leaves the pages as they were.
pub proof fn law_freed_chain_is_gone(h: Pages, q: Pages, ids: Seq<u32>, data: Seq<u8>)
    requires
        chain_added(h, q, ids, data),
    ensures
        chain_linked(q, ids),
        q.remove_keys(ids.to_set()) == h,
{
    lemma_holds_linked(q, ids, data);
    let r = q.remove_keys(ids.to_set());
    assert forall|x: u32| r.contains_key(x) <==> h.contains_key(x) by {
        assert(q.dom().contains(x) <==> h.dom().contains(x) || ids.to_set().contains(x));
        if ids.contains(x) {
            let k = choose|k: int| 0 <= k < ids.len() && ids[k] == x;
            assert(!h.contains_key(ids[k]));
        }
    }
    assert(r =~= h);
}

} // verus!
