//! An array of values by integer key, in pages.
//!
//! A key selects a slot of a directory page, which two levels of table pages lead
//! to. A short value stands in the slot itself, a longer one in a chain of pages.

use super::heap::{get_page, heap, lemma_heap, lemma_same_heap, pages_left, put_page, put_root, sound, take_page, Pages};
use super::overflow::{chain_added, chain_holds, chain_len, chain_linked, chain_page_at, chain_read, chain_walked, free_chain, law_chain_roundtrip, lemma_chain_unique, lemma_holds_linked, read_chain, write_chain};
use super::pager::{after_read, chain_next, contents, is_eof, keeps_pages, lemma_after_read, same_header, Pager, PagerSpec, NROOTS};
use super::wal::{zeros, PageId, PAGE_SIZE};
use crate::codec::{get32, le32, lemma_le32, push_le32, push_slice, read_le32, slice_copy};
use crate::db::logs::is_database_error;
use crate::error::{join3, GStoreError, Result};
use crate::text::{decimal, decimal_of};
use vstd::prelude::*;

verus! {

/// Bytes of a slot.
pub const SLOT_SIZE: usize = 128;

/// Slots of a directory page.
pub const SLOTS_PER_DIR: u32 = 32;

/// Entries of a table page.
pub const PT_FANOUT: u32 = 1024;

/// The longest value that stands in a slot.
pub const INLINE_CAP: usize = 123;

/// How many keys can be addressed.
pub const KEYS: u32 = 33554432;

/// What a page of an array is for.
pub ghost enum Owner {
    L0,
    L1(int),
    Dir(int, int),
    Chain(u32, int),
}

/// The chain of a key.
pub ghost struct ChainSpec {
    pub ids: Seq<u32>,
    pub data: Seq<u8>,
}

/// What the pages of an array are for, and the chains of its long values.
pub ghost struct Layout {
    pub own: Map<u32, Owner>,
    pub chains: Map<u32, ChainSpec>,
}

/// The index in the first table.
pub open spec fn at0(key: u32) -> int {
    (key / SLOTS_PER_DIR / PT_FANOUT) as int
}

/// The index in the second table.
pub open spec fn at1(key: u32) -> int {
    ((key / SLOTS_PER_DIR) % PT_FANOUT) as int
}

/// The slot in the directory page.
pub open spec fn at2(key: u32) -> int {
    (key % SLOTS_PER_DIR) as int
}

/// Entry `i` of a table page.
pub open spec fn entry(page: Seq<u8>, i: int) -> u32 {
    get32(page, i * 4)
}

/// The second table with index `i`, or 0.
pub open spec fn l1_of(h: Pages, l0: u32, i: int) -> u32 {
    if l0 == 0 {
        0
    } else {
        entry(h[l0], i)
    }
}

/// The directory page with indices `i` and `j`, or 0.
pub open spec fn dir_of(h: Pages, l0: u32, i: int, j: int) -> u32 {
    let l1 = l1_of(h, l0, i);
    if l1 == 0 {
        0
    } else {
        entry(h[l1], j)
    }
}

/// A slot without a value.
pub open spec fn empty_slot() -> Seq<u8> {
    Seq::new(SLOT_SIZE as nat, |i: int| 0u8)
}

/// Slot `s` of a directory page.
pub open spec fn slot_in(page: Seq<u8>, s: int) -> Seq<u8> {
    page.subrange(s * SLOT_SIZE, s * SLOT_SIZE + SLOT_SIZE)
}

/// The slot of a key.
pub open spec fn slot_of(h: Pages, l0: u32, key: u32) -> Seq<u8> {
    let dir = dir_of(h, l0, at0(key), at1(key));
    if dir == 0 {
        empty_slot()
    } else {
        slot_in(h[dir], at2(key))
    }
}

/// A table page in use.
pub open spec fn l1_ok(h: Pages, l0: u32, lay: Layout, i: int) -> bool {
    let l1 = l1_of(h, l0, i);
    l1 != 0 ==> h.contains_key(l1) && lay.own.contains_key(l1) && lay.own[l1] == Owner::L1(i)
}

/// A directory page in use.
pub open spec fn dir_ok(h: Pages, l0: u32, lay: Layout, i: int, j: int) -> bool {
    let dir = dir_of(h, l0, i, j);
    dir != 0 ==> h.contains_key(dir) && lay.own.contains_key(dir) && lay.own[dir] == Owner::Dir(i, j)
}

/// The chain of a key is in place and its pages belong to it.
pub open spec fn chain_owned(h: Pages, lay: Layout, key: u32, head: u32, len: u32) -> bool {
    &&& lay.chains.contains_key(key)
    &&& chain_holds(h, lay.chains[key].ids, lay.chains[key].data)
    &&& lay.chains[key].ids[0] == head
    &&& lay.chains[key].data.len() == len
    &&& forall|k: int| 0 <= k < lay.chains[key].ids.len() ==> owns_link(lay, key, k)
}

/// A page of a chain belongs to its key.
pub open spec fn owns_link(lay: Layout, key: u32, k: int) -> bool {
    let id = lay.chains[key].ids[k];
    lay.own.contains_key(id) && lay.own[id] == Owner::Chain(key, k)
}

/// A slot is empty, holds a short value, or leads to the chain of its key.
pub open spec fn slot_ok(h: Pages, lay: Layout, key: u32, s: Seq<u8>) -> bool {
    ||| s[0] == 0
    ||| s[0] == 1 && get32(s, 1) <= INLINE_CAP
    ||| s[0] == 2 && chain_owned(h, lay, key, get32(s, 5), get32(s, 1))
}

/// The pages hold an array that is rooted at `l0`.
#[verifier::opaque]
pub open spec fn array_at(h: Pages, l0: u32, lay: Layout) -> bool {
    &&& forall|x: u32| #[trigger] lay.own.contains_key(x) ==> h.contains_key(x)
    &&& l0 != 0 ==> h.contains_key(l0) && lay.own.contains_key(l0) && lay.own[l0] == Owner::L0
    &&& forall|i: int| 0 <= i < PT_FANOUT ==> #[trigger] l1_ok(h, l0, lay, i)
    &&& forall|i: int, j: int| 0 <= i < PT_FANOUT && 0 <= j < PT_FANOUT ==> #[trigger] dir_ok(h, l0, lay, i, j)
    &&& forall|key: u32| key < KEYS ==> slot_ok(h, lay, key, #[trigger] slot_of(h, l0, key))
}

/// All pages have the right size, and none has the id 0.
pub open spec fn pages_ok(h: Pages) -> bool {
    !h.contains_key(0) && forall|x: u32| #[trigger] h.contains_key(x) ==> h[x].len() == PAGE_SIZE
}

/// The value of a slot.
pub open spec fn slot_value(lay: Layout, key: u32, s: Seq<u8>) -> Option<Seq<u8>> {
    if s[0] == 0 {
        None
    } else if s[0] == 1 {
        Some(s.subrange(5, 5 + get32(s, 1)))
    } else {
        Some(lay.chains[key].data)
    }
}

/// The value of a key.
pub open spec fn value_in(h: Pages, l0: u32, lay: Layout, key: u32) -> Option<Seq<u8>> {
    slot_value(lay, key, slot_of(h, l0, key))
}

proof fn lemma_key_parts(a: u32, b: u32)
    ensures
        at0(a) == at0(b) && at1(a) == at1(b) && at2(a) == at2(b) ==> a == b,
        a < KEYS ==> 0 <= at0(a) < PT_FANOUT,
        0 <= at1(a) < PT_FANOUT,
        0 <= at2(a) < SLOTS_PER_DIR,
        a >= KEYS ==> at0(a) >= PT_FANOUT,
{
}

/// Pages outside of the array may change.
proof fn lemma_frame(h: Pages, q: Pages, l0: u32, lay: Layout)
    requires
        array_at(h, l0, lay),
        forall|x: u32| #[trigger] lay.own.contains_key(x) ==> q.contains_key(x) && q[x] == h[x],
    ensures
        array_at(q, l0, lay),
        forall|key: u32| key < KEYS ==> #[trigger] slot_of(q, l0, key) == slot_of(h, l0, key),
        forall|i: int| 0 <= i < PT_FANOUT ==> #[trigger] l1_of(q, l0, i) == l1_of(h, l0, i),
        forall|i: int, j: int| 0 <= i < PT_FANOUT && 0 <= j < PT_FANOUT ==> #[trigger] dir_of(q, l0, i, j) == dir_of(h, l0, i, j),
{
    reveal(array_at);
    assert forall|i: int| 0 <= i < PT_FANOUT implies #[trigger] l1_of(q, l0, i) == l1_of(h, l0, i) && l1_ok(q, l0, lay, i) by {
        assert(l1_ok(h, l0, lay, i));
    }
    assert forall|i: int, j: int| 0 <= i < PT_FANOUT && 0 <= j < PT_FANOUT implies #[trigger] dir_of(q, l0, i, j) == dir_of(h, l0, i, j) && dir_ok(q, l0, lay, i, j) by {
        assert(l1_ok(h, l0, lay, i));
        assert(dir_ok(h, l0, lay, i, j));
        assert(l1_of(q, l0, i) == l1_of(h, l0, i));
    }
    assert forall|key: u32| key < KEYS implies #[trigger] slot_of(q, l0, key) == slot_of(h, l0, key) && slot_ok(q, lay, key, slot_of(q, l0, key)) by {
        lemma_key_parts(key, key);
        assert(dir_ok(h, l0, lay, at0(key), at1(key)));
        assert(dir_of(q, l0, at0(key), at1(key)) == dir_of(h, l0, at0(key), at1(key)));
        let s = slot_of(h, l0, key);
        assert(slot_ok(h, lay, key, s));
        if s[0] == 2 && chain_owned(h, lay, key, get32(s, 5), get32(s, 1)) {
            let c = lay.chains[key];
            assert forall|k: int| 0 <= k < c.ids.len() implies chain_page_at(q, c.ids, c.data, k) by {
                assert(chain_page_at(h, c.ids, c.data, k));
                assert(owns_link(lay, key, k));
            }
            assert(chain_holds(q, c.ids, c.data));
        }
    }
    assert forall|i: int| 0 <= i < PT_FANOUT implies #[trigger] l1_ok(q, l0, lay, i) by {
        assert(l1_of(q, l0, i) == l1_of(h, l0, i));
    }
    assert forall|i: int, j: int| 0 <= i < PT_FANOUT && 0 <= j < PT_FANOUT implies #[trigger] dir_ok(q, l0, lay, i, j) by {
        assert(dir_of(q, l0, i, j) == dir_of(h, l0, i, j));
    }
}

proof fn lemma_zero_entry(i: int)
    requires
        0 <= i < PT_FANOUT,
    ensures
        entry(zeros(), i) == 0,
{
    let z = zeros();
    assert(z.subrange(i * 4, i * 4 + 4) =~= le32(0));
    lemma_le32(0, z, i * 4);
}

proof fn lemma_zero_slot(s: int)
    requires
        0 <= s < SLOTS_PER_DIR,
    ensures
        slot_in(zeros(), s) == empty_slot(),
{
    assert(slot_in(zeros(), s) =~= empty_slot());
}

/// An array without pages.
proof fn lemma_no_array(h: Pages, lay: Layout)
    requires
        lay.own == Map::<u32, Owner>::empty(),
    ensures
        array_at(h, 0, lay),
        forall|key: u32| #[trigger] slot_of(h, 0, key) == empty_slot(),
{
    reveal(array_at);
    assert forall|i: int, j: int| dir_of(h, 0, i, j) == 0 by {}
    assert forall|i: int, j: int| 0 <= i < PT_FANOUT && 0 <= j < PT_FANOUT implies #[trigger] dir_ok(h, 0, lay, i, j) by {
        assert(dir_of(h, 0, i, j) == 0);
    }
    assert forall|key: u32| #[trigger] slot_of(h, 0, key) == empty_slot() by {
        assert(dir_of(h, 0, at0(key), at1(key)) == 0);
    }
}

/// A new first table.
proof fn lemma_new_l0(h: Pages, id: u32, lay: Layout) -> (r: Layout)
    requires
        array_at(h, 0, lay),
        id != 0,
        h.contains_key(id),
        h[id] == zeros(),
        !lay.own.contains_key(id),
    ensures
        r == (Layout { own: lay.own.insert(id, Owner::L0), ..lay }),
        array_at(h, id, r),
        forall|key: u32| key < KEYS ==> #[trigger] slot_of(h, id, key) == slot_of(h, 0, key),
{
    reveal(array_at);
    let r = Layout { own: lay.own.insert(id, Owner::L0), ..lay };
    assert forall|i: int| 0 <= i < PT_FANOUT implies #[trigger] l1_of(h, id, i) == 0 by {
        lemma_zero_entry(i);
    }
    assert forall|i: int, j: int| 0 <= i < PT_FANOUT && 0 <= j < PT_FANOUT implies #[trigger] dir_of(h, id, i, j) == 0 by {
        assert(l1_of(h, id, i) == 0);
    }
    assert forall|i: int| 0 <= i < PT_FANOUT implies #[trigger] l1_ok(h, id, r, i) by {
        assert(l1_of(h, id, i) == 0);
    }
    assert forall|i: int, j: int| 0 <= i < PT_FANOUT && 0 <= j < PT_FANOUT implies #[trigger] dir_ok(h, id, r, i, j) by {
        assert(dir_of(h, id, i, j) == 0);
    }
    assert forall|key: u32| key < KEYS implies #[trigger] slot_of(h, id, key) == slot_of(h, 0, key) by {
        lemma_key_parts(key, key);
        assert(dir_of(h, id, at0(key), at1(key)) == 0);
        assert(dir_of(h, 0, at0(key), at1(key)) == 0);
    }
    assert forall|key: u32| key < KEYS implies slot_ok(h, r, key, #[trigger] slot_of(h, id, key)) by {
        assert(slot_of(h, id, key) == slot_of(h, 0, key));
        assert(slot_of(h, id, key) == empty_slot());
    }
    r
}

/// A page with some bytes replaced.
pub open spec fn patched(page: Seq<u8>, off: int, b: Seq<u8>) -> Seq<u8> {
    page.take(off) + b + page.skip(off + b.len())
}

proof fn lemma_patched_entry(page: Seq<u8>, i: int, v: u32)
    requires
        page.len() == PAGE_SIZE,
        0 <= i < PT_FANOUT,
    ensures
        patched(page, i * 4, le32(v)).len() == PAGE_SIZE,
        entry(patched(page, i * 4, le32(v)), i) == v,
        forall|k: int| 0 <= k < PT_FANOUT && k != i ==> #[trigger] entry(patched(page, i * 4, le32(v)), k) == entry(page, k),
{
    let q = patched(page, i * 4, le32(v));
    assert(q.subrange(i * 4, i * 4 + 4) =~= le32(v));
    lemma_le32(v, q, i * 4);
    assert forall|k: int| 0 <= k < PT_FANOUT && k != i implies #[trigger] entry(q, k) == entry(page, k) by {
        assert(q[k * 4] == page[k * 4]);
        assert(q[k * 4 + 1] == page[k * 4 + 1]);
        assert(q[k * 4 + 2] == page[k * 4 + 2]);
        assert(q[k * 4 + 3] == page[k * 4 + 3]);
    }
}

proof fn lemma_patched_slot(page: Seq<u8>, s: int, b: Seq<u8>)
    requires
        page.len() == PAGE_SIZE,
        b.len() == SLOT_SIZE,
        0 <= s < SLOTS_PER_DIR,
    ensures
        patched(page, s * SLOT_SIZE, b).len() == PAGE_SIZE,
        slot_in(patched(page, s * SLOT_SIZE, b), s) == b,
        forall|k: int| 0 <= k < SLOTS_PER_DIR && k != s ==> #[trigger] slot_in(patched(page, s * SLOT_SIZE, b), k) == slot_in(page, k),
{
    let q = patched(page, s * SLOT_SIZE, b);
    assert(slot_in(q, s) =~= b);
    assert forall|k: int| 0 <= k < SLOTS_PER_DIR && k != s implies #[trigger] slot_in(q, k) == slot_in(page, k) by {
        assert(slot_in(q, k) =~= slot_in(page, k));
    }
}

/// A slot that is fine stays so when a page is added to the layout.
proof fn lemma_slot_grows(h: Pages, q: Pages, lay: Layout, r: Layout, key: u32, s: Seq<u8>)
    requires
        slot_ok(h, lay, key, s),
        r.chains == lay.chains,
        forall|x: u32| #[trigger] lay.own.contains_key(x) ==> r.own.contains_key(x) && r.own[x] == lay.own[x],
        forall|x: u32| #[trigger] lay.own.contains_key(x) && lay.own[x] is Chain ==> q.contains_key(x) && q[x] == h[x],
    ensures
        slot_ok(q, r, key, s),
{
    if s[0] == 2 && chain_owned(h, lay, key, get32(s, 5), get32(s, 1)) {
        let c = lay.chains[key];
        assert forall|k: int| 0 <= k < c.ids.len() implies chain_page_at(q, c.ids, c.data, k) by {
            assert(chain_page_at(h, c.ids, c.data, k));
            assert(owns_link(lay, key, k));
        }
        assert forall|k: int| 0 <= k < c.ids.len() implies owns_link(r, key, k) by {
            assert(owns_link(lay, key, k));
        }
        assert(chain_holds(q, c.ids, c.data));
    }
}

/// A new second table.
proof fn lemma_new_l1(h: Pages, l0: u32, i: int, id: u32, lay: Layout) -> (r: Layout)
    requires
        pages_ok(h),
        array_at(h, l0, lay),
        l0 != 0,
        0 <= i < PT_FANOUT,
        l1_of(h, l0, i) == 0,
        id != 0,
        h.contains_key(id),
        h[id] == zeros(),
        !lay.own.contains_key(id),
    ensures
        r == (Layout { own: lay.own.insert(id, Owner::L1(i)), ..lay }),
        ({
            let q = h.insert(l0, patched(h[l0], i * 4, le32(id)));
            &&& array_at(q, l0, r)
            &&& l1_of(q, l0, i) == id
            &&& forall|key: u32| key < KEYS ==> #[trigger] slot_of(q, l0, key) == slot_of(h, l0, key)
        }),
{
    reveal(array_at);
    let r = Layout { own: lay.own.insert(id, Owner::L1(i)), ..lay };
    let q = h.insert(l0, patched(h[l0], i * 4, le32(id)));
    lemma_patched_entry(h[l0], i, id);
    assert forall|a: int| 0 <= a < PT_FANOUT implies #[trigger] l1_of(q, l0, a) == if a == i { id } else { l1_of(h, l0, a) } by {
        if a != i {
            assert(entry(q[l0], a) == entry(h[l0], a));
        }
    }
    assert forall|a: int, b: int| 0 <= a < PT_FANOUT && 0 <= b < PT_FANOUT implies #[trigger] dir_of(q, l0, a, b) == dir_of(h, l0, a, b) by {
        assert(l1_of(q, l0, a) == if a == i { id } else { l1_of(h, l0, a) });
        assert(l1_ok(h, l0, lay, a));
        if a == i {
            lemma_zero_entry(b);
        }
    }
    assert forall|a: int| 0 <= a < PT_FANOUT implies #[trigger] l1_ok(q, l0, r, a) by {
        assert(l1_ok(h, l0, lay, a));
        assert(l1_of(q, l0, a) == if a == i { id } else { l1_of(h, l0, a) });
    }
    assert forall|a: int, b: int| 0 <= a < PT_FANOUT && 0 <= b < PT_FANOUT implies #[trigger] dir_ok(q, l0, r, a, b) by {
        assert(dir_ok(h, l0, lay, a, b));
        assert(dir_of(q, l0, a, b) == dir_of(h, l0, a, b));
    }
    assert forall|key: u32| key < KEYS implies #[trigger] slot_of(q, l0, key) == slot_of(h, l0, key) by {
        lemma_key_parts(key, key);
        assert(dir_ok(h, l0, lay, at0(key), at1(key)));
        assert(dir_of(q, l0, at0(key), at1(key)) == dir_of(h, l0, at0(key), at1(key)));
    }
    assert forall|key: u32| key < KEYS implies slot_ok(q, r, key, #[trigger] slot_of(q, l0, key)) by {
        assert(slot_of(q, l0, key) == slot_of(h, l0, key));
        lemma_slot_grows(h, q, lay, r, key, slot_of(h, l0, key));
    }
    r
}

/// A new directory page.
proof fn lemma_new_dir(h: Pages, l0: u32, i: int, j: int, id: u32, lay: Layout) -> (r: Layout)
    requires
        pages_ok(h),
        array_at(h, l0, lay),
        0 <= i < PT_FANOUT,
        0 <= j < PT_FANOUT,
        l1_of(h, l0, i) != 0,
        dir_of(h, l0, i, j) == 0,
        id != 0,
        h.contains_key(id),
        h[id] == zeros(),
        !lay.own.contains_key(id),
    ensures
        r == (Layout { own: lay.own.insert(id, Owner::Dir(i, j)), ..lay }),
        ({
            let l1 = l1_of(h, l0, i);
            let q = h.insert(l1, patched(h[l1], j * 4, le32(id)));
            &&& array_at(q, l0, r)
            &&& dir_of(q, l0, i, j) == id
            &&& forall|key: u32| key < KEYS ==> #[trigger] slot_of(q, l0, key) == slot_of(h, l0, key)
        }),
{
    reveal(array_at);
    let l1 = l1_of(h, l0, i);
    let r = Layout { own: lay.own.insert(id, Owner::Dir(i, j)), ..lay };
    let q = h.insert(l1, patched(h[l1], j * 4, le32(id)));
    assert(l1_ok(h, l0, lay, i));
    assert(l1 != l0);
    lemma_patched_entry(h[l1], j, id);
    assert forall|a: int| 0 <= a < PT_FANOUT implies #[trigger] l1_of(q, l0, a) == l1_of(h, l0, a) by {}
    assert forall|a: int, b: int| 0 <= a < PT_FANOUT && 0 <= b < PT_FANOUT implies #[trigger] dir_of(q, l0, a, b) == if a == i && b == j { id } else { dir_of(h, l0, a, b) } by {
        assert(l1_of(q, l0, a) == l1_of(h, l0, a));
        assert(l1_ok(h, l0, lay, a));
        if a == i && b != j {
            assert(entry(q[l1], b) == entry(h[l1], b));
        }
    }
    assert forall|a: int| 0 <= a < PT_FANOUT implies #[trigger] l1_ok(q, l0, r, a) by {
        assert(l1_ok(h, l0, lay, a));
        assert(l1_of(q, l0, a) == l1_of(h, l0, a));
    }
    assert forall|a: int, b: int| 0 <= a < PT_FANOUT && 0 <= b < PT_FANOUT implies #[trigger] dir_ok(q, l0, r, a, b) by {
        assert(dir_ok(h, l0, lay, a, b));
        assert(dir_of(q, l0, a, b) == if a == i && b == j { id } else { dir_of(h, l0, a, b) });
    }
    assert forall|key: u32| key < KEYS implies #[trigger] slot_of(q, l0, key) == slot_of(h, l0, key) by {
        lemma_key_parts(key, key);
        let a = at0(key);
        let b = at1(key);
        assert(dir_ok(h, l0, lay, a, b));
        assert(dir_of(q, l0, a, b) == if a == i && b == j { id } else { dir_of(h, l0, a, b) });
        if a == i && b == j {
            lemma_zero_slot(at2(key));
        }
    }
    assert forall|key: u32| key < KEYS implies slot_ok(q, r, key, #[trigger] slot_of(q, l0, key)) by {
        assert(slot_of(q, l0, key) == slot_of(h, l0, key));
        lemma_slot_grows(h, q, lay, r, key, slot_of(h, l0, key));
    }
    r
}

/// The page belongs to the chain of the key.
pub open spec fn in_chain(lay: Layout, key: u32, x: u32) -> bool {
    lay.own.contains_key(x) && (lay.own[x] matches Owner::Chain(k, n) && k == key)
}

/// A slot is written, and the chain of its key changes.
proof fn lemma_put_slot(h: Pages, q: Pages, l0: u32, key: u32, s: Seq<u8>, lay: Layout, r: Layout)
    requires
        pages_ok(h),
        array_at(h, l0, lay),
        key < KEYS,
        s.len() == SLOT_SIZE,
        ({
            let dir = dir_of(h, l0, at0(key), at1(key));
            &&& dir != 0
            &&& q.contains_key(dir)
            &&& q[dir] == patched(h[dir], at2(key) * SLOT_SIZE, s)
            &&& forall|x: u32| #[trigger] lay.own.contains_key(x) && !in_chain(lay, key, x) ==> {
                &&& r.own.contains_key(x)
                &&& r.own[x] == lay.own[x]
                &&& x != dir ==> q[x] == h[x]
            }
        }),
        forall|x: u32| #[trigger] r.own.contains_key(x) ==> q.contains_key(x),
        forall|k: u32| k != key ==> (#[trigger] r.chains.contains_key(k) <==> lay.chains.contains_key(k)) && r.chains[k] == lay.chains[k],
        slot_ok(q, r, key, s),
    ensures
        array_at(q, l0, r),
        slot_of(q, l0, key) == s,
        forall|k: u32| k < KEYS && k != key ==> #[trigger] slot_of(q, l0, k) == slot_of(h, l0, k),
{
    reveal(array_at);
    let i0 = at0(key);
    let j0 = at1(key);
    let dir = dir_of(h, l0, i0, j0);
    lemma_key_parts(key, key);
    assert(dir_ok(h, l0, lay, i0, j0));
    lemma_patched_slot(h[dir], at2(key), s);
    assert forall|a: int| 0 <= a < PT_FANOUT implies #[trigger] l1_of(q, l0, a) == l1_of(h, l0, a) by {}
    assert forall|a: int, b: int| 0 <= a < PT_FANOUT && 0 <= b < PT_FANOUT implies #[trigger] dir_of(q, l0, a, b) == dir_of(h, l0, a, b) by {
        assert(l1_of(q, l0, a) == l1_of(h, l0, a));
        assert(l1_ok(h, l0, lay, a));
    }
    assert forall|a: int| 0 <= a < PT_FANOUT implies #[trigger] l1_ok(q, l0, r, a) by {
        assert(l1_ok(h, l0, lay, a));
        assert(l1_of(q, l0, a) == l1_of(h, l0, a));
    }
    assert forall|a: int, b: int| 0 <= a < PT_FANOUT && 0 <= b < PT_FANOUT implies #[trigger] dir_ok(q, l0, r, a, b) by {
        assert(dir_ok(h, l0, lay, a, b));
        assert(dir_of(q, l0, a, b) == dir_of(h, l0, a, b));
    }
    assert forall|k: u32| k < KEYS implies #[trigger] slot_of(q, l0, k) == if k == key { s } else { slot_of(h, l0, k) } by {
        lemma_key_parts(k, key);
        let a = at0(k);
        let b = at1(k);
        assert(dir_ok(h, l0, lay, a, b));
        assert(dir_of(q, l0, a, b) == dir_of(h, l0, a, b));
        if a == i0 && b == j0 {
            if k != key {
                assert(slot_in(q[dir], at2(k)) == slot_in(h[dir], at2(k)));
            }
        }
    }
    assert forall|k: u32| k < KEYS implies slot_ok(q, r, k, #[trigger] slot_of(q, l0, k)) by {
        assert(slot_of(q, l0, k) == if k == key { s } else { slot_of(h, l0, k) });
        if k != key {
            let t = slot_of(h, l0, k);
            assert(slot_ok(h, lay, k, t));
            if t[0] == 2 && chain_owned(h, lay, k, get32(t, 5), get32(t, 1)) {
                let c = lay.chains[k];
                assert(r.chains.contains_key(k));
                assert forall|n: int| 0 <= n < c.ids.len() implies chain_page_at(q, c.ids, c.data, n) by {
                    assert(chain_page_at(h, c.ids, c.data, n));
                    assert(owns_link(lay, k, n));
                }
                assert forall|n: int| 0 <= n < c.ids.len() implies owns_link(r, k, n) by {
                    assert(owns_link(lay, k, n));
                }
                assert(chain_holds(q, c.ids, c.data));
            }
        }
    }
}

/// The first table of the array in a root slot.
pub open spec fn l0_of(p: PagerSpec, slot: int) -> u32 {
    p.roots[slot] as u32
}

/// A root slot holds an array.
pub open spec fn is_array(p: PagerSpec, slot: int) -> bool {
    &&& sound(p)
    &&& 0 <= slot < NROOTS
    &&& p.roots[slot] <= u32::MAX
    &&& exists|lay: Layout| array_at(heap(p), l0_of(p, slot), lay)
}

/// The page is part of the array rooted at `l0`.
pub open spec fn owned(h: Pages, l0: u32, x: u32) -> bool {
    x != 0 && {
        ||| x == l0
        ||| exists|i: int| 0 <= i < PT_FANOUT && x == #[trigger] l1_of(h, l0, i)
        ||| exists|i: int, j: int| 0 <= i < PT_FANOUT && 0 <= j < PT_FANOUT && x == #[trigger] dir_of(h, l0, i, j)
        ||| exists|key: u32| key < KEYS && #[trigger] chain_has(h, slot_of(h, l0, key), x)
    }
}

/// The page is in the chain that a slot leads to.
pub open spec fn chain_has(h: Pages, s: Seq<u8>, x: u32) -> bool {
    s[0] == 2 && exists|ids: Seq<u32>| #[trigger] chain_linked(h, ids) && chain_next(ids, -1) == get32(s, 5) && ids.contains(x)
}

/// All pages outside of the array stay, and stay outside.
pub open spec fn keeps_foreign(h: Pages, l0: u32, q: Pages, m0: u32) -> bool {
    forall|x: u32| #[trigger] h.contains_key(x) && !owned(h, l0, x) ==> q.contains_key(x) && q[x] == h[x] && !owned(q, m0, x)
}

proof fn lemma_owned(h: Pages, l0: u32, lay: Layout, x: u32)
    requires
        array_at(h, l0, lay),
        owned(h, l0, x),
    ensures
        lay.own.contains_key(x),
{
    reveal(array_at);
    if x == l0 {
    } else if exists|i: int| 0 <= i < PT_FANOUT && x == #[trigger] l1_of(h, l0, i) {
        let i = choose|i: int| 0 <= i < PT_FANOUT && x == #[trigger] l1_of(h, l0, i);
        assert(l1_ok(h, l0, lay, i));
    } else if exists|i: int, j: int| 0 <= i < PT_FANOUT && 0 <= j < PT_FANOUT && x == #[trigger] dir_of(h, l0, i, j) {
        let (i, j) = choose|i: int, j: int| 0 <= i < PT_FANOUT && 0 <= j < PT_FANOUT && x == #[trigger] dir_of(h, l0, i, j);
        assert(dir_ok(h, l0, lay, i, j));
    } else {
        let key = choose|key: u32| key < KEYS && #[trigger] chain_has(h, slot_of(h, l0, key), x);
        let s = slot_of(h, l0, key);
        assert(slot_ok(h, lay, key, s));
        let ids = choose|ids: Seq<u32>| #[trigger] chain_linked(h, ids) && chain_next(ids, -1) == get32(s, 5) && ids.contains(x);
        let c = lay.chains[key];
        lemma_holds_linked(h, c.ids, c.data);
        lemma_chain_unique(h, ids, c.ids);
        let k = choose|k: int| 0 <= k < ids.len() && ids[k] == x;
        assert(owns_link(lay, key, k));
    }
}

/// The layout without pages that are not part of the array.
proof fn lemma_tight(h: Pages, l0: u32, lay: Layout) -> (r: Layout)
    requires
        array_at(h, l0, lay),
    ensures
        array_at(h, l0, r),
        r.chains == lay.chains,
        forall|x: u32| #[trigger] r.own.contains_key(x) <==> owned(h, l0, x),
{
    reveal(array_at);
    let r = Layout { own: Map::new(|x: u32| owned(h, l0, x), |x: u32| lay.own[x]), chains: lay.chains };
    assert forall|x: u32| #[trigger] r.own.contains_key(x) implies h.contains_key(x) && lay.own.contains_key(x) by {
        lemma_owned(h, l0, lay, x);
    }
    assert forall|i: int| 0 <= i < PT_FANOUT implies #[trigger] l1_ok(h, l0, r, i) by {
        assert(l1_ok(h, l0, lay, i));
        assert(l1_of(h, l0, i) != 0 ==> owned(h, l0, l1_of(h, l0, i)));
    }
    assert forall|i: int, j: int| 0 <= i < PT_FANOUT && 0 <= j < PT_FANOUT implies #[trigger] dir_ok(h, l0, r, i, j) by {
        assert(dir_ok(h, l0, lay, i, j));
        assert(dir_of(h, l0, i, j) != 0 ==> owned(h, l0, dir_of(h, l0, i, j)));
    }
    assert forall|key: u32| key < KEYS implies slot_ok(h, r, key, #[trigger] slot_of(h, l0, key)) by {
        let s = slot_of(h, l0, key);
        assert(slot_ok(h, lay, key, s));
        if s[0] == 2 && chain_owned(h, lay, key, get32(s, 5), get32(s, 1)) {
            let c = lay.chains[key];
            lemma_holds_linked(h, c.ids, c.data);
            assert forall|k: int| 0 <= k < c.ids.len() implies owns_link(r, key, k) by {
                assert(owns_link(lay, key, k));
                assert(chain_page_at(h, c.ids, c.data, k));
                assert(c.ids.contains(c.ids[k]));
                assert(chain_has(h, s, c.ids[k]));
            }
        }
    }
    r
}

/// The value of a key.
pub open spec fn value(p: PagerSpec, slot: int, key: u32) -> Option<Seq<u8>> {
    let s = slot_of(heap(p), l0_of(p, slot), key);
    if key >= KEYS || s[0] == 0 {
        None
    } else if s[0] == 1 {
        Some(s.subrange(5, 5 + get32(s, 1)))
    } else {
        chain_read(p, get32(s, 5), get32(s, 1) as nat)
    }
}

proof fn lemma_value(p: PagerSpec, slot: int, lay: Layout, key: u32)
    requires
        sound(p),
        array_at(heap(p), l0_of(p, slot), lay),
        key < KEYS,
    ensures
        value(p, slot, key) == value_in(heap(p), l0_of(p, slot), lay, key),
{
    reveal(array_at);
    let s = slot_of(heap(p), l0_of(p, slot), key);
    assert(slot_ok(heap(p), lay, key, s));
    if s[0] == 2 && chain_owned(heap(p), lay, key, get32(s, 5), get32(s, 1)) {
        law_chain_roundtrip(p, lay.chains[key].ids, lay.chains[key].data);
    }
}

/// How many pages are missing on the way to a slot.
pub open spec fn missing(h: Pages, l0: u32, key: u32) -> int {
    if l0 == 0 {
        3
    } else if l1_of(h, l0, at0(key)) == 0 {
        2
    } else if dir_of(h, l0, at0(key), at1(key)) == 0 {
        1
    } else {
        0
    }
}

/// How many pages the value of a slot frees.
pub open spec fn freed(s: Seq<u8>) -> int {
    if s[0] == 2 {
        chain_len(get32(s, 1) as nat) as int
    } else {
        0
    }
}

/// Are there enough pages to store a value?
pub open spec fn room_for(p: PagerSpec, slot: int, key: u32, len: nat) -> bool {
    let m = missing(heap(p), l0_of(p, slot), key);
    &&& pages_left(p) >= m
    &&& len > INLINE_CAP ==> pages_left(p) - m + freed(slot_of(heap(p), l0_of(p, slot), key)) >= chain_len(len)
}

/// The message for a key that is too large.
pub open spec fn key_text(key: u32) -> Seq<char> {
    "IvArray key "@ + decimal(key as nat) + " exceeds addressable capacity"@
}

/// A page with some bytes replaced.
fn patch(page: &mut Vec<u8>, off: usize, b: &[u8])
    requires
        off + b@.len() <= old(page)@.len(),
    ensures
        final(page)@ == patched(old(page)@, off as int, b@),
{
    let ghost p = page@;
    let total: usize = page.len();
    let n: usize = b.len();
    let mut i: usize = 0;
    while i < n
        invariant
            n == b@.len(),
            total == p.len(),
            off + n <= total,
            page@.len() == p.len(),
            i <= n,
            page@ == patched(p, off as int, b@.take(i as int)),
        decreases n - i,
    {
        page.set(off + i, b[i]);
        i = i + 1;
        assert(page@ =~= patched(p, off as int, b@.take(i as int)));
    }
    assert(b@.take(n as int) =~= b@);
}

/// The layout grew by new pages, and pages outside of it stayed.
pub open spec fn grew(h: Pages, lay: Layout, q: Pages, r: Layout) -> bool {
    &&& forall|x: u32| #[trigger] r.own.contains_key(x) ==> lay.own.contains_key(x) || !h.contains_key(x)
    &&& forall|x: u32| #[trigger] h.contains_key(x) && !lay.own.contains_key(x) ==> q.contains_key(x) && q[x] == h[x]
}

proof fn lemma_foreign(h: Pages, l0: u32, lay: Layout, q: Pages, m0: u32, r: Layout)
    requires
        forall|x: u32| #[trigger] lay.own.contains_key(x) <==> owned(h, l0, x),
        array_at(q, m0, r),
        grew(h, lay, q, r),
    ensures
        keeps_foreign(h, l0, q, m0),
{
    assert forall|x: u32| #[trigger] h.contains_key(x) && !owned(h, l0, x) implies q.contains_key(x) && q[x] == h[x] && !owned(q, m0, x) by {
        assert(!lay.own.contains_key(x));
        if owned(q, m0, x) {
            lemma_owned(q, m0, r, x);
        }
    }
}

fn too_large(key: u32) -> (e: GStoreError)
    ensures
        is_database_error(e, key_text(key)),
{
    GStoreError::Database(join3("IvArray key ", decimal_of(key as u64).as_str(), " exceeds addressable capacity"))
}

/// The way to a directory page: the pager after it, and the page, which is 0 if
/// there is none; nothing where the file ends.
pub open spec fn dir_search(p: PagerSpec, l0: u32, i: int, j: int) -> (PagerSpec, Option<u32>) {
    if l0 == 0 {
        (p, Some(0u32))
    } else {
        match contents(p, l0) {
            None => (after_read(p, l0), None),
            Some(d0) => {
                let p1 = after_read(p, l0);
                let l1 = entry(d0, i);
                if l1 == 0 {
                    (p1, Some(0u32))
                } else {
                    match contents(p1, l1) {
                        None => (after_read(p1, l1), None),
                        Some(d1) => (after_read(p1, l1), Some(entry(d1, j))),
                    }
                }
            },
        }
    }
}

/// An array in a root slot.
pub struct IvArray {
    root_slot: usize,
}

impl IvArray {
    /// The root slot.
    pub closed spec fn slot(&self) -> int {
        self.root_slot as int
    }

    /// The array in a root slot.
    pub fn new(root_slot: usize) -> (r: IvArray)
        ensures
            r.slot() == root_slot,
    {
        IvArray { root_slot }
    }

    /// The place of a key: the indices in the two tables, and the slot.
    fn locate(key: u32) -> (r: Result<(usize, usize, usize)>)
        ensures
            r is Ok <==> key < KEYS,
            r matches Ok(t) ==> t.0 == at0(key) && t.1 == at1(key) && t.2 == at2(key) && t.0 < PT_FANOUT && t.1 < PT_FANOUT && t.2 < SLOTS_PER_DIR,
            r matches Err(e) ==> is_database_error(e, key_text(key)),
    {
        let dir: u32 = key / SLOTS_PER_DIR;
        let i: u32 = dir / PT_FANOUT;
        if i >= PT_FANOUT {
            return Err(too_large(key));
        }
        Ok((i as usize, (dir % PT_FANOUT) as usize, (key % SLOTS_PER_DIR) as usize))
    }

    /// The first table, which is made if there is none.
    #[verifier::spinoff_prover]
    fn ensure_l0(&self, pager: &mut Pager, Ghost(lay): Ghost<Layout>) -> (r: (Result<PageId>, Ghost<Layout>))
        requires
            old(pager).wf(),
            sound(old(pager)@),
            0 <= self.slot() < NROOTS,
            old(pager)@.roots[self.slot()] <= u32::MAX,
            array_at(heap(old(pager)@), l0_of(old(pager)@, self.slot()), lay),
        ensures
            final(pager).wf(),
            same_slots(old(pager)@, lay, final(pager)@, r.1@, self.slot()),
            r.0 is Ok <==> l0_of(old(pager)@, self.slot()) != 0 || pages_left(old(pager)@) >= 1,
            r.0 matches Err(e) ==> is_database_error(e, "page count overflow"@),
            r.0 matches Ok(l0) ==> {
                &&& l0 != 0
                &&& l0 == l0_of(final(pager)@, self.slot())
                &&& if l0_of(old(pager)@, self.slot()) == 0 {
                    &&& pages_left(final(pager)@) == pages_left(old(pager)@) - 1
                    &&& heap(final(pager)@)[l0] == zeros()
                } else {
                    final(pager)@ == old(pager)@
                }
            },
    {
        proof {
            reveal(array_at);
        }
        let ghost slot = self.slot();
        let ghost p = pager@;
        let ghost h = heap(p);
        let l0: PageId = pager.root(self.root_slot) as u32;
        proof {
            lemma_heap(p);
            assert(p.roots =~= p.roots.update(slot, p.roots[slot]));
        }
        if l0 != 0 {
            return (Ok(l0), Ghost(lay));
        }
        let id: PageId = match take_page(pager) {
            Ok(id) => id,
            Err(e) => {
                return (Err(e), Ghost(lay));
            },
        };
        proof {
            lemma_frame(h, heap(pager@), 0, lay);
        }
        let ghost lay1 = lemma_new_l0(heap(pager@), id, lay);
        put_root(pager, self.root_slot, id as u64);
        proof {
            assert(pager@.roots =~= p.roots.update(slot, pager@.roots[slot]));
        }
        (Ok(id), Ghost(lay1))
    }

    /// The second table with index `i`, which is made if there is none.
    #[verifier::spinoff_prover]
    fn ensure_l1(&self, pager: &mut Pager, l0: PageId, i: usize, Ghost(lay): Ghost<Layout>) -> (r: (Result<PageId>, Ghost<Layout>))
        requires
            old(pager).wf(),
            sound(old(pager)@),
            0 <= self.slot() < NROOTS,
            old(pager)@.roots[self.slot()] <= u32::MAX,
            l0 == l0_of(old(pager)@, self.slot()),
            l0 != 0,
            i < PT_FANOUT,
            array_at(heap(old(pager)@), l0, lay),
        ensures
            final(pager).wf(),
            same_slots(old(pager)@, lay, final(pager)@, r.1@, self.slot()),
            l0 == l0_of(final(pager)@, self.slot()),
            r.0 is Ok <==> l1_of(heap(old(pager)@), l0, i as int) != 0 || pages_left(old(pager)@) >= 1,
            r.0 matches Err(e) ==> is_database_error(e, "page count overflow"@),
            r.0 matches Ok(l1) ==> {
                &&& l1 != 0
                &&& l1 == l1_of(heap(final(pager)@), l0, i as int)
                &&& if l1_of(heap(old(pager)@), l0, i as int) == 0 {
                    &&& pages_left(final(pager)@) == pages_left(old(pager)@) - 1
                    &&& heap(final(pager)@)[l1] == zeros()
                } else {
                    &&& pages_left(final(pager)@) == pages_left(old(pager)@)
                    &&& heap(final(pager)@) == heap(old(pager)@)
                }
            },
    {
        proof {
            reveal(array_at);
        }
        let ghost slot = self.slot();
        let ghost p = pager@;
        let ghost h = heap(p);
        proof {
            lemma_heap(p);
            assert(l1_ok(h, l0, lay, i as int));
            assert(p.roots =~= p.roots.update(slot, p.roots[slot]));
        }
        let mut buf: Vec<u8> = get_page(pager, l0);
        let l1: PageId = read_le32(buf.as_slice(), i * 4);
        if l1 != 0 {
            return (Ok(l1), Ghost(lay));
        }
        let id: PageId = match take_page(pager) {
            Ok(id) => id,
            Err(e) => {
                return (Err(e), Ghost(lay));
            },
        };
        let ghost ha = heap(pager@);
        let mut bytes: Vec<u8> = Vec::new();
        push_le32(&mut bytes, id);
        patch(&mut buf, i * 4, bytes.as_slice());
        proof {
            lemma_frame(h, ha, l0, lay);
            lemma_heap(pager@);
            assert(l1_of(ha, l0, i as int) == l1_of(h, l0, i as int));
            assert(bytes@ =~= le32(id));
            lemma_patched_entry(h[l0], i as int, id);
        }
        let ghost lay1 = lemma_new_l1(ha, l0, i as int, id, lay);
        put_page(pager, l0, &buf);
        (Ok(id), Ghost(lay1))
    }

    /// The directory page with indices `i` and `j`, which is made if there is none.
    #[verifier::spinoff_prover]
    fn ensure_l2(&self, pager: &mut Pager, l1: PageId, i: usize, j: usize, Ghost(lay): Ghost<Layout>) -> (r: (Result<PageId>, Ghost<Layout>))
        requires
            old(pager).wf(),
            sound(old(pager)@),
            0 <= self.slot() < NROOTS,
            old(pager)@.roots[self.slot()] <= u32::MAX,
            l1 == l1_of(heap(old(pager)@), l0_of(old(pager)@, self.slot()), i as int),
            l1 != 0,
            i < PT_FANOUT,
            j < PT_FANOUT,
            array_at(heap(old(pager)@), l0_of(old(pager)@, self.slot()), lay),
        ensures
            final(pager).wf(),
            same_slots(old(pager)@, lay, final(pager)@, r.1@, self.slot()),
            l0_of(final(pager)@, self.slot()) == l0_of(old(pager)@, self.slot()),
            r.0 is Ok <==> entry(heap(old(pager)@)[l1], j as int) != 0 || pages_left(old(pager)@) >= 1,
            r.0 matches Err(e) ==> is_database_error(e, "page count overflow"@),
            r.0 matches Ok(dir) ==> {
                &&& dir != 0
                &&& dir == dir_of(heap(final(pager)@), l0_of(final(pager)@, self.slot()), i as int, j as int)
                &&& pages_left(final(pager)@) == pages_left(old(pager)@) - if entry(heap(old(pager)@)[l1], j as int) == 0 { 1int } else { 0 }
            },
    {
        proof {
            reveal(array_at);
        }
        let ghost slot = self.slot();
        let ghost p = pager@;
        let ghost h = heap(p);
        let ghost l0 = l0_of(p, slot);
        proof {
            lemma_heap(p);
            assert(l1_ok(h, l0, lay, i as int));
            assert(dir_ok(h, l0, lay, i as int, j as int));
            assert(p.roots =~= p.roots.update(slot, p.roots[slot]));
        }
        let mut buf: Vec<u8> = get_page(pager, l1);
        let dir: PageId = read_le32(buf.as_slice(), j * 4);
        if dir != 0 {
            return (Ok(dir), Ghost(lay));
        }
        let id: PageId = match take_page(pager) {
            Ok(id) => id,
            Err(e) => {
                return (Err(e), Ghost(lay));
            },
        };
        let ghost hb = heap(pager@);
        let mut bytes: Vec<u8> = Vec::new();
        push_le32(&mut bytes, id);
        patch(&mut buf, j * 4, bytes.as_slice());
        proof {
            lemma_frame(h, hb, l0, lay);
            lemma_heap(pager@);
            assert(l1_of(hb, l0, i as int) == l1_of(h, l0, i as int));
            assert(dir_of(hb, l0, i as int, j as int) == dir_of(h, l0, i as int, j as int));
            assert(bytes@ =~= le32(id));
            lemma_patched_entry(h[l1], j as int, id);
        }
        let ghost lay1 = lemma_new_dir(hb, l0, i as int, j as int, id, lay);
        put_page(pager, l1, &buf);
        (Ok(id), Ghost(lay1))
    }

    /// The directory page with the given indices, if all pages on the way exist.
    fn dir_page(&self, pager: &mut Pager, i: usize, j: usize) -> (r: Result<Option<PageId>>)
        requires
            old(pager).wf(),
            0 <= self.slot() < NROOTS,
            i < PT_FANOUT,
            j < PT_FANOUT,
        ensures
            final(pager).wf(),
            final(pager)@ == dir_search(old(pager)@, l0_of(old(pager)@, self.slot()), i as int, j as int).0,
            same_header(old(pager)@, final(pager)@),
            keeps_pages(old(pager)@, final(pager)@),
            match dir_search(old(pager)@, l0_of(old(pager)@, self.slot()), i as int, j as int).1 {
                None => r matches Err(e) && is_eof(e),
                Some(id) => r == Ok::<Option<PageId>, GStoreError>(if id == 0 { None } else { Some(id) }),
            },
    {
        let l0: PageId = pager.root(self.root_slot) as u32;
        if l0 == 0 {
            return Ok(None);
        }
        let buf0: Vec<u8> = match pager.read_page(l0) {
            Ok(d) => d,
            Err(e) => {
                return Err(e);
            },
        };
        let l1: PageId = read_le32(buf0.as_slice(), i * 4);
        if l1 == 0 {
            return Ok(None);
        }
        let buf1: Vec<u8> = match pager.read_page(l1) {
            Ok(d) => d,
            Err(e) => {
                return Err(e);
            },
        };
        let dir: PageId = read_le32(buf1.as_slice(), j * 4);
        if dir == 0 {
            return Ok(None);
        }
        Ok(Some(dir))
    }

    /// The directory page of a key, with all pages on the way to it.
    #[verifier::spinoff_prover]
    fn ensure_dir(&self, pager: &mut Pager, key: u32, i: usize, j: usize, Ghost(lay): Ghost<Layout>) -> (r: (Result<PageId>, Ghost<Layout>))
        requires
            old(pager).wf(),
            sound(old(pager)@),
            0 <= self.slot() < NROOTS,
            old(pager)@.roots[self.slot()] <= u32::MAX,
            key < KEYS,
            i == at0(key),
            j == at1(key),
            array_at(heap(old(pager)@), l0_of(old(pager)@, self.slot()), lay),
        ensures
            final(pager).wf(),
            same_slots(old(pager)@, lay, final(pager)@, r.1@, self.slot()),
            r.0 is Ok <==> pages_left(old(pager)@) >= missing(heap(old(pager)@), l0_of(old(pager)@, self.slot()), key),
            r.0 matches Err(e) ==> is_database_error(e, "page count overflow"@),
            r.0 matches Ok(dir) ==> {
                &&& dir != 0
                &&& dir == dir_of(heap(final(pager)@), l0_of(final(pager)@, self.slot()), at0(key), at1(key))
                &&& pages_left(final(pager)@) == pages_left(old(pager)@) - missing(heap(old(pager)@), l0_of(old(pager)@, self.slot()), key)
            },
    {
        let ghost slot = self.slot();
        let ghost p = pager@;
        let ghost h = heap(p);
        let ghost m = missing(h, l0_of(p, slot), key);
        proof {
            lemma_key_parts(key, key);
            lemma_zero_entry(i as int);
            lemma_zero_entry(j as int);
            lemma_left(p);
        }
        let (r0, Ghost(lay1)) = self.ensure_l0(pager, Ghost(lay));
        let l0: PageId = match r0 {
            Ok(id) => id,
            Err(e) => {
                return (Err(e), Ghost(lay1));
            },
        };
        let ghost p1 = pager@;
        let (r1, Ghost(lay2)) = self.ensure_l1(pager, l0, i, Ghost(lay1));
        proof {
            lemma_left(p1);
            lemma_same_slots(p, lay, p1, lay1, pager@, lay2, slot);
        }
        let l1: PageId = match r1 {
            Ok(id) => id,
            Err(e) => {
                return (Err(e), Ghost(lay2));
            },
        };
        let ghost p2 = pager@;
        let (r2, Ghost(lay3)) = self.ensure_l2(pager, l1, i, j, Ghost(lay2));
        proof {
            lemma_left(p2);
            lemma_same_slots(p, lay, p2, lay2, pager@, lay3, slot);
        }
        match r2 {
            Ok(id) => (Ok(id), Ghost(lay3)),
            Err(e) => (Err(e), Ghost(lay3)),
        }
    }
}

/// The array got more pages and holds what it held.
pub open spec fn same_slots(p: PagerSpec, lay: Layout, q: PagerSpec, r: Layout, slot: int) -> bool {
    &&& sound(q)
    &&& q.roots[slot] <= u32::MAX
    &&& q.roots == p.roots.update(slot, q.roots[slot])
    &&& array_at(heap(q), l0_of(q, slot), r)
    &&& r.chains == lay.chains
    &&& forall|k: u32| k < KEYS ==> #[trigger] slot_of(heap(q), l0_of(q, slot), k) == slot_of(heap(p), l0_of(p, slot), k)
    &&& grew(heap(p), lay, heap(q), r)
}

proof fn lemma_left(p: PagerSpec)
    requires
        sound(p),
    ensures
        pages_left(p) >= 0,
{
}

proof fn lemma_same_slots(p: PagerSpec, lay: Layout, q: PagerSpec, r: Layout, s: PagerSpec, t: Layout, slot: int)
    requires
        0 <= slot < p.roots.len(),
        same_slots(p, lay, q, r, slot),
        same_slots(q, r, s, t, slot),
    ensures
        same_slots(p, lay, s, t, slot),
{
    assert(s.roots =~= p.roots.update(slot, s.roots[slot]));
    assert forall|k: u32| k < KEYS implies #[trigger] slot_of(heap(s), l0_of(s, slot), k) == slot_of(heap(p), l0_of(p, slot), k) by {
        assert(slot_of(heap(q), l0_of(q, slot), k) == slot_of(heap(p), l0_of(p, slot), k));
    }
    assert forall|x: u32| #[trigger] heap(p).contains_key(x) && !lay.own.contains_key(x) implies heap(s).contains_key(x) && heap(s)[x] == heap(p)[x] by {
        assert(heap(q).contains_key(x));
        assert(!r.own.contains_key(x));
    }
    assert forall|x: u32| #[trigger] t.own.contains_key(x) implies lay.own.contains_key(x) || !heap(p).contains_key(x) by {
        if !lay.own.contains_key(x) && heap(p).contains_key(x) {
            assert(heap(q).contains_key(x));
            assert(!r.own.contains_key(x));
        }
    }
}

/// A slot as bytes.
pub open spec fn slot_bytes(tag: u8, len: u32, payload: Seq<u8>) -> Seq<u8> {
    seq![tag] + le32(len) + payload + Seq::new((INLINE_CAP - payload.len()) as nat, |i: int| 0u8)
}

/// The slot of a value, given the first page of its chain if it has one.
pub open spec fn slot_for(val: Seq<u8>, ids: Seq<u32>) -> Seq<u8> {
    if val.len() > INLINE_CAP {
        slot_bytes(2, val.len() as u32, le32(ids[0]))
    } else {
        slot_bytes(1, val.len() as u32, val)
    }
}

/// The layout after a value was stored.
pub open spec fn new_layout(lay: Layout, key: u32, ids: Seq<u32>, data: Seq<u8>) -> Layout {
    Layout {
        own: Map::new(
            |x: u32| ids.contains(x) || (lay.own.contains_key(x) && !in_chain(lay, key, x)),
            |x: u32| if ids.contains(x) { Owner::Chain(key, ids.index_of(x)) } else { lay.own[x] },
        ),
        chains: lay.chains.insert(key, ChainSpec { ids, data }),
    }
}

proof fn lemma_slot_bytes(tag: u8, len: u32, payload: Seq<u8>)
    requires
        payload.len() <= INLINE_CAP,
    ensures
        slot_bytes(tag, len, payload).len() == SLOT_SIZE,
        slot_bytes(tag, len, payload)[0] == tag,
        get32(slot_bytes(tag, len, payload), 1) == len,
        slot_bytes(tag, len, payload).subrange(5, 5 + payload.len() as int) == payload,
        forall|v: u32| payload == #[trigger] le32(v) ==> get32(slot_bytes(tag, len, payload), 5) == v,
{
    let s = slot_bytes(tag, len, payload);
    assert(s.subrange(1, 5) =~= le32(len));
    lemma_le32(len, s, 1);
    assert(s.subrange(5, 5 + payload.len() as int) =~= payload);
    assert forall|v: u32| payload == #[trigger] le32(v) implies get32(s, 5) == v by {
        assert(s.subrange(5, 9) =~= le32(v));
        lemma_le32(v, s, 5);
    }
}

/// A value was stored: `h` are the pages before, `m` those before the slot was
/// written.
proof fn lemma_stored(h: Pages, m: Pages, l0: u32, key: u32, val: Seq<u8>, ids: Seq<u32>, lay: Layout)
    requires
        pages_ok(h),
        array_at(h, l0, lay),
        key < KEYS,
        val.len() <= u32::MAX,
        dir_of(h, l0, at0(key), at1(key)) != 0,
        forall|x: u32| #[trigger] lay.own.contains_key(x) && !in_chain(lay, key, x) ==> m.contains_key(x) && m[x] == h[x] && !ids.contains(x),
        if val.len() > INLINE_CAP {
            chain_holds(m, ids, val)
        } else {
            ids.len() == 0
        },
    ensures
        ({
            let dir = dir_of(h, l0, at0(key), at1(key));
            let q = m.insert(dir, patched(h[dir], at2(key) * SLOT_SIZE, slot_for(val, ids)));
            let r = new_layout(lay, key, ids, val);
            &&& array_at(q, l0, r)
            &&& value_in(q, l0, r, key) == Some(val)
            &&& forall|k: u32| k < KEYS && k != key ==> #[trigger] value_in(q, l0, r, k) == value_in(h, l0, lay, k)
        }),
{
    reveal(array_at);
    let dir = dir_of(h, l0, at0(key), at1(key));
    let s = slot_for(val, ids);
    let q = m.insert(dir, patched(h[dir], at2(key) * SLOT_SIZE, s));
    let r = new_layout(lay, key, ids, val);
    lemma_key_parts(key, key);
    assert(dir_ok(h, l0, lay, at0(key), at1(key)));
    if val.len() > INLINE_CAP {
        lemma_slot_bytes(2, val.len() as u32, le32(ids[0]));
        assert forall|k: int| 0 <= k < ids.len() implies chain_page_at(q, ids, val, k) by {
            assert(chain_page_at(m, ids, val, k));
            assert(ids.contains(ids[k]));
        }
        assert(chain_holds(q, ids, val));
        assert forall|k: int| 0 <= k < ids.len() implies owns_link(r, key, k) by {
            assert(ids.contains(ids[k]));
            let n = ids.index_of(ids[k]);
            assert(n == k);
        }
        assert(chain_owned(q, r, key, get32(s, 5), get32(s, 1)));
    } else {
        lemma_slot_bytes(1, val.len() as u32, val);
        assert forall|x: u32| !ids.contains(x) by {}
    }
    assert forall|x: u32| #[trigger] r.own.contains_key(x) implies q.contains_key(x) by {
        if ids.contains(x) {
            let k = choose|k: int| 0 <= k < ids.len() && ids[k] == x;
            assert(chain_page_at(m, ids, val, k));
        }
    }
    lemma_put_slot(h, q, l0, key, s, lay, r);
    assert forall|k: u32| k < KEYS && k != key implies #[trigger] value_in(q, l0, r, k) == value_in(h, l0, lay, k) by {
        assert(slot_of(q, l0, k) == slot_of(h, l0, k));
        assert(r.chains[k] == lay.chains[k]);
    }
}

/// A value was removed.
proof fn lemma_removed(h: Pages, m: Pages, l0: u32, key: u32, lay: Layout)
    requires
        pages_ok(h),
        array_at(h, l0, lay),
        key < KEYS,
        dir_of(h, l0, at0(key), at1(key)) != 0,
        forall|x: u32| #[trigger] lay.own.contains_key(x) && !in_chain(lay, key, x) ==> m.contains_key(x) && m[x] == h[x],
    ensures
        ({
            let dir = dir_of(h, l0, at0(key), at1(key));
            let q = m.insert(dir, patched(h[dir], at2(key) * SLOT_SIZE, empty_slot()));
            let r = new_layout(lay, key, Seq::empty(), Seq::empty());
            &&& array_at(q, l0, r)
            &&& value_in(q, l0, r, key) is None
            &&& forall|k: u32| k < KEYS && k != key ==> #[trigger] value_in(q, l0, r, k) == value_in(h, l0, lay, k)
        }),
{
    reveal(array_at);
    let dir = dir_of(h, l0, at0(key), at1(key));
    let q = m.insert(dir, patched(h[dir], at2(key) * SLOT_SIZE, empty_slot()));
    let r = new_layout(lay, key, Seq::empty(), Seq::empty());
    lemma_key_parts(key, key);
    assert(dir_ok(h, l0, lay, at0(key), at1(key)));
    assert forall|x: u32| !Seq::<u32>::empty().contains(x) by {}
    lemma_put_slot(h, q, l0, key, empty_slot(), lay, r);
    assert forall|k: u32| k < KEYS && k != key implies #[trigger] value_in(q, l0, r, k) == value_in(h, l0, lay, k) by {
        assert(slot_of(q, l0, k) == slot_of(h, l0, k));
        assert(r.chains[k] == lay.chains[k]);
    }
}

/// The value of every key other than `key` is the same.
pub open spec fn keeps_values(p: PagerSpec, q: PagerSpec, slot: int, key: u32) -> bool {
    forall|k: u32| k != key ==> #[trigger] value(q, slot, k) == value(p, slot, k)
}

/// The message of a broken slot.
pub open spec fn tag_text(tag: u8, key: u32) -> Seq<char> {
    "IvArray: corrupt slot tag "@ + decimal(tag as nat) + " for key "@ + decimal(key as nat)
}

fn slot_vec(tag: u8, len: u32, payload: &[u8]) -> (r: Vec<u8>)
    requires
        payload@.len() <= INLINE_CAP,
    ensures
        r@ == slot_bytes(tag, len, payload@),
{
    let mut r: Vec<u8> = Vec::new();
    r.push(tag);
    push_le32(&mut r, len);
    push_slice(&mut r, payload);
    let ghost head = r@;
    assert(head =~= seq![tag] + le32(len) + payload@);
    while r.len() < SLOT_SIZE
        invariant
            head.len() <= r@.len() <= SLOT_SIZE,
            r@.take(head.len() as int) =~= head,
            forall|i: int| head.len() <= i < r@.len() ==> r@[i] == 0,
        decreases SLOT_SIZE - r.len(),
    {
        r.push(0);
    }
    proof {
        let want = slot_bytes(tag, len, payload@);
        assert forall|i: int| 0 <= i < r@.len() implies r@[i] == want[i] by {
            if i < head.len() {
                assert(r@.take(head.len() as int)[i] == head[i]);
            }
        }
        assert(r@ =~= want);
    }
    r
}

impl IvArray {
    /// Free the chain that the slot of a key leads to, if there is one.
    #[verifier::spinoff_prover]
    fn free_value(&self, pager: &mut Pager, key: u32, dir: PageId, si: usize, Ghost(lay): Ghost<Layout>)
        requires
            old(pager).wf(),
            sound(old(pager)@),
            0 <= self.slot() < NROOTS,
            key < KEYS,
            si == at2(key),
            dir != 0,
            dir == dir_of(heap(old(pager)@), l0_of(old(pager)@, self.slot()), at0(key), at1(key)),
            array_at(heap(old(pager)@), l0_of(old(pager)@, self.slot()), lay),
        ensures
            final(pager).wf(),
            sound(final(pager)@),
            final(pager)@.roots == old(pager)@.roots,
            pages_left(final(pager)@) == pages_left(old(pager)@) + freed(slot_of(heap(old(pager)@), l0_of(old(pager)@, self.slot()), key)),
            forall|x: u32| #[trigger] heap(final(pager)@).contains_key(x) ==> heap(old(pager)@).contains_key(x),
            forall|x: u32| #[trigger] heap(old(pager)@).contains_key(x) && !in_chain(lay, key, x) ==> heap(final(pager)@).contains_key(x) && heap(final(pager)@)[x] == heap(old(pager)@)[x],
    {
        proof {
            reveal(array_at);
        }
        let ghost p = pager@;
        let ghost h = heap(p);
        let ghost l0 = l0_of(p, self.slot());
        let ghost s = slot_of(h, l0, key);
        proof {
            lemma_key_parts(key, key);
            lemma_heap(p);
            assert(dir_ok(h, l0, lay, at0(key), at1(key)));
            assert(slot_ok(h, lay, key, s));
        }
        let buf: Vec<u8> = get_page(pager, dir);
        let off: usize = si * SLOT_SIZE;
        proof {
            assert(s[0] == buf@[off as int]);
            assert(get32(s, 5) == get32(buf@, off + 5));
        }
        if buf[off] == 2 {
            let head: u32 = read_le32(buf.as_slice(), off + 5);
            let ghost c = lay.chains[key];
            proof {
                lemma_holds_linked(h, c.ids, c.data);
                assert(chain_linked(heap(pager@), c.ids) && head == chain_next(c.ids, -1));
            }
            let done: Result<()> = free_chain(pager, head);
            proof {
                assert(heap(pager@) == h.remove_keys(c.ids.to_set()));
                assert forall|x: u32| #[trigger] h.contains_key(x) && !in_chain(lay, key, x) implies heap(pager@).contains_key(x) && heap(pager@)[x] == h[x] by {
                    if c.ids.contains(x) {
                        let k = choose|k: int| 0 <= k < c.ids.len() && c.ids[k] == x;
                        assert(owns_link(lay, key, k));
                    }
                }
            }
        }
    }
}

/// What holds on the way to the slot of a key.
proof fn lemma_way(h: Pages, l0: u32, lay: Layout, key: u32)
    requires
        array_at(h, l0, lay),
        key < KEYS,
    ensures
        l1_ok(h, l0, lay, at0(key)),
        dir_ok(h, l0, lay, at0(key), at1(key)),
        slot_ok(h, lay, key, slot_of(h, l0, key)),
        l0 != 0 ==> h.contains_key(l0),
        forall|x: u32| #[trigger] lay.own.contains_key(x) ==> h.contains_key(x),
{
    reveal(array_at);
    lemma_key_parts(key, key);
}

/// The way to a directory page of an array.
proof fn lemma_dir_search(p: PagerSpec, slot: int, lay: Layout, key: u32)
    requires
        sound(p),
        array_at(heap(p), l0_of(p, slot), lay),
        key < KEYS,
    ensures
        dir_search(p, l0_of(p, slot), at0(key), at1(key)).1 == Some(dir_of(heap(p), l0_of(p, slot), at0(key), at1(key))),
{
    let l0 = l0_of(p, slot);
    lemma_way(heap(p), l0, lay, key);
    lemma_heap(p);
    if l0 != 0 {
        lemma_after_read(p, l0);
        let p1 = after_read(p, l0);
        lemma_same_heap(p, p1);
        lemma_heap(p1);
    }
}

fn empty_vec() -> (r: Vec<u8>)
    ensures
        r@ == empty_slot(),
{
    let mut r: Vec<u8> = Vec::new();
    while r.len() < SLOT_SIZE
        invariant
            r@.len() <= SLOT_SIZE,
            forall|i: int| 0 <= i < r@.len() ==> r@[i] == 0,
        decreases SLOT_SIZE - r.len(),
    {
        r.push(0);
    }
    assert(r@ =~= empty_slot());
    r
}

proof fn lemma_kept_values(p: PagerSpec, lay: Layout, q: PagerSpec, r: Layout, slot: int)
    requires
        sound(p),
        0 <= slot < NROOTS,
        array_at(heap(p), l0_of(p, slot), lay),
        same_slots(p, lay, q, r, slot),
    ensures
        is_array(q, slot),
        forall|k: u32| #[trigger] value(q, slot, k) == value(p, slot, k),
{
    assert forall|k: u32| #[trigger] value(q, slot, k) == value(p, slot, k) by {
        if k < KEYS {
            lemma_value(p, slot, lay, k);
            lemma_value(q, slot, r, k);
            assert(slot_of(heap(q), l0_of(q, slot), k) == slot_of(heap(p), l0_of(p, slot), k));
        }
    }
}

/// Without a chain, no page is marked as part of one after tidying.
proof fn lemma_not_freed(h: Pages, l0: u32, lay: Layout, key: u32)
    requires
        array_at(h, l0, lay),
        key < KEYS,
        slot_of(h, l0, key)[0] != 2,
    ensures
        forall|x: u32| owned(h, l0, x) ==> !#[trigger] in_chain(lay, key, x),
{
    reveal(array_at);
    assert forall|x: u32| owned(h, l0, x) implies !#[trigger] in_chain(lay, key, x) by {
        if in_chain(lay, key, x) {
            if x == l0 {
            } else if exists|i: int| 0 <= i < PT_FANOUT && x == #[trigger] l1_of(h, l0, i) {
                let i = choose|i: int| 0 <= i < PT_FANOUT && x == #[trigger] l1_of(h, l0, i);
                assert(l1_ok(h, l0, lay, i));
            } else if exists|i: int, j: int| 0 <= i < PT_FANOUT && 0 <= j < PT_FANOUT && x == #[trigger] dir_of(h, l0, i, j) {
                let (i, j) = choose|i: int, j: int| 0 <= i < PT_FANOUT && 0 <= j < PT_FANOUT && x == #[trigger] dir_of(h, l0, i, j);
                assert(dir_ok(h, l0, lay, i, j));
            } else {
                let k2 = choose|k2: u32| k2 < KEYS && #[trigger] chain_has(h, slot_of(h, l0, k2), x);
                let s = slot_of(h, l0, k2);
                assert(slot_ok(h, lay, k2, s));
                let ids = choose|ids: Seq<u32>| #[trigger] chain_linked(h, ids) && chain_next(ids, -1) == get32(s, 5) && ids.contains(x);
                let c = lay.chains[k2];
                lemma_holds_linked(h, c.ids, c.data);
                lemma_chain_unique(h, ids, c.ids);
                let k = choose|k: int| 0 <= k < ids.len() && ids[k] == x;
                assert(owns_link(lay, k2, k));
            }
        }
    }
}

/// Pages of an array that stay keep all its values.
proof fn lemma_untouched(p: PagerSpec, q: PagerSpec, slot: int, key: u32, lay: Layout)
    requires
        sound(p),
        sound(q),
        0 <= slot < NROOTS,
        p.roots[slot] <= u32::MAX,
        q.roots == p.roots,
        array_at(heap(p), l0_of(p, slot), lay),
        forall|x: u32| owned(heap(p), l0_of(p, slot), x) ==> !#[trigger] in_chain(lay, key, x),
        forall|x: u32| #[trigger] heap(p).contains_key(x) && !in_chain(lay, key, x) ==> heap(q).contains_key(x) && heap(q)[x] == heap(p)[x],
    ensures
        is_array(q, slot),
        forall|k: u32| #[trigger] value(q, slot, k) == value(p, slot, k),
{
    reveal(array_at);
    let l0 = l0_of(p, slot);
    let tight = lemma_tight(heap(p), l0, lay);
    assert forall|x: u32| #[trigger] tight.own.contains_key(x) implies heap(q).contains_key(x) && heap(q)[x] == heap(p)[x] by {
        assert(!in_chain(lay, key, x));
        assert(heap(p).contains_key(x));
    }
    lemma_frame(heap(p), heap(q), l0, tight);
    assert forall|k: u32| #[trigger] value(q, slot, k) == value(p, slot, k) by {
        if k < KEYS {
            lemma_value(p, slot, tight, k);
            lemma_value(q, slot, tight, k);
            assert(slot_of(heap(q), l0, k) == slot_of(heap(p), l0, k));
        }
    }
}

proof fn lemma_grew(h: Pages, lay: Layout, h1: Pages, lay1: Layout, h2: Pages, h3: Pages, q: Pages, r: Layout, key: u32, ids: Seq<u32>, dir: u32)
    requires
        grew(h, lay, h1, lay1),
        forall|x: u32| #[trigger] h2.contains_key(x) ==> h1.contains_key(x),
        forall|x: u32| #[trigger] h1.contains_key(x) && !in_chain(lay1, key, x) ==> h2.contains_key(x) && h2[x] == h1[x],
        forall|x: u32| #[trigger] h2.contains_key(x) ==> h3.contains_key(x) && h3[x] == h2[x] && !ids.contains(x),
        lay1.own.contains_key(dir),
        q.dom() == h3.dom(),
        forall|x: u32| #[trigger] h3.contains_key(x) && x != dir ==> q[x] == h3[x],
        forall|x: u32| #[trigger] r.own.contains_key(x) ==> ids.contains(x) || (lay1.own.contains_key(x)),
    ensures
        grew(h, lay, q, r),
{
    assert forall|x: u32| #[trigger] h.contains_key(x) && !lay.own.contains_key(x) implies q.contains_key(x) && q[x] == h[x] by {
        assert(h1.contains_key(x) && h1[x] == h[x]);
        assert(!lay1.own.contains_key(x));
        assert(h2.contains_key(x));
        assert(h3.contains_key(x));
        assert(q.dom().contains(x));
    }
    assert forall|x: u32| #[trigger] r.own.contains_key(x) implies lay.own.contains_key(x) || !h.contains_key(x) by {
        if h.contains_key(x) && !lay.own.contains_key(x) {
            assert(h1.contains_key(x));
            assert(!lay1.own.contains_key(x));
            assert(h2.contains_key(x));
        }
    }
}

proof fn lemma_grew_twice(h: Pages, lay: Layout, h1: Pages, lay1: Layout, q: Pages, r: Layout)
    requires
        grew(h, lay, h1, lay1),
        grew(h1, lay1, q, r),
    ensures
        grew(h, lay, q, r),
{
    assert forall|x: u32| #[trigger] h.contains_key(x) && !lay.own.contains_key(x) implies q.contains_key(x) && q[x] == h[x] by {
        assert(h1.contains_key(x));
        assert(!lay1.own.contains_key(x));
    }
    assert forall|x: u32| #[trigger] r.own.contains_key(x) implies lay.own.contains_key(x) || !h.contains_key(x) by {
        if h.contains_key(x) && !lay.own.contains_key(x) {
            assert(h1.contains_key(x));
            assert(!lay1.own.contains_key(x));
        }
    }
}

/// There was no room for a value, and none was freed.
proof fn lemma_not_stored(p: PagerSpec, h2: Pages, q: PagerSpec, slot: int, key: u32, lay: Layout)
    requires
        sound(p),
        sound(q),
        0 <= slot < NROOTS,
        p.roots[slot] <= u32::MAX,
        q.roots == p.roots,
        key < KEYS,
        array_at(heap(p), l0_of(p, slot), lay),
        forall|x: u32| #[trigger] heap(p).contains_key(x) && !in_chain(lay, key, x) ==> h2.contains_key(x) && h2[x] == heap(p)[x],
        forall|x: u32| #[trigger] h2.contains_key(x) ==> heap(q).contains_key(x) && heap(q)[x] == h2[x],
    ensures
        freed(slot_of(heap(p), l0_of(p, slot), key)) == 0 ==> {
            &&& is_array(q, slot)
            &&& forall|k: u32| #[trigger] value(q, slot, k) == value(p, slot, k)
        },
{
    if freed(slot_of(heap(p), l0_of(p, slot), key)) == 0 {
        lemma_not_freed(heap(p), l0_of(p, slot), lay, key);
        assert forall|x: u32| #[trigger] heap(p).contains_key(x) && !in_chain(lay, key, x) implies heap(q).contains_key(x) && heap(q)[x] == heap(p)[x] by {
            assert(h2.contains_key(x));
        }
        lemma_untouched(p, q, slot, key, lay);
    }
}

/// The old value was freed, and the chain of the new one written.
proof fn lemma_spilled(h: Pages, l0: u32, h2: Pages, h3: Pages, key: u32, ids: Seq<u32>, lay: Layout)
    requires
        array_at(h, l0, lay),
        key < KEYS,
        forall|x: u32| #[trigger] h.contains_key(x) && !in_chain(lay, key, x) ==> h2.contains_key(x) && h2[x] == h[x],
        forall|x: u32| #[trigger] h2.contains_key(x) ==> h3.contains_key(x) && h3[x] == h2[x] && !ids.contains(x),
    ensures
        forall|x: u32| #[trigger] lay.own.contains_key(x) && !in_chain(lay, key, x) ==> h3.contains_key(x) && h3[x] == h[x] && !ids.contains(x),
        dir_ok(h, l0, lay, at0(key), at1(key)),
{
    lemma_way(h, l0, lay, key);
    assert forall|x: u32| #[trigger] lay.own.contains_key(x) && !in_chain(lay, key, x) implies h3.contains_key(x) && h3[x] == h[x] && !ids.contains(x) by {
        assert(h.contains_key(x));
        assert(h2.contains_key(x));
    }
}

/// Write the chain of a value that does not fit in a slot.
#[verifier::spinoff_prover]
fn spill(pager: &mut Pager, val: &[u8]) -> (r: (Result<Option<PageId>>, Ghost<Seq<u32>>))
    requires
        old(pager).wf(),
        sound(old(pager)@),
    ensures
        final(pager).wf(),
        sound(final(pager)@),
        final(pager)@.roots == old(pager)@.roots,
        forall|x: u32| #[trigger] heap(old(pager)@).contains_key(x) ==> heap(final(pager)@).contains_key(x) && heap(final(pager)@)[x] == heap(old(pager)@)[x] && !r.1@.contains(x),
        r.0 is Ok <==> (val@.len() > INLINE_CAP ==> pages_left(old(pager)@) >= chain_len(val@.len())),
        r.0 matches Err(e) ==> is_database_error(e, "page count overflow"@),
        r.0 matches Ok(head) ==> match head {
            Some(id) => val@.len() > INLINE_CAP && chain_holds(heap(final(pager)@), r.1@, val@) && r.1@[0] == id,
            None => val@.len() <= INLINE_CAP && r.1@.len() == 0,
        },
{
    if val.len() <= INLINE_CAP {
        return (Ok(None), Ghost(Seq::empty()));
    }
    let ghost h = heap(pager@);
    match write_chain(pager, val) {
        Ok(id) => {
            let ghost ids = choose|ids: Seq<u32>| #[trigger] chain_added(h, heap(pager@), ids, val@) && ids[0] == id;
            proof {
                assert forall|x: u32| #[trigger] h.contains_key(x) implies heap(pager@).contains_key(x) && heap(pager@)[x] == h[x] && !ids.contains(x) by {
                    assert(heap(pager@).dom().contains(x));
                    if ids.contains(x) {
                        let k = choose|k: int| 0 <= k < ids.len() && ids[k] == x;
                        assert(!h.contains_key(ids[k]));
                    }
                }
            }
            (Ok(Some(id)), Ghost(ids))
        },
        Err(e) => (Err(e), Ghost(Seq::empty())),
    }
}

impl IvArray {
    /// Write the slot of a value. `h` are the pages before the old value was freed.
    #[verifier::spinoff_prover]
    fn put_slot(&self, pager: &mut Pager, key: u32, dir: PageId, si: usize, val: &[u8], head: Option<PageId>, Ghost(h): Ghost<Pages>, Ghost(ids): Ghost<Seq<u32>>, Ghost(lay): Ghost<Layout>)
        requires
            old(pager).wf(),
            sound(old(pager)@),
            0 <= self.slot() < NROOTS,
            key < KEYS,
            si == at2(key),
            val@.len() <= u32::MAX,
            pages_ok(h),
            array_at(h, l0_of(old(pager)@, self.slot()), lay),
            dir != 0,
            dir == dir_of(h, l0_of(old(pager)@, self.slot()), at0(key), at1(key)),
            forall|x: u32| #[trigger] lay.own.contains_key(x) && !in_chain(lay, key, x) ==> heap(old(pager)@).contains_key(x) && heap(old(pager)@)[x] == h[x] && !ids.contains(x),
            match head {
                Some(id) => val@.len() > INLINE_CAP && chain_holds(heap(old(pager)@), ids, val@) && ids[0] == id,
                None => val@.len() <= INLINE_CAP && ids.len() == 0,
            },
        ensures
            final(pager).wf(),
            sound(final(pager)@),
            final(pager)@.roots == old(pager)@.roots,
            ({
                let l0 = l0_of(old(pager)@, self.slot());
                let r = new_layout(lay, key, ids, val@);
                &&& heap(final(pager)@).dom() == heap(old(pager)@).dom()
                &&& forall|x: u32| #[trigger] heap(old(pager)@).contains_key(x) && x != dir ==> heap(final(pager)@)[x] == heap(old(pager)@)[x]
                &&& array_at(heap(final(pager)@), l0, r)
                &&& value_in(heap(final(pager)@), l0, r, key) == Some(val@)
                &&& forall|k: u32| k < KEYS && k != key ==> #[trigger] value_in(heap(final(pager)@), l0, r, k) == value_in(h, l0, lay, k)
            }),
    {
        let ghost l0 = l0_of(pager@, self.slot());
        let len: u32 = val.len() as u32;
        proof {
            lemma_key_parts(key, key);
            lemma_way(h, l0, lay, key);
        }
        let ghost m = heap(pager@);
        let mut buf: Vec<u8> = get_page(pager, dir);
        let slot_v: Vec<u8> = match head {
            None => slot_vec(1, len, val),
            Some(id) => {
                let mut b: Vec<u8> = Vec::new();
                push_le32(&mut b, id);
                assert(b@ =~= le32(id));
                slot_vec(2, len, b.as_slice())
            },
        };
        proof {
            assert(slot_v@ == slot_for(val@, ids));
            if val@.len() > INLINE_CAP {
                lemma_slot_bytes(2, len, le32(ids[0]));
            } else {
                lemma_slot_bytes(1, len, val@);
            }
            lemma_patched_slot(h[dir], at2(key), slot_v@);
            lemma_stored(h, m, l0, key, val@, ids, lay);
        }
        patch(&mut buf, si * SLOT_SIZE, slot_v.as_slice());
        put_page(pager, dir, &buf);
        proof {
            assert(heap(pager@).dom() =~= m.dom());
        }
    }

    /// Store a value in a slot whose directory page exists.
    #[verifier::spinoff_prover]
    #[verifier::rlimit(40)]
    fn store(&self, pager: &mut Pager, key: u32, dir: PageId, si: usize, val: &[u8], Ghost(lay): Ghost<Layout>) -> (r: (Result<()>, Ghost<Layout>))
        requires
            old(pager).wf(),
            sound(old(pager)@),
            0 <= self.slot() < NROOTS,
            old(pager)@.roots[self.slot()] <= u32::MAX,
            key < KEYS,
            si == at2(key),
            val@.len() <= u32::MAX,
            dir != 0,
            dir == dir_of(heap(old(pager)@), l0_of(old(pager)@, self.slot()), at0(key), at1(key)),
            array_at(heap(old(pager)@), l0_of(old(pager)@, self.slot()), lay),
        ensures
            final(pager).wf(),
            sound(final(pager)@),
            final(pager)@.roots == old(pager)@.roots,
            r.0 is Ok <==> (val@.len() > INLINE_CAP ==> pages_left(old(pager)@) + freed(slot_of(heap(old(pager)@), l0_of(old(pager)@, self.slot()), key)) >= chain_len(val@.len())),
            r.0 is Ok ==> {
                let l0 = l0_of(old(pager)@, self.slot());
                &&& array_at(heap(final(pager)@), l0, r.1@)
                &&& value_in(heap(final(pager)@), l0, r.1@, key) == Some(val@)
                &&& forall|k: u32| k < KEYS && k != key ==> #[trigger] value_in(heap(final(pager)@), l0, r.1@, k) == value_in(heap(old(pager)@), l0, lay, k)
                &&& grew(heap(old(pager)@), lay, heap(final(pager)@), r.1@)
            },
            r.0 matches Err(e) ==> {
                &&& is_database_error(e, "page count overflow"@)
                &&& freed(slot_of(heap(old(pager)@), l0_of(old(pager)@, self.slot()), key)) == 0 ==> {
                    &&& is_array(final(pager)@, self.slot())
                    &&& forall|k: u32| #[trigger] value(final(pager)@, self.slot(), k) == value(old(pager)@, self.slot(), k)
                }
            },
    {
        let ghost slot = self.slot();
        let ghost p1 = pager@;
        let ghost h1 = heap(p1);
        let ghost m0 = l0_of(p1, slot);
        let len: u32 = val.len() as u32;
        self.free_value(pager, key, dir, si, Ghost(lay));
        let ghost p2 = pager@;
        let ghost h2 = heap(p2);
        let (spilled, Ghost(ids)) = spill(pager, val);
        let head: Option<PageId> = match spilled {
            Ok(head) => head,
            Err(e) => {
                proof {
                    lemma_not_stored(p1, h2, pager@, slot, key, lay);
                }
                return (Err(e), Ghost(lay));
            },
        };
        let ghost h3 = heap(pager@);
        proof {
            lemma_heap(p1);
            lemma_spilled(h1, m0, h2, h3, key, ids, lay);
        }
        self.put_slot(pager, key, dir, si, val, head, Ghost(h1), Ghost(ids), Ghost(lay));
        let ghost r = new_layout(lay, key, ids, val@);
        proof {
            lemma_grew(h1, lay, h1, lay, h2, h3, heap(pager@), r, key, ids, dir);
        }
        (Ok(()), Ghost(r))
    }
}

impl IvArray {
    /// Store a value. Fails on a value or a key that is too large, and if there are
    /// not enough pages. In the last case, what was stored stays, except that a long
    /// value of the same key is lost, and the slot of that key is then broken.
    #[verifier::spinoff_prover]
    #[verifier::rlimit(30)]
    pub fn insert(&self, pager: &mut Pager, key: u32, val: &[u8]) -> (r: Result<()>)
        requires
            old(pager).wf(),
            is_array(old(pager)@, self.slot()),
        ensures
            final(pager).wf(),
            sound(final(pager)@),
            r is Ok <==> val@.len() <= u32::MAX && key < KEYS && room_for(old(pager)@, self.slot(), key, val@.len()),
            r is Ok ==> {
                &&& is_array(final(pager)@, self.slot())
                &&& value(final(pager)@, self.slot(), key) == Some(val@)
                &&& keeps_values(old(pager)@, final(pager)@, self.slot(), key)
                &&& keeps_foreign(heap(old(pager)@), l0_of(old(pager)@, self.slot()), heap(final(pager)@), l0_of(final(pager)@, self.slot()))
                &&& final(pager)@.roots == old(pager)@.roots.update(self.slot(), final(pager)@.roots[self.slot()])
            },
            r matches Err(e) ==> if val@.len() > u32::MAX {
                is_database_error(e, "IvArray value too large"@) && final(pager)@ == old(pager)@
            } else if key >= KEYS {
                is_database_error(e, key_text(key)) && final(pager)@ == old(pager)@
            } else {
                &&& is_database_error(e, "page count overflow"@)
                &&& freed(slot_of(heap(old(pager)@), l0_of(old(pager)@, self.slot()), key)) == 0 ==> {
                    &&& is_array(final(pager)@, self.slot())
                    &&& forall|k: u32| #[trigger] value(final(pager)@, self.slot(), k) == value(old(pager)@, self.slot(), k)
                }
            },
    {
        if val.len() as u64 > u32::MAX as u64 {
            return Err(GStoreError::Database("IvArray value too large".to_owned()));
        }
        let len: u32 = val.len() as u32;
        let (i, j, si) = match Self::locate(key) {
            Ok(t) => t,
            Err(e) => {
                return Err(e);
            },
        };
        let ghost slot = self.slot();
        let ghost p = pager@;
        let ghost h = heap(p);
        let ghost l0 = l0_of(p, slot);
        let ghost lay = lemma_tight(h, l0, choose|lay: Layout| array_at(h, l0, lay));
        let (found, Ghost(lay1)) = self.ensure_dir(pager, key, i, j, Ghost(lay));
        let ghost p1 = pager@;
        let ghost h1 = heap(p1);
        let ghost m0 = l0_of(p1, slot);
        proof {
            lemma_kept_values(p, lay, p1, lay1, slot);
        }
        let dir: PageId = match found {
            Ok(d) => d,
            Err(e) => {
                return Err(e);
            },
        };
        let (done, Ghost(lay2)) = self.store(pager, key, dir, si, val, Ghost(lay1));
        proof {
            if done is Ok {
                lemma_grew_twice(h, lay, h1, lay1, heap(pager@), lay2);
                lemma_foreign(h, l0, lay, heap(pager@), m0, lay2);
                lemma_value(pager@, slot, lay2, key);
                assert forall|k: u32| k != key implies #[trigger] value(pager@, slot, k) == value(p, slot, k) by {
                    if k < KEYS {
                        lemma_value(pager@, slot, lay2, k);
                        lemma_value(p1, slot, lay1, k);
                        assert(value(p1, slot, k) == value(p, slot, k));
                        assert(value_in(heap(pager@), m0, lay2, k) == value_in(h1, m0, lay1, k));
                    }
                }
            } else if freed(slot_of(h, l0, key)) == 0 {
                assert forall|k: u32| #[trigger] value(pager@, slot, k) == value(p, slot, k) by {
                    assert(value(p1, slot, k) == value(p, slot, k));
                }
            }
        }
        done
    }

    /// Remove the value of a key, and say whether there was one.
    #[verifier::spinoff_prover]
    pub fn delete(&self, pager: &mut Pager, key: u32) -> (r: Result<bool>)
        requires
            old(pager).wf(),
            is_array(old(pager)@, self.slot()),
        ensures
            final(pager).wf(),
            r is Ok <==> key < KEYS,
            r matches Err(e) ==> is_database_error(e, key_text(key)) && final(pager)@ == old(pager)@,
            r matches Ok(b) ==> {
                &&& b == (value(old(pager)@, self.slot(), key) is Some)
                &&& is_array(final(pager)@, self.slot())
                &&& value(final(pager)@, self.slot(), key) is None
                &&& keeps_values(old(pager)@, final(pager)@, self.slot(), key)
                &&& keeps_foreign(heap(old(pager)@), l0_of(old(pager)@, self.slot()), heap(final(pager)@), l0_of(final(pager)@, self.slot()))
                &&& final(pager)@.roots == old(pager)@.roots
                &&& pages_left(final(pager)@) == pages_left(old(pager)@) + freed(slot_of(heap(old(pager)@), l0_of(old(pager)@, self.slot()), key))
            },
    {
        let (i, j, si) = match Self::locate(key) {
            Ok(t) => t,
            Err(e) => {
                return Err(e);
            },
        };
        let ghost slot = self.slot();
        let ghost p = pager@;
        let ghost h = heap(p);
        let ghost l0 = l0_of(p, slot);
        let ghost lay = lemma_tight(h, l0, choose|lay: Layout| array_at(h, l0, lay));
        proof {
            lemma_heap(p);
            lemma_key_parts(key, key);
            lemma_way(h, l0, lay, key);
            lemma_dir_search(p, slot, lay, key);
            lemma_value(p, slot, lay, key);
            assert(keeps_foreign(h, l0, h, l0)) by {
                lemma_foreign(h, l0, lay, h, l0, lay);
            }
        }
        let found: Result<Option<PageId>> = self.dir_page(pager, i, j);
        proof {
            lemma_same_heap(p, pager@);
            assert(pager@.roots =~= p.roots.update(slot, p.roots[slot]));
            lemma_kept_values(p, lay, pager@, lay, slot);
        }
        let dir: PageId = match found {
            Ok(Some(d)) => d,
            Ok(None) => {
                return Ok(false);
            },
            Err(e) => {
                return Err(e);
            },
        };
        let buf0: Vec<u8> = get_page(pager, dir);
        let off: usize = si * SLOT_SIZE;
        assert(buf0@[off as int] == slot_of(h, l0, key)[0]);
        if buf0[off] == 0 {
            proof {
                lemma_kept_values(p, lay, pager@, lay, slot);
            }
            return Ok(false);
        }
        self.free_value(pager, key, dir, si, Ghost(lay));
        let ghost h2 = heap(pager@);
        proof {
            assert forall|x: u32| #[trigger] lay.own.contains_key(x) && !in_chain(lay, key, x) implies h2.contains_key(x) && h2[x] == h[x] by {
                assert(h.contains_key(x));
            }
        }
        let mut buf: Vec<u8> = get_page(pager, dir);
        let empty: Vec<u8> = empty_vec();
        patch(&mut buf, off, empty.as_slice());
        proof {
            lemma_patched_slot(h[dir], at2(key), empty@);
            lemma_removed(h, h2, l0, key, lay);
        }
        put_page(pager, dir, &buf);
        proof {
            let q = pager@;
            let r = new_layout(lay, key, Seq::empty(), Seq::empty());
            assert(array_at(heap(q), l0, r));
            lemma_value(q, slot, r, key);
            assert forall|k: u32| k != key implies #[trigger] value(q, slot, k) == value(p, slot, k) by {
                if k < KEYS {
                    lemma_value(q, slot, r, k);
                    lemma_value(p, slot, lay, k);
                    assert(value_in(heap(q), l0, r, k) == value_in(h, l0, lay, k));
                }
            }
            assert forall|x: u32| !Seq::<u32>::empty().contains(x) by {}
            assert(grew(h, lay, heap(q), r)) by {
                assert forall|x: u32| #[trigger] h.contains_key(x) && !lay.own.contains_key(x) implies heap(q).contains_key(x) && heap(q)[x] == h[x] by {
                    assert(h2.contains_key(x));
                }
            }
            lemma_foreign(h, l0, lay, heap(q), l0, r);
        }
        Ok(true)
    }
}

/// What a lookup comes upon.
pub ghost enum Found {
    /// The end of the file.
    End,
    /// No value.
    Nothing,
    /// A value.
    Value(Seq<u8>),
    /// A slot that is neither empty, nor short, nor long.
    Broken(u8),
    /// A short value that passes the end of its page.
    Overrun,
}

/// A lookup of a key that can be addressed: the pager after it, and what it found.
pub open spec fn lookup(p: PagerSpec, slot: int, key: u32) -> (PagerSpec, Found) {
    let (p1, dir) = dir_search(p, l0_of(p, slot), at0(key), at1(key));
    match dir {
        None => (p1, Found::End),
        Some(id) => if id == 0 {
            (p1, Found::Nothing)
        } else {
            let p2 = after_read(p1, id);
            match contents(p1, id) {
                None => (p2, Found::End),
                Some(d) => {
                    let off = at2(key) * SLOT_SIZE;
                    let len = get32(d, off + 1);
                    if d[off] == 0 {
                        (p2, Found::Nothing)
                    } else if d[off] == 1 {
                        (p2, if off + 5 + len <= PAGE_SIZE { Found::Value(d.subrange(off + 5, off + 5 + len)) } else { Found::Overrun })
                    } else if d[off] == 2 {
                        match chain_read(p2, get32(d, off + 5), len as nat) {
                            None => (chain_walked(p2, get32(d, off + 5), len as nat), Found::End),
                            Some(v) => (chain_walked(p2, get32(d, off + 5), len as nat), Found::Value(v)),
                        }
                    } else {
                        (p2, Found::Broken(d[off]))
                    }
                },
            }
        },
    }
}

/// A lookup in an array finds the value of the key.
pub proof fn law_lookup_finds_value(p: PagerSpec, slot: int, key: u32)
    requires
        is_array(p, slot),
        key < KEYS,
    ensures
        lookup(p, slot, key).1 == match value(p, slot, key) {
            Some(v) => Found::Value(v),
            None => Found::Nothing,
        },
{
    let h = heap(p);
    let l0 = l0_of(p, slot);
    let lay = choose|lay: Layout| array_at(h, l0, lay);
    lemma_key_parts(key, key);
    lemma_way(h, l0, lay, key);
    lemma_dir_search(p, slot, lay, key);
    lemma_value(p, slot, lay, key);
    lemma_heap(p);
    let (p1, found) = dir_search(p, l0, at0(key), at1(key));
    if l0 != 0 {
        lemma_after_read(p, l0);
        let pa = after_read(p, l0);
        lemma_same_heap(p, pa);
        lemma_heap(pa);
        let l1 = entry(h[l0], at0(key));
        if l1 != 0 {
            lemma_after_read(pa, l1);
            lemma_same_heap(pa, after_read(pa, l1));
        }
        assert(heap(p1) == h && sound(p1));
        lemma_heap(p1);
        let id = dir_of(h, l0, at0(key), at1(key));
        if id != 0 {
            assert(contents(p1, id) == Some(h[id]));
            lemma_after_read(p1, id);
            let p2 = after_read(p1, id);
            lemma_same_heap(p1, p2);
            let s = slot_of(h, l0, key);
            let off = at2(key) * SLOT_SIZE;
            assert(s[0] == h[id][off]);
            assert(get32(s, 1) == get32(h[id], off + 1));
            assert(get32(s, 5) == get32(h[id], off + 5));
            if s[0] == 1 {
                assert(s.subrange(5, 5 + get32(s, 1)) =~= h[id].subrange(off + 5, off + 5 + get32(s, 1)));
            } else if s[0] == 2 {
                law_chain_roundtrip(p2, lay.chains[key].ids, lay.chains[key].data);
            }
        }
    }
}

/// A new pager holds an empty array in each root slot that is 0.
pub proof fn law_no_root_is_empty_array(p: PagerSpec, slot: int)
    requires
        sound(p),
        0 <= slot < NROOTS,
        p.roots[slot] == 0,
    ensures
        is_array(p, slot),
        forall|key: u32| #[trigger] value(p, slot, key) is None,
{
    let lay = Layout { own: Map::empty(), chains: Map::empty() };
    lemma_no_array(heap(p), lay);
    assert forall|key: u32| #[trigger] value(p, slot, key) is None by {
        assert(slot_of(heap(p), 0, key) == empty_slot());
    }
}

impl IvArray {
    /// Look up the value of a key. Fails on a key that is too large, where the file
    /// ends, and on a broken slot.
    pub fn get(&self, pager: &mut Pager, key: u32) -> (r: Result<Option<Vec<u8>>>)
        requires
            old(pager).wf(),
            0 <= self.slot() < NROOTS,
            key < KEYS ==> !(lookup(old(pager)@, self.slot(), key).1 is Overrun),
        ensures
            final(pager).wf(),
            same_header(old(pager)@, final(pager)@),
            keeps_pages(old(pager)@, final(pager)@),
            final(pager)@ == if key < KEYS {
                lookup(old(pager)@, self.slot(), key).0
            } else {
                old(pager)@
            },
            key >= KEYS ==> (r matches Err(e) && is_database_error(e, key_text(key))),
            key < KEYS ==> match lookup(old(pager)@, self.slot(), key).1 {
                Found::End => r matches Err(e) && is_eof(e),
                Found::Nothing => r matches Ok(None),
                Found::Value(v) => r matches Ok(Some(b)) && b@ == v,
                Found::Broken(tag) => r matches Err(e) && is_database_error(e, tag_text(tag, key)),
                Found::Overrun => false,
            },
            is_array(old(pager)@, self.slot()) && key < KEYS ==> match value(old(pager)@, self.slot(), key) {
                Some(v) => r matches Ok(Some(b)) && b@ == v,
                None => r matches Ok(None),
            },
    {
        let (i, j, si) = match Self::locate(key) {
            Ok(t) => t,
            Err(e) => {
                return Err(e);
            },
        };
        proof {
            lemma_key_parts(key, key);
            if is_array(pager@, self.slot()) {
                law_lookup_finds_value(pager@, self.slot(), key);
            }
        }
        let dir: PageId = match self.dir_page(pager, i, j) {
            Ok(Some(d)) => d,
            Ok(None) => {
                return Ok(None);
            },
            Err(e) => {
                return Err(e);
            },
        };
        let buf: Vec<u8> = match pager.read_page(dir) {
            Ok(d) => d,
            Err(e) => {
                return Err(e);
            },
        };
        let off: usize = si * SLOT_SIZE;
        let tag: u8 = buf[off];
        if tag == 0 {
            return Ok(None);
        }
        if tag == 1 {
            let len: usize = read_le32(buf.as_slice(), off + 1) as usize;
            return Ok(Some(slice_copy(buf.as_slice(), off + 5, off + 5 + len)));
        }
        if tag == 2 {
            let len: usize = read_le32(buf.as_slice(), off + 1) as usize;
            let head: u32 = read_le32(buf.as_slice(), off + 5);
            return match read_chain(pager, head, len) {
                Ok(v) => Ok(Some(v)),
                Err(e) => Err(e),
            };
        }
        let mut m: String = join3("IvArray: corrupt slot tag ", decimal_of(tag as u64).as_str(), " for key ");
        m.append(decimal_of(key as u64).as_str());
        Err(GStoreError::Database(m))
    }
}

} // verus!
