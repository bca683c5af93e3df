//! The write-ahead log of a paged file: its framing, and what recovery does with
//! it.
//!
//! A committed batch of pages is framed as the magic `GSTOREWL`, the number of
//! pages, each page with its id, a checksum of all that follows the magic, and the
//! commit magic `GSTORECM`. A log that is not complete is recognised as such and
//! ignored.

use crate::codec::{get32, le32, lemma_le32, push_le32, push_slice, read_le32, slice_copy};
use crate::text::same_bytes;
use vstd::prelude::*;

verus! {

/// Size of a page.
pub const PAGE_SIZE: usize = 4096;

/// The number of a page in its file. Page 0 is the header; 0 also means none.
pub type PageId = u32;

/// A page with its id.
#[derive(Debug)]
pub struct PageImage {
    pub id: PageId,
    pub data: Vec<u8>,
}

/// A page with its id, as a mathematical value.
pub type PageSpec = (u32, Seq<u8>);

/// Some pages as mathematical values.
pub open spec fn images(b: Seq<PageImage>) -> Seq<PageSpec> {
    b.map_values(|p: PageImage| (p.id, p.data@))
}

/// All pages have the size of a page.
pub open spec fn sized(b: Seq<PageSpec>) -> bool {
    forall|k: int| 0 <= k < b.len() ==> (#[trigger] b[k]).1.len() == PAGE_SIZE
}

/// A page of zeros.
pub open spec fn zeros() -> Seq<u8> {
    Seq::new(PAGE_SIZE as nat, |i: int| 0u8)
}

/// A page of zeros.
pub fn zero_page() -> (r: Vec<u8>)
    ensures
        r@ == zeros(),
{
    let mut r: Vec<u8> = Vec::new();
    let mut i: usize = 0;
    while i < PAGE_SIZE
        invariant
            i <= PAGE_SIZE,
            r@.len() == i,
            forall|k: int| 0 <= k < i ==> r@[k] == 0,
        decreases PAGE_SIZE - i,
    {
        r.push(0);
        i = i + 1;
    }
    assert(r@ =~= zeros());
    r
}

/// A copy of some bytes.
pub fn copy_bytes(b: &Vec<u8>) -> (r: Vec<u8>)
    ensures
        r@ == b@,
{
    let r: Vec<u8> = slice_copy(b.as_slice(), 0, b.len());
    assert(b@.subrange(0, b@.len() as int) =~= b@);
    r
}

/// One step of the checksum: one bit.
pub open spec fn crc_bit(c: u32) -> u32 {
    if c & 1 == 1 {
        (c >> 1) ^ 0xEDB8_8320
    } else {
        c >> 1
    }
}

/// Some steps of the checksum.
pub open spec fn crc_bits(c: u32, n: nat) -> u32
    decreases n,
{
    if n == 0 {
        c
    } else {
        crc_bit(crc_bits(c, (n - 1) as nat))
    }
}

/// The state of the checksum after some bytes.
pub open spec fn crc_state(data: Seq<u8>) -> u32
    decreases data.len(),
{
    if data.len() == 0 {
        0xFFFF_FFFF
    } else {
        crc_bits(crc_state(data.drop_last()) ^ (data.last() as u32), 8)
    }
}

/// The CRC-32 checksum (IEEE 802.3, reflected).
pub open spec fn crc(data: Seq<u8>) -> u32 {
    !crc_state(data)
}

/// The CRC-32 checksum of some bytes.
pub fn crc32(data: &[u8]) -> (r: u32)
    ensures
        r == crc(data@),
{
    let n: usize = data.len();
    let r: u32 = crc_range(data, 0, n);
    assert(data@.subrange(0, n as int) =~= data@);
    r
}

/// The CRC-32 checksum of the bytes from `from` to `to`.
fn crc_range(data: &[u8], from: usize, to: usize) -> (r: u32)
    requires
        from <= to <= data@.len(),
    ensures
        r == crc(data@.subrange(from as int, to as int)),
{
    let mut c: u32 = 0xFFFF_FFFF;
    let mut i: usize = from;
    assert(data@.subrange(from as int, from as int) =~= Seq::<u8>::empty());
    while i < to
        invariant
            from <= i <= to <= data@.len(),
            c == crc_state(data@.subrange(from as int, i as int)),
        decreases to - i,
    {
        let ghost part = data@.subrange(from as int, i + 1);
        proof {
            assert(part.drop_last() =~= data@.subrange(from as int, i as int));
            assert(part.last() == data@[i as int]);
        }
        c = c ^ (data[i] as u32);
        let ghost start = c;
        let mut k: usize = 0;
        while k < 8
            invariant
                k <= 8,
                c == crc_bits(start, k as nat),
            decreases 8 - k,
        {
            if c & 1 == 1 {
                c = (c >> 1) ^ 0xEDB8_8320;
            } else {
                c = c >> 1;
            }
            k = k + 1;
        }
        i = i + 1;
    }
    !c
}

/// The magic at the start of a log.
pub open spec fn wal_magic() -> Seq<u8> {
    seq![71u8, 83, 84, 79, 82, 69, 87, 76]
}

/// The magic at the end of a committed log.
pub open spec fn commit_magic() -> Seq<u8> {
    seq![71u8, 83, 84, 79, 82, 69, 67, 77]
}

/// The pages of a batch, each behind its id.
pub open spec fn entries_bytes(b: Seq<PageSpec>) -> Seq<u8>
    decreases b.len(),
{
    if b.len() == 0 {
        Seq::empty()
    } else {
        entries_bytes(b.drop_last()) + le32(b.last().0) + b.last().1
    }
}

/// The part of a log that the checksum covers.
pub open spec fn wal_body(b: Seq<PageSpec>) -> Seq<u8> {
    le32(b.len() as u32) + entries_bytes(b)
}

/// The log of a committed batch.
pub open spec fn wal_frame(b: Seq<PageSpec>) -> Seq<u8> {
    wal_magic() + wal_body(b) + le32(crc(wal_body(b))) + commit_magic()
}

/// The size of a page and its id in a log.
pub open spec fn entry_size() -> int {
    4 + PAGE_SIZE
}

/// The pages in the body of a log.
pub open spec fn read_entries(data: Seq<u8>, n: int) -> Seq<PageSpec> {
    Seq::new(n as nat, |k: int| (get32(data, 12 + k * entry_size()), data.subrange(12 + k * entry_size() + 4, 12 + (k + 1) * entry_size())))
}

/// The batch of a log, if that is complete and intact: the magic, the length, the
/// commit magic and the checksum all match.
pub open spec fn wal_read(data: Seq<u8>) -> Option<Seq<PageSpec>> {
    if data.len() < 12 || data.subrange(0, 8) != wal_magic() {
        None
    } else {
        let n = get32(data, 8) as int;
        let end = 12 + n * entry_size();
        if data.len() != end + 12 || data.subrange(end + 4, end + 12) != commit_magic() || crc(data.subrange(8, end)) != get32(data, end) {
            None
        } else {
            Some(read_entries(data, n))
        }
    }
}

fn push_bytes(out: &mut Vec<u8>, b: &Vec<u8>)
    ensures
        final(out)@ == old(out)@ + b@,
{
    push_slice(out, b.as_slice());
}

/// The bytes of a log for a batch.
pub fn write_wal(batch: &Vec<PageImage>) -> (r: Vec<u8>)
    requires
        batch@.len() <= u32::MAX,
    ensures
        r@ == wal_frame(images(batch@)),
{
    let ghost b = images(batch@);
    let mut body: Vec<u8> = Vec::new();
    push_le32(&mut body, batch.len() as u32);
    let mut i: usize = 0;
    proof {
        assert(b.take(0) =~= Seq::<PageSpec>::empty());
        assert(body@ =~= le32(b.len() as u32) + entries_bytes(b.take(0)));
    }
    while i < batch.len()
        invariant
            i <= batch@.len(),
            b == images(batch@),
            body@ == le32(b.len() as u32) + entries_bytes(b.take(i as int)),
        decreases batch.len() - i,
    {
        proof {
            assert(b.take(i + 1).drop_last() =~= b.take(i as int));
            assert(b.take(i + 1).last() == b[i as int]);
        }
        push_le32(&mut body, batch[i].id);
        push_bytes(&mut body, &batch[i].data);
        i = i + 1;
        assert(body@ =~= le32(b.len() as u32) + entries_bytes(b.take(i as int)));
    }
    assert(b.take(b.len() as int) =~= b);
    let sum: u32 = crc32(body.as_slice());
    let mut r: Vec<u8> = vec![71, 83, 84, 79, 82, 69, 87, 76];
    assert(r@ =~= wal_magic());
    push_bytes(&mut r, &body);
    push_le32(&mut r, sum);
    let tail: Vec<u8> = vec![71, 83, 84, 79, 82, 69, 67, 77];
    assert(tail@ =~= commit_magic());
    push_bytes(&mut r, &tail);
    r
}

proof fn lemma_mul(n: int)
    requires
        n >= 0,
    ensures
        n * entry_size() == 4100 * n,
        (n + 1) * entry_size() == n * entry_size() + entry_size(),
{
    assert(entry_size() == 4100);
    assert(n * 4100 == 4100 * n && (n + 1) * 4100 == n * 4100 + 4100) by (nonlinear_arith);
}

/// Read a log. Gives the batch only if the log is complete and intact.
pub fn parse_wal(data: &[u8]) -> (r: Option<Vec<PageImage>>)
    ensures
        r is Some <==> wal_read(data@) is Some,
        r matches Some(b) ==> images(b@) == wal_read(data@)->0 && sized(images(b@)),
{
    let len: usize = data.len();
    if len < 12 {
        return None;
    }
    let head: Vec<u8> = slice_copy(data, 0, 8);
    let magic: Vec<u8> = vec![71, 83, 84, 79, 82, 69, 87, 76];
    assert(magic@ =~= wal_magic());
    if !same_bytes(head.as_slice(), magic.as_slice()) {
        return None;
    }
    let n: u32 = read_le32(data, 8);
    let total: u64 = 12 + n as u64 * 4100 + 12;
    proof {
        lemma_mul(n as int);
    }
    if len as u64 != total {
        return None;
    }
    let end: usize = len - 12;
    let tail: Vec<u8> = slice_copy(data, end + 4, len);
    let commit: Vec<u8> = vec![71, 83, 84, 79, 82, 69, 67, 77];
    assert(commit@ =~= commit_magic());
    if !same_bytes(tail.as_slice(), commit.as_slice()) {
        return None;
    }
    let sum: u32 = read_le32(data, end);
    if crc_range(data, 8, end) != sum {
        return None;
    }
    let mut out: Vec<PageImage> = Vec::new();
    let mut off: usize = 12;
    let mut k: u32 = 0;
    let ghost want = read_entries(data@, n as int);
    assert(images(out@) =~= want.take(0));
    while k < n
        invariant
            k <= n,
            end == len - 12,
            len == data@.len(),
            end == 12 + n * entry_size(),
            off == 12 + k * entry_size(),
            off <= end,
            want == read_entries(data@, n as int),
            images(out@) == want.take(k as int),
            sized(images(out@)),
        decreases n - k,
    {
        proof {
            lemma_mul(k as int);
            lemma_mul(n as int);
            assert((k + 1) * entry_size() <= n * entry_size()) by (nonlinear_arith)
                requires
                    k + 1 <= n,
                    entry_size() >= 0,
            ;
        }
        let id: u32 = read_le32(data, off);
        let page: Vec<u8> = slice_copy(data, off + 4, off + 4100);
        let ghost before = images(out@);
        let ghost v = page@;
        out.push(PageImage { id, data: page });
        off = off + 4100;
        k = k + 1;
        proof {
            assert(images(out@) =~= before.push((id, v)));
            assert(want.take(k as int) =~= want.take(k - 1).push(want[k - 1]));
            assert(sized(images(out@))) by {
                let i2 = images(out@);
                assert forall|j: int| 0 <= j < i2.len() implies (#[trigger] i2[j]).1.len() == PAGE_SIZE by {
                    if j < before.len() {
                        assert(i2[j] == before[j]);
                    }
                }
            }
        }
    }
    assert(want.take(n as int) =~= want);
    Some(out)
}

proof fn lemma_entries(b: Seq<PageSpec>, k: int)
    requires
        sized(b),
        0 <= k < b.len(),
    ensures
        entries_bytes(b).len() == b.len() * entry_size(),
        entries_bytes(b).subrange(k * entry_size(), k * entry_size() + 4) == le32(b[k].0),
        entries_bytes(b).subrange(k * entry_size() + 4, (k + 1) * entry_size()) == b[k].1,
        (k + 1) * entry_size() <= b.len() * entry_size(),
        k * entry_size() >= 0,
    decreases b.len(), 0int,
{
    let front = b.drop_last();
    let n = b.len() - 1;
    lemma_mul(n as int);
    lemma_mul(k);
    assert(sized(front)) by {
        assert forall|j: int| 0 <= j < front.len() implies (#[trigger] front[j]).1.len() == PAGE_SIZE by {
            assert(b[j].1.len() == PAGE_SIZE);
        }
    }
    assert(b[n as int].1.len() == PAGE_SIZE);
    lemma_entries_len(front);
    let e0 = entries_bytes(front);
    let e = entries_bytes(b);
    assert(e =~= e0 + le32(b.last().0) + b.last().1);
    assert((k + 1) * entry_size() <= b.len() * entry_size() && k * entry_size() >= 0) by (nonlinear_arith)
        requires
            0 <= k,
            k + 1 <= b.len(),
            entry_size() >= 0,
    ;
    if k < n {
        lemma_entries(front, k);
        assert(e.subrange(k * entry_size(), k * entry_size() + 4) =~= e0.subrange(k * entry_size(), k * entry_size() + 4));
        assert(e.subrange(k * entry_size() + 4, (k + 1) * entry_size()) =~= e0.subrange(k * entry_size() + 4, (k + 1) * entry_size()));
        assert(front[k] == b[k]);
    } else {
        assert(e.subrange(k * entry_size(), k * entry_size() + 4) =~= le32(b[k].0));
        assert(e.subrange(k * entry_size() + 4, (k + 1) * entry_size()) =~= b[k].1);
    }
}

proof fn lemma_entries_len(b: Seq<PageSpec>)
    requires
        sized(b),
    ensures
        entries_bytes(b).len() == b.len() * entry_size(),
    decreases b.len(), 1int,
{
    if b.len() > 0 {
        lemma_entries(b, b.len() - 1);
    } else {
        assert(0 * entry_size() == 0) by (nonlinear_arith);
    }
}

/// The log of a batch reads back as the batch.
pub proof fn law_wal_roundtrip(b: Seq<PageSpec>)
    requires
        sized(b),
        b.len() <= u32::MAX,
    ensures
        wal_read(wal_frame(b)) == Some(b),
{
    let data = wal_frame(b);
    let body = wal_body(b);
    let n = b.len() as u32;
    lemma_entries_len(b);
    lemma_mul(b.len() as int);
    let end = 12 + b.len() * entry_size();
    assert(data.subrange(0, 8) =~= wal_magic());
    assert(data.subrange(8, 12) =~= le32(n));
    lemma_le32(n, data, 8);
    assert(data.subrange(8, end) =~= body);
    assert(data.subrange(end, end + 4) =~= le32(crc(body)));
    lemma_le32(crc(body), data, end);
    assert(data.subrange(end + 4, end + 12) =~= commit_magic());
    let got = read_entries(data, b.len() as int);
    assert forall|k: int| 0 <= k < b.len() implies #[trigger] got[k] == b[k] by {
        lemma_entries(b, k);
        lemma_mul(k);
        let off = 12 + k * entry_size();
        let e = entries_bytes(b);
        assert(data.subrange(off, off + 4) =~= e.subrange(k * entry_size(), k * entry_size() + 4));
        lemma_le32(b[k].0, data, off);
        assert(data.subrange(off + 4, 12 + (k + 1) * entry_size()) =~= e.subrange(k * entry_size() + 4, (k + 1) * entry_size()));
    }
    assert(got =~= b);
}

/// A torn log is recognised: no proper beginning of a log is taken for a log.
pub proof fn law_torn_wal_is_discarded(b: Seq<PageSpec>, k: int)
    requires
        sized(b),
        b.len() <= u32::MAX,
        0 <= k < wal_frame(b).len(),
    ensures
        wal_read(wal_frame(b).take(k)) is None,
{
    let data = wal_frame(b);
    let torn = data.take(k);
    let n = b.len() as u32;
    lemma_entries_len(b);
    lemma_mul(b.len() as int);
    if k >= 12 {
        assert(data.subrange(8, 12) =~= le32(n));
        assert(torn.subrange(8, 12) =~= le32(n));
        lemma_le32(n, torn, 8);
    }
}

/// A paged file: the number of its pages, and those that were ever written. The
/// others hold zeros.
#[verifier::ext_equal]
pub ghost struct FileSpec {
    pub pages: nat,
    pub data: Map<u32, Seq<u8>>,
}

/// A page of a file.
pub open spec fn file_page(f: FileSpec, id: u32) -> Option<Seq<u8>> {
    if id < f.pages {
        Some(if f.data.contains_key(id) { f.data[id] } else { zeros() })
    } else {
        None
    }
}

/// A file after a page was written. A gap before it is filled with zeros.
pub open spec fn page_written(f: FileSpec, p: PageSpec) -> FileSpec {
    FileSpec { pages: (if p.0 < f.pages { f.pages } else { (p.0 + 1) as nat }), data: f.data.insert(p.0, p.1) }
}

/// A file after the pages of a batch were written, in order.
pub open spec fn batch_applied(f: FileSpec, b: Seq<PageSpec>) -> FileSpec
    decreases b.len(),
{
    if b.len() == 0 {
        f
    } else {
        page_written(batch_applied(f, b.drop_last()), b.last())
    }
}

/// What recovery makes of a file and the log beside it.
pub open spec fn recovered(f: FileSpec, wal: Option<Seq<u8>>) -> FileSpec {
    match wal {
        Some(w) => match wal_read(w) {
            Some(b) => batch_applied(f, b),
            None => f,
        },
        None => f,
    }
}

proof fn lemma_applied_same(f: FileSpec, g: FileSpec, b: Seq<PageSpec>)
    requires
        f.pages <= g.pages,
        forall|x: u32| #[trigger] g.data.contains_key(x) && !f.data.contains_key(x) ==> touches(b, x),
        forall|x: u32| #[trigger] f.data.contains_key(x) ==> g.data.contains_key(x),
        forall|x: u32| f.data.contains_key(x) && !touches(b, x) ==> #[trigger] f.data[x] == g.data[x],
        g.pages <= batch_applied(f, b).pages,
    ensures
        batch_applied(g, b) == batch_applied(f, b),
{
    let x = batch_applied(f, b);
    let y = batch_applied(g, b);
    lemma_applied_pages(f, b);
    lemma_applied_pages(g, b);
    lemma_applied_pages2(f, g, b);
    assert forall|id: u32| #[trigger] x.data.contains_key(id) <==> y.data.contains_key(id) by {
        lemma_applied_at(f, b, id);
        lemma_applied_at(g, b, id);
    }
    assert forall|id: u32| x.data.contains_key(id) implies #[trigger] x.data[id] == y.data[id] by {
        lemma_applied_at(f, b, id);
        lemma_applied_at(g, b, id);
    }
    assert(x.data =~= y.data);
}

/// The batch writes the page.
pub open spec fn touches(b: Seq<PageSpec>, id: u32) -> bool {
    exists|k: int| 0 <= k < b.len() && (#[trigger] b[k]).0 == id
}

/// What the batch writes to a page last.
pub open spec fn last_write(b: Seq<PageSpec>, id: u32) -> Seq<u8>
    decreases b.len(),
{
    if b.len() == 0 {
        Seq::empty()
    } else if b.last().0 == id {
        b.last().1
    } else {
        last_write(b.drop_last(), id)
    }
}

/// A page after a batch: what the batch wrote to it last, or what it was.
pub proof fn lemma_applied_at(f: FileSpec, b: Seq<PageSpec>, id: u32)
    ensures
        batch_applied(f, b).data.contains_key(id) <==> touches(b, id) || f.data.contains_key(id),
        touches(b, id) ==> batch_applied(f, b).data[id] == last_write(b, id),
        !touches(b, id) && f.data.contains_key(id) ==> batch_applied(f, b).data[id] == f.data[id],
    decreases b.len(),
{
    if b.len() > 0 {
        let front = b.drop_last();
        lemma_applied_at(f, front, id);
        if b.last().0 == id {
            assert(b[b.len() - 1].0 == id);
        } else {
            if touches(b, id) {
                let k = choose|k: int| 0 <= k < b.len() && (#[trigger] b[k]).0 == id;
                assert(front[k].0 == id);
            }
            if touches(front, id) {
                let k = choose|k: int| 0 <= k < front.len() && (#[trigger] front[k]).0 == id;
                assert(b[k].0 == id);
            }
        }
    }
}

/// A batch never shortens a file, and covers the pages it writes.
pub proof fn lemma_applied_pages(f: FileSpec, b: Seq<PageSpec>)
    ensures
        batch_applied(f, b).pages >= f.pages,
        forall|k: int| 0 <= k < b.len() ==> (#[trigger] b[k]).0 < batch_applied(f, b).pages,
    decreases b.len(),
{
    if b.len() > 0 {
        let front = b.drop_last();
        lemma_applied_pages(f, front);
        assert forall|k: int| 0 <= k < b.len() implies (#[trigger] b[k]).0 < batch_applied(f, b).pages by {
            if k < front.len() {
                assert(front[k] == b[k]);
            }
        }
    }
}

proof fn lemma_applied_pages2(f: FileSpec, g: FileSpec, b: Seq<PageSpec>)
    requires
        f.pages <= g.pages,
    ensures
        batch_applied(f, b).pages <= batch_applied(g, b).pages,
        batch_applied(g, b).pages <= (if g.pages > batch_applied(f, b).pages { g.pages } else { batch_applied(f, b).pages }),
    decreases b.len(),
{
    if b.len() > 0 {
        lemma_applied_pages2(f, g, b.drop_last());
    }
}

/// A commit is atomic. While a batch is committed the machine can stop at any
/// point; what recovery then finds is one of these, and it makes of it either the
/// file before the commit or the file after it:
/// - the log is not complete, the file is as before;
/// - the log is complete, and any part of the batch has been written, the last page
///   perhaps only in part;
/// - the log is gone, the whole batch has been written.
pub proof fn law_commit_is_atomic(f: FileSpec, b: Seq<PageSpec>, k: int, j: int, torn: Seq<u8>)
    requires
        sized(b),
        b.len() <= u32::MAX,
        0 <= k < wal_frame(b).len(),
        0 <= j <= b.len(),
    ensures
        recovered(f, None) == f,
        recovered(f, Some(wal_frame(b).take(k))) == f,
        recovered(batch_applied(f, b.take(j)), Some(wal_frame(b))) == batch_applied(f, b),
        j < b.len() ==> recovered(page_written(batch_applied(f, b.take(j)), (b[j].0, torn)), Some(wal_frame(b))) == batch_applied(f, b),
        recovered(batch_applied(f, b), None) == batch_applied(f, b),
{
    law_wal_roundtrip(b);
    law_torn_wal_is_discarded(b, k);
    let part = b.take(j);
    let g = batch_applied(f, part);
    lemma_applied_pages(f, part);
    lemma_prefix_pages(f, b, j);
    assert forall|x: u32| touches(part, x) implies touches(b, x) by {
        let i = choose|i: int| 0 <= i < part.len() && (#[trigger] part[i]).0 == x;
        assert(b[i].0 == x);
    }
    assert forall|x: u32| #[trigger] g.data.contains_key(x) && !f.data.contains_key(x) implies touches(b, x) by {
        lemma_applied_at(f, part, x);
    }
    assert forall|x: u32| #[trigger] f.data.contains_key(x) implies g.data.contains_key(x) by {
        lemma_applied_at(f, part, x);
    }
    assert forall|x: u32| f.data.contains_key(x) && !touches(b, x) implies #[trigger] f.data[x] == g.data[x] by {
        lemma_applied_at(f, part, x);
    }
    lemma_applied_same(f, g, b);
    if j < b.len() {
        let h = page_written(g, (b[j].0, torn));
        assert(touches(b, b[j].0));
        lemma_applied_pages(f, b);
        lemma_applied_same(f, h, b);
    }
}

proof fn lemma_prefix_pages(f: FileSpec, b: Seq<PageSpec>, j: int)
    requires
        0 <= j <= b.len(),
    ensures
        batch_applied(f, b.take(j)).pages <= batch_applied(f, b).pages,
    decreases b.len(),
{
    if j < b.len() {
        assert(b.drop_last().take(j) =~= b.take(j));
        lemma_prefix_pages(f, b.drop_last(), j);
    } else {
        assert(b.take(j) =~= b);
    }
}

} // verus!
