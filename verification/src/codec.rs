//! Fixed-width integers as bytes.

use vstd::prelude::*;

verus! {

/// Two bytes, least significant first.
pub open spec fn le16(v: u16) -> Seq<u8> {
    seq![(v % 256) as u8, (v / 256) as u8]
}

/// Four bytes, least significant first.
pub open spec fn le32(v: u32) -> Seq<u8> {
    seq![(v % 256) as u8, (v / 256 % 256) as u8, (v / 65536 % 256) as u8, (v / 16777216) as u8]
}

/// Eight bytes, least significant first.
pub open spec fn le64(v: u64) -> Seq<u8> {
    le32((v % 0x1_0000_0000) as u32) + le32((v / 0x1_0000_0000) as u32)
}

/// Four bytes, most significant first, so that byte order is numeric order.
pub open spec fn be32_bytes(v: u32) -> Seq<u8> {
    seq![(v / 16777216) as u8, (v / 65536 % 256) as u8, (v / 256 % 256) as u8, (v % 256) as u8]
}

/// The number in the two bytes at `off`.
pub open spec fn get16(b: Seq<u8>, off: int) -> u16 {
    (b[off] + b[off + 1] * 256) as u16
}

/// The number in the four bytes at `off`.
pub open spec fn get32(b: Seq<u8>, off: int) -> u32 {
    (b[off] + b[off + 1] * 256 + b[off + 2] * 65536 + b[off + 3] * 16777216) as u32
}

/// The number in the eight bytes at `off`.
pub open spec fn get64(b: Seq<u8>, off: int) -> u64 {
    (get32(b, off) + get32(b, off + 4) * 0x1_0000_0000) as u64
}

/// The number in the four bytes at `off`, most significant first.
pub open spec fn get_be32(b: Seq<u8>, off: int) -> u32 {
    (b[off] * 16777216 + b[off + 1] * 65536 + b[off + 2] * 256 + b[off + 3]) as u32
}

/// Writing and reading a number gives it back.
pub proof fn lemma_le16(v: u16, b: Seq<u8>, off: int)
    requires
        0 <= off,
        off + 2 <= b.len(),
        b.subrange(off, off + 2) == le16(v),
    ensures
        get16(b, off) == v,
{
    assert(b.subrange(off, off + 2)[0] == b[off]);
    assert(b.subrange(off, off + 2)[1] == b[off + 1]);
}

pub proof fn lemma_le32(v: u32, b: Seq<u8>, off: int)
    requires
        0 <= off,
        off + 4 <= b.len(),
        b.subrange(off, off + 4) == le32(v),
    ensures
        get32(b, off) == v,
{
    let p = b.subrange(off, off + 4);
    assert(p[0] == b[off] && p[1] == b[off + 1] && p[2] == b[off + 2] && p[3] == b[off + 3]);
}

pub proof fn lemma_le64(v: u64, b: Seq<u8>, off: int)
    requires
        0 <= off,
        off + 8 <= b.len(),
        b.subrange(off, off + 8) == le64(v),
    ensures
        get64(b, off) == v,
{
    let p = b.subrange(off, off + 8);
    let lo = le32((v % 0x1_0000_0000) as u32);
    let hi = le32((v / 0x1_0000_0000) as u32);
    assert(p[0] == lo[0] && p[1] == lo[1] && p[2] == lo[2] && p[3] == lo[3]);
    assert(p[4] == hi[0] && p[5] == hi[1] && p[6] == hi[2] && p[7] == hi[3]);
    assert(b.subrange(off, off + 4) =~= lo);
    assert(b.subrange(off + 4, off + 8) =~= hi);
    lemma_le32((v % 0x1_0000_0000) as u32, b, off);
    lemma_le32((v / 0x1_0000_0000) as u32, b, off + 4);
}

pub proof fn lemma_be32(v: u32, b: Seq<u8>, off: int)
    requires
        0 <= off,
        off + 4 <= b.len(),
        b.subrange(off, off + 4) == be32_bytes(v),
    ensures
        get_be32(b, off) == v,
{
    let p = b.subrange(off, off + 4);
    assert(p[0] == b[off] && p[1] == b[off + 1] && p[2] == b[off + 2] && p[3] == b[off + 3]);
}

/// Append a number.
pub fn push_le16(out: &mut Vec<u8>, v: u16)
    ensures
        final(out)@ == old(out)@ + le16(v),
{
    out.push((v % 256) as u8);
    out.push((v / 256) as u8);
    assert(out@ =~= old(out)@ + le16(v));
}

pub fn push_le32(out: &mut Vec<u8>, v: u32)
    ensures
        final(out)@ == old(out)@ + le32(v),
{
    out.push((v % 256) as u8);
    out.push((v / 256 % 256) as u8);
    out.push((v / 65536 % 256) as u8);
    out.push((v / 16777216) as u8);
    assert(out@ =~= old(out)@ + le32(v));
}

pub fn push_le64(out: &mut Vec<u8>, v: u64)
    ensures
        final(out)@ == old(out)@ + le64(v),
{
    push_le32(out, (v % 0x1_0000_0000) as u32);
    push_le32(out, (v / 0x1_0000_0000) as u32);
    assert(out@ =~= old(out)@ + le64(v));
}

pub fn push_be32(out: &mut Vec<u8>, v: u32)
    ensures
        final(out)@ == old(out)@ + be32_bytes(v),
{
    out.push((v / 16777216) as u8);
    out.push((v / 65536 % 256) as u8);
    out.push((v / 256 % 256) as u8);
    out.push((v % 256) as u8);
    assert(out@ =~= old(out)@ + be32_bytes(v));
}

/// Append a slice.
pub fn push_slice(out: &mut Vec<u8>, b: &[u8])
    ensures
        final(out)@ == old(out)@ + b@,
{
    let mut i: usize = 0;
    assert(out@ =~= old(out)@ + b@.subrange(0, 0));
    while i < b.len()
        invariant
            i <= b@.len(),
            out@ == old(out)@ + b@.subrange(0, i as int),
        decreases b.len() - i,
    {
        out.push(b[i]);
        i = i + 1;
        assert(out@ =~= old(out)@ + b@.subrange(0, i as int));
    }
    assert(b@.subrange(0, b@.len() as int) =~= b@);
}

/// Read a number at `off`.
pub fn read_le16(b: &[u8], off: usize) -> (v: u16)
    requires
        off + 2 <= b@.len(),
    ensures
        v == get16(b@, off as int),
{
    b[off] as u16 + b[off + 1] as u16 * 256
}

pub fn read_le32(b: &[u8], off: usize) -> (v: u32)
    requires
        off + 4 <= b@.len(),
    ensures
        v == get32(b@, off as int),
{
    b[off] as u32 + b[off + 1] as u32 * 256 + b[off + 2] as u32 * 65536 + b[off + 3] as u32 * 16777216
}

pub fn read_le64(b: &[u8], off: usize) -> (v: u64)
    requires
        off + 8 <= b.len(),
    ensures
        v == get64(b@, off as int),
{
    read_le32(b, off) as u64 + read_le32(b, off + 4) as u64 * 0x1_0000_0000
}

pub fn read_be32(b: &[u8], off: usize) -> (v: u32)
    requires
        off + 4 <= b@.len(),
    ensures
        v == get_be32(b@, off as int),
{
    b[off] as u32 * 16777216 + b[off + 1] as u32 * 65536 + b[off + 2] as u32 * 256 + b[off + 3] as u32
}

/// A copy of the bytes from `from` to `to`.
pub fn slice_copy(b: &[u8], from: usize, to: usize) -> (r: Vec<u8>)
    requires
        from <= to <= b@.len(),
    ensures
        r@ == b@.subrange(from as int, to as int),
{
    let mut r: Vec<u8> = Vec::new();
    let mut i: usize = from;
    while i < to
        invariant
            from <= i <= to <= b@.len(),
            r@ == b@.subrange(from as int, i as int),
        decreases to - i,
    {
        r.push(b[i]);
        i = i + 1;
        assert(r@ =~= b@.subrange(from as int, i as int));
    }
    r
}

} // verus!
