//! Compact variable-length encoding for posting lists.
//!
//! A list of ascending ids is stored as its length followed by the gaps between
//! the ids, each as a LEB128 varint: seven payload bits per byte, with the high
//! bit set on all bytes but the last.

use vstd::prelude::*;

verus! {

/// The varint of a number.
pub open spec fn varint(v: nat) -> Seq<u8>
    decreases v,
{
    if v < 128 {
        seq![v as u8]
    } else {
        seq![(128 + v % 128) as u8] + varint(v / 128)
    }
}

/// Read a varint at `pos`, of which `k` bytes have been read already: the value
/// of the bytes from here on, if they are well formed, and the place after the
/// last byte looked at. At most five bytes are read, and the fifth holds only
/// the four top bits of a 32-bit number.
pub open spec fn varint_read(bytes: Seq<u8>, pos: int, k: int) -> (Option<nat>, int)
    decreases bytes.len() - pos,
{
    if pos < 0 || pos >= bytes.len() {
        (None, pos)
    } else {
        let b = bytes[pos];
        if k >= 5 || (k == 4 && b > 0x0f) {
            (None, pos + 1)
        } else if b < 128 {
            (Some(b as nat), pos + 1)
        } else {
            let (rest, end) = varint_read(bytes, pos + 1, k + 1);
            match rest {
                Some(v) => (Some((b - 128) as nat + 128 * v), end),
                None => (None, end),
            }
        }
    }
}

/// The number that `k` varint bytes can hold at most, plus one.
spec fn room(k: int) -> nat {
    if k == 0 {
        0x1_0000_0000
    } else if k == 1 {
        0x200_0000
    } else if k == 2 {
        0x4_0000
    } else if k == 3 {
        0x800
    } else {
        0x10
    }
}

proof fn lemma_varint_read(bytes: Seq<u8>, pos: int, k: int, v: nat)
    requires
        0 <= k < 5,
        v < room(k),
        0 <= pos,
        pos + varint(v).len() <= bytes.len(),
        bytes.subrange(pos, pos + varint(v).len()) == varint(v),
    ensures
        varint_read(bytes, pos, k) == (Some(v), pos + varint(v).len()),
    decreases v,
{
    let w = varint(v);
    let part = bytes.subrange(pos, pos + w.len());
    assert(part[0] == bytes[pos]);
    if v >= 128 {
        let rest = varint(v / 128);
        assert(w.len() == 1 + rest.len());
        assert(bytes.subrange(pos + 1, pos + 1 + rest.len()) =~= rest) by {
            assert forall|i: int| 0 <= i < rest.len() implies #[trigger] rest[i] == bytes[pos + 1 + i] by {
                assert(part[1 + i] == w[1 + i]);
            }
        }
        lemma_varint_read(bytes, pos + 1, k + 1, v / 128);
    }
}

/// Reading what was written gives the number back, and stops right behind it.
pub proof fn law_varint_roundtrip(before: Seq<u8>, v: u32, after: Seq<u8>)
    ensures
        varint_read(before + varint(v as nat) + after, before.len() as int, 0) == (Some(v as nat), (before.len() + varint(v as nat).len()) as int),
{
    let bytes = before + varint(v as nat) + after;
    assert(bytes.subrange(before.len() as int, (before.len() + varint(v as nat).len()) as int) =~= varint(v as nat));
    lemma_varint_read(bytes, before.len() as int, 0, v as nat);
}

/// A varint that is cut short cannot be read.
pub proof fn law_truncated_varint_is_refused(bytes: Seq<u8>, pos: int, k: int, v: nat)
    requires
        0 <= pos <= bytes.len(),
        bytes.len() - pos < varint(v).len(),
        forall|i: int| 0 <= i < bytes.len() - pos ==> #[trigger] bytes[pos + i] == varint(v)[i],
    ensures
        varint_read(bytes, pos, k).0 is None,
    decreases v,
{
    if pos < bytes.len() {
        assert(bytes[pos + 0] == varint(v)[0]);
        assert forall|i: int| 0 <= i < bytes.len() - (pos + 1) implies #[trigger] bytes[pos + 1 + i] == varint(v / 128)[i] by {
            assert(bytes[pos + (1 + i)] == varint(v)[1 + i]);
        }
        law_truncated_varint_is_refused(bytes, pos + 1, k + 1, v / 128);
    }
}

/// Append `v` to `out` as a varint.
pub fn write_varint(out: &mut Vec<u8>, v: u32)
    ensures
        final(out)@ == old(out)@ + varint(v as nat),
{
    let mut rest: u32 = v;
    let ghost mut done: Seq<u8> = Seq::empty();
    assert(done + varint(v as nat) =~= varint(v as nat));
    while rest >= 128
        invariant
            varint(v as nat) == done + varint(rest as nat),
            out@ == old(out)@ + done,
        decreases rest,
    {
        let byte: u8 = (128 + rest % 128) as u8;
        out.push(byte);
        proof {
            let step = done.push(byte);
            assert(varint(v as nat) =~= step + varint((rest / 128) as nat));
            assert(out@ =~= old(out)@ + step);
            done = step;
        }
        rest = rest / 128;
    }
    out.push(rest as u8);
    assert(out@ =~= old(out)@ + varint(v as nat));
}

/// Read a varint at `*pos`, moving `*pos` past the bytes looked at. `None` on a
/// truncated or overlong encoding.
pub fn read_varint(bytes: &[u8], pos: &mut usize) -> (r: Option<u32>)
    ensures
        varint_read(bytes@, *old(pos) as int, 0).1 == *final(pos),
        r == (match varint_read(bytes@, *old(pos) as int, 0).0 {
            Some(v) => Some(v as u32),
            None => None,
        }),
        r matches Some(v) ==> varint_read(bytes@, *old(pos) as int, 0).0 == Some(v as nat),
        *old(pos) <= *final(pos),
        *old(pos) <= bytes@.len() ==> *final(pos) <= bytes@.len(),
{
    if *pos >= bytes.len() {
        return None;
    }
    let ghost start = *pos as int;
    let mut acc: u32 = 0;
    let mut scale: u32 = 1;
    let mut k: u32 = 0;
    loop
        invariant
            start <= *pos <= bytes@.len(),
            start == *old(pos),
            k < 5,
            *pos == start + k,
            scale == (if k == 0 {
                1int
            } else if k == 1 {
                0x80
            } else if k == 2 {
                0x4000
            } else if k == 3 {
                0x20_0000
            } else {
                0x1000_0000
            }),
            acc < scale,
            ({
                let (whole, end) = varint_read(bytes@, start, 0);
                let (rest, end2) = varint_read(bytes@, *pos as int, k as int);
                &&& end == end2
                &&& whole == (match rest {
                    Some(v) => Some((acc + scale * v) as nat),
                    None => None,
                })
            }),
        decreases 5 - k,
    {
        if *pos >= bytes.len() {
            return None;
        }
        let byte: u8 = bytes[*pos];
        let ghost at = *pos as int;
        *pos = *pos + 1;
        if k == 4 && byte > 0x0f {
            return None;
        }
        if byte < 128 {
            let add: u32 = byte as u32 * scale;
            return Some(acc + add);
        }
        let low: u32 = (byte - 128) as u32;
        let add: u32 = low * scale;
        proof {
            let (rest, end) = varint_read(bytes@, at + 1, k + 1);
            if rest is Some {
                let v = (rest->0) as int;
                assert(scale * (low + 128 * v) == scale * low + (scale * 128) * v) by (nonlinear_arith);
                assert((acc + add) + (scale * 128) * v == acc + scale * (low + 128 * v));
            }
        }
        acc = acc + add;
        if k == 3 {
            scale = 0x1000_0000;
        } else {
            scale = scale * 128;
        }
        k = k + 1;
    }
}

/// The gaps of a list, each as a varint; `prev` comes before the first id.
pub open spec fn gaps(prev: u32, ids: Seq<u32>) -> Seq<u8>
    decreases ids.len(),
{
    if ids.len() == 0 {
        Seq::empty()
    } else {
        varint((ids[0] - prev) as nat) + gaps(ids[0], ids.drop_first())
    }
}

/// The encoding of a list: its length, then its gaps.
pub open spec fn vlist(ids: Seq<u32>) -> Seq<u8> {
    varint(ids.len()) + gaps(0, ids)
}

/// `count` ids read from `pos` on, where `prev` comes before the first.
pub open spec fn gaps_read(bytes: Seq<u8>, pos: int, count: nat, prev: nat) -> Option<Seq<u32>>
    decreases count,
{
    if count == 0 {
        Some(Seq::empty())
    } else {
        let (gap, next) = varint_read(bytes, pos, 0);
        match gap {
            None => None,
            Some(g) => if prev + g > u32::MAX {
                None
            } else {
                match gaps_read(bytes, next, (count - 1) as nat, prev + g) {
                    None => None,
                    Some(rest) => Some(seq![(prev + g) as u32] + rest),
                }
            },
        }
    }
}

/// The list that some bytes encode. What follows the last gap is ignored.
pub open spec fn vlist_read(bytes: Seq<u8>) -> Option<Seq<u32>> {
    let (count, pos) = varint_read(bytes, 0, 0);
    match count {
        None => None,
        Some(c) => gaps_read(bytes, pos, c, 0),
    }
}

/// No id is smaller than the one before it.
pub open spec fn non_descending(ids: Seq<u32>) -> bool {
    forall|i: int, j: int| 0 <= i <= j < ids.len() ==> ids[i] <= ids[j]
}

/// Encode a list of ids that never descends.
pub fn encode_u32s(ids: &[u32]) -> (r: Vec<u8>)
    requires
        non_descending(ids@),
        ids@.len() <= u32::MAX,
    ensures
        r@ == vlist(ids@),
{
    let mut out: Vec<u8> = Vec::new();
    write_varint(&mut out, ids.len() as u32);
    let ghost head = out@;
    let mut prev: u32 = 0;
    let mut i: usize = 0;
    let ghost mut done: Seq<u8> = Seq::empty();
    assert(head =~= varint(ids@.len()));
    assert(ids@.subrange(0, ids@.len() as int) =~= ids@);
    assert(done + gaps(0, ids@) =~= gaps(0, ids@));
    while i < ids.len()
        invariant
            i <= ids.len(),
            non_descending(ids@),
            prev == (if i == 0 { 0u32 } else { ids@[i - 1] }),
            out@ == head + done,
            gaps(0, ids@) == done + gaps(prev, ids@.subrange(i as int, ids@.len() as int)),
        decreases ids.len() - i,
    {
        let id: u32 = ids[i];
        let ghost rest = ids@.subrange(i as int, ids@.len() as int);
        assert(i > 0 ==> ids@[i - 1] <= ids@[i as int]);
        write_varint(&mut out, id - prev);
        proof {
            assert(rest[0] == id);
            assert(rest.drop_first() =~= ids@.subrange(i + 1, ids@.len() as int));
            let step = done + varint((id - prev) as nat);
            assert(gaps(0, ids@) =~= step + gaps(id, rest.drop_first()));
            assert(out@ =~= head + step);
            done = step;
        }
        prev = id;
        i = i + 1;
    }
    assert(ids@.subrange(i as int, ids@.len() as int) =~= Seq::<u32>::empty());
    assert(out@ =~= vlist(ids@));
    out
}

/// Decode a list of ids. `None` if the bytes are malformed.
pub fn decode_u32s(bytes: &[u8]) -> (r: Option<Vec<u32>>)
    ensures
        r is Some <==> vlist_read(bytes@) is Some,
        r matches Some(v) ==> vlist_read(bytes@) == Some(v@),
{
    let mut pos: usize = 0;
    let count: u32 = match read_varint(bytes, &mut pos) {
        Some(c) => c,
        None => {
            return None;
        },
    };
    let ghost start = pos as int;
    let mut out: Vec<u32> = Vec::new();
    let mut prev: u32 = 0;
    let mut i: u32 = 0;
    proof {
        let rest = gaps_read(bytes@, start, count as nat, 0);
        if rest is Some {
            assert(out@ + rest->0 =~= rest->0);
        }
    }
    while i < count
        invariant
            i <= count,
            pos <= bytes@.len(),
            vlist_read(bytes@) == gaps_read(bytes@, start, count as nat, 0),
            ({
                let rest = gaps_read(bytes@, pos as int, (count - i) as nat, prev as nat);
                gaps_read(bytes@, start, count as nat, 0) == (match rest {
                    Some(s) => Some(out@ + s),
                    None => None,
                })
            }),
        decreases count - i,
    {
        let ghost at = pos as int;
        let gap: u32 = match read_varint(bytes, &mut pos) {
            Some(g) => g,
            None => {
                return None;
            },
        };
        let id: u32 = match prev.checked_add(gap) {
            Some(x) => x,
            None => {
                return None;
            },
        };
        let ghost before = out@;
        out.push(id);
        proof {
            let rest = gaps_read(bytes@, pos as int, (count - i - 1) as nat, id as nat);
            if rest is Some {
                assert(before + (seq![id] + rest->0) =~= out@ + rest->0);
            }
        }
        prev = id;
        i = i + 1;
    }
    assert(out@ + Seq::<u32>::empty() =~= out@);
    Some(out)
}

proof fn lemma_gaps_read(bytes: Seq<u8>, pos: int, prev: u32, ids: Seq<u32>)
    requires
        non_descending(ids),
        ids.len() > 0 ==> prev <= ids[0],
        0 <= pos,
        pos + gaps(prev, ids).len() <= bytes.len(),
        bytes.subrange(pos, pos + gaps(prev, ids).len()) == gaps(prev, ids),
    ensures
        gaps_read(bytes, pos, ids.len(), prev as nat) == Some(ids),
    decreases ids.len(),
{
    if ids.len() == 0 {
        assert(ids =~= Seq::<u32>::empty());
    } else {
        let g = (ids[0] - prev) as nat;
        let w = varint(g);
        let tail = gaps(ids[0], ids.drop_first());
        let whole = bytes.subrange(pos, pos + gaps(prev, ids).len());
        assert(bytes.subrange(pos, pos + w.len()) =~= whole.subrange(0, w.len() as int));
        assert(whole.subrange(0, w.len() as int) =~= w);
        lemma_varint_read(bytes, pos, 0, g);
        assert(bytes.subrange(pos + w.len(), pos + w.len() + tail.len()) =~= whole.subrange(w.len() as int, whole.len() as int));
        assert(whole.subrange(w.len() as int, whole.len() as int) =~= tail);
        lemma_gaps_read(bytes, pos + w.len(), ids[0], ids.drop_first());
        assert(seq![ids[0]] + ids.drop_first() =~= ids);
    }
}

/// Decoding an encoded list gives the list back.
pub proof fn law_vlist_roundtrip(ids: Seq<u32>)
    requires
        non_descending(ids),
        ids.len() <= u32::MAX,
    ensures
        vlist_read(vlist(ids)) == Some(ids),
{
    let bytes = vlist(ids);
    let c = varint(ids.len());
    assert(bytes.subrange(0, c.len() as int) =~= c);
    lemma_varint_read(bytes, 0, 0, ids.len());
    assert(bytes.subrange(c.len() as int, (c.len() + gaps(0, ids).len()) as int) =~= gaps(0, ids));
    lemma_gaps_read(bytes, c.len() as int, 0, ids);
}

} // verus!
