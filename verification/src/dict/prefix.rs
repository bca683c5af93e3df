//! Shared-prefix compression (front coding) for sorted string lists.
//!
//! A block is the number of strings followed by one entry per string: the length
//! of the prefix shared with the string before it (one byte), the length of the
//! rest (a varint), and the rest.

use crate::kvstore::vlist::{read_varint, varint, varint_read, write_varint};
use crate::text::string_from_utf8;
use vstd::prelude::*;
use vstd::string::*;
use vstd::utf8::{encode_utf8, encode_utf8_valid_utf8, is_char_boundary, length_of_first_scalar, pop_first_scalar, valid_utf8, valid_utf8_concat, valid_utf8_split};

verus! {

/// The longest prefix that is left out; its length takes one byte.
pub const MAX_SHARED_PREFIX: usize = 255;

/// The UTF-8 encodings of some strings.
pub open spec fn encodings(v: Seq<String>) -> Seq<Seq<u8>> {
    v.map_values(|s: String| encode_utf8(s@))
}

/// How many bytes, at most `cap`, the two sequences have in common at the start.
pub open spec fn common_prefix(a: Seq<u8>, b: Seq<u8>, cap: nat) -> nat
    decreases cap,
{
    if cap == 0 || a.len() == 0 || b.len() == 0 || a[0] != b[0] {
        0
    } else {
        1 + common_prefix(a.drop_first(), b.drop_first(), (cap - 1) as nat)
    }
}

/// The last character boundary of `b` at `n` or before.
pub open spec fn boundary_before(b: Seq<u8>, n: nat) -> nat
    decreases n,
{
    if n == 0 || is_char_boundary(b, n as int) {
        n
    } else {
        boundary_before(b, (n - 1) as nat)
    }
}

/// The length of the prefix that the entry for `b` leaves out after `a`.
pub open spec fn shared_prefix(a: Seq<u8>, b: Seq<u8>) -> nat {
    boundary_before(b, common_prefix(a, b, MAX_SHARED_PREFIX as nat))
}

/// One entry of a block.
pub open spec fn entry(prev: Seq<u8>, cur: Seq<u8>) -> Seq<u8> {
    let n = shared_prefix(prev, cur);
    seq![n as u8] + varint((cur.len() - n) as nat) + cur.subrange(n as int, cur.len() as int)
}

/// The entries of a block; `prev` comes before the first string.
pub open spec fn entries(prev: Seq<u8>, strings: Seq<Seq<u8>>) -> Seq<u8>
    decreases strings.len(),
{
    if strings.len() == 0 {
        Seq::empty()
    } else {
        entry(prev, strings[0]) + entries(strings[0], strings.drop_first())
    }
}

/// The front-coded block of some encoded strings.
pub open spec fn block(strings: Seq<Seq<u8>>) -> Seq<u8> {
    varint(strings.len()) + entries(Seq::empty(), strings)
}

/// `count` strings read from `pos` on, where `prev` comes before the first.
pub open spec fn entries_read(bytes: Seq<u8>, pos: int, count: nat, prev: Seq<u8>) -> Option<Seq<Seq<u8>>>
    decreases count,
{
    if count == 0 {
        Some(Seq::empty())
    } else if pos < 0 || pos >= bytes.len() {
        None
    } else {
        let shared = bytes[pos] as int;
        let (len, start) = varint_read(bytes, pos + 1, 0);
        match len {
            None => None,
            Some(l) => {
                let end = start + l;
                let suffix = bytes.subrange(start, end);
                if end > bytes.len() || shared > prev.len() || !is_char_boundary(prev, shared) || !valid_utf8(suffix) {
                    None
                } else {
                    let cur = prev.subrange(0, shared) + suffix;
                    match entries_read(bytes, end, (count - 1) as nat, cur) {
                        None => None,
                        Some(rest) => Some(seq![cur] + rest),
                    }
                }
            },
        }
    }
}

/// The encoded strings that a block holds. What follows the last is ignored.
pub open spec fn block_read(bytes: Seq<u8>) -> Option<Seq<Seq<u8>>> {
    let (count, pos) = varint_read(bytes, 0, 0);
    match count {
        None => None,
        Some(c) => entries_read(bytes, pos, c, Seq::empty()),
    }
}

proof fn lemma_common_prefix(a: Seq<u8>, b: Seq<u8>, cap: nat)
    ensures
        common_prefix(a, b, cap) <= cap,
        common_prefix(a, b, cap) <= a.len(),
        common_prefix(a, b, cap) <= b.len(),
        a.subrange(0, common_prefix(a, b, cap) as int) == b.subrange(0, common_prefix(a, b, cap) as int),
    decreases cap,
{
    let n = common_prefix(a, b, cap);
    if !(cap == 0 || a.len() == 0 || b.len() == 0 || a[0] != b[0]) {
        lemma_common_prefix(a.drop_first(), b.drop_first(), (cap - 1) as nat);
        let m = (n - 1) as int;
        assert forall|i: int| 0 <= i < n implies a[i] == b[i] by {
            if i > 0 {
                assert(a.drop_first().subrange(0, m)[i - 1] == b.drop_first().subrange(0, m)[i - 1]);
            }
        }
    }
    assert(a.subrange(0, n as int) =~= b.subrange(0, n as int));
}

/// The common prefix is the number of equal bytes, up to the cap, to the end of
/// either sequence or to the first difference.
proof fn lemma_common_prefix_is(a: Seq<u8>, b: Seq<u8>, cap: nat, n: nat)
    requires
        n <= cap,
        n <= a.len(),
        n <= b.len(),
        forall|i: int| 0 <= i < n ==> a[i] == b[i],
        n == cap || n == a.len() || n == b.len() || a[n as int] != b[n as int],
    ensures
        common_prefix(a, b, cap) == n,
    decreases n,
{
    if n > 0 {
        assert(a[0] == b[0]);
        let a2 = a.drop_first();
        let b2 = b.drop_first();
        assert forall|i: int| 0 <= i < n - 1 implies a2[i] == b2[i] by {
            assert(a[i + 1] == b[i + 1]);
        }
        lemma_common_prefix_is(a2, b2, (cap - 1) as nat, (n - 1) as nat);
    }
}

proof fn lemma_boundary_before(b: Seq<u8>, n: nat)
    requires
        valid_utf8(b),
    ensures
        boundary_before(b, n) <= n,
        is_char_boundary(b, boundary_before(b, n) as int),
    decreases n,
{
    if n == 0 || is_char_boundary(b, n as int) {
    } else {
        lemma_boundary_before(b, (n - 1) as nat);
    }
}

/// A boundary inside a common prefix is a boundary of both.
proof fn lemma_boundary_shared(a: Seq<u8>, b: Seq<u8>, n: int)
    requires
        valid_utf8(a),
        valid_utf8(b),
        0 <= n <= a.len(),
        n <= b.len(),
        a.subrange(0, n) == b.subrange(0, n),
        is_char_boundary(b, n),
    ensures
        is_char_boundary(a, n),
    decreases b.len(),
{
    if n > 0 {
        assert(a.subrange(0, n)[0] == a[0] && b.subrange(0, n)[0] == b[0]);
        let l = length_of_first_scalar(b);
        let pa = pop_first_scalar(a);
        let pb = pop_first_scalar(b);
        assert(length_of_first_scalar(a) == l);
        assert(is_char_boundary(pb, n - l));
        assert(n - l >= 0);
        assert(l <= a.len() && l <= b.len());
        assert(pa.subrange(0, n - l) =~= pb.subrange(0, n - l)) by {
            assert forall|i: int| 0 <= i < n - l implies pa[i] == pb[i] by {
                assert(pa[i] == a[i + l] && pb[i] == b[i + l]);
                assert(a.subrange(0, n)[i + l] == a[i + l]);
                assert(b.subrange(0, n)[i + l] == b[i + l]);
            }
        }
        lemma_boundary_shared(pa, pb, n - l);
    }
}

/// Length of the common byte prefix of `a` and `b`, capped, and rounded down to
/// a character boundary.
fn shared_prefix_len(a: &str, b: &str) -> (n: usize)
    ensures
        n == shared_prefix(encode_utf8(a@), encode_utf8(b@)),
        n <= 255,
        n <= encode_utf8(b@).len(),
{
    let ab: &[u8] = a.as_bytes();
    let bb: &[u8] = b.as_bytes();
    let mut n: usize = 0;
    while n < MAX_SHARED_PREFIX && n < ab.len() && n < bb.len() && ab[n] == bb[n]
        invariant
            n <= MAX_SHARED_PREFIX,
            n <= ab@.len(),
            n <= bb@.len(),
            forall|i: int| 0 <= i < n ==> ab@[i] == bb@[i],
        decreases MAX_SHARED_PREFIX - n,
    {
        n = n + 1;
    }
    proof {
        lemma_common_prefix_is(ab@, bb@, MAX_SHARED_PREFIX as nat, n as nat);
        encode_utf8_valid_utf8(b@);
    }
    while n > 0 && !b.is_char_boundary(n)
        invariant
            n <= 255,
            n <= bb@.len(),
            bb@ == encode_utf8(b@),
            ab@ == encode_utf8(a@),
            shared_prefix(ab@, bb@) == boundary_before(bb@, n as nat),
        decreases n,
    {
        n = n - 1;
    }
    n
}

fn push_bytes(out: &mut Vec<u8>, bytes: &[u8], from: usize)
    requires
        from <= bytes@.len(),
    ensures
        final(out)@ == old(out)@ + bytes@.subrange(from as int, bytes@.len() as int),
{
    let mut i: usize = from;
    assert(out@ =~= out@ + bytes@.subrange(from as int, from as int));
    while i < bytes.len()
        invariant
            from <= i <= bytes@.len(),
            out@ == old(out)@ + bytes@.subrange(from as int, i as int),
        decreases bytes.len() - i,
    {
        out.push(bytes[i]);
        i = i + 1;
        assert(out@ =~= old(out)@ + bytes@.subrange(from as int, i as int));
    }
}

/// Front-code a list of strings into one block. The list need not be sorted,
/// but a sorted list shares more.
pub fn encode_block(strings: &Vec<String>) -> (r: Vec<u8>)
    requires
        strings@.len() <= u32::MAX,
        forall|i: int| 0 <= i < strings@.len() ==> encode_utf8((#[trigger] strings@[i])@).len() <= u32::MAX,
    ensures
        r@ == block(encodings(strings@)),
{
    let mut out: Vec<u8> = Vec::new();
    write_varint(&mut out, strings.len() as u32);
    let ghost head = out@;
    let ghost enc = encodings(strings@);
    let mut prev: String = String::new();
    let mut i: usize = 0;
    let ghost mut done: Seq<u8> = Seq::empty();
    assert(head =~= varint(enc.len()));
    assert(enc.subrange(0, enc.len() as int) =~= enc);
    assert(encode_utf8(prev@) =~= Seq::<u8>::empty());
    assert(done + entries(Seq::empty(), enc) =~= entries(Seq::empty(), enc));
    while i < strings.len()
        invariant
            i <= strings@.len(),
            enc == encodings(strings@),
            forall|k: int| 0 <= k < strings@.len() ==> encode_utf8((#[trigger] strings@[k])@).len() <= u32::MAX,
            out@ == head + done,
            entries(Seq::empty(), enc) == done + entries(encode_utf8(prev@), enc.subrange(i as int, enc.len() as int)),
        decreases strings.len() - i,
    {
        let cur: &String = &strings[i];
        let ghost pb = encode_utf8(prev@);
        let ghost cb = encode_utf8(cur@);
        let ghost rest = enc.subrange(i as int, enc.len() as int);
        let shared: usize = shared_prefix_len(prev.as_str(), cur.as_str());
        let bytes: &[u8] = cur.as_str().as_bytes();
        out.push(shared as u8);
        write_varint(&mut out, (bytes.len() - shared) as u32);
        push_bytes(&mut out, bytes, shared);
        proof {
            assert(enc[i as int] == cb);
            assert(rest[0] == cb);
            assert(rest.drop_first() =~= enc.subrange(i + 1, enc.len() as int));
            let step = done + entry(pb, cb);
            assert(entries(Seq::empty(), enc) =~= step + entries(cb, rest.drop_first()));
            assert(out@ =~= head + step);
            done = step;
        }
        prev = cur.clone();
        i = i + 1;
    }
    assert(enc.subrange(i as int, enc.len() as int) =~= Seq::<Seq<u8>>::empty());
    assert(out@ =~= block(enc));
    out
}

/// Decode a block into the strings it holds, in their order. `None` if the
/// bytes are malformed.
pub fn decode_block(bytes: &[u8]) -> (r: Option<Vec<String>>)
    ensures
        r is Some <==> block_read(bytes@) is Some,
        r matches Some(v) ==> block_read(bytes@) == Some(encodings(v@)),
{
    let mut pos: usize = 0;
    let count: u32 = match read_varint(bytes, &mut pos) {
        Some(c) => c,
        None => {
            return None;
        },
    };
    let ghost start = pos as int;
    let mut out: Vec<String> = Vec::new();
    let mut prev: String = String::new();
    let mut i: u32 = 0;
    proof {
        assert(encode_utf8(prev@) =~= Seq::<u8>::empty());
        let rest = entries_read(bytes@, start, count as nat, Seq::empty());
        if rest is Some {
            assert(encodings(out@) + rest->0 =~= rest->0);
        }
    }
    while i < count
        invariant
            i <= count,
            pos <= bytes@.len(),
            block_read(bytes@) == entries_read(bytes@, start, count as nat, Seq::empty()),
            ({
                let rest = entries_read(bytes@, pos as int, (count - i) as nat, encode_utf8(prev@));
                entries_read(bytes@, start, count as nat, Seq::empty()) == (match rest {
                    Some(s) => Some(encodings(out@) + s),
                    None => None,
                })
            }),
        decreases count - i,
    {
        if pos >= bytes.len() {
            return None;
        }
        let ghost at = pos as int;
        let ghost pb = encode_utf8(prev@);
        let shared: usize = bytes[pos] as usize;
        pos = pos + 1;
        let len: usize = match read_varint(bytes, &mut pos) {
            Some(l) => l as usize,
            None => {
                return None;
            },
        };
        if len > bytes.len() - pos {
            return None;
        }
        let from: usize = pos;
        let ghost suffix = bytes@.subrange(from as int, from + len);
        proof {
            encode_utf8_valid_utf8(prev@);
        }
        let prev_bytes: &[u8] = prev.as_str().as_bytes();
        if shared > prev_bytes.len() || !prev.as_str().is_char_boundary(shared) {
            return None;
        }
        let mut tail: Vec<u8> = Vec::new();
        let mut cur_bytes: Vec<u8> = Vec::new();
        let mut k: usize = 0;
        while k < shared
            invariant
                k <= shared <= prev_bytes@.len(),
                cur_bytes@ == prev_bytes@.subrange(0, k as int),
            decreases shared - k,
        {
            cur_bytes.push(prev_bytes[k]);
            k = k + 1;
            assert(cur_bytes@ =~= prev_bytes@.subrange(0, k as int));
        }
        let mut j: usize = 0;
        assert(cur_bytes@ =~= pb.subrange(0, shared as int) + bytes@.subrange(from as int, from as int));
        while j < len
            invariant
                j <= len,
                from + len <= bytes.len(),
                tail@ == bytes@.subrange(from as int, from + j),
                cur_bytes@ == pb.subrange(0, shared as int) + bytes@.subrange(from as int, from + j),
            decreases len - j,
        {
            tail.push(bytes[from + j]);
            cur_bytes.push(bytes[from + j]);
            j = j + 1;
            assert(tail@ =~= bytes@.subrange(from as int, from + j));
            assert(cur_bytes@ =~= pb.subrange(0, shared as int) + bytes@.subrange(from as int, from + j));
        }
        match string_from_utf8(tail) {
            Some(t) => {},
            None => {
                return None;
            },
        }
        proof {
            valid_utf8_split(pb, shared as int);
            valid_utf8_concat(pb.subrange(0, shared as int), suffix);
        }
        let cur: String = match string_from_utf8(cur_bytes) {
            Some(c) => c,
            None => {
                return None;
            },
        };
        pos = from + len;
        let ghost before = out@;
        out.push(cur.clone());
        proof {
            let rest = entries_read(bytes@, pos as int, (count - i - 1) as nat, encode_utf8(cur@));
            assert(encodings(out@) =~= encodings(before).push(encode_utf8(cur@)));
            if rest is Some {
                assert(encodings(before) + (seq![encode_utf8(cur@)] + rest->0) =~= encodings(out@) + rest->0);
            }
        }
        prev = cur;
        i = i + 1;
    }
    assert(encodings(out@) + Seq::<Seq<u8>>::empty() =~= encodings(out@));
    Some(out)
}

proof fn lemma_entries_read(bytes: Seq<u8>, pos: int, prev: Seq<u8>, strings: Seq<Seq<u8>>)
    requires
        valid_utf8(prev),
        forall|i: int| 0 <= i < strings.len() ==> valid_utf8(#[trigger] strings[i]) && strings[i].len() <= u32::MAX,
        0 <= pos,
        pos + entries(prev, strings).len() <= bytes.len(),
        bytes.subrange(pos, pos + entries(prev, strings).len()) == entries(prev, strings),
    ensures
        entries_read(bytes, pos, strings.len(), prev) == Some(strings),
    decreases strings.len(),
{
    if strings.len() == 0 {
        assert(strings =~= Seq::<Seq<u8>>::empty());
    } else {
        let cur = strings[0];
        let n = shared_prefix(prev, cur) as int;
        let c = common_prefix(prev, cur, MAX_SHARED_PREFIX as nat);
        lemma_common_prefix(prev, cur, MAX_SHARED_PREFIX as nat);
        lemma_boundary_before(cur, c);
        assert(prev.subrange(0, n) =~= cur.subrange(0, n)) by {
            assert forall|i: int| 0 <= i < n implies prev[i] == cur[i] by {
                assert(prev.subrange(0, c as int)[i] == cur.subrange(0, c as int)[i]);
            }
        }
        lemma_boundary_shared(prev, cur, n);
        valid_utf8_split(cur, n);
        let len = (cur.len() - n) as nat;
        let w = varint(len);
        let suffix = cur.subrange(n, cur.len() as int);
        let e = entry(prev, cur);
        let tail = entries(cur, strings.drop_first());
        let whole = entries(prev, strings);
        let part = bytes.subrange(pos, pos + whole.len());
        assert(whole =~= e + tail);
        assert(e =~= seq![n as u8] + w + suffix);
        assert(part[0] == bytes[pos]);
        assert(part[0] == e[0]);
        let before = bytes.subrange(0, pos + 1);
        let after = bytes.subrange(pos + 1 + w.len(), bytes.len() as int);
        assert(before + w + after =~= bytes) by {
            assert forall|i: int| 0 <= i < w.len() implies bytes[pos + 1 + i] == w[i] by {
                assert(part[1 + i] == e[1 + i]);
            }
        }
        crate::kvstore::vlist::law_varint_roundtrip(before, len as u32, after);
        let start = pos + 1 + w.len();
        let end = start + len;
        assert(bytes.subrange(start, end) =~= suffix) by {
            assert forall|i: int| 0 <= i < len implies bytes[start + i] == suffix[i] by {
                assert(part[1 + w.len() + i] == e[1 + w.len() + i]);
            }
        }
        assert(prev.subrange(0, n) + suffix =~= cur);
        assert(bytes.subrange(end, end + tail.len()) =~= tail) by {
            assert forall|i: int| 0 <= i < tail.len() implies bytes[end + i] == tail[i] by {
                assert(part[e.len() + i] == whole[e.len() + i]);
            }
        }
        assert forall|i: int| 0 <= i < strings.drop_first().len() implies valid_utf8(#[trigger] strings.drop_first()[i]) && strings.drop_first()[i].len() <= u32::MAX by {
            assert(valid_utf8(strings[i + 1]));
        }
        lemma_entries_read(bytes, end, cur, strings.drop_first());
        assert(seq![cur] + strings.drop_first() =~= strings);
    }
}

/// Decoding a block gives the strings back, in their order.
pub proof fn law_block_roundtrip(strings: Seq<Seq<char>>)
    requires
        strings.len() <= u32::MAX,
        forall|i: int| 0 <= i < strings.len() ==> encode_utf8(#[trigger] strings[i]).len() <= u32::MAX,
    ensures
        block_read(block(strings.map_values(|s: Seq<char>| encode_utf8(s)))) == Some(strings.map_values(|s: Seq<char>| encode_utf8(s))),
{
    let enc = strings.map_values(|s: Seq<char>| encode_utf8(s));
    let bytes = block(enc);
    let c = varint(enc.len());
    assert(Seq::<u8>::empty() + c + entries(Seq::empty(), enc) =~= bytes);
    crate::kvstore::vlist::law_varint_roundtrip(Seq::empty(), enc.len() as u32, entries(Seq::empty(), enc));
    assert(bytes.subrange(c.len() as int, (c.len() + entries(Seq::empty(), enc).len()) as int) =~= entries(Seq::empty(), enc));
    assert forall|i: int| 0 <= i < enc.len() implies valid_utf8(#[trigger] enc[i]) && enc[i].len() <= u32::MAX by {
        assert(enc[i] == encode_utf8(strings[i]));
        encode_utf8_valid_utf8(strings[i]);
    }
    lemma_entries_read(bytes, c.len() as int, Seq::empty(), enc);
}

#[verifier::spinoff_prover]
proof fn lemma_entries_cut(bytes: Seq<u8>, pos: int, prev: Seq<u8>, strings: Seq<Seq<u8>>)
    requires
        valid_utf8(prev),
        forall|i: int| 0 <= i < strings.len() ==> valid_utf8(#[trigger] strings[i]) && strings[i].len() <= u32::MAX,
        0 <= pos <= bytes.len(),
        bytes.len() - pos < entries(prev, strings).len(),
        forall|i: int| 0 <= i < bytes.len() - pos ==> #[trigger] bytes[pos + i] == entries(prev, strings)[i],
    ensures
        entries_read(bytes, pos, strings.len(), prev) is None,
    decreases strings.len(),
{
    if strings.len() > 0 && pos < bytes.len() {
        let cur = strings[0];
        let n = shared_prefix(prev, cur) as int;
        let c = common_prefix(prev, cur, MAX_SHARED_PREFIX as nat);
        lemma_common_prefix(prev, cur, MAX_SHARED_PREFIX as nat);
        lemma_boundary_before(cur, c);
        assert(prev.subrange(0, n) =~= cur.subrange(0, n)) by {
            assert forall|i: int| 0 <= i < n implies prev[i] == cur[i] by {
                assert(prev.subrange(0, c as int)[i] == cur.subrange(0, c as int)[i]);
            }
        }
        let len = (cur.len() - n) as nat;
        let w = varint(len);
        let suffix = cur.subrange(n, cur.len() as int);
        let e = entry(prev, cur);
        let tail = entries(cur, strings.drop_first());
        let whole = entries(prev, strings);
        assert(whole =~= e + tail);
        assert(e =~= seq![n as u8] + w + suffix);
        assert(bytes[pos + 0] == whole[0]);
        if bytes.len() - (pos + 1) < w.len() {
            assert forall|i: int| 0 <= i < bytes.len() - (pos + 1) implies #[trigger] bytes[pos + 1 + i] == w[i] by {
                assert(bytes[pos + (1 + i)] == whole[1 + i]);
            }
            crate::kvstore::vlist::law_truncated_varint_is_refused(bytes, pos + 1, 0, len);
        } else {
            let before = bytes.subrange(0, pos + 1);
            let after = bytes.subrange(pos + 1 + w.len(), bytes.len() as int);
            assert(before + w + after =~= bytes) by {
                assert forall|i: int| 0 <= i < w.len() implies bytes[pos + 1 + i] == w[i] by {
                    assert(bytes[pos + (1 + i)] == whole[1 + i]);
                }
            }
            crate::kvstore::vlist::law_varint_roundtrip(before, len as u32, after);
            let start = pos + 1 + w.len();
            let end = start + len;
            if end <= bytes.len() {
                assert(bytes.subrange(start, end) =~= suffix) by {
                    assert forall|i: int| 0 <= i < len implies bytes[start + i] == suffix[i] by {
                        assert(bytes[pos + (1 + w.len() + i)] == whole[1 + w.len() + i]);
                    }
                }
                assert(prev.subrange(0, n) + suffix =~= cur);
                assert forall|i: int| 0 <= i < bytes.len() - end implies #[trigger] bytes[end + i] == tail[i] by {
                    assert(bytes[pos + (e.len() + i)] == whole[e.len() + i]);
                }
                assert forall|i: int| 0 <= i < strings.drop_first().len() implies valid_utf8(#[trigger] strings.drop_first()[i]) && strings.drop_first()[i].len() <= u32::MAX by {
                    assert(valid_utf8(strings[i + 1]));
                }
                lemma_entries_cut(bytes, end, cur, strings.drop_first());
            }
        }
    }
}

/// A block that is cut short, wherever, is refused.
pub proof fn law_truncated_block_is_refused(strings: Seq<Seq<char>>, k: int)
    requires
        strings.len() <= u32::MAX,
        forall|i: int| 0 <= i < strings.len() ==> encode_utf8(#[trigger] strings[i]).len() <= u32::MAX,
        0 <= k < block(strings.map_values(|s: Seq<char>| encode_utf8(s))).len(),
    ensures
        block_read(block(strings.map_values(|s: Seq<char>| encode_utf8(s))).take(k)) is None,
{
    let enc = strings.map_values(|s: Seq<char>| encode_utf8(s));
    let bytes = block(enc);
    let part = bytes.take(k);
    let c = varint(enc.len());
    let all = entries(Seq::empty(), enc);
    if k < c.len() {
        assert forall|i: int| 0 <= i < part.len() - 0 implies #[trigger] part[0 + i] == c[i] by {}
        crate::kvstore::vlist::law_truncated_varint_is_refused(part, 0, 0, enc.len());
    } else {
        assert(Seq::<u8>::empty() + c + all.take(k - c.len()) =~= part);
        crate::kvstore::vlist::law_varint_roundtrip(Seq::empty(), enc.len() as u32, all.take(k - c.len()));
        assert forall|i: int| 0 <= i < enc.len() implies valid_utf8(#[trigger] enc[i]) && enc[i].len() <= u32::MAX by {
            assert(enc[i] == encode_utf8(strings[i]));
            encode_utf8_valid_utf8(strings[i]);
        }
        assert forall|i: int| 0 <= i < part.len() - c.len() implies #[trigger] part[c.len() + i] == all[i] by {}
        lemma_entries_cut(part, c.len() as int, Seq::empty(), enc);
    }
}

/// Total bytes of some strings.
pub open spec fn total_bytes(strings: Seq<Seq<u8>>) -> nat
    decreases strings.len(),
{
    if strings.len() == 0 {
        0
    } else {
        total_bytes(strings.drop_last()) + strings.last().len()
    }
}

proof fn lemma_total_grows(strings: Seq<Seq<u8>>, k: int)
    requires
        0 <= k <= strings.len(),
    ensures
        total_bytes(strings.subrange(0, k)) <= total_bytes(strings),
    decreases strings.len() - k,
{
    if k == strings.len() {
        assert(strings.subrange(0, k) =~= strings);
    } else {
        lemma_total_grows(strings, k + 1);
        assert(strings.subrange(0, k + 1).drop_last() =~= strings.subrange(0, k));
    }
}

/// Total bytes of the strings themselves, which a block is compared against.
pub fn raw_bytes(strings: &Vec<String>) -> (n: usize)
    requires
        total_bytes(encodings(strings@)) <= usize::MAX,
    ensures
        n == total_bytes(encodings(strings@)),
{
    let ghost enc = encodings(strings@);
    let mut n: usize = 0;
    let mut i: usize = 0;
    assert(enc.subrange(0, 0) =~= Seq::<Seq<u8>>::empty());
    while i < strings.len()
        invariant
            i <= strings@.len(),
            enc == encodings(strings@),
            total_bytes(enc) <= usize::MAX,
            n == total_bytes(enc.subrange(0, i as int)),
        decreases strings.len() - i,
    {
        let bytes: &[u8] = strings[i].as_str().as_bytes();
        proof {
            assert(enc.subrange(0, i + 1).drop_last() =~= enc.subrange(0, i as int));
            assert(enc.subrange(0, i + 1).last() == bytes@);
            lemma_total_grows(enc, i + 1);
        }
        n = n + bytes.len();
        i = i + 1;
    }
    assert(enc.subrange(0, i as int) =~= enc);
    n
}

} // verus!
