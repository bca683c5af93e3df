//! Cutting a document into chunks of whole lines, for parsers that work side by
//! side.

use vstd::prelude::*;

verus! {

/// The end of the line that holds the byte at `pos`, past its line end.
pub open spec fn line_past(bytes: Seq<u8>, pos: int) -> int
    decreases bytes.len() - pos,
{
    if pos < 0 || pos >= bytes.len() {
        bytes.len() as int
    } else if bytes[pos] == 10 {
        pos + 1
    } else {
        line_past(bytes, pos + 1)
    }
}

/// The chunks from `start` on, of which the next is number `i` out of `n`.
pub open spec fn chunks_from(bytes: Seq<u8>, n: int, i: int, start: int) -> Seq<(int, int)>
    decreases n - i,
{
    if start >= bytes.len() {
        Seq::empty()
    } else if i >= n {
        seq![(start, bytes.len() as int)]
    } else {
        let even = bytes.len() * i / n;
        let cut = line_past(bytes, if even < start { start } else { even });
        seq![(start, cut)] + chunks_from(bytes, n, i + 1, cut)
    }
}

/// The chunks of a document: `n` parts of about the same size, each moved to the
/// end of a line.
pub open spec fn chunks(bytes: Seq<u8>, n: int) -> Seq<(int, int)> {
    if n <= 1 || bytes.len() == 0 {
        seq![(0int, bytes.len() as int)]
    } else {
        chunks_from(bytes, n, 1, 0)
    }
}

proof fn lemma_line_past(bytes: Seq<u8>, pos: int)
    requires
        0 <= pos < bytes.len(),
    ensures
        pos < line_past(bytes, pos) <= bytes.len(),
        line_past(bytes, pos) < bytes.len() ==> bytes[line_past(bytes, pos) - 1] == 10,
    decreases bytes.len() - pos,
{
    reveal_with_fuel(line_past, 2);
    if bytes[pos] != 10 && pos + 1 < bytes.len() {
        lemma_line_past(bytes, pos + 1);
    }
}

/// The chunks are not empty, follow each other without a gap from `start` to the
/// end, and all but the last end with a line end.
pub open spec fn chunks_cover(bytes: Seq<u8>, cs: Seq<(int, int)>, start: int) -> bool {
    &&& cs.len() > 0
    &&& cs[0].0 == start
    &&& cs[cs.len() - 1].1 == bytes.len()
    &&& forall|k: int| 0 <= k < cs.len() ==> chunk_ok(bytes, #[trigger] cs[k])
    &&& forall|k: int| 0 < k < cs.len() ==> chunk_follows(cs, k)
}

/// A chunk that ends with a line, or at the end.
pub open spec fn chunk_ok(bytes: Seq<u8>, c: (int, int)) -> bool {
    &&& 0 <= c.0 < c.1 <= bytes.len()
    &&& c.1 < bytes.len() ==> bytes[c.1 - 1] == 10
}

/// A chunk that starts where the one before ends.
pub open spec fn chunk_follows(cs: Seq<(int, int)>, k: int) -> bool {
    cs[k].0 == cs[k - 1].1
}

proof fn lemma_even(len: int, i: int, n: int)
    requires
        0 < len,
        0 <= i < n,
    ensures
        0 <= len * i / n < len,
{
    assert(0 <= len * i / n < len) by (nonlinear_arith)
        requires
            0 < len,
            0 <= i < n,
    ;
}

proof fn lemma_chunks_from(bytes: Seq<u8>, n: int, i: int, start: int)
    requires
        0 <= start < bytes.len(),
        0 <= i,
    ensures
        chunks_cover(bytes, chunks_from(bytes, n, i, start), start),
        chunks_from(bytes, n, i, start).len() <= (if i < n { n - i + 1 } else { 1 }),
    decreases n - i,
{
    let cs = chunks_from(bytes, n, i, start);
    if i < n {
        let even = bytes.len() * i / n;
        lemma_even(bytes.len() as int, i, n);
        let at = if even < start { start } else { even };
        lemma_line_past(bytes, at);
        let cut = line_past(bytes, at);
        let rest = chunks_from(bytes, n, i + 1, cut);
        if cut < bytes.len() {
            lemma_chunks_from(bytes, n, i + 1, cut);
            assert(cs =~= seq![(start, cut)] + rest);
            assert forall|k: int| 0 <= k < cs.len() implies chunk_ok(bytes, #[trigger] cs[k]) by {
                if k > 0 {
                    assert(cs[k] == rest[k - 1]);
                }
            }
            assert forall|k: int| 0 < k < cs.len() implies chunk_follows(cs, k) by {
                if k > 1 {
                    assert(chunk_follows(rest, k - 1));
                    assert(cs[k] == rest[k - 1] && cs[k - 1] == rest[k - 2]);
                }
            }
            assert(cs[cs.len() - 1] == rest[rest.len() - 1]);
        } else {
            assert(rest =~= Seq::<(int, int)>::empty());
            assert(cs =~= seq![(start, cut)]);
        }
    }
}

/// No line is ever cut in two and none is lost: the chunks of a document that is
/// not empty cover it without gaps, all but the last end with a line end, and
/// there are at most as many as asked for.
pub proof fn law_chunks_cover(bytes: Seq<u8>, n: int)
    requires
        bytes.len() > 0,
    ensures
        chunks_cover(bytes, chunks(bytes, n), 0),
        chunks(bytes, n).len() <= (if n < 1 { 1 } else { n }),
{
    if n > 1 {
        lemma_chunks_from(bytes, n, 1, 0);
    }
}

/// The places of some chunks.
pub open spec fn ranges(v: Seq<(usize, usize)>) -> Seq<(int, int)> {
    v.map_values(|c: (usize, usize)| (c.0 as int, c.1 as int))
}

/// Cut a document into at most `n` chunks of whole lines. Gives the first byte of
/// each chunk and the one behind its last.
pub fn split_lines(bytes: &[u8], n: usize) -> (r: Vec<(usize, usize)>)
    ensures
        ranges(r@) == chunks(bytes@, n as int),
{
    let len: usize = bytes.len();
    let mut out: Vec<(usize, usize)> = Vec::new();
    if n <= 1 || len == 0 {
        out.push((0, len));
        assert(ranges(out@) =~= chunks(bytes@, n as int));
        return out;
    }
    let mut start: usize = 0;
    let mut i: usize = 1;
    assert(ranges(out@) + chunks_from(bytes@, n as int, 1, 0) =~= chunks_from(bytes@, n as int, 1, 0));
    while i < n && start < len
        invariant
            1 <= i <= n,
            len == bytes@.len(),
            len > 0,
            n > 1,
            start <= len,
            ranges(out@) + chunks_from(bytes@, n as int, i as int, start as int) == chunks_from(bytes@, n as int, 1, 0),
        decreases n - i,
    {
        let ghost even = bytes@.len() * i / (n as int);
        proof {
            lemma_even(len as int, i as int, n as int);
            assert(len * i <= 0xffff_ffff_ffff_ffffint * 0xffff_ffff_ffff_ffffint) by (nonlinear_arith)
                requires
                    0 <= len <= 0xffff_ffff_ffff_ffffint,
                    0 <= i <= 0xffff_ffff_ffff_ffffint,
            ;
        }
        let even_at: usize = (len as u128 * i as u128 / n as u128) as usize;
        assert(even_at == even);
        let mut cut: usize = if even_at < start { start } else { even_at };
        let ghost at = cut as int;
        while cut < len && bytes[cut] != 10
            invariant
                len == bytes@.len(),
                cut <= len,
                line_past(bytes@, cut as int) == line_past(bytes@, at),
            decreases len - cut,
        {
            cut = cut + 1;
        }
        if cut < len {
            cut = cut + 1;
        }
        assert(cut == line_past(bytes@, at));
        let ghost before = ranges(out@);
        out.push((start, cut));
        proof {
            assert(ranges(out@) =~= before.push((start as int, cut as int)));
            let rest = chunks_from(bytes@, n as int, i + 1, cut as int);
            assert(before + (seq![(start as int, cut as int)] + rest) =~= ranges(out@) + rest);
        }
        start = cut;
        i = i + 1;
    }
    let ghost before = ranges(out@);
    if start < len {
        out.push((start, len));
        assert(ranges(out@) =~= before + seq![(start as int, len as int)]);
    } else {
        assert(before + Seq::<(int, int)>::empty() =~= before);
    }
    out
}

} // verus!
