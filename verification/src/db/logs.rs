//! The framing of the redo log and the update log.
//!
//! A redo record is a line `REDO <op> <graph length> <triple length>`, then the
//! graph name and the triple in surface syntax, then a line end. An update
//! record is a line `REC <milliseconds> <changed> <length>`, then the text of the
//! update, then a line end. Lengths are in bytes.

use crate::codec::{push_slice, slice_copy};
use crate::error::{join2, GStoreError};
use crate::text::{chars_of, debug_of, decimal, decimal_of, is_white, parse_unsigned, parsed_unsigned, same, split_words, str_debug, string_from_utf8, texts, words};
use crate::text::{law_white_space_parts_words, lemma_decimal_reads_back, lemma_words_cons};
use vstd::prelude::*;
use vstd::string::*;
use vstd::utf8::{decode_utf8, encode_utf8, encode_utf8_decode_utf8, encode_utf8_valid_utf8, is_ascii_chars, is_ascii_chars_encode_utf8, valid_utf8};

verus! {

/// A change of one triple, as it is kept for replay: `I` for an insertion, `D`
/// for a deletion.
#[derive(Debug)]
pub struct RedoRec {
    pub op: char,
    pub graph: Option<String>,
    pub triple: String,
}

/// A redo record as a mathematical value.
pub ghost struct RedoSpec {
    pub op: char,
    pub graph: Option<Seq<char>>,
    pub triple: Seq<char>,
}

impl View for RedoRec {
    type V = RedoSpec;

    open spec fn view(&self) -> RedoSpec {
        RedoSpec {
            op: self.op,
            graph: (match self.graph {
                Some(g) => Some(g@),
                None => None,
            }),
            triple: self.triple@,
        }
    }
}

/// The name of the graph, empty for the default graph.
pub open spec fn graph_name(g: Option<Seq<char>>) -> Seq<char> {
    match g {
        Some(n) => n,
        None => Seq::empty(),
    }
}

/// The header line of a redo record, without the line end.
pub open spec fn redo_header(r: RedoSpec) -> Seq<char> {
    "REDO"@ + seq![' '] + (seq![r.op] + seq![' '] + (decimal(encode_utf8(graph_name(r.graph)).len()) + seq![' '] + decimal(encode_utf8(r.triple).len())))
}

/// The bytes of a redo record.
pub open spec fn redo_bytes(r: RedoSpec) -> Seq<u8> {
    encode_utf8(redo_header(r)) + seq![10u8] + encode_utf8(graph_name(r.graph)) + encode_utf8(r.triple) + seq![10u8]
}

/// The bytes of some redo records.
pub open spec fn redo_bytes_all(rs: Seq<RedoSpec>) -> Seq<u8>
    decreases rs.len(),
{
    if rs.len() == 0 {
        Seq::empty()
    } else {
        redo_bytes_all(rs.drop_last()) + redo_bytes(rs.last())
    }
}

/// A copy of some records.
pub fn copy_records(v: &Vec<RedoRec>) -> (r: Vec<RedoRec>)
    ensures
        redo_views(r@) == redo_views(v@),
{
    let mut r: Vec<RedoRec> = Vec::new();
    let mut i: usize = 0;
    while i < v.len()
        invariant
            i <= v@.len(),
            r@.len() == i,
            forall|k: int| 0 <= k < i ==> (#[trigger] r@[k])@ == v@[k]@,
        decreases v.len() - i,
    {
        let graph: Option<String> = match &v[i].graph {
            Some(g) => Some(g.clone()),
            None => None,
        };
        r.push(RedoRec { op: v[i].op, graph, triple: v[i].triple.clone() });
        i = i + 1;
    }
    assert(redo_views(r@) =~= redo_views(v@));
    r
}

/// The views of some records.
pub open spec fn redo_views(v: Seq<RedoRec>) -> Seq<RedoSpec> {
    v.map_values(|r: RedoRec| r@)
}

/// The place of the first line end at `pos` or after.
pub open spec fn line_end(bytes: Seq<u8>, pos: int) -> Option<int>
    decreases bytes.len() - pos,
{
    if pos < 0 || pos >= bytes.len() {
        None
    } else if bytes[pos] == 10 {
        Some(pos)
    } else {
        line_end(bytes, pos + 1)
    }
}

proof fn lemma_line_end(bytes: Seq<u8>, pos: int, nl: int)
    requires
        0 <= pos <= nl < bytes.len(),
        bytes[nl] == 10,
        forall|i: int| pos <= i < nl ==> #[trigger] bytes[i] != 10,
    ensures
        line_end(bytes, pos) == Some(nl),
    decreases nl - pos,
{
    if pos < nl {
        lemma_line_end(bytes, pos + 1, nl);
    }
}

/// The place of the first line end at `pos` or after.
pub fn find_line_end(bytes: &[u8], pos: usize) -> (r: Option<usize>)
    requires
        pos <= bytes@.len(),
    ensures
        r == (match line_end(bytes@, pos as int) {
            Some(i) => Some(i as usize),
            None => None,
        }),
        r matches Some(i) ==> pos <= i < bytes@.len() && line_end(bytes@, pos as int) == Some(i as int),
{
    let mut i: usize = pos;
    while i < bytes.len()
        invariant
            pos <= i <= bytes@.len(),
            line_end(bytes@, pos as int) == line_end(bytes@, i as int),
        decreases bytes.len() - i,
    {
        if bytes[i] == 10 {
            return Some(i);
        }
        i = i + 1;
    }
    None
}

/// The number that word `k` denotes, if there is one.
pub open spec fn word_number(w: Seq<Seq<char>>, k: int) -> Option<nat> {
    if k < w.len() {
        parsed_unsigned(w[k], usize::MAX as nat)
    } else {
        None
    }
}

fn number_at(w: &Vec<String>, k: usize) -> (r: Option<usize>)
    ensures
        r == (match word_number(texts(w@), k as int) {
            Some(n) => Some(n as usize),
            None => None,
        }),
        r matches Some(n) ==> word_number(texts(w@), k as int) == Some(n as nat),
{
    if k < w.len() {
        let c: Vec<char> = chars_of(w[k].as_str());
        assert(c@.subrange(0, c@.len() as int) =~= c@);
        assert(texts(w@)[k as int] == w@[k as int]@);
        match parse_unsigned(&c, 0, c.len(), usize::MAX as u64) {
            Some(n) => Some(n as usize),
            None => None,
        }
    } else {
        None
    }
}

/// What a redo log holds at `pos`: a record and the place of the next, or the
/// message of what is wrong.
pub open spec fn redo_read(bytes: Seq<u8>, pos: int) -> Result<(RedoSpec, int), Seq<char>> {
    match line_end(bytes, pos) {
        None => Err("truncated redo.log header"@),
        Some(nl) => {
            let head = bytes.subrange(pos, nl);
            if !valid_utf8(head) {
                Err("non-UTF-8 redo.log header"@)
            } else {
                let text = decode_utf8(head);
                let w = words(text);
                let gstart = nl + 1;
                if w.len() == 0 || w[0] != "REDO"@ {
                    Err("malformed redo.log record header: "@ + str_debug(text))
                } else if w.len() < 2 {
                    Err("missing op in redo.log record"@)
                } else if word_number(w, 2) is None {
                    Err("missing graph length in redo.log"@)
                } else if word_number(w, 3) is None {
                    Err("missing triple length in redo.log"@)
                } else {
                    let gend = gstart + word_number(w, 2)->0;
                    let tend = gend + word_number(w, 3)->0;
                    if tend > bytes.len() {
                        Err("truncated redo.log body"@)
                    } else if !valid_utf8(bytes.subrange(gstart, gend)) {
                        Err("non-UTF-8 redo.log graph"@)
                    } else if !valid_utf8(bytes.subrange(gend, tend)) {
                        Err("non-UTF-8 redo.log triple"@)
                    } else {
                        let g = decode_utf8(bytes.subrange(gstart, gend));
                        Ok((
                            RedoSpec {
                                op: w[1][0],
                                graph: (if g.len() == 0 { None } else { Some(g) }),
                                triple: decode_utf8(bytes.subrange(gend, tend)),
                            },
                            (if tend + 1 <= bytes.len() { tend + 1 } else { bytes.len() as int }),
                        ))
                    }
                }
            }
        },
    }
}

/// The words of a text are not empty.
proof fn lemma_words_nonempty(s: Seq<char>, k: int)
    requires
        0 <= k < words(s).len(),
    ensures
        words(s)[k].len() > 0,
    decreases s.len(),
{
    if s.len() > 0 {
        if is_white(s[0]) {
            lemma_words_nonempty(s.drop_first(), k);
        } else {
            crate::text::lemma_word_len(s);
            let n = crate::text::word_len(s) as int;
            if k > 0 {
                lemma_words_nonempty(s.subrange(n, s.len() as int), k - 1);
            }
        }
    }
}

fn database_error(msg: &str) -> (e: GStoreError)
    ensures
        e matches GStoreError::Database(m) && m@ == msg@,
{
    GStoreError::Database(msg.to_owned())
}

/// A database error with the given message.
pub open spec fn is_database_error(e: GStoreError, msg: Seq<char>) -> bool {
    e matches GStoreError::Database(m) && m@ == msg
}

/// Read the redo record at `pos`, and the place of the next one.
pub fn read_redo(bytes: &[u8], pos: usize) -> (r: Result<(RedoRec, usize), GStoreError>)
    requires
        pos <= bytes@.len(),
    ensures
        r is Ok <==> redo_read(bytes@, pos as int) is Ok,
        r matches Ok(v) ==> redo_read(bytes@, pos as int) == Ok::<(RedoSpec, int), Seq<char>>((v.0@, v.1 as int)) && pos < v.1 <= bytes@.len(),
        r matches Err(e) ==> is_database_error(e, redo_read(bytes@, pos as int)->Err_0),
{
    let nl: usize = match find_line_end(bytes, pos) {
        None => {
            return Err(database_error("truncated redo.log header"));
        },
        Some(i) => i,
    };
    let head: String = match string_from_utf8(slice_copy(bytes, pos, nl)) {
        None => {
            return Err(database_error("non-UTF-8 redo.log header"));
        },
        Some(s) => s,
    };
    proof {
        encode_utf8_decode_utf8(head@);
    }
    let w: Vec<String> = split_words(head.as_str());
    let ghost ws = words(head@);
    assert(w@.len() == ws.len());
    assert forall|k: int| 0 <= k < w@.len() implies (#[trigger] w@[k])@ == ws[k] by {
        assert(texts(w@)[k] == w@[k]@);
    }
    if w.len() == 0 || !same(w[0].as_str(), "REDO") {
        let d: String = debug_of(head.as_str());
        return Err(GStoreError::Database(join2("malformed redo.log record header: ", d.as_str())));
    }
    if w.len() < 2 {
        return Err(database_error("missing op in redo.log record"));
    }
    let opc: Vec<char> = chars_of(w[1].as_str());
    proof {
        assert(w@[1]@ == ws[1]);
        lemma_words_nonempty(head@, 1);
    }
    let op: char = opc[0];
    let glen: usize = match number_at(&w, 2) {
        None => {
            return Err(database_error("missing graph length in redo.log"));
        },
        Some(n) => n,
    };
    let tlen: usize = match number_at(&w, 3) {
        None => {
            return Err(database_error("missing triple length in redo.log"));
        },
        Some(n) => n,
    };
    let total: usize = bytes.len();
    let gstart: usize = nl + 1;
    if glen > total - gstart || tlen > total - gstart - glen {
        return Err(database_error("truncated redo.log body"));
    }
    let gend: usize = gstart + glen;
    let tend: usize = gend + tlen;
    let g: String = match string_from_utf8(slice_copy(bytes, gstart, gend)) {
        None => {
            return Err(database_error("non-UTF-8 redo.log graph"));
        },
        Some(s) => s,
    };
    let t: String = match string_from_utf8(slice_copy(bytes, gend, tend)) {
        None => {
            return Err(database_error("non-UTF-8 redo.log triple"));
        },
        Some(s) => s,
    };
    proof {
        encode_utf8_decode_utf8(g@);
        encode_utf8_decode_utf8(t@);
    }
    let next: usize = if tend < bytes.len() { tend + 1 } else { bytes.len() };
    let empty: bool = g.as_str().is_empty();
    let graph: Option<String> = if empty { None } else { Some(g) };
    Ok((RedoRec { op, graph, triple: t }, next))
}

/// The records of a redo log up to the first that is malformed, and the message
/// of what is wrong with that one.
pub open spec fn redo_read_all(bytes: Seq<u8>, pos: int) -> (Seq<RedoSpec>, Option<Seq<char>>)
    decreases bytes.len() - pos,
{
    if pos < 0 || pos >= bytes.len() {
        (Seq::empty(), None)
    } else {
        match redo_read(bytes, pos) {
            Err(m) => (Seq::empty(), Some(m)),
            Ok((r, next)) => if next <= pos {
                (Seq::empty(), None)
            } else {
                let (rest, e) = redo_read_all(bytes, next);
                (seq![r] + rest, e)
            },
        }
    }
}

/// Read all records of a redo log. Gives the intact records before the first
/// malformed one, and the error where there is one.
pub fn redo_records(bytes: &[u8]) -> (r: (Vec<RedoRec>, Option<GStoreError>))
    ensures
        redo_views(r.0@) == redo_read_all(bytes@, 0).0,
        r.1 is Some <==> redo_read_all(bytes@, 0).1 is Some,
        r.1 matches Some(e) ==> is_database_error(e, redo_read_all(bytes@, 0).1->0),
{
    let mut out: Vec<RedoRec> = Vec::new();
    let mut pos: usize = 0;
    assert(redo_views(out@) + redo_read_all(bytes@, 0).0 =~= redo_read_all(bytes@, 0).0);
    while pos < bytes.len()
        invariant
            pos <= bytes@.len(),
            redo_read_all(bytes@, 0).0 == redo_views(out@) + redo_read_all(bytes@, pos as int).0,
            redo_read_all(bytes@, 0).1 == redo_read_all(bytes@, pos as int).1,
        decreases bytes.len() - pos,
    {
        let ghost at = pos as int;
        match read_redo(bytes, pos) {
            Err(e) => {
                assert(redo_views(out@) + Seq::<RedoSpec>::empty() =~= redo_views(out@));
                return (out, Some(e));
            },
            Ok((rec, next)) => {
                let ghost before = out@;
                let ghost view = rec@;
                out.push(rec);
                pos = next;
                proof {
                    assert(redo_views(out@) =~= redo_views(before).push(view));
                    let rest = redo_read_all(bytes@, next as int).0;
                    assert(redo_views(before) + (seq![view] + rest) =~= redo_views(out@) + rest);
                }
            },
        }
    }
    assert(redo_views(out@) + Seq::<RedoSpec>::empty() =~= redo_views(out@));
    (out, None)
}

/// Append the bytes of a redo record.
pub fn push_redo(out: &mut Vec<u8>, r: &RedoRec)
    ensures
        final(out)@ == old(out)@ + redo_bytes(r@),
{
    let g: &str = match &r.graph {
        Some(g) => g.as_str(),
        None => "",
    };
    proof {
        reveal_strlit("");
        assert(""@ =~= Seq::<char>::empty());
    }
    let gb: &[u8] = g.as_bytes();
    let tb: &[u8] = r.triple.as_str().as_bytes();
    let mut head: String = "REDO".to_owned();
    head.push(' ');
    head.push(r.op);
    head.push(' ');
    head.append(decimal_of(gb.len() as u64).as_str());
    head.push(' ');
    head.append(decimal_of(tb.len() as u64).as_str());
    assert(head@ =~= redo_header(r@));
    push_slice(out, head.as_str().as_bytes());
    out.push(10);
    push_slice(out, gb);
    push_slice(out, tb);
    out.push(10);
    assert(out@ =~= old(out)@ + redo_bytes(r@));
}

/// Append the bytes of some redo records.
pub fn push_redo_all(out: &mut Vec<u8>, rs: &Vec<RedoRec>)
    ensures
        final(out)@ == old(out)@ + redo_bytes_all(redo_views(rs@)),
{
    let mut i: usize = 0;
    let ghost vs = redo_views(rs@);
    assert(vs.subrange(0, 0) =~= Seq::<RedoSpec>::empty());
    assert(out@ =~= old(out)@ + redo_bytes_all(vs.subrange(0, 0)));
    while i < rs.len()
        invariant
            i <= rs@.len(),
            vs == redo_views(rs@),
            out@ == old(out)@ + redo_bytes_all(vs.subrange(0, i as int)),
        decreases rs.len() - i,
    {
        let ghost before = out@;
        push_redo(out, &rs[i]);
        proof {
            let s = vs.subrange(0, i + 1);
            assert(s.drop_last() =~= vs.subrange(0, i as int));
            assert(s.last() == rs@[i as int]@);
            assert(out@ =~= old(out)@ + redo_bytes_all(s));
        }
        i = i + 1;
    }
    assert(vs.subrange(0, vs.len() as int) =~= vs);
}

/// A record that can be framed: the operation is a printable character, and a
/// graph that is named has a name.
pub open spec fn redo_valid(r: RedoSpec) -> bool {
    &&& !is_white(r.op)
    &&& (r.op as u32) < 128
    &&& r.graph != Some(Seq::<char>::empty())
    &&& encode_utf8(graph_name(r.graph)).len() <= usize::MAX
    &&& encode_utf8(r.triple).len() <= usize::MAX
}

proof fn lemma_decimal_ascii(n: nat)
    ensures
        is_ascii_chars(decimal(n)),
        forall|i: int| 0 <= i < decimal(n).len() ==> !is_white(#[trigger] decimal(n)[i]),
{
    lemma_decimal_reads_back(n);
}

/// Reading a record back gives the record, and the place right behind it.
#[verifier::rlimit(40)]
pub proof fn law_redo_roundtrip(before: Seq<u8>, r: RedoSpec, after: Seq<u8>)
    requires
        redo_valid(r),
    ensures
        redo_read(before + redo_bytes(r) + after, before.len() as int) == Ok::<(RedoSpec, int), Seq<char>>((r, (before.len() + redo_bytes(r).len()) as int)),
{
    let bytes = before + redo_bytes(r) + after;
    let pos = before.len() as int;
    let head = redo_header(r);
    let hb = encode_utf8(head);
    let g = graph_name(r.graph);
    let gb = encode_utf8(g);
    let tb = encode_utf8(r.triple);
    let dg = decimal(gb.len());
    let dt = decimal(tb.len());
    reveal_strlit("REDO");
    lemma_decimal_ascii(gb.len());
    lemma_decimal_ascii(tb.len());
    let redo = "REDO"@;
    assert(redo =~= seq!['R', 'E', 'D', 'O']);
    assert forall|i: int| 0 <= i < redo.len() implies !is_white(#[trigger] redo[i]) && (redo[i] as u32) < 128 by {
    }
    // The header is plain text without a line end.
    assert(is_ascii_chars(head)) by {
        assert forall|i: int| 0 <= i < head.len() implies (#[trigger] head[i] as nat) < 128 by {
            if i < 4 {
                assert(head[i] == redo[i]);
            } else if i >= 7 && i < 7 + dg.len() {
                assert(head[i] == dg[i - 7]);
            } else if i >= 8 + dg.len() {
                assert(head[i] == dt[i - 8 - dg.len()]);
            }
        }
    }
    is_ascii_chars_encode_utf8(head);
    assert forall|i: int| 0 <= i < hb.len() implies #[trigger] hb[i] != 10 by {
        assert(hb[i] == head[i] as u8);
        if i < 4 {
            assert(head[i] == redo[i]);
        } else if i >= 7 && i < 7 + dg.len() {
            assert(head[i] == dg[i - 7]);
            assert(!is_white(dg[i - 7]));
        } else if i >= 8 + dg.len() {
            assert(head[i] == dt[i - 8 - dg.len()]);
            assert(!is_white(dt[i - 8 - dg.len()]));
        }
    }
    let nl = pos + hb.len();
    let rb = redo_bytes(r);
    assert(rb =~= hb + seq![10u8] + gb + tb + seq![10u8]);
    assert(bytes[nl] == rb[hb.len() as int]);
    assert forall|i: int| pos <= i < nl implies #[trigger] bytes[i] != 10 by {
        assert(bytes[i] == hb[i - pos]);
    }
    lemma_line_end(bytes, pos, nl);
    assert(bytes.subrange(pos, nl) =~= hb);
    encode_utf8_valid_utf8(head);
    encode_utf8_decode_utf8(head);
    let tail1 = seq![r.op] + seq![' '] + (dg + seq![' '] + dt);
    lemma_words_cons(redo, tail1);
    lemma_words_cons(seq![r.op], dg + seq![' '] + dt);
    lemma_words_cons(dg, dt);
    lemma_words_cons(dt, Seq::empty());
    let w = words(head);
    assert(head =~= redo + seq![' '] + tail1);
    assert(w =~= seq![redo, seq![r.op], dg, dt]);
    lemma_decimal_reads_back(gb.len());
    lemma_decimal_reads_back(tb.len());
    assert(w[2] == dg && w[3] == dt);
    assert(word_number(w, 2) == Some(gb.len()));
    assert(word_number(w, 3) == Some(tb.len()));
    let gstart = nl + 1;
    let gend = gstart + gb.len();
    let tend = gend + tb.len();
    assert(bytes.subrange(gstart, gend) =~= gb);
    assert(bytes.subrange(gend, tend) =~= tb);
    encode_utf8_valid_utf8(g);
    encode_utf8_valid_utf8(r.triple);
    encode_utf8_decode_utf8(g);
    encode_utf8_decode_utf8(r.triple);
    assert(w[1][0] == r.op);
    if r.graph is None {
        assert(g.len() == 0);
    } else {
        assert(g =~= r.graph->0);
        assert(g.len() > 0) by {
            if g.len() == 0 {
                assert(g =~= Seq::<char>::empty());
            }
        }
    }
}

/// Reading a whole log back gives the records that were written, in order, and
/// no error.
pub proof fn law_redo_log_roundtrip(before: Seq<u8>, rs: Seq<RedoSpec>)
    requires
        forall|i: int| 0 <= i < rs.len() ==> redo_valid(#[trigger] rs[i]),
    ensures
        redo_read_all(before + redo_bytes_front(rs), before.len() as int) == (rs, None::<Seq<char>>),
    decreases rs.len(),
{
    let bytes = before + redo_bytes_front(rs);
    let pos = before.len() as int;
    if rs.len() == 0 {
        assert(rs =~= Seq::<RedoSpec>::empty());
    } else {
        let rest = redo_bytes_front(rs.drop_first());
        assert(bytes =~= before + redo_bytes(rs[0]) + rest);
        law_redo_roundtrip(before, rs[0], rest);
        let before2 = before + redo_bytes(rs[0]);
        assert(bytes =~= before2 + rest);
        assert forall|i: int| 0 <= i < rs.drop_first().len() implies redo_valid(#[trigger] rs.drop_first()[i]) by {
            assert(redo_valid(rs[i + 1]));
        }
        law_redo_log_roundtrip(before2, rs.drop_first());
        assert(seq![rs[0]] + rs.drop_first() =~= rs);
    }
}

/// The bytes of some records, built from the front.
pub open spec fn redo_bytes_front(rs: Seq<RedoSpec>) -> Seq<u8>
    decreases rs.len(),
{
    if rs.len() == 0 {
        Seq::empty()
    } else {
        redo_bytes(rs[0]) + redo_bytes_front(rs.drop_first())
    }
}

/// It does not matter from which end the bytes of a log are built.
pub proof fn lemma_redo_front(rs: Seq<RedoSpec>)
    ensures
        redo_bytes_front(rs) == redo_bytes_all(rs),
    decreases rs.len(),
{
    if rs.len() == 1 {
        assert(rs.drop_first() =~= Seq::<RedoSpec>::empty());
        assert(rs.drop_last() =~= Seq::<RedoSpec>::empty());
        assert(redo_bytes_front(rs.drop_first()) =~= Seq::<u8>::empty());
        assert(redo_bytes_all(rs.drop_last()) =~= Seq::<u8>::empty());
        assert(redo_bytes_front(rs) =~= redo_bytes_all(rs));
    } else if rs.len() > 1 {
        let f = rs.drop_first();
        let l = rs.drop_last();
        let m = f.drop_last();
        assert(l.drop_first() =~= m);
        lemma_redo_front(f);
        lemma_redo_front(l);
        lemma_redo_front(m);
        assert(f.last() == rs.last());
        assert(l[0] == rs[0]);
        assert(redo_bytes_front(rs) =~= redo_bytes(rs[0]) + (redo_bytes_all(m) + redo_bytes(rs.last())));
        assert(redo_bytes_all(rs) =~= (redo_bytes(rs[0]) + redo_bytes_front(m)) + redo_bytes(rs.last()));
        assert(redo_bytes_front(rs) =~= redo_bytes_all(rs));
    }
}

/// The header line of an update record, without the line end.
pub open spec fn update_header(millis: nat, changed: nat, len: nat) -> Seq<char> {
    "REC"@ + seq![' '] + (decimal(millis) + seq![' '] + (decimal(changed) + seq![' '] + decimal(len)))
}

/// The bytes of an update record.
pub open spec fn update_bytes(millis: nat, changed: nat, sparql: Seq<char>) -> Seq<u8> {
    encode_utf8(update_header(millis, changed, encode_utf8(sparql).len())) + seq![10u8] + encode_utf8(sparql) + seq![10u8]
}

/// Append the bytes of an update record.
pub fn push_update(out: &mut Vec<u8>, millis: u64, changed: usize, sparql: &str)
    ensures
        final(out)@ == old(out)@ + update_bytes(millis as nat, changed as nat, sparql@),
{
    let sb: &[u8] = sparql.as_bytes();
    let mut head: String = "REC".to_owned();
    head.push(' ');
    head.append(decimal_of(millis).as_str());
    head.push(' ');
    head.append(decimal_of(changed as u64).as_str());
    head.push(' ');
    head.append(decimal_of(sb.len() as u64).as_str());
    assert(head@ =~= update_header(millis as nat, changed as nat, sb@.len()));
    push_slice(out, head.as_str().as_bytes());
    out.push(10);
    push_slice(out, sb);
    out.push(10);
    assert(out@ =~= old(out)@ + update_bytes(millis as nat, changed as nat, sparql@));
}

/// What an update log holds at `pos`: the text of an update and the place of the
/// next record, or the message of what is wrong.
pub open spec fn update_read(bytes: Seq<u8>, pos: int) -> Result<(Seq<char>, int), Seq<char>> {
    match line_end(bytes, pos) {
        None => Err("truncated update.log header"@),
        Some(nl) => {
            let head = bytes.subrange(pos, nl);
            if !valid_utf8(head) {
                Err("non-UTF-8 update.log header"@)
            } else {
                let text = decode_utf8(head);
                let w = words(text);
                let start = nl + 1;
                if w.len() == 0 || w[0] != "REC"@ {
                    Err("malformed update.log record header: "@ + str_debug(text))
                } else if word_number(w, 3) is None {
                    Err("missing length in update.log record"@)
                } else {
                    let end = start + word_number(w, 3)->0;
                    if end > bytes.len() {
                        Err("truncated update.log body"@)
                    } else if !valid_utf8(bytes.subrange(start, end)) {
                        Err("non-UTF-8 update.log body"@)
                    } else {
                        Ok((decode_utf8(bytes.subrange(start, end)), (if end + 1 <= bytes.len() { end + 1 } else { bytes.len() as int })))
                    }
                }
            }
        },
    }
}

/// Read the update record at `pos`, and the place of the next one.
pub fn read_update(bytes: &[u8], pos: usize) -> (r: Result<(String, usize), GStoreError>)
    requires
        pos <= bytes@.len(),
    ensures
        r is Ok <==> update_read(bytes@, pos as int) is Ok,
        r matches Ok(v) ==> update_read(bytes@, pos as int) == Ok::<(Seq<char>, int), Seq<char>>((v.0@, v.1 as int)) && pos < v.1 <= bytes@.len(),
        r matches Err(e) ==> is_database_error(e, update_read(bytes@, pos as int)->Err_0),
{
    let nl: usize = match find_line_end(bytes, pos) {
        None => {
            return Err(database_error("truncated update.log header"));
        },
        Some(i) => i,
    };
    let head: String = match string_from_utf8(slice_copy(bytes, pos, nl)) {
        None => {
            return Err(database_error("non-UTF-8 update.log header"));
        },
        Some(s) => s,
    };
    proof {
        encode_utf8_decode_utf8(head@);
    }
    let w: Vec<String> = split_words(head.as_str());
    let ghost ws = words(head@);
    assert(w@.len() == ws.len());
    assert forall|k: int| 0 <= k < w@.len() implies (#[trigger] w@[k])@ == ws[k] by {
        assert(texts(w@)[k] == w@[k]@);
    }
    if w.len() == 0 || !same(w[0].as_str(), "REC") {
        let d: String = debug_of(head.as_str());
        return Err(GStoreError::Database(join2("malformed update.log record header: ", d.as_str())));
    }
    let len: usize = match number_at(&w, 3) {
        None => {
            return Err(database_error("missing length in update.log record"));
        },
        Some(n) => n,
    };
    let total: usize = bytes.len();
    let start: usize = nl + 1;
    if len > total - start {
        return Err(database_error("truncated update.log body"));
    }
    let end: usize = start + len;
    let body: String = match string_from_utf8(slice_copy(bytes, start, end)) {
        None => {
            return Err(database_error("non-UTF-8 update.log body"));
        },
        Some(s) => s,
    };
    proof {
        encode_utf8_decode_utf8(body@);
    }
    let next: usize = if end < bytes.len() { end + 1 } else { bytes.len() };
    Ok((body, next))
}

/// Reading an update record back gives the text of the update, and the place
/// right behind the record.
#[verifier::rlimit(40)]
pub proof fn law_update_roundtrip(before: Seq<u8>, millis: nat, changed: nat, sparql: Seq<char>, after: Seq<u8>)
    requires
        encode_utf8(sparql).len() <= usize::MAX,
    ensures
        update_read(before + update_bytes(millis, changed, sparql) + after, before.len() as int) == Ok::<(Seq<char>, int), Seq<char>>((sparql, (before.len() + update_bytes(millis, changed, sparql).len()) as int)),
{
    let ub = update_bytes(millis, changed, sparql);
    let bytes = before + ub + after;
    let pos = before.len() as int;
    let sb = encode_utf8(sparql);
    let head = update_header(millis, changed, sb.len());
    let hb = encode_utf8(head);
    let dm = decimal(millis);
    let dc = decimal(changed);
    let dl = decimal(sb.len());
    reveal_strlit("REC");
    lemma_decimal_ascii(millis);
    lemma_decimal_ascii(changed);
    lemma_decimal_ascii(sb.len());
    let rec = "REC"@;
    assert(rec =~= seq!['R', 'E', 'C']);
    assert forall|i: int| 0 <= i < rec.len() implies !is_white(#[trigger] rec[i]) && (rec[i] as u32) < 128 by {
    }
    let o1 = 4int;
    let o2 = o1 + dm.len() + 1;
    let o3 = o2 + dc.len() + 1;
    assert forall|i: int| 0 <= i < head.len() implies (#[trigger] head[i] as nat) < 128 && head[i] as u32 != 10 by {
        if i < 3 {
            assert(head[i] == rec[i]);
        } else if o1 <= i < o1 + dm.len() {
            assert(head[i] == dm[i - o1]);
            assert(!is_white(dm[i - o1]));
        } else if o2 <= i < o2 + dc.len() {
            assert(head[i] == dc[i - o2]);
            assert(!is_white(dc[i - o2]));
        } else if o3 <= i {
            assert(head[i] == dl[i - o3]);
            assert(!is_white(dl[i - o3]));
        } else {
            assert(head[i] == ' ');
        }
    }
    assert(is_ascii_chars(head));
    is_ascii_chars_encode_utf8(head);
    assert forall|i: int| 0 <= i < hb.len() implies #[trigger] hb[i] != 10 by {
        assert(hb[i] == head[i] as u8);
    }
    let nl = pos + hb.len();
    assert(ub =~= hb + seq![10u8] + sb + seq![10u8]);
    assert(bytes[nl] == ub[hb.len() as int]);
    assert forall|i: int| pos <= i < nl implies #[trigger] bytes[i] != 10 by {
        assert(bytes[i] == hb[i - pos]);
    }
    lemma_line_end(bytes, pos, nl);
    assert(bytes.subrange(pos, nl) =~= hb);
    encode_utf8_valid_utf8(head);
    encode_utf8_decode_utf8(head);
    let t1 = dm + seq![' '] + (dc + seq![' '] + dl);
    lemma_decimal_reads_back(millis);
    lemma_decimal_reads_back(changed);
    lemma_decimal_reads_back(sb.len());
    lemma_words_cons(rec, t1);
    lemma_words_cons(dm, dc + seq![' '] + dl);
    lemma_words_cons(dc, dl);
    lemma_words_cons(dl, Seq::empty());
    let w = words(head);
    assert(head =~= rec + seq![' '] + t1);
    assert(w =~= seq![rec, dm, dc, dl]);
    assert(w[3] == dl);
    assert(word_number(w, 3) == Some(sb.len()));
    let start = nl + 1;
    let end = start + sb.len();
    assert(bytes.subrange(start, end) =~= sb);
    encode_utf8_valid_utf8(sparql);
    encode_utf8_decode_utf8(sparql);
}

/// The statements of an update log up to the first record that is malformed, and
/// the message of what is wrong with that one.
pub open spec fn update_read_all(bytes: Seq<u8>, pos: int) -> (Seq<Seq<char>>, Option<Seq<char>>)
    decreases bytes.len() - pos,
{
    if pos < 0 || pos >= bytes.len() {
        (Seq::empty(), None)
    } else {
        match update_read(bytes, pos) {
            Err(m) => (Seq::empty(), Some(m)),
            Ok((s, next)) => if next <= pos {
                (Seq::empty(), None)
            } else {
                let (rest, e) = update_read_all(bytes, next);
                (seq![s] + rest, e)
            },
        }
    }
}

/// Read all statements of an update log, in order. Gives those before the first
/// malformed record, and the error where there is one.
pub fn update_records(bytes: &[u8]) -> (r: (Vec<String>, Option<GStoreError>))
    ensures
        texts(r.0@) == update_read_all(bytes@, 0).0,
        r.1 is Some <==> update_read_all(bytes@, 0).1 is Some,
        r.1 matches Some(e) ==> is_database_error(e, update_read_all(bytes@, 0).1->0),
{
    let mut out: Vec<String> = Vec::new();
    let mut pos: usize = 0;
    assert(texts(out@) + update_read_all(bytes@, 0).0 =~= update_read_all(bytes@, 0).0);
    while pos < bytes.len()
        invariant
            pos <= bytes@.len(),
            update_read_all(bytes@, 0).0 == texts(out@) + update_read_all(bytes@, pos as int).0,
            update_read_all(bytes@, 0).1 == update_read_all(bytes@, pos as int).1,
        decreases bytes.len() - pos,
    {
        match read_update(bytes, pos) {
            Err(e) => {
                assert(texts(out@) + Seq::<Seq<char>>::empty() =~= texts(out@));
                return (out, Some(e));
            },
            Ok((s, next)) => {
                let ghost before = out@;
                let ghost view = s@;
                out.push(s);
                pos = next;
                proof {
                    assert(texts(out@) =~= texts(before).push(view));
                    let rest = update_read_all(bytes@, next as int).0;
                    assert(texts(before) + (seq![view] + rest) =~= texts(out@) + rest);
                }
            },
        }
    }
    assert(texts(out@) + Seq::<Seq<char>>::empty() =~= texts(out@));
    (out, None)
}

/// The bytes of some updates, one record after another: each with its time, its count
/// and its text.
pub open spec fn updates_bytes(us: Seq<(nat, nat, Seq<char>)>) -> Seq<u8>
    decreases us.len(),
{
    if us.len() == 0 {
        Seq::empty()
    } else {
        update_bytes(us[0].0, us[0].1, us[0].2) + updates_bytes(us.drop_first())
    }
}

/// Reading an update log gives the texts of all updates that were noted, in order.
pub proof fn law_update_log_roundtrip(before: Seq<u8>, us: Seq<(nat, nat, Seq<char>)>)
    requires
        forall|i: int| 0 <= i < us.len() ==> encode_utf8((#[trigger] us[i]).2).len() <= usize::MAX,
    ensures
        update_read_all(before + updates_bytes(us), before.len() as int) == (us.map_values(|u: (nat, nat, Seq<char>)| u.2), None::<Seq<char>>),
    decreases us.len(),
{
    let bytes = before + updates_bytes(us);
    let pos = before.len() as int;
    let all = us.map_values(|u: (nat, nat, Seq<char>)| u.2);
    if us.len() == 0 {
        assert(all =~= Seq::<Seq<char>>::empty());
    } else {
        let (millis, changed, sparql) = us[0];
        let rest = us.drop_first();
        assert(encode_utf8(us[0].2).len() <= usize::MAX);
        assert(bytes =~= before + update_bytes(millis, changed, sparql) + updates_bytes(rest));
        law_update_roundtrip(before, millis, changed, sparql, updates_bytes(rest));
        let next = before + update_bytes(millis, changed, sparql);
        assert(bytes =~= next + updates_bytes(rest));
        assert forall|i: int| 0 <= i < rest.len() implies encode_utf8((#[trigger] rest[i]).2).len() <= usize::MAX by {
            assert(encode_utf8(us[i + 1].2).len() <= usize::MAX);
        }
        law_update_log_roundtrip(next, rest);
        reveal_strlit("REC");
        assert(update_bytes(millis, changed, sparql).len() > 0);
        assert(seq![sparql] + rest.map_values(|u: (nat, nat, Seq<char>)| u.2) =~= all);
    }
}

/// The header of an update record has four words: `REC`, the time, the number of triples that
/// changed, and the length of the text in bytes. The text stands on the line behind it.
pub proof fn law_update_record_tells_its_parts(millis: nat, changed: nat, sparql: Seq<char>)
    ensures
        words(update_header(millis, changed, encode_utf8(sparql).len())) == seq!["REC"@, decimal(millis), decimal(changed), decimal(encode_utf8(sparql).len())],
        encode_utf8(update_header(millis, changed, encode_utf8(sparql).len())).push(10).is_prefix_of(update_bytes(millis, changed, sparql)),
        (seq![10u8] + encode_utf8(sparql)).push(10).is_suffix_of(update_bytes(millis, changed, sparql)),
{
    reveal_strlit("REC");
    let len = encode_utf8(sparql).len();
    lemma_decimal_ascii(millis);
    lemma_decimal_ascii(changed);
    lemma_decimal_ascii(len);
    lemma_decimal_reads_back(millis);
    lemma_decimal_reads_back(changed);
    lemma_decimal_reads_back(len);
    assert forall|i: int| 0 <= i < "REC"@.len() implies !is_white(#[trigger] "REC"@[i]) by {
    }
    lemma_four_words("REC"@, decimal(millis), decimal(changed), decimal(len));
    let h = encode_utf8(update_header(millis, changed, len));
    let all = update_bytes(millis, changed, sparql);
    assert(h.push(10) =~= all.subrange(0, h.len() as int + 1));
    let tail = (seq![10u8] + encode_utf8(sparql)).push(10);
    assert(tail =~= all.subrange(all.len() - tail.len(), all.len() as int));
}

/// The header of a redo record has four words: `REDO`, the operation, and the lengths of the
/// graph and of the triple in bytes.
pub proof fn law_redo_record_tells_its_parts(r: RedoSpec)
    requires
        redo_valid(r),
    ensures
        words(redo_header(r)) == seq!["REDO"@, seq![r.op], decimal(encode_utf8(graph_name(r.graph)).len()), decimal(encode_utf8(r.triple).len())],
        (seq![10u8] + encode_utf8(graph_name(r.graph)) + encode_utf8(r.triple)).push(10).is_suffix_of(redo_bytes(r)),
{
    reveal_strlit("REDO");
    let (g, t) = (encode_utf8(graph_name(r.graph)).len(), encode_utf8(r.triple).len());
    lemma_decimal_ascii(g);
    lemma_decimal_ascii(t);
    lemma_decimal_reads_back(g);
    lemma_decimal_reads_back(t);
    assert forall|i: int| 0 <= i < "REDO"@.len() implies !is_white(#[trigger] "REDO"@[i]) by {
    }
    lemma_four_words("REDO"@, seq![r.op], decimal(g), decimal(t));
    let all = redo_bytes(r);
    let tail = (seq![10u8] + encode_utf8(graph_name(r.graph)) + encode_utf8(r.triple)).push(10);
    assert(tail =~= all.subrange(all.len() - tail.len(), all.len() as int));
}

spec fn one_word(w: Seq<char>) -> bool {
    w.len() > 0 && forall|i: int| 0 <= i < w.len() ==> !is_white(#[trigger] w[i])
}

proof fn lemma_four_words(a: Seq<char>, b: Seq<char>, c: Seq<char>, d: Seq<char>)
    requires
        one_word(a),
        one_word(b),
        one_word(c),
        one_word(d),
    ensures
        words(a + seq![' '] + (b + seq![' '] + (c + seq![' '] + d))) == seq![a, b, c, d],
{
    let cd = c + seq![' '] + d;
    let bcd = b + seq![' '] + cd;
    assert(cd =~= c.push(' ') + d);
    assert(bcd =~= b.push(' ') + cd);
    assert(a + seq![' '] + bcd =~= a.push(' ') + bcd);
    law_white_space_parts_words(a, ' ', bcd);
    law_white_space_parts_words(b, ' ', cd);
    law_white_space_parts_words(c, ' ', d);
    law_white_space_parts_words(d, ' ', d);
    assert(words(a.push(' ') + bcd) =~= seq![a, b, c, d]);
}

} // verus!
