//! How JSON is written, and that what is written is read back.

use crate::json::{fields_read, is_float, items_read, json_chars, json_quoted, json_read, lemma_chars_written, number_end, plain_read, skip_ws, string_read, value_read, word_at, JsonSpec};
use vstd::prelude::*;
use vstd::string::*;

verus! {

/// White space between the parts of a JSON text.
pub open spec fn is_space(w: Seq<char>) -> bool {
    forall|i: int| 0 <= i < w.len() ==> (#[trigger] w[i] == ' ' || w[i] == '\t' || w[i] == '\n' || w[i] == '\r')
}

/// A character that can stand in a number.
pub open spec fn number_char(c: char) -> bool {
    c == '-' || c == '+' || c == '.' || c == 'e' || c == 'E' || ('0' <= c <= '9')
}

/// The text of a number.
pub open spec fn is_number(t: Seq<char>) -> bool {
    &&& t.len() > 0
    &&& t[0] == '-' || ('0' <= t[0] <= '9')
    &&& forall|i: int| 0 <= i < t.len() ==> number_char(#[trigger] t[i])
    &&& is_float(t)
}

/// The numbers in a value have the text of a number.
pub open spec fn writable(j: JsonSpec) -> bool
    decreases j,
{
    match j {
        JsonSpec::Num(t) => is_number(t),
        JsonSpec::Arr(v) => items_writable(v),
        JsonSpec::Obj(v) => fields_writable(v),
        _ => true,
    }
}

/// The numbers in the items have the text of a number.
pub open spec fn items_writable(v: Seq<JsonSpec>) -> bool
    decreases v,
{
    v.len() == 0 || (writable(v[0]) && items_writable(v.subrange(1, v.len() as int)))
}

/// The numbers in the fields have the text of a number.
pub open spec fn fields_writable(v: Seq<(Seq<char>, JsonSpec)>) -> bool
    decreases v,
{
    v.len() == 0 || (writable(v[0].1) && fields_writable(v.subrange(1, v.len() as int)))
}

/// A value as text, with `w` wherever white space may stand between its parts.
pub open spec fn written(j: JsonSpec, w: Seq<char>) -> Seq<char>
    decreases j,
{
    match j {
        JsonSpec::Null => "null"@,
        JsonSpec::Bool(b) => if b {
            "true"@
        } else {
            "false"@
        },
        JsonSpec::Num(t) => t,
        JsonSpec::Str(s) => json_quoted(s),
        JsonSpec::Arr(v) => (seq!['['] + w) + (items_written(v, w) + seq![']']),
        JsonSpec::Obj(v) => (seq!['{'] + w) + (fields_written(v, w) + seq!['}']),
    }
}

/// The items of an array, with commas between them.
pub open spec fn items_written(v: Seq<JsonSpec>, w: Seq<char>) -> Seq<char>
    decreases v,
{
    if v.len() == 0 {
        Seq::empty()
    } else if v.len() == 1 {
        written(v[0], w) + w
    } else {
        (written(v[0], w) + w) + ((seq![','] + w) + items_written(v.subrange(1, v.len() as int), w))
    }
}

/// The fields of an object, with commas between them.
pub open spec fn fields_written(v: Seq<(Seq<char>, JsonSpec)>, w: Seq<char>) -> Seq<char>
    decreases v,
{
    if v.len() == 0 {
        Seq::empty()
    } else if v.len() == 1 {
        field_written(v[0].0, w) + (written(v[0].1, w) + w)
    } else {
        field_written(v[0].0, w) + ((written(v[0].1, w) + w) + ((seq![','] + w) + fields_written(v.subrange(1, v.len() as int), w)))
    }
}

/// The name of a field, with the colon behind it.
pub open spec fn field_written(key: Seq<char>, w: Seq<char>) -> Seq<char> {
    (json_quoted(key) + w) + (seq![':'] + w)
}

/// The text `w` stands in `s` at the place `p`.
spec fn stands(s: Seq<char>, p: int, w: Seq<char>) -> bool {
    &&& 0 <= p
    &&& p + w.len() <= s.len()
    &&& forall|i: int| 0 <= i < w.len() ==> s[p + i] == #[trigger] w[i]
}

proof fn lemma_stands_parts(s: Seq<char>, p: int, a: Seq<char>, b: Seq<char>)
    requires
        stands(s, p, a + b),
    ensures
        stands(s, p, a),
        stands(s, p + a.len(), b),
{
    assert forall|i: int| 0 <= i < a.len() implies s[p + i] == #[trigger] a[i] by {
        assert((a + b)[i] == a[i]);
    }
    assert forall|i: int| 0 <= i < b.len() implies s[p + a.len() + i] == #[trigger] b[i] by {
        assert((a + b)[a.len() + i] == b[i]);
    }
}

proof fn lemma_skip_space(s: Seq<char>, p: int, w: Seq<char>)
    requires
        stands(s, p, w),
        is_space(w),
        p + w.len() < s.len() ==> !is_space(seq![s[p + w.len()]]),
    ensures
        skip_ws(s, p) == p + w.len(),
    decreases w.len(),
{
    if w.len() > 0 {
        assert(s[p + 0] == w[0]);
        let rest = w.skip(1);
        assert forall|i: int| 0 <= i < rest.len() implies s[p + 1 + i] == #[trigger] rest[i] by {
            assert(s[p + (i + 1)] == w[i + 1]);
        }
        assert forall|i: int| 0 <= i < rest.len() implies (#[trigger] rest[i] == ' ' || rest[i] == '\t' || rest[i] == '\n' || rest[i] == '\r') by {
            assert(rest[i] == w[i + 1]);
        }
        lemma_skip_space(s, p + 1, rest);
    } else if p < s.len() {
        let one = seq![s[p]];
        if s[p] == ' ' || s[p] == '\t' || s[p] == '\n' || s[p] == '\r' {
            assert forall|i: int| 0 <= i < one.len() implies (#[trigger] one[i] == ' ' || one[i] == '\t' || one[i] == '\n' || one[i] == '\r') by {
            }
            assert(is_space(one));
        }
    }
}

proof fn lemma_not_space(c: char)
    ensures
        is_space(seq![c]) <==> c == ' ' || c == '\t' || c == '\n' || c == '\r',
{
    assert(seq![c][0] == c);
}

proof fn lemma_number_ends(s: Seq<char>, p: int, t: Seq<char>)
    requires
        stands(s, p, t),
        forall|i: int| 0 <= i < t.len() ==> number_char(#[trigger] t[i]),
        p + t.len() < s.len() ==> !number_char(s[p + t.len()]),
    ensures
        number_end(s, p) == p + t.len(),
    decreases t.len(),
{
    if t.len() > 0 {
        assert(s[p + 0] == t[0]);
        let rest = t.skip(1);
        assert forall|i: int| 0 <= i < rest.len() implies s[p + 1 + i] == #[trigger] rest[i] by {
            assert(s[p + (i + 1)] == t[i + 1]);
        }
        assert forall|i: int| 0 <= i < rest.len() implies number_char(#[trigger] rest[i]) by {
            assert(rest[i] == t[i + 1]);
        }
        lemma_number_ends(s, p + 1, rest);
    }
}

/// A value begins with a character that is no white space.
proof fn lemma_written_start(j: JsonSpec, w: Seq<char>)
    requires
        writable(j),
    ensures
        written(j, w).len() > 0,
        !is_space(seq![written(j, w)[0]]),
        written(j, w)[0] != ']',
{
    reveal_strlit("null");
    reveal_strlit("true");
    reveal_strlit("false");
    lemma_not_space(written(j, w)[0]);
}

proof fn lemma_string_written(s: Seq<char>, p: int, key: Seq<char>)
    requires
        stands(s, p, json_quoted(key)),
    ensures
        string_read(s, p) == Ok::<(Seq<char>, int), Seq<char>>((key, p + json_quoted(key).len())),
{
    let q = json_quoted(key);
    let n = json_chars(key).len() as int;
    assert(q[0] == '"');
    assert(s[p + 0] == q[0]);
    assert forall|i: int| 0 <= i < n implies s.subrange(p + 1, p + 1 + n)[i] == json_chars(key)[i] by {
        assert(q[i + 1] == json_chars(key)[i]);
        assert(s[p + (i + 1)] == q[i + 1]);
    }
    assert(s.subrange(p + 1, p + 1 + n) =~= json_chars(key));
    assert(q[n + 1] == '"');
    assert(s[p + (n + 1)] == q[n + 1]);
    lemma_chars_written(s, p + 1, key, Seq::empty());
    assert(Seq::<char>::empty() + key =~= key);
}

/// A value that stands at the place is read.
proof fn lemma_value_written(s: Seq<char>, p0: int, p: int, j: JsonSpec, w: Seq<char>)
    requires
        0 <= p0,
        skip_ws(s, p0) == p,
        stands(s, p, written(j, w)),
        writable(j),
        is_space(w),
        p + written(j, w).len() < s.len() ==> !number_char(s[p + written(j, w).len()]),
    ensures
        value_read(s, p0) == Ok::<(JsonSpec, int), Seq<char>>((j, p + written(j, w).len())),
    decreases j,
{
    let t = written(j, w);
    lemma_written_start(j, w);
    assert(s[p + 0] == t[0]);
    match j {
        JsonSpec::Null => {
            reveal_strlit("null");
            assert(s.subrange(p, p + 4) =~= "null"@);
            assert(value_read(s, p0) == plain_read(s, p));
        },
        JsonSpec::Bool(b) => {
            reveal_strlit("true");
            reveal_strlit("false");
            if b {
                assert(s.subrange(p, p + 4) =~= "true"@);
            } else {
                assert(s.subrange(p, p + 5) =~= "false"@);
                if word_at(s, p, "true"@) {
                    assert(s.subrange(p, p + 4)[0] == 'f');
                    assert("true"@[0] == 't');
                }
            }
            assert(value_read(s, p0) == plain_read(s, p));
        },
        JsonSpec::Num(n) => {
            lemma_number_ends(s, p, n);
            assert(s.subrange(p, p + n.len()) =~= n);
            assert(value_read(s, p0) == plain_read(s, p));
        },
        JsonSpec::Str(x) => {
            lemma_string_written(s, p, x);
            assert(t[0] == '"');
            assert(value_read(s, p0) == plain_read(s, p));
        },
        JsonSpec::Arr(v) => {
            let items = items_written(v, w);
            lemma_stands_parts(s, p, seq!['['] + w, items + seq![']']);
            lemma_stands_parts(s, p, seq!['['], w);
            lemma_stands_parts(s, p + 1 + w.len(), items, seq![']']);
            let e = p + 1 + w.len() + items.len();
            assert(s[e + 0] == seq![']'][0]);
            if v.len() == 0 {
                lemma_not_space(']');
                lemma_skip_space(s, p + 1, w);
                assert(v =~= Seq::empty());
            } else {
                lemma_written_start(v[0], w);
                lemma_items_start(v, w);
                assert(s[p + 1 + w.len() + 0] == items[0]);
                lemma_skip_space(s, p + 1, w);
                lemma_items_written(s, p + 1, p + 1 + w.len(), v, w, Seq::empty());
                assert(Seq::<JsonSpec>::empty() + v =~= v);
            }
            assert(t.len() == 1 + w.len() + items.len() + 1);
        },
        JsonSpec::Obj(v) => {
            let fields = fields_written(v, w);
            lemma_stands_parts(s, p, seq!['{'] + w, fields + seq!['}']);
            lemma_stands_parts(s, p, seq!['{'], w);
            lemma_stands_parts(s, p + 1 + w.len(), fields, seq!['}']);
            let e = p + 1 + w.len() + fields.len();
            assert(s[e + 0] == seq!['}'][0]);
            if v.len() == 0 {
                lemma_not_space('}');
                lemma_skip_space(s, p + 1, w);
                assert(v =~= Seq::empty());
            } else {
                lemma_fields_start(v, w);
                assert(s[p + 1 + w.len() + 0] == fields[0]);
                lemma_not_space('"');
                lemma_skip_space(s, p + 1, w);
                lemma_fields_written(s, p + 1, p + 1 + w.len(), v, w, Seq::empty());
                assert(Seq::<(Seq<char>, JsonSpec)>::empty() + v =~= v);
            }
            assert(t.len() == 1 + w.len() + fields.len() + 1);
        },
    }
}

proof fn lemma_items_start(v: Seq<JsonSpec>, w: Seq<char>)
    requires
        v.len() > 0,
        items_writable(v),
    ensures
        items_written(v, w).len() > 0,
        items_written(v, w)[0] == written(v[0], w)[0],
        writable(v[0]),
        items_writable(v.subrange(1, v.len() as int)),
{
    lemma_written_start(v[0], w);
}

proof fn lemma_fields_start(v: Seq<(Seq<char>, JsonSpec)>, w: Seq<char>)
    requires
        v.len() > 0,
    ensures
        fields_written(v, w).len() > 0,
        fields_written(v, w)[0] == '"',
{
    assert(json_quoted(v[0].0)[0] == '"');
    assert(field_written(v[0].0, w)[0] == '"');
}

/// Items that stand at the place, with the closing bracket behind them, are read.
proof fn lemma_items_written(s: Seq<char>, p0: int, p: int, v: Seq<JsonSpec>, w: Seq<char>, acc: Seq<JsonSpec>)
    requires
        0 <= p0 <= p,
        skip_ws(s, p0) == p,
        v.len() > 0,
        stands(s, p, items_written(v, w)),
        p + items_written(v, w).len() < s.len(),
        s[p + items_written(v, w).len()] == ']',
        items_writable(v),
        is_space(w),
    ensures
        items_read(s, p0, acc) == Ok::<(JsonSpec, int), Seq<char>>((JsonSpec::Arr(acc + v), p + items_written(v, w).len() + 1)),
    decreases v,
{
    let first = written(v[0], w);
    let rest = v.subrange(1, v.len() as int);
    let r = p + first.len();
    let t = r + w.len();
    lemma_items_start(v, w);
    lemma_not_space(',');
    lemma_not_space(']');
    if v.len() == 1 {
        lemma_stands_parts(s, p, first, w);
    } else {
        let tail = (seq![','] + w) + items_written(rest, w);
        lemma_stands_parts(s, p, first + w, tail);
        lemma_stands_parts(s, p, first, w);
        lemma_stands_parts(s, t, seq![','] + w, items_written(rest, w));
        lemma_stands_parts(s, t, seq![','], w);
        assert(s[t + 0] == seq![','][0]);
    }
    lemma_skip_space(s, r, w);
    if w.len() > 0 {
        assert(s[r + 0] == w[0]);
    }
    lemma_value_written(s, p0, p, v[0], w);
    if v.len() == 1 {
        assert(acc.push(v[0]) =~= acc + v);
    } else {
        assert(items_writable(rest));
        lemma_items_start(rest, w);
        lemma_written_start(rest[0], w);
        assert(s[t + 1 + w.len() + 0] == items_written(rest, w)[0]);
        lemma_skip_space(s, t + 1, w);
        lemma_items_written(s, t + 1, t + 1 + w.len(), rest, w, acc.push(v[0]));
        assert(acc.push(v[0]) + rest =~= acc + v);
    }
}

/// Fields that stand at the place, with the closing brace behind them, are read.
proof fn lemma_fields_written(s: Seq<char>, p0: int, p: int, v: Seq<(Seq<char>, JsonSpec)>, w: Seq<char>, acc: Seq<(Seq<char>, JsonSpec)>)
    requires
        0 <= p0 <= p,
        skip_ws(s, p0) == p,
        v.len() > 0,
        stands(s, p, fields_written(v, w)),
        p + fields_written(v, w).len() < s.len(),
        s[p + fields_written(v, w).len()] == '}',
        fields_writable(v),
        is_space(w),
    ensures
        fields_read(s, p0, acc) == Ok::<(JsonSpec, int), Seq<char>>((JsonSpec::Obj(acc + v), p + fields_written(v, w).len() + 1)),
    decreases v,
{
    let (key, value) = v[0];
    let head = field_written(key, w);
    let first = written(value, w);
    let rest = v.subrange(1, v.len() as int);
    let q = p + json_quoted(key).len();
    let c = q + w.len();
    let a = p + head.len();
    let r = a + first.len();
    let t = r + w.len();
    lemma_not_space(',');
    lemma_not_space('}');
    lemma_not_space(':');
    if v.len() == 1 {
        lemma_stands_parts(s, p, head, first + w);
        lemma_stands_parts(s, a, first, w);
    } else {
        let tail = (seq![','] + w) + fields_written(rest, w);
        lemma_stands_parts(s, p, head, (first + w) + tail);
        lemma_stands_parts(s, a, first + w, tail);
        lemma_stands_parts(s, a, first, w);
        lemma_stands_parts(s, t, seq![','] + w, fields_written(rest, w));
        lemma_stands_parts(s, t, seq![','], w);
        assert(s[t + 0] == seq![','][0]);
    }
    lemma_stands_parts(s, p, json_quoted(key) + w, seq![':'] + w);
    lemma_stands_parts(s, p, json_quoted(key), w);
    lemma_stands_parts(s, c, seq![':'], w);
    assert(s[c + 0] == seq![':'][0]);
    lemma_string_written(s, p, key);
    lemma_skip_space(s, q, w);
    lemma_written_start(value, w);
    assert(s[a + 0] == first[0]);
    assert(a == c + 1 + w.len());
    lemma_skip_space(s, c + 1, w);
    lemma_skip_space(s, r, w);
    if w.len() > 0 {
        assert(s[r + 0] == w[0]);
    }
    lemma_value_written(s, c + 1, a, value, w);
    if v.len() == 1 {
        assert(acc.push((key, value)) =~= acc + v);
    } else {
        assert(fields_writable(rest));
        lemma_fields_start(rest, w);
        lemma_not_space('"');
        assert(s[t + 1 + w.len() + 0] == fields_written(rest, w)[0]);
        lemma_skip_space(s, t + 1, w);
        lemma_fields_written(s, t + 1, t + 1 + w.len(), rest, w, acc.push((key, value)));
        assert(acc.push((key, value)) + rest =~= acc + v);
    }
}

/// What is written is read back, whatever white space stands between its parts.
pub proof fn law_json_reads_back(j: JsonSpec, w: Seq<char>)
    requires
        writable(j),
        is_space(w),
    ensures
        json_read(w + written(j, w) + w) == Ok::<JsonSpec, Seq<char>>(j),
        json_read(written(j, Seq::empty())) == Ok::<JsonSpec, Seq<char>>(j),
{
    lemma_whole(j, w);
    let none = Seq::<char>::empty();
    assert(is_space(none));
    lemma_whole(j, none);
    assert(none + written(j, none) + none =~= written(j, none));
}

proof fn lemma_whole(j: JsonSpec, w: Seq<char>)
    requires
        writable(j),
        is_space(w),
    ensures
        json_read(w + written(j, w) + w) == Ok::<JsonSpec, Seq<char>>(j),
{
    let t = written(j, w);
    let s = w + t + w;
    assert forall|i: int| 0 <= i < w.len() implies s[0 + i] == #[trigger] w[i] by {
    }
    assert forall|i: int| 0 <= i < t.len() implies s[w.len() + i] == #[trigger] t[i] by {
    }
    assert forall|i: int| 0 <= i < w.len() implies s[w.len() + t.len() + i] == #[trigger] w[i] by {
    }
    lemma_written_start(j, w);
    assert(s[w.len() as int + 0] == t[0]);
    lemma_skip_space(s, 0, w);
    if w.len() > 0 {
        assert(s[w.len() as int + t.len() + 0] == w[0]);
    }
    lemma_value_written(s, 0, w.len() as int, j, w);
    lemma_skip_space(s, (w.len() + t.len()) as int, w);
}

/// A text with anything but white space behind its value is refused.
pub proof fn law_nothing_may_follow(j: JsonSpec, w: Seq<char>, more: Seq<char>)
    requires
        writable(j),
        is_space(w),
        more.len() > 0,
        !is_space(seq![more[0]]),
        !number_char(more[0]),
    ensures
        json_read(written(j, w) + w + more) is Err,
{
    let t = written(j, w);
    let s = t + w + more;
    assert forall|i: int| 0 <= i < t.len() implies s[0 + i] == #[trigger] t[i] by {
    }
    assert forall|i: int| 0 <= i < w.len() implies s[t.len() + i] == #[trigger] w[i] by {
    }
    lemma_written_start(j, w);
    lemma_skip_space(s, 0, Seq::empty());
    if w.len() > 0 {
        assert(s[t.len() as int + 0] == w[0]);
    }
    assert(s[(t.len() + w.len()) as int] == more[0]);
    lemma_value_written(s, 0, 0, j, w);
    lemma_skip_space(s, t.len() as int, w);
}

} // verus!
