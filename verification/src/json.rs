//! A reader for JSON texts, and the writing of JSON strings.

use crate::error::{join2, join3};
use crate::fields::{hex_char, hex_of, hex_value};
use crate::text::{char_debug, chars_of, debug_char, same, string_of};
use vstd::prelude::*;
use vstd::string::*;

verus! {

/// A JSON value. A number is kept as its text.
#[derive(Debug)]
pub enum Json {
    Null,
    Bool(bool),
    Num(String),
    Str(String),
    Arr(Vec<Json>),
    Obj(Vec<(String, Json)>),
}

/// A JSON value as a mathematical value.
pub ghost enum JsonSpec {
    Null,
    Bool(bool),
    Num(Seq<char>),
    Str(Seq<char>),
    Arr(Seq<JsonSpec>),
    Obj(Seq<(Seq<char>, JsonSpec)>),
}

/// The mathematical value of a JSON value.
pub open spec fn json_of(j: Json) -> JsonSpec
    decreases j,
{
    match j {
        Json::Null => JsonSpec::Null,
        Json::Bool(b) => JsonSpec::Bool(b),
        Json::Num(s) => JsonSpec::Num(s@),
        Json::Str(s) => JsonSpec::Str(s@),
        Json::Arr(v) => JsonSpec::Arr(Seq::new(v@.len(), |i: int| if 0 <= i < v@.len() { json_of(v@[i]) } else { JsonSpec::Null })),
        Json::Obj(v) => JsonSpec::Obj(Seq::new(v@.len(), |i: int| if 0 <= i < v@.len() { (v@[i].0@, json_of(v@[i].1)) } else { (Seq::empty(), JsonSpec::Null) })),
    }
}

/// The character at a place, if there is one.
pub open spec fn at(s: Seq<char>, p: int) -> Option<char> {
    if 0 <= p < s.len() {
        Some(s[p])
    } else {
        None
    }
}

/// How an optional character is shown.
pub open spec fn shown(c: Option<char>) -> Seq<char> {
    match c {
        Some(c) => "Some("@ + char_debug(c) + ")"@,
        None => "None"@,
    }
}

/// The place behind white space.
pub open spec fn skip_ws(s: Seq<char>, p: int) -> int
    decreases s.len() - p,
{
    if 0 <= p < s.len() && (s[p] == ' ' || s[p] == '\t' || s[p] == '\n' || s[p] == '\r') {
        skip_ws(s, p + 1)
    } else {
        p
    }
}

/// The message for a character that was not expected.
pub open spec fn expect_text(want: char, got: Option<char>) -> Seq<char> {
    "expected "@ + char_debug(want) + ", found "@ + shown(got)
}

/// The number of four hexadecimal digits.
pub open spec fn hex4(s: Seq<char>, p: int, n: nat, code: nat) -> Result<nat, Seq<char>>
    decreases n,
{
    if n == 0 {
        Ok(code)
    } else {
        match at(s, p) {
            None => Err("unterminated \\u escape"@),
            Some(c) => match hex_value(c) {
                None => Err("bad hex digit "@ + char_debug(c)),
                Some(d) => hex4(s, p + 1, (n - 1) as nat, code * 16 + d),
            },
        }
    }
}

/// The character with a number of 16 bits. A surrogate is replaced.
pub open spec fn char_with(code: nat) -> char {
    if 0xd800 <= code < 0xe000 {
        '\u{fffd}'
    } else {
        (code as u32) as char
    }
}

/// The character that an escape with one letter stands for.
pub open spec fn escape_of(c: char) -> Option<char> {
    if c == '"' || c == '\\' || c == '/' {
        Some(c)
    } else if c == 'n' {
        Some('\n')
    } else if c == 't' {
        Some('\t')
    } else if c == 'r' {
        Some('\r')
    } else if c == 'b' {
        Some('\u{8}')
    } else if c == 'f' {
        Some('\u{c}')
    } else {
        None
    }
}

/// The rest of a string from a place behind its opening quote: its characters and
/// the place behind the closing quote.
pub open spec fn chars_read(s: Seq<char>, p: int, acc: Seq<char>) -> Result<(Seq<char>, int), Seq<char>>
    decreases s.len() - p,
{
    if p < 0 || p >= s.len() {
        Err("unterminated string"@)
    } else if s[p] == '"' {
        Ok((acc, p + 1))
    } else if s[p] == '\\' {
        match at(s, p + 1) {
            None => Err("bad escape "@ + shown(None)),
            Some(c) => match escape_of(c) {
                Some(e) => chars_read(s, p + 2, acc.push(e)),
                None => if c == 'u' {
                    proof {
                        lemma_hex4(s, p + 2);
                    }
                    match hex4(s, p + 2, 4, 0) {
                        Err(e) => Err(e),
                        Ok(code) => chars_read(s, p + 6, acc.push(char_with(code))),
                    }
                } else {
                    Err("bad escape "@ + shown(Some(c)))
                },
            },
        }
    } else {
        chars_read(s, p + 1, acc.push(s[p]))
    }
}

/// A string.
pub open spec fn string_read(s: Seq<char>, p: int) -> Result<(Seq<char>, int), Seq<char>> {
    if at(s, p) == Some('"') {
        chars_read(s, p + 1, Seq::empty())
    } else {
        Err(expect_text('"', at(s, p)))
    }
}

/// The place behind the digits at `p`.
pub open spec fn digits_end(s: Seq<char>, p: int) -> int
    decreases s.len() - p,
{
    if 0 <= p < s.len() && '0' <= s[p] <= '9' {
        digits_end(s, p + 1)
    } else {
        p
    }
}

/// The place behind a sign at `p`.
pub open spec fn sign_end(s: Seq<char>, p: int) -> int {
    if at(s, p) == Some('+') || at(s, p) == Some('-') {
        p + 1
    } else {
        p
    }
}

/// The place behind the digits and the point of a number that starts at `p`, or
/// none if it has no digit.
pub open spec fn mantissa_end(s: Seq<char>, p: int) -> Option<int> {
    let a = digits_end(s, p);
    let b = if at(s, a) == Some('.') {
        digits_end(s, a + 1)
    } else {
        a
    };
    if a > p || b > a + 1 {
        Some(b)
    } else {
        None
    }
}

/// The text of a floating-point number: an optional sign, digits with an optional
/// point, and an optional exponent.
pub open spec fn is_float(s: Seq<char>) -> bool {
    match mantissa_end(s, sign_end(s, 0)) {
        None => false,
        Some(m) => {
            ||| m == s.len()
            ||| {
                let e = sign_end(s, m + 1);
                &&& at(s, m) == Some('e') || at(s, m) == Some('E')
                &&& digits_end(s, e) > e
                &&& digits_end(s, e) == s.len()
            }
        },
    }
}

/// The place behind the characters of a number.
pub open spec fn number_end(s: Seq<char>, p: int) -> int
    decreases s.len() - p,
{
    if 0 <= p < s.len() && (s[p] == '-' || s[p] == '+' || s[p] == '.' || s[p] == 'e' || s[p] == 'E' || ('0' <= s[p] <= '9')) {
        number_end(s, p + 1)
    } else {
        p
    }
}

/// Does a word stand at the place?
pub open spec fn word_at(s: Seq<char>, p: int, w: Seq<char>) -> bool {
    p + w.len() <= s.len() && s.subrange(p, p + w.len()) == w
}

/// A value that is neither an object nor an array.
pub open spec fn plain_read(s: Seq<char>, p: int) -> Result<(JsonSpec, int), Seq<char>> {
    match at(s, p) {
        Some(c) => if c == '"' {
            match string_read(s, p) {
                Ok((t, q)) => Ok((JsonSpec::Str(t), q)),
                Err(e) => Err(e),
            }
        } else if c == 't' || c == 'f' {
            if word_at(s, p, "true"@) {
                Ok((JsonSpec::Bool(true), p + 4))
            } else if word_at(s, p, "false"@) {
                Ok((JsonSpec::Bool(false), p + 5))
            } else {
                Err("invalid literal"@)
            }
        } else if c == 'n' {
            if word_at(s, p, "null"@) {
                Ok((JsonSpec::Null, p + 4))
            } else {
                Err("invalid literal"@)
            }
        } else if c == '-' || ('0' <= c <= '9') {
            let t = s.subrange(p, number_end(s, p));
            if is_float(t) {
                Ok((JsonSpec::Num(t), number_end(s, p)))
            } else {
                Err("bad number '"@ + t + "'"@)
            }
        } else {
            Err("unexpected token "@ + shown(Some(c)))
        },
        None => Err("unexpected token "@ + shown(None)),
    }
}

/// A value, with the place behind it.
pub open spec fn value_read(s: Seq<char>, p0: int) -> Result<(JsonSpec, int), Seq<char>>
    decreases s.len() - p0, 1int,
{
    proof {
        lemma_skip_ws(s, p0);
    }
    let p = skip_ws(s, p0);
    if p < 0 {
        Err(Seq::empty())
    } else if at(s, p) == Some('{') {
        if at(s, skip_ws(s, p + 1)) == Some('}') {
            Ok((JsonSpec::Obj(Seq::empty()), skip_ws(s, p + 1) + 1))
        } else {
            fields_read(s, p + 1, Seq::empty())
        }
    } else if at(s, p) == Some('[') {
        if at(s, skip_ws(s, p + 1)) == Some(']') {
            Ok((JsonSpec::Arr(Seq::empty()), skip_ws(s, p + 1) + 1))
        } else {
            items_read(s, p + 1, Seq::empty())
        }
    } else {
        plain_read(s, p)
    }
}

/// The fields of an object, after those in `acc`. A value always ends behind its
/// start, so the places ascend.
pub open spec fn fields_read(s: Seq<char>, p: int, acc: Seq<(Seq<char>, JsonSpec)>) -> Result<(JsonSpec, int), Seq<char>>
    decreases s.len() - p, 0int,
{
    proof {
        lemma_skip_ws(s, p);
        lemma_string_read(s, skip_ws(s, p));
    }
    match string_read(s, skip_ws(s, p)) {
        Err(e) => Err(e),
        Ok((key, q)) => {
            proof {
                lemma_skip_ws(s, q);
            }
            let c = skip_ws(s, q);
            if at(s, c) != Some(':') {
                Err(expect_text(':', at(s, c)))
            } else if p < 0 {
                Err(Seq::empty())
            } else {
                match value_read(s, c + 1) {
                    Err(e) => Err(e),
                    Ok((v, r)) => {
                        let t = skip_ws(s, r);
                        if at(s, t) == Some(',') && t >= p {
                            fields_read(s, t + 1, acc.push((key, v)))
                        } else if at(s, t) == Some('}') {
                            Ok((JsonSpec::Obj(acc.push((key, v))), t + 1))
                        } else {
                            Err("expected ',' or '}', found "@ + shown(at(s, t)))
                        }
                    },
                }
            }
        },
    }
}

/// The items of an array, after those in `acc`.
pub open spec fn items_read(s: Seq<char>, p: int, acc: Seq<JsonSpec>) -> Result<(JsonSpec, int), Seq<char>>
    decreases s.len() - p, 2int,
{
    match value_read(s, p) {
        Err(e) => Err(e),
        Ok((v, r)) => {
            let t = skip_ws(s, r);
            if at(s, t) == Some(',') && t >= p {
                items_read(s, t + 1, acc.push(v))
            } else if at(s, t) == Some(']') {
                Ok((JsonSpec::Arr(acc.push(v)), t + 1))
            } else {
                Err("expected ',' or ']', found "@ + shown(at(s, t)))
            }
        },
    }
}

/// A whole text.
pub open spec fn json_read(s: Seq<char>) -> Result<JsonSpec, Seq<char>> {
    match value_read(s, 0) {
        Err(e) => Err(e),
        Ok((v, p)) => if skip_ws(s, p) == s.len() {
            Ok(v)
        } else {
            Err("trailing characters after JSON value"@)
        },
    }
}

pub proof fn lemma_hex4(s: Seq<char>, p: int)
    requires
        0 <= p,
    ensures
        hex4(s, p, 4, 0) matches Ok(c) ==> p + 4 <= s.len() && c <= 0xffff,
{
    reveal_with_fuel(hex4, 5);
}

pub proof fn lemma_skip_ws(s: Seq<char>, p: int)
    ensures
        p <= skip_ws(s, p),
        0 <= p <= s.len() ==> skip_ws(s, p) <= s.len(),
    decreases s.len() - p,
{
    if 0 <= p < s.len() && (s[p] == ' ' || s[p] == '\t' || s[p] == '\n' || s[p] == '\r') {
        lemma_skip_ws(s, p + 1);
    }
}

proof fn lemma_number_end(s: Seq<char>, p: int)
    ensures
        p <= number_end(s, p),
    decreases s.len() - p,
{
    if 0 <= p < s.len() {
        lemma_number_end(s, p + 1);
    }
}

proof fn lemma_chars_read(s: Seq<char>, p: int, acc: Seq<char>)
    ensures
        chars_read(s, p, acc) matches Ok((t, q)) ==> p < q <= s.len(),
    decreases s.len() - p,
{
    if 0 <= p < s.len() {
        if s[p] == '"' {
        } else if s[p] == '\\' {
            if at(s, p + 1) is Some {
                let c = s[p + 1];
                if escape_of(c) is Some {
                    lemma_chars_read(s, p + 2, acc.push(escape_of(c)->0));
                } else if c == 'u' && hex4(s, p + 2, 4, 0) is Ok {
                    lemma_hex4(s, p + 2);
                    lemma_chars_read(s, p + 6, acc.push(char_with(hex4(s, p + 2, 4, 0)->Ok_0)));
                }
            }
        } else {
            lemma_chars_read(s, p + 1, acc.push(s[p]));
        }
    }
}

pub proof fn lemma_string_read(s: Seq<char>, p: int)
    ensures
        string_read(s, p) matches Ok((t, q)) ==> p < q <= s.len(),
{
    lemma_chars_read(s, p + 1, Seq::empty());
}

fn shown_of(c: Option<char>) -> (r: String)
    ensures
        r@ == shown(c),
{
    match c {
        Some(c) => join3("Some(", debug_char(c).as_str(), ")"),
        None => "None".to_owned(),
    }
}

fn peek(chars: &Vec<char>, p: usize) -> (r: Option<char>)
    ensures
        r == at(chars@, p as int),
{
    if p < chars.len() {
        Some(chars[p])
    } else {
        None
    }
}

fn skip(chars: &Vec<char>, from: usize) -> (r: usize)
    requires
        from <= chars@.len(),
    ensures
        r == skip_ws(chars@, from as int),
        from <= r <= chars@.len(),
{
    let mut p: usize = from;
    while p < chars.len() && (chars[p] == ' ' || chars[p] == '\t' || chars[p] == '\n' || chars[p] == '\r')
        invariant
            from <= p <= chars@.len(),
            skip_ws(chars@, p as int) == skip_ws(chars@, from as int),
        decreases chars.len() - p,
    {
        p = p + 1;
    }
    p
}

fn expected(want: char, got: Option<char>) -> (r: String)
    ensures
        r@ == expect_text(want, got),
{
    let mut r: String = join3("expected ", debug_char(want).as_str(), ", found ");
    r.append(shown_of(got).as_str());
    r
}

fn read_hex4(chars: &Vec<char>, from: usize) -> (r: Result<u32, String>)
    requires
        from <= chars@.len(),
    ensures
        match hex4(chars@, from as int, 4, 0) {
            Ok(c) => r matches Ok(v) && v == c && from + 4 <= chars@.len() && v <= 0xffff,
            Err(m) => r matches Err(e) && e@ == m,
        },
{
    proof {
        lemma_hex4(chars@, from as int);
    }
    let n: usize = chars.len();
    let mut code: u32 = 0;
    let mut k: usize = 0;
    let ghost mut bound: int = 1;
    while k < 4
        invariant
            k <= 4,
            n == chars@.len(),
            from <= n,
            k > 0 ==> from + k <= chars@.len(),
            code < bound,
            bound == if k == 0 { 1int } else if k == 1 { 16 } else if k == 2 { 256 } else if k == 3 { 4096 } else { 65536 },
            hex4(chars@, from + k, (4 - k) as nat, code as nat) == hex4(chars@, from as int, 4, 0),
        decreases 4 - k,
    {
        if n - from <= k {
            return Err("unterminated \\u escape".to_owned());
        }
        let c: char = chars[from + k];
        match hex_of(c) {
            None => {
                return Err(join2("bad hex digit ", debug_char(c).as_str()));
            },
            Some(d) => {
                code = code * 16 + d;
            },
        }
        k = k + 1;
        proof {
            bound = bound * 16;
        }
    }
    Ok(code)
}

fn escaped(c: char) -> (r: Option<char>)
    ensures
        r == escape_of(c),
{
    if c == '"' || c == '\\' || c == '/' {
        Some(c)
    } else if c == 'n' {
        Some('\n')
    } else if c == 't' {
        Some('\t')
    } else if c == 'r' {
        Some('\r')
    } else if c == 'b' {
        Some('\u{8}')
    } else if c == 'f' {
        Some('\u{c}')
    } else {
        None
    }
}

fn char_for(code: u32) -> (c: char)
    requires
        code <= 0xffff,
    ensures
        c == char_with(code as nat),
{
    match char::from_u32(code) {
        Some(c) => {
            proof {
                vstd::utf8::char_u32_cast(c, code);
            }
            c
        },
        None => '\u{fffd}',
    }
}

fn read_string(chars: &Vec<char>, from: usize) -> (r: Result<(String, usize), String>)
    requires
        from <= chars@.len(),
    ensures
        match string_read(chars@, from as int) {
            Ok((t, q)) => r matches Ok(v) && v.0@ == t && v.1 == q && from < v.1 <= chars@.len(),
            Err(m) => r matches Err(e) && e@ == m,
        },
{
    proof {
        lemma_string_read(chars@, from as int);
    }
    if from >= chars.len() || chars[from] != '"' {
        return Err(expected('"', peek(chars, from)));
    }
    let ghost want = string_read(chars@, from as int);
    let mut out: String = String::new();
    let mut p: usize = from + 1;
    assert(out@ =~= Seq::<char>::empty());
    while p < chars.len()
        invariant
            from < p <= chars@.len(),
            want == string_read(chars@, from as int),
            want == chars_read(chars@, p as int, out@),
            want matches Ok((t, q)) ==> from < q <= chars@.len(),
        decreases chars.len() - p,
    {
        let c: char = chars[p];
        if c == '"' {
            return Ok((out, p + 1));
        }
        if c == '\\' {
            let e: Option<char> = peek(chars, p + 1);
            match e {
                None => {
                    return Err(join2("bad escape ", shown_of(None).as_str()));
                },
                Some(e) => match escaped(e) {
                    Some(x) => {
                        out.push(x);
                        p = p + 2;
                    },
                    None => {
                        if e == 'u' {
                            match read_hex4(chars, p + 2) {
                                Err(m) => {
                                    return Err(m);
                                },
                                Ok(code) => {
                                    out.push(char_for(code));
                                    p = p + 6;
                                },
                            }
                        } else {
                            return Err(join2("bad escape ", shown_of(Some(e)).as_str()));
                        }
                    },
                },
            }
        } else {
            out.push(c);
            p = p + 1;
        }
    }
    Err("unterminated string".to_owned())
}

fn skip_digits(chars: &Vec<char>, from: usize) -> (r: usize)
    requires
        from <= chars@.len(),
    ensures
        r == digits_end(chars@, from as int),
        from <= r <= chars@.len(),
{
    let mut p: usize = from;
    while p < chars.len() && '0' <= chars[p] && chars[p] <= '9'
        invariant
            from <= p <= chars@.len(),
            digits_end(chars@, p as int) == digits_end(chars@, from as int),
        decreases chars.len() - p,
    {
        p = p + 1;
    }
    p
}

fn skip_sign(chars: &Vec<char>, p: usize) -> (r: usize)
    requires
        p <= chars@.len(),
    ensures
        r == sign_end(chars@, p as int),
        p <= r <= chars@.len(),
{
    if p < chars.len() && (chars[p] == '+' || chars[p] == '-') {
        p + 1
    } else {
        p
    }
}

/// Is the text that of a floating-point number?
pub fn float_text(chars: &Vec<char>) -> (b: bool)
    ensures
        b == is_float(chars@),
{
    let p: usize = skip_sign(chars, 0);
    let a: usize = skip_digits(chars, p);
    let m: usize = if a < chars.len() && chars[a] == '.' { skip_digits(chars, a + 1) } else { a };
    if !(a > p || m > a + 1) {
        return false;
    }
    if m == chars.len() {
        return true;
    }
    if chars[m] != 'e' && chars[m] != 'E' {
        return false;
    }
    let e: usize = skip_sign(chars, m + 1);
    let end: usize = skip_digits(chars, e);
    end > e && end == chars.len()
}

fn skip_number(chars: &Vec<char>, from: usize) -> (r: usize)
    requires
        from <= chars@.len(),
    ensures
        r == number_end(chars@, from as int),
        from <= r <= chars@.len(),
{
    let mut p: usize = from;
    while p < chars.len() && (chars[p] == '-' || chars[p] == '+' || chars[p] == '.' || chars[p] == 'e' || chars[p] == 'E' || ('0' <= chars[p] && chars[p] <= '9'))
        invariant
            from <= p <= chars@.len(),
            number_end(chars@, p as int) == number_end(chars@, from as int),
        decreases chars.len() - p,
    {
        p = p + 1;
    }
    p
}

fn has_word(chars: &Vec<char>, p: usize, w: &str) -> (b: bool)
    requires
        p <= chars@.len(),
    ensures
        b == word_at(chars@, p as int, w@),
{
    let word: Vec<char> = chars_of(w);
    let n: usize = chars.len();
    if n - p < word.len() {
        return false;
    }
    let mut i: usize = 0;
    while i < word.len()
        invariant
            i <= word@.len(),
            word@ == w@,
            n == chars@.len(),
            p + word@.len() <= n,
            forall|k: int| 0 <= k < i ==> chars@[p + k] == #[trigger] word@[k],
        decreases word.len() - i,
    {
        if chars[p + i] != word[i] {
            assert(chars@.subrange(p as int, p + word@.len())[i as int] == chars@[p + i]);
            return false;
        }
        i = i + 1;
    }
    assert(chars@.subrange(p as int, p + word@.len()) =~= w@);
    true
}

fn read_plain(chars: &Vec<char>, p: usize) -> (r: Result<(Json, usize), String>)
    requires
        p <= chars@.len(),
    ensures
        match plain_read(chars@, p as int) {
            Ok((j, q)) => r matches Ok(v) && json_of(v.0) == j && v.1 == q && p < v.1 <= chars@.len(),
            Err(m) => r matches Err(e) && e@ == m,
        },
{
    proof {
        reveal_strlit("true");
        reveal_strlit("false");
        reveal_strlit("null");
    }
    if p >= chars.len() {
        return Err(join2("unexpected token ", shown_of(None).as_str()));
    }
    let c: char = chars[p];
    if c == '"' {
        match read_string(chars, p) {
            Ok((t, q)) => Ok((Json::Str(t), q)),
            Err(e) => Err(e),
        }
    } else if c == 't' || c == 'f' {
        if has_word(chars, p, "true") {
            Ok((Json::Bool(true), p + 4))
        } else if has_word(chars, p, "false") {
            Ok((Json::Bool(false), p + 5))
        } else {
            Err("invalid literal".to_owned())
        }
    } else if c == 'n' {
        if has_word(chars, p, "null") {
            Ok((Json::Null, p + 4))
        } else {
            Err("invalid literal".to_owned())
        }
    } else if c == '-' || ('0' <= c && c <= '9') {
        let q: usize = skip_number(chars, p);
        proof {
            lemma_number_end(chars@, p + 1);
        }
        let t: String = string_of(chars, p, q);
        if float_text(&chars_of(t.as_str())) {
            Ok((Json::Num(t), q))
        } else {
            Err(join3("bad number '", t.as_str(), "'"))
        }
    } else {
        Err(join2("unexpected token ", shown_of(Some(c)).as_str()))
    }
}

/// A value ends behind its start.
pub proof fn lemma_value_read(s: Seq<char>, p: int)
    requires
        0 <= p,
    ensures
        value_read(s, p) matches Ok((v, q)) ==> p < q <= s.len(),
    decreases s.len() - p, 1int,
{
    lemma_skip_ws(s, p);
    let q = skip_ws(s, p);
    if at(s, q) == Some('{') {
        lemma_skip_ws(s, q + 1);
        lemma_fields_read(s, q + 1, Seq::empty());
    } else if at(s, q) == Some('[') {
        lemma_skip_ws(s, q + 1);
        lemma_items_read(s, q + 1, Seq::empty());
    } else if q < s.len() {
        reveal_strlit("true");
        reveal_strlit("false");
        reveal_strlit("null");
        lemma_string_read(s, q);
        lemma_number_end(s, q + 1);
        lemma_number_bound(s, q);
    }
}

proof fn lemma_number_bound(s: Seq<char>, p: int)
    requires
        0 <= p <= s.len(),
    ensures
        number_end(s, p) <= s.len(),
    decreases s.len() - p,
{
    if p < s.len() {
        lemma_number_bound(s, p + 1);
    }
}

pub proof fn lemma_fields_read(s: Seq<char>, p: int, acc: Seq<(Seq<char>, JsonSpec)>)
    requires
        0 <= p,
    ensures
        fields_read(s, p, acc) matches Ok((v, q)) ==> p < q <= s.len(),
    decreases s.len() - p, 0int,
{
    lemma_skip_ws(s, p);
    lemma_string_read(s, skip_ws(s, p));
    match string_read(s, skip_ws(s, p)) {
        Err(e) => {},
        Ok((key, q)) => {
            lemma_skip_ws(s, q);
            let c = skip_ws(s, q);
            if at(s, c) == Some(':') {
                lemma_value_read(s, c + 1);
                match value_read(s, c + 1) {
                    Err(e) => {},
                    Ok((v, r)) => {
                        let t = skip_ws(s, r);
                        lemma_skip_ws(s, r);
                        if at(s, t) == Some(',') {
                            lemma_fields_read(s, t + 1, acc.push((key, v)));
                        }
                    },
                }
            }
        },
    }
}

pub proof fn lemma_items_read(s: Seq<char>, p: int, acc: Seq<JsonSpec>)
    requires
        0 <= p,
    ensures
        items_read(s, p, acc) matches Ok((v, q)) ==> p < q <= s.len(),
    decreases s.len() - p, 2int,
{
    lemma_value_read(s, p);
    match value_read(s, p) {
        Err(e) => {},
        Ok((v, r)) => {
            let t = skip_ws(s, r);
            lemma_skip_ws(s, r);
            if at(s, t) == Some(',') {
                lemma_items_read(s, t + 1, acc.push(v));
            }
        },
    }
}

/// The fields of an object as mathematical values.
pub open spec fn fields_of(v: Seq<(String, Json)>) -> Seq<(Seq<char>, JsonSpec)> {
    Seq::new(v.len(), |i: int| (v[i].0@, json_of(v[i].1)))
}

/// The items of an array as mathematical values.
pub open spec fn items_of(v: Seq<Json>) -> Seq<JsonSpec> {
    Seq::new(v.len(), |i: int| json_of(v[i]))
}

fn read_value(chars: &Vec<char>, from: usize) -> (r: Result<(Json, usize), String>)
    requires
        from <= chars@.len(),
    ensures
        match value_read(chars@, from as int) {
            Ok((j, q)) => r matches Ok(v) && json_of(v.0) == j && v.1 == q && from < v.1 <= chars@.len(),
            Err(m) => r matches Err(e) && e@ == m,
        },
    decreases chars@.len() - from, 1int,
{
    proof {
        lemma_value_read(chars@, from as int);
    }
    let p: usize = skip(chars, from);
    if p < chars.len() && chars[p] == '{' {
        let q: usize = skip(chars, p + 1);
        if q < chars.len() && chars[q] == '}' {
            let v: Vec<(String, Json)> = Vec::new();
            let j: Json = Json::Obj(v);
            assert(json_of(j)->Obj_0 =~= Seq::<(Seq<char>, JsonSpec)>::empty());
            return Ok((j, q + 1));
        }
        read_fields(chars, p + 1)
    } else if p < chars.len() && chars[p] == '[' {
        let q: usize = skip(chars, p + 1);
        if q < chars.len() && chars[q] == ']' {
            let v: Vec<Json> = Vec::new();
            let j: Json = Json::Arr(v);
            assert(json_of(j)->Arr_0 =~= Seq::<JsonSpec>::empty());
            return Ok((j, q + 1));
        }
        read_items(chars, p + 1)
    } else {
        read_plain(chars, p)
    }
}

fn read_fields(chars: &Vec<char>, from: usize) -> (r: Result<(Json, usize), String>)
    requires
        from <= chars@.len(),
    ensures
        match fields_read(chars@, from as int, Seq::empty()) {
            Ok((j, q)) => r matches Ok(v) && json_of(v.0) == j && v.1 == q && from < v.1 <= chars@.len(),
            Err(m) => r matches Err(e) && e@ == m,
        },
    decreases chars@.len() - from, 0int,
{
    let ghost want = fields_read(chars@, from as int, Seq::empty());
    proof {
        lemma_fields_read(chars@, from as int, Seq::empty());
    }
    let mut fields: Vec<(String, Json)> = Vec::new();
    let mut p: usize = from;
    assert(fields_of(fields@) =~= Seq::empty());
    loop
        invariant
            from <= p <= chars@.len(),
            want == fields_read(chars@, from as int, Seq::empty()),
            want == fields_read(chars@, p as int, fields_of(fields@)),
            want matches Ok((v, q)) ==> from < q <= chars@.len(),
        decreases chars@.len() - p,
    {
        let ghost acc = fields_of(fields@);
        let a: usize = skip(chars, p);
        let (key, q) = match read_string(chars, a) {
            Ok(t) => t,
            Err(e) => {
                return Err(e);
            },
        };
        let c: usize = skip(chars, q);
        if c >= chars.len() || chars[c] != ':' {
            return Err(expected(':', peek(chars, c)));
        }
        proof {
            lemma_value_read(chars@, c + 1);
        }
        let (val, r) = match read_value(chars, c + 1) {
            Ok(t) => t,
            Err(e) => {
                return Err(e);
            },
        };
        let ghost pair = (key@, json_of(val));
        fields.push((key, val));
        assert(fields_of(fields@) =~= acc.push(pair));
        let t: usize = skip(chars, r);
        if t < chars.len() && chars[t] == ',' {
            p = t + 1;
        } else if t < chars.len() && chars[t] == '}' {
            let j: Json = Json::Obj(fields);
            assert(json_of(j)->Obj_0 =~= acc.push(pair));
            return Ok((j, t + 1));
        } else {
            return Err(join2("expected ',' or '}', found ", shown_of(peek(chars, t)).as_str()));
        }
    }
}

fn read_items(chars: &Vec<char>, from: usize) -> (r: Result<(Json, usize), String>)
    requires
        from <= chars@.len(),
    ensures
        match items_read(chars@, from as int, Seq::empty()) {
            Ok((j, q)) => r matches Ok(v) && json_of(v.0) == j && v.1 == q && from < v.1 <= chars@.len(),
            Err(m) => r matches Err(e) && e@ == m,
        },
    decreases chars@.len() - from, 2int,
{
    let ghost want = items_read(chars@, from as int, Seq::empty());
    proof {
        lemma_items_read(chars@, from as int, Seq::empty());
    }
    let mut items: Vec<Json> = Vec::new();
    let mut p: usize = from;
    assert(items_of(items@) =~= Seq::empty());
    loop
        invariant
            from <= p <= chars@.len(),
            want == items_read(chars@, from as int, Seq::empty()),
            want == items_read(chars@, p as int, items_of(items@)),
            want matches Ok((v, q)) ==> from < q <= chars@.len(),
        decreases chars@.len() - p,
    {
        let ghost acc = items_of(items@);
        proof {
            lemma_value_read(chars@, p as int);
        }
        let (val, r) = match read_value(chars, p) {
            Ok(t) => t,
            Err(e) => {
                return Err(e);
            },
        };
        let ghost item = json_of(val);
        items.push(val);
        assert(items_of(items@) =~= acc.push(item));
        let t: usize = skip(chars, r);
        if t < chars.len() && chars[t] == ',' {
            p = t + 1;
        } else if t < chars.len() && chars[t] == ']' {
            let j: Json = Json::Arr(items);
            assert(json_of(j)->Arr_0 =~= acc.push(item));
            return Ok((j, t + 1));
        } else {
            return Err(join2("expected ',' or ']', found ", shown_of(peek(chars, t)).as_str()));
        }
    }
}

impl Json {
    /// Read a JSON text.
    pub fn parse(s: &str) -> (r: Result<Json, String>)
        ensures
            match json_read(s@) {
                Ok(j) => r matches Ok(v) && json_of(v) == j,
                Err(m) => r matches Err(e) && e@ == m,
            },
    {
        let chars: Vec<char> = chars_of(s);
        proof {
            lemma_value_read(chars@, 0);
        }
        match read_value(&chars, 0) {
            Err(e) => Err(e),
            Ok((v, p)) => {
                if skip(&chars, p) != chars.len() {
                    Err("trailing characters after JSON value".to_owned())
                } else {
                    Ok(v)
                }
            },
        }
    }
}

/// The first field with a name.
pub open spec fn field_named(fields: Seq<(Seq<char>, JsonSpec)>, key: Seq<char>) -> Option<JsonSpec>
    decreases fields.len(),
{
    if fields.len() == 0 {
        None
    } else if fields[0].0 == key {
        Some(fields[0].1)
    } else {
        field_named(fields.skip(1), key)
    }
}

/// A field of an object.
pub open spec fn json_field(j: JsonSpec, key: Seq<char>) -> Option<JsonSpec> {
    match j {
        JsonSpec::Obj(fields) => field_named(fields, key),
        _ => None,
    }
}

/// The text of a string.
pub open spec fn json_text(j: Option<JsonSpec>) -> Option<Seq<char>> {
    match j {
        Some(JsonSpec::Str(s)) => Some(s),
        _ => None,
    }
}

impl Json {
    /// A field of an object; nothing else has fields.
    pub fn get(&self, key: &str) -> (r: Option<&Json>)
        ensures
            match json_field(json_of(*self), key@) {
                Some(j) => r matches Some(v) && json_of(*v) == j,
                None => r is None,
            },
    {
        match self {
            Json::Obj(fields) => {
                let ghost all = json_of(*self)->Obj_0;
                assert(all =~= fields_of(fields@));
                let mut i: usize = 0;
                assert(all.skip(0) =~= all);
                while i < fields.len()
                    invariant
                        i <= fields@.len(),
                        all == fields_of(fields@),
                        json_of(*self) == JsonSpec::Obj(all),
                        field_named(all, key@) == field_named(all.skip(i as int), key@),
                    decreases fields.len() - i,
                {
                    proof {
                        assert(all.skip(i as int)[0] == (fields@[i as int].0@, json_of(fields@[i as int].1)));
                        assert(all.skip(i as int).skip(1) =~= all.skip(i + 1));
                    }
                    if same(fields[i].0.as_str(), key) {
                        return Some(&fields[i].1);
                    }
                    i = i + 1;
                }
                assert(all.skip(i as int).len() == 0);
                None
            },
            _ => None,
        }
    }

    /// The items of an array.
    pub fn as_array(&self) -> (r: Option<&Vec<Json>>)
        ensures
            match json_of(*self) {
                JsonSpec::Arr(items) => r matches Some(v) && items_of(v@) == items,
                _ => r is None,
            },
    {
        match self {
            Json::Arr(v) => {
                assert(json_of(*self)->Arr_0 =~= items_of(v@));
                Some(v)
            },
            _ => None,
        }
    }

    /// The fields of an object.
    pub fn as_object(&self) -> (r: Option<&Vec<(String, Json)>>)
        ensures
            match json_of(*self) {
                JsonSpec::Obj(fields) => r matches Some(v) && fields_of(v@) == fields,
                _ => r is None,
            },
    {
        match self {
            Json::Obj(v) => {
                assert(json_of(*self)->Obj_0 =~= fields_of(v@));
                Some(v)
            },
            _ => None,
        }
    }

    /// The text of a string.
    pub fn as_str(&self) -> (r: Option<&str>)
        ensures
            match json_of(*self) {
                JsonSpec::Str(s) => r matches Some(t) && t@ == s,
                _ => r is None,
            },
    {
        match self {
            Json::Str(s) => Some(s.as_str()),
            _ => None,
        }
    }

    /// The text of a field that is a string.
    pub fn text_field(&self, key: &str) -> (r: Option<String>)
        ensures
            match json_text(json_field(json_of(*self), key@)) {
                Some(s) => r matches Some(t) && t@ == s,
                None => r is None,
            },
    {
        match self.get(key) {
            Some(j) => match j.as_str() {
                Some(s) => Some(s.to_owned()),
                None => None,
            },
            None => None,
        }
    }
}

/// How a character is written in a JSON string.
pub open spec fn json_char(c: char) -> Seq<char> {
    if c == '"' {
        seq!['\\', '"']
    } else if c == '\\' {
        seq!['\\', '\\']
    } else if c == '\n' {
        seq!['\\', 'n']
    } else if c == '\r' {
        seq!['\\', 'r']
    } else if c == '\t' {
        seq!['\\', 't']
    } else if (c as u32) < 0x20 {
        seq!['\\', 'u', '0', '0', hex_char((c as u32 / 16) as int), hex_char((c as u32 % 16) as int)]
    } else {
        seq![c]
    }
}

/// How some characters are written in a JSON string.
pub open spec fn json_chars(s: Seq<char>) -> Seq<char>
    decreases s.len(),
{
    if s.len() == 0 {
        Seq::empty()
    } else {
        json_char(s[0]) + json_chars(s.skip(1))
    }
}

/// A JSON string.
pub open spec fn json_quoted(s: Seq<char>) -> Seq<char> {
    seq!['"'] + json_chars(s) + seq!['"']
}

/// Write a JSON string.
pub fn json_str(s: &str) -> (r: String)
    ensures
        r@ == json_quoted(s@),
{
    let chars: Vec<char> = chars_of(s);
    let mut r: String = String::new();
    r.push('"');
    let mut i: usize = 0;
    proof {
        assert(chars@.skip(0) =~= chars@);
        assert(r@ =~= seq!['"']);
    }
    while i < chars.len()
        invariant
            i <= chars@.len(),
            chars@ == s@,
            r@ + json_chars(chars@.skip(i as int)) == seq!['"'] + json_chars(s@),
        decreases chars.len() - i,
    {
        let ghost r0 = r@;
        let c: char = chars[i];
        if c == '"' {
            r.push('\\');
            r.push('"');
        } else if c == '\\' {
            r.push('\\');
            r.push('\\');
        } else if c == '\n' {
            r.push('\\');
            r.push('n');
        } else if c == '\r' {
            r.push('\\');
            r.push('r');
        } else if c == '\t' {
            r.push('\\');
            r.push('t');
        } else if (c as u32) < 0x20 {
            r.push('\\');
            r.push('u');
            r.push('0');
            r.push('0');
            r.push(hex_digit(c as u32 / 16));
            r.push(hex_digit(c as u32 % 16));
        } else {
            r.push(c);
        }
        proof {
            assert(chars@.skip(i as int).skip(1) =~= chars@.skip(i + 1));
            let rest = json_chars(chars@.skip(i + 1));
            assert(r@ =~= r0 + json_char(c));
            assert(r@ + rest =~= r0 + (json_char(c) + rest));
        }
        i = i + 1;
    }
    proof {
        assert(chars@.skip(i as int).len() == 0);
        assert(r@ =~= seq!['"'] + json_chars(s@));
    }
    r.push('"');
    r
}

fn hex_digit(v: u32) -> (c: char)
    requires
        v < 16,
    ensures
        c == hex_char(v as int),
{
    if v < 10 {
        (v as u8 + 48) as char
    } else {
        (v as u8 + 87) as char
    }
}

#[verifier::spinoff_prover]
#[verifier::rlimit(40)]
pub proof fn lemma_chars_written(t: Seq<char>, p: int, s: Seq<char>, acc: Seq<char>)
    requires
        0 <= p,
        p + json_chars(s).len() < t.len(),
        t.subrange(p, p + json_chars(s).len()) == json_chars(s),
        t[p + json_chars(s).len()] == '"',
    ensures
        chars_read(t, p, acc) == Ok::<(Seq<char>, int), Seq<char>>((acc + s, p + json_chars(s).len() + 1)),
    decreases s.len(),
{
    let all = json_chars(s);
    let part = t.subrange(p, p + all.len());
    if s.len() == 0 {
        assert(acc + s =~= acc);
    } else {
        let c = s[0];
        let e = json_char(c);
        let rest = s.skip(1);
        assert(all == e + json_chars(rest));
        assert forall|k: int| 0 <= k < e.len() implies t[p + k] == e[k] by {
            assert(part[k] == all[k]);
        }
        let q = p + e.len();
        assert(t.subrange(q, q + json_chars(rest).len()) =~= json_chars(rest)) by {
            assert forall|k: int| 0 <= k < json_chars(rest).len() implies t[q + k] == json_chars(rest)[k] by {
                assert(part[e.len() + k] == all[e.len() + k]);
            }
        }
        lemma_chars_written(t, q, rest, acc.push(c));
        assert(acc.push(c) + rest =~= acc + s);
        assert(t[p] == e[0]);
        if e.len() == 2 {
            assert(t[p + 1] == e[1]);
        } else if e.len() == 6 {
            assert(t[p + 1] == e[1] && t[p + 2] == e[2] && t[p + 3] == e[3] && t[p + 4] == e[4] && t[p + 5] == e[5]);
            let v = c as u32;
            assert(v < 0x20);
            reveal_with_fuel(hex4, 5);
            assert(hex_value('0') == Some(0nat));
            assert(hex_value(e[4]) == Some((v / 16) as nat));
            assert(hex_value(e[5]) == Some((v % 16) as nat));
            assert(hex4(t, p + 2, 4, 0) == Ok::<nat, Seq<char>>(v as nat));
            vstd::utf8::char_u32_cast(c, v);
        }
    }
}

/// Reading a JSON string gives back the text that was written.
pub proof fn law_json_string_roundtrip(s: Seq<char>)
    ensures
        json_read(json_quoted(s)) == Ok::<JsonSpec, Seq<char>>(JsonSpec::Str(s)),
{
    let t = json_quoted(s);
    assert(t[0] == '"');
    assert(t.subrange(1, 1 + json_chars(s).len() as int) =~= json_chars(s));
    lemma_chars_written(t, 1, s, Seq::empty());
    assert(Seq::<char>::empty() + s =~= s);
    assert(skip_ws(t, 0) == 0);
    assert(at(t, 0) == Some('"'));
    assert(value_read(t, 0) == plain_read(t, 0));
}

/// A field is found by its name: the first that has it counts, and nothing is found
/// just where none has it, or in a value without fields.
pub proof fn law_field_is_found_by_name(fields: Seq<(Seq<char>, JsonSpec)>, key: Seq<char>, k: int)
    ensures
        0 <= k < fields.len() && fields[k].0 == key && (forall|i: int| 0 <= i < k ==> (#[trigger] fields[i]).0 != key) ==> json_field(JsonSpec::Obj(fields), key) == Some(fields[k].1),
        (forall|i: int| 0 <= i < fields.len() ==> (#[trigger] fields[i]).0 != key) <==> json_field(JsonSpec::Obj(fields), key) is None,
        forall|j: JsonSpec| !(j is Obj) ==> #[trigger] json_field(j, key) is None,
        forall|s: Seq<char>| #[trigger] json_text(Some(JsonSpec::Str(s))) == Some(s),
        forall|j: Option<JsonSpec>| !(j matches Some(JsonSpec::Str(_))) ==> #[trigger] json_text(j) is None,
    decreases fields.len(),
{
    if fields.len() > 0 {
        let rest = fields.skip(1);
        law_field_is_found_by_name(rest, key, k - 1);
        assert forall|i: int| 0 <= i < rest.len() implies #[trigger] rest[i] == fields[i + 1] by {
        }
        if fields[0].0 != key {
            if forall|i: int| 0 <= i < fields.len() ==> (#[trigger] fields[i]).0 != key {
                assert forall|i: int| 0 <= i < rest.len() implies (#[trigger] rest[i]).0 != key by {
                    assert(fields[i + 1].0 != key);
                }
            }
            if forall|i: int| 0 <= i < rest.len() ==> (#[trigger] rest[i]).0 != key {
                assert forall|i: int| 0 <= i < fields.len() implies (#[trigger] fields[i]).0 != key by {
                    if i > 0 {
                        assert(rest[i - 1].0 != key);
                    }
                }
            }
            if 0 <= k < fields.len() && fields[k].0 == key && (forall|i: int| 0 <= i < k ==> (#[trigger] fields[i]).0 != key) {
                assert(k > 0);
                assert(rest[k - 1] == fields[k]);
                assert forall|i: int| 0 <= i < k - 1 implies (#[trigger] rest[i]).0 != key by {
                    assert(fields[i + 1].0 != key);
                }
            }
        } else if 0 < k < fields.len() && (forall|i: int| 0 <= i < k ==> (#[trigger] fields[i]).0 != key) {
            assert(fields[0].0 != key);
        }
    }
}

} // verus!
