//! Text helpers: comparison, UTF-8 bytes, decimal and hexadecimal numbers.

use vstd::prelude::*;
use vstd::string::*;
use vstd::utf8::{encode_utf8, encode_utf8_decode_utf8, valid_utf8};

verus! {

/// `String::push` of the standard library adds one character at the end.
pub assume_specification[ String::push ](s: &mut String, c: char)
    ensures
        final(s)@ == old(s)@.push(c),
;

/// `String::from_utf8` of the standard library: a string whose UTF-8 encoding
/// is the given bytes, which exists exactly if the bytes are valid UTF-8.
#[verifier::external_body]
pub(crate) fn string_from_utf8(bytes: Vec<u8>) -> (r: Option<String>)
    ensures
        r is Some <==> valid_utf8(bytes@),
        r matches Some(s) ==> encode_utf8(s@) == bytes@,
{
    String::from_utf8(bytes).ok()
}

/// Different strings have different encodings.
pub proof fn lemma_encoding_injective(a: Seq<char>, b: Seq<char>)
    requires
        encode_utf8(a) == encode_utf8(b),
    ensures
        a == b,
{
    encode_utf8_decode_utf8(a);
    encode_utf8_decode_utf8(b);
}

/// The characters of a string.
pub fn chars_of(s: &str) -> (r: Vec<char>)
    ensures
        r@ == s@,
{
    let mut r: Vec<char> = Vec::new();
    for c in it: s.chars()
        invariant
            r@ == it.seq().take(it.index() as int),
            it.seq() == s@,
    {
        r.push(c);
    }
    r
}

/// The string of some characters.
pub fn string_of(chars: &Vec<char>, from: usize, to: usize) -> (r: String)
    requires
        from <= to <= chars.len(),
    ensures
        r@ == chars@.subrange(from as int, to as int),
{
    let mut r: String = String::new();
    let mut i: usize = from;
    while i < to
        invariant
            from <= i <= to <= chars.len(),
            r@ == chars@.subrange(from as int, i as int),
        decreases to - i,
    {
        r.push(chars[i]);
        i = i + 1;
        assert(r@ =~= chars@.subrange(from as int, i as int));
    }
    r
}

/// The UTF-8 bytes of a string.
pub fn bytes_of(s: &str) -> (r: Vec<u8>)
    ensures
        r@ == encode_utf8(s@),
{
    let b: &[u8] = s.as_bytes();
    let mut r: Vec<u8> = Vec::new();
    let mut i: usize = 0;
    while i < b.len()
        invariant
            i <= b.len(),
            r@ == b@.subrange(0, i as int),
        decreases b.len() - i,
    {
        r.push(b[i]);
        i = i + 1;
        assert(r@ =~= b@.subrange(0, i as int));
    }
    assert(r@ =~= b@);
    r
}

/// Whether two byte slices are equal.
pub fn same_bytes(a: &[u8], b: &[u8]) -> (r: bool)
    ensures
        r == (a@ == b@),
{
    if a.len() != b.len() {
        return false;
    }
    let mut i: usize = 0;
    while i < a.len()
        invariant
            a@.len() == b@.len(),
            i <= a.len(),
            forall|k: int| 0 <= k < i ==> a@[k] == b@[k],
        decreases a.len() - i,
    {
        if a[i] != b[i] {
            return false;
        }
        i = i + 1;
    }
    assert(a@ =~= b@);
    true
}

/// Whether two strings are equal.
pub fn same(a: &str, b: &str) -> (r: bool)
    ensures
        r == (a@ == b@),
{
    let r: bool = same_bytes(a.as_bytes(), b.as_bytes());
    proof {
        if r {
            lemma_encoding_injective(a@, b@);
        }
    }
    r
}

/// Lexicographic order on byte sequences, which is the order of strings.
pub open spec fn lex_less(a: Seq<u8>, b: Seq<u8>) -> bool
    decreases a.len(),
{
    if b.len() == 0 {
        false
    } else if a.len() == 0 {
        true
    } else if a[0] != b[0] {
        a[0] < b[0]
    } else {
        lex_less(a.drop_first(), b.drop_first())
    }
}

/// The order is total on distinct sequences, and no sequence precedes itself.
pub proof fn lemma_lex_total(a: Seq<u8>, b: Seq<u8>)
    ensures
        !lex_less(a, a),
        a != b ==> (lex_less(a, b) <==> !lex_less(b, a)),
        lex_less(a, b) || lex_less(b, a) || a == b,
        !(lex_less(a, b) && lex_less(b, a)),
    decreases a.len(),
{
    if a.len() > 0 && b.len() > 0 {
        lemma_lex_total(a.drop_first(), b.drop_first());
        if a[0] == b[0] && a.drop_first() == b.drop_first() {
            assert(a =~= seq![a[0]] + a.drop_first());
            assert(b =~= seq![b[0]] + b.drop_first());
        }
    } else if a.len() == 0 && b.len() == 0 {
        assert(a =~= b);
    }
    if a.len() > 0 {
        lemma_lex_irreflexive(a);
    }
}

proof fn lemma_lex_irreflexive(a: Seq<u8>)
    ensures
        !lex_less(a, a),
    decreases a.len(),
{
    if a.len() > 0 {
        lemma_lex_irreflexive(a.drop_first());
    }
}

/// The order is transitive.
pub proof fn lemma_lex_trans(a: Seq<u8>, b: Seq<u8>, c: Seq<u8>)
    requires
        lex_less(a, b),
        lex_less(b, c),
    ensures
        lex_less(a, c),
    decreases a.len(),
{
    if a.len() > 0 && b.len() > 0 && c.len() > 0 {
        if a[0] == b[0] && b[0] == c[0] {
            lemma_lex_trans(a.drop_first(), b.drop_first(), c.drop_first());
        }
    }
}

/// A shared beginning does not matter for the order.
pub proof fn lemma_lex_common(p: Seq<u8>, a: Seq<u8>, b: Seq<u8>)
    ensures
        lex_less(p + a, p + b) == lex_less(a, b),
    decreases p.len(),
{
    if p.len() == 0 {
        assert(p + a =~= a);
        assert(p + b =~= b);
    } else {
        assert((p + a).drop_first() =~= p.drop_first() + a);
        assert((p + b).drop_first() =~= p.drop_first() + b);
        lemma_lex_common(p.drop_first(), a, b);
    }
}

/// Whether `a` precedes `b`.
pub fn bytes_less(a: &[u8], b: &[u8]) -> (r: bool)
    ensures
        r == lex_less(a@, b@),
{
    let mut i: usize = 0;
    let ghost p: Seq<u8> = Seq::empty();
    assert(a@.subrange(0, a@.len() as int) =~= a@);
    assert(b@.subrange(0, b@.len() as int) =~= b@);
    while i < a.len() && i < b.len() && a[i] == b[i]
        invariant
            i <= a.len(),
            i <= b.len(),
            lex_less(a@, b@) == lex_less(a@.subrange(i as int, a@.len() as int), b@.subrange(i as int, b@.len() as int)),
        decreases a.len() - i,
    {
        assert(a@.subrange(i as int, a@.len() as int).drop_first() =~= a@.subrange(i + 1, a@.len() as int));
        assert(b@.subrange(i as int, b@.len() as int).drop_first() =~= b@.subrange(i + 1, b@.len() as int));
        i = i + 1;
    }
    if i >= b.len() {
        false
    } else if i >= a.len() {
        true
    } else {
        a[i] < b[i]
    }
}

/// The digit of a number below ten.
pub open spec fn digit(d: int) -> char {
    ((d + 48) as u8) as char
}

/// The decimal notation of a number.
pub open spec fn decimal(n: nat) -> Seq<char>
    decreases n,
{
    if n < 10 {
        seq![digit(n as int)]
    } else {
        decimal(n / 10).push(digit((n % 10) as int))
    }
}

/// The decimal notation of `n`.
pub fn decimal_of(n: u64) -> (r: String)
    ensures
        r@ == decimal(n as nat),
    decreases n,
{
    if n < 10 {
        let mut r: String = String::new();
        r.push((n as u8 + 48) as char);
        assert(r@ =~= decimal(n as nat));
        r
    } else {
        let mut r: String = decimal_of(n / 10);
        r.push(((n % 10) as u8 + 48) as char);
        r
    }
}

/// A decimal digit.
pub open spec fn is_digit(c: char) -> bool {
    '0' <= c <= '9'
}

/// The value of a sequence of decimal digits.
pub open spec fn digits_value(s: Seq<char>) -> nat
    decreases s.len(),
{
    if s.len() == 0 {
        0
    } else {
        digits_value(s.drop_last()) * 10 + (s.last() as int - 48) as nat
    }
}

/// An optional plus sign is not part of the digits.
pub open spec fn without_plus(s: Seq<char>) -> Seq<char> {
    if s.len() > 0 && s[0] == '+' {
        s.subrange(1, s.len() as int)
    } else {
        s
    }
}

/// Text that denotes a number of at most `max`: an optional plus sign and at
/// least one digit, nothing else.
pub open spec fn parsed_unsigned(s: Seq<char>, max: nat) -> Option<nat> {
    let d = without_plus(s);
    if d.len() > 0 && (forall|i: int| 0 <= i < d.len() ==> is_digit(#[trigger] d[i])) && digits_value(d) <= max {
        Some(digits_value(d))
    } else {
        None
    }
}

proof fn lemma_digits_value_grows(s: Seq<char>, k: int)
    requires
        0 <= k <= s.len(),
        forall|i: int| 0 <= i < s.len() ==> is_digit(#[trigger] s[i]),
    ensures
        digits_value(s.subrange(0, k)) <= digits_value(s),
    decreases s.len() - k,
{
    if k == s.len() {
        assert(s.subrange(0, k) =~= s);
    } else {
        lemma_digits_value_grows(s, k + 1);
        assert(s.subrange(0, k + 1).drop_last() =~= s.subrange(0, k));
    }
}

/// Read a number of at most `max`.
pub fn parse_unsigned(chars: &Vec<char>, from: usize, to: usize, max: u64) -> (r: Option<u64>)
    requires
        from <= to <= chars.len(),
    ensures
        r == (match parsed_unsigned(chars@.subrange(from as int, to as int), max as nat) {
            Some(n) => Some(n as u64),
            None => None,
        }),
{
    let ghost all = chars@.subrange(from as int, to as int);
    let start: usize = if from < to && chars[from] == '+' {
        from + 1
    } else {
        from
    };
    let ghost d = without_plus(all);
    assert(d =~= chars@.subrange(start as int, to as int));
    if start == to {
        return None;
    }
    let mut acc: u64 = 0;
    let mut i: usize = start;
    assert(d.subrange(0, 0) =~= Seq::<char>::empty());
    while i < to
        invariant
            from <= start <= i <= to <= chars.len(),
            d == chars@.subrange(start as int, to as int),
            forall|k: int| 0 <= k < i - start ==> is_digit(#[trigger] d[k]),
            acc == digits_value(d.subrange(0, i - start)),
            acc <= max,
            d == without_plus(all),
            all == chars@.subrange(from as int, to as int),
            start < to,
        decreases to - i,
    {
        let c: char = chars[i];
        let ghost k = i - start;
        assert(d[k] == c);
        assert(d.subrange(0, k + 1).drop_last() =~= d.subrange(0, k));
        assert(d.subrange(0, k + 1).last() == c);
        if c < '0' || c > '9' {
            assert(!is_digit(d[k]));
            return None;
        }
        let v: u64 = (c as u32 - 48) as u64;
        if v > max || acc > max / 10 || acc * 10 > max - v {
            proof {
                assert(digits_value(d.subrange(0, k + 1)) > max);
                if forall|j: int| 0 <= j < d.len() ==> is_digit(#[trigger] d[j]) {
                    lemma_digits_value_grows(d, k + 1);
                }
            }
            return None;
        }
        acc = acc * 10 + v;
        i = i + 1;
    }
    assert(d.subrange(0, to - start) =~= d);
    Some(acc)
}

/// Decimal notation reads back as the number.
pub proof fn lemma_decimal_reads_back(n: nat)
    ensures
        decimal(n).len() > 0,
        forall|i: int| 0 <= i < decimal(n).len() ==> is_digit(#[trigger] decimal(n)[i]),
        digits_value(decimal(n)) == n,
        without_plus(decimal(n)) == decimal(n),
        parsed_unsigned(decimal(n), n) == Some(n),
    decreases n,
{
    let s = decimal(n);
    if n < 10 {
        assert(s.drop_last() =~= Seq::<char>::empty());
        assert(digits_value(Seq::<char>::empty()) == 0);
    } else {
        lemma_decimal_reads_back(n / 10);
        let t = decimal(n / 10);
        assert(s.drop_last() =~= t);
        assert forall|i: int| 0 <= i < s.len() implies is_digit(#[trigger] s[i]) by {
            if i < t.len() {
                assert(s[i] == t[i]);
            }
        }
    }
    assert(is_digit(s[0]));
}

/// White space, as Unicode has it.
pub open spec fn is_white(c: char) -> bool {
    let v = c as u32;
    ||| 0x09 <= v <= 0x0d
    ||| v == 0x20
    ||| v == 0x85
    ||| v == 0xa0
    ||| v == 0x1680
    ||| 0x2000 <= v <= 0x200a
    ||| v == 0x2028
    ||| v == 0x2029
    ||| v == 0x202f
    ||| v == 0x205f
    ||| v == 0x3000
}

/// Is the character white space?
pub fn white(c: char) -> (b: bool)
    ensures
        b == is_white(c),
{
    let v: u32 = c as u32;
    (0x09 <= v && v <= 0x0d) || v == 0x20 || v == 0x85 || v == 0xa0 || v == 0x1680 || (0x2000 <= v && v <= 0x200a)
        || v == 0x2028 || v == 0x2029 || v == 0x202f || v == 0x205f || v == 0x3000
}

/// How many characters come before the first white space.
pub open spec fn word_len(s: Seq<char>) -> nat
    decreases s.len(),
{
    if s.len() == 0 || is_white(s[0]) {
        0
    } else {
        1 + word_len(s.drop_first())
    }
}

/// The words of a text: its maximal parts without white space.
pub open spec fn words(s: Seq<char>) -> Seq<Seq<char>>
    decreases s.len(),
{
    if s.len() == 0 {
        Seq::empty()
    } else if is_white(s[0]) {
        words(s.drop_first())
    } else {
        let n = word_len(s) as int;
        if 0 < n <= s.len() {
            seq![s.subrange(0, n)] + words(s.subrange(n, s.len() as int))
        } else {
            Seq::empty()
        }
    }
}

/// The word at the start of a text.
pub proof fn lemma_word_len(s: Seq<char>)
    ensures
        word_len(s) <= s.len(),
        forall|i: int| 0 <= i < word_len(s) ==> !is_white(#[trigger] s[i]),
        word_len(s) < s.len() ==> is_white(s[word_len(s) as int]),
        s.len() > 0 && !is_white(s[0]) ==> word_len(s) > 0,
    decreases s.len(),
{
    if s.len() > 0 && !is_white(s[0]) {
        let t = s.drop_first();
        lemma_word_len(t);
        assert forall|i: int| 0 <= i < word_len(s) implies !is_white(#[trigger] s[i]) by {
            if i > 0 {
                assert(t[i - 1] == s[i]);
            }
        }
        if word_len(s) < s.len() {
            assert(t[word_len(t) as int] == s[word_len(s) as int]);
        }
    }
}

/// The length of the first word is where the first white space is.
proof fn lemma_word_len_is(s: Seq<char>, n: int)
    requires
        0 <= n <= s.len(),
        forall|i: int| 0 <= i < n ==> !is_white(#[trigger] s[i]),
        n < s.len() ==> is_white(s[n]),
    ensures
        word_len(s) == n,
    decreases n,
{
    if n > 0 {
        assert(!is_white(s[0]));
        let t = s.drop_first();
        assert forall|i: int| 0 <= i < n - 1 implies !is_white(#[trigger] t[i]) by {
            assert(!is_white(s[i + 1]));
        }
        lemma_word_len_is(t, n - 1);
    }
}

/// A word, a space and the rest are the word and the words of the rest.
pub proof fn lemma_words_cons(w: Seq<char>, rest: Seq<char>)
    requires
        w.len() > 0,
        forall|i: int| 0 <= i < w.len() ==> !is_white(#[trigger] w[i]),
    ensures
        words(w + seq![' '] + rest) == seq![w] + words(rest),
        words(w) == seq![w],
{
    let s = w + seq![' '] + rest;
    let n = w.len() as int;
    assert forall|i: int| 0 <= i < n implies !is_white(#[trigger] s[i]) by {
        assert(s[i] == w[i]);
    }
    assert(s[n] == ' ');
    lemma_word_len_is(s, n);
    assert(s.subrange(0, n) =~= w);
    let tail = s.subrange(n, s.len() as int);
    assert(tail[0] == ' ');
    assert(tail.drop_first() =~= rest);
    assert(!is_white(s[0]));
    assert(words(tail) == words(rest));
    lemma_word_len_is(w, n);
    assert(w.subrange(0, n) =~= w);
    assert(w.subrange(n, n) =~= Seq::<char>::empty());
    assert(words(w.subrange(n, n)) =~= Seq::<Seq<char>>::empty());
    assert(!is_white(w[0]));
    assert(words(w) =~= seq![w]);
}

/// The views of some strings.
pub open spec fn texts(v: Seq<String>) -> Seq<Seq<char>> {
    v.map_values(|s: String| s@)
}

/// Split a text into its words.
pub fn split_words(s: &str) -> (r: Vec<String>)
    ensures
        texts(r@) == words(s@),
{
    let chars: Vec<char> = chars_of(s);
    let n: usize = chars.len();
    let mut r: Vec<String> = Vec::new();
    let mut i: usize = 0;
    assert(chars@.subrange(0, n as int) =~= chars@);
    assert(texts(r@) + words(chars@) =~= words(chars@));
    while i < n
        invariant
            n == chars@.len(),
            chars@ == s@,
            i <= n,
            words(s@) == texts(r@) + words(chars@.subrange(i as int, n as int)),
        decreases n - i,
    {
        let ghost rest = chars@.subrange(i as int, n as int);
        if white(chars[i]) {
            assert(rest.drop_first() =~= chars@.subrange(i + 1, n as int));
            i = i + 1;
        } else {
            let start: usize = i;
            proof {
                lemma_word_len(rest);
            }
            i = i + 1;
            while i < n && !white(chars[i])
                invariant
                    n == chars@.len(),
                    start < i <= n,
                    forall|k: int| start <= k < i ==> !is_white(#[trigger] chars@[k]),
                decreases n - i,
            {
                i = i + 1;
            }
            let ghost before = r@;
            r.push(string_of(&chars, start, i));
            proof {
                let len = i - start;
                assert forall|k: int| 0 <= k < len implies !is_white(#[trigger] rest[k]) by {
                    assert(!is_white(chars@[start + k]));
                }
                if len < rest.len() {
                    assert(rest[len] == chars@[i as int]);
                }
                lemma_word_len_is(rest, len);
                let w = rest.subrange(0, len);
                assert(w =~= chars@.subrange(start as int, i as int));
                assert(rest.subrange(len, rest.len() as int) =~= chars@.subrange(i as int, n as int));
                assert(texts(r@) =~= texts(before).push(w));
                assert(!is_white(rest[0]));
                assert(texts(before) + (seq![w] + words(chars@.subrange(i as int, n as int))) =~= texts(r@) + words(chars@.subrange(i as int, n as int)));
            }
        }
    }
    proof {
        assert(chars@.subrange(n as int, n as int) =~= Seq::<char>::empty());
        assert(words(Seq::<char>::empty()) =~= Seq::<Seq<char>>::empty());
        assert(texts(r@) + Seq::<Seq<char>>::empty() =~= texts(r@));
    }
    r
}

/// What the standard library's debug formatting makes of a string.
pub uninterp spec fn str_debug(s: Seq<char>) -> Seq<char>;

/// The debug form of a string, by `format!` with `{:?}` of the standard library:
/// the string in quotes, with special characters escaped. The contract names the
/// result; it does not say which characters are escaped.
#[verifier::external_body]
pub(crate) fn debug_of(s: &str) -> (r: String)
    ensures
        r@ == str_debug(s@),
{
    format!("{:?}", s)
}

/// What `format!("{:?}", c)` gives for a character: the character between single
/// quotes, with those escapes that the standard library chooses.
pub uninterp spec fn char_debug(c: char) -> Seq<char>;

/// `format!` of the standard library with `{:?}` on a character. Its result is a
/// function of the character; which characters are escaped is not said.
#[verifier::external_body]
pub(crate) fn debug_char(c: char) -> (r: String)
    ensures
        r@ == char_debug(c),
{
    format!("{:?}", c)
}

/// `char::from_u32` of the standard library: the character with a number, for all
/// numbers but surrogates and those above the last character.
pub assume_specification[ char::from_u32 ](i: u32) -> (r: Option<char>)
    ensures
        r is Some <==> i < 0xd800 || 0xe000 <= i <= 0x10ffff,
        r matches Some(c) ==> c as u32 == i,
;

/// The order of texts, which is that of their encodings.
pub open spec fn text_less(a: Seq<char>, b: Seq<char>) -> bool {
    lex_less(encode_utf8(a), encode_utf8(b))
}

/// The order of texts is total and transitive.
pub proof fn lemma_text_order(a: Seq<char>, b: Seq<char>, c: Seq<char>)
    ensures
        !text_less(a, a),
        text_less(a, b) || text_less(b, a) || a == b,
        !(text_less(a, b) && text_less(b, a)),
        text_less(a, b) && text_less(b, c) ==> text_less(a, c),
{
    lemma_lex_total(encode_utf8(a), encode_utf8(b));
    if encode_utf8(a) == encode_utf8(b) {
        lemma_encoding_injective(a, b);
    }
    if text_less(a, b) && text_less(b, c) {
        lemma_lex_trans(encode_utf8(a), encode_utf8(b), encode_utf8(c));
    }
}

/// Whether `a` comes before `b`.
pub fn before(a: &str, b: &str) -> (r: bool)
    ensures
        r == text_less(a@, b@),
{
    bytes_less(a.as_bytes(), b.as_bytes())
}

/// Each text comes before all later ones.
pub open spec fn texts_ascend(s: Seq<Seq<char>>) -> bool {
    forall|i: int, j: int| 0 <= i < j < s.len() ==> text_less(#[trigger] s[i], #[trigger] s[j])
}

/// The ascending list of the texts of a set.
pub open spec fn lists_texts(s: Seq<Seq<char>>, set: Set<Seq<char>>) -> bool {
    &&& texts_ascend(s)
    &&& forall|x: Seq<char>| #[trigger] set.contains(x) <==> s.contains(x)
}

/// The number of texts that come before `x`.
pub fn text_place(v: &Vec<String>, x: &str) -> (r: usize)
    requires
        texts_ascend(texts(v@)),
    ensures
        r <= v@.len(),
        forall|k: int| 0 <= k < r ==> text_less(#[trigger] texts(v@)[k], x@),
        forall|k: int| r <= k < v@.len() ==> !text_less(#[trigger] texts(v@)[k], x@),
{
    let mut lo: usize = 0;
    let mut hi: usize = v.len();
    let ghost t = texts(v@);
    while lo < hi
        invariant
            lo <= hi <= v@.len(),
            t == texts(v@),
            texts_ascend(t),
            forall|k: int| 0 <= k < lo ==> text_less(#[trigger] t[k], x@),
            forall|k: int| hi <= k < v@.len() ==> !text_less(#[trigger] t[k], x@),
        decreases hi - lo,
    {
        let mid: usize = lo + (hi - lo) / 2;
        assert(t[mid as int] == v@[mid as int]@);
        if before(v[mid].as_str(), x) {
            proof {
                assert forall|k: int| 0 <= k < mid + 1 implies text_less(#[trigger] t[k], x@) by {
                    lemma_text_order(t[k], t[mid as int], x@);
                }
            }
            lo = mid + 1;
        } else {
            proof {
                assert forall|k: int| mid <= k < v@.len() implies !text_less(#[trigger] t[k], x@) by {
                    lemma_text_order(t[mid as int], t[k], x@);
                }
            }
            hi = mid;
        }
    }
    lo
}

/// Add a text to an ascending list, if it is not there.
pub fn insert_text(v: &mut Vec<String>, x: &str)
    requires
        texts_ascend(texts(old(v)@)),
    ensures
        texts_ascend(texts(final(v)@)),
        forall|y: Seq<char>| #[trigger] texts(final(v)@).contains(y) <==> texts(old(v)@).contains(y) || y == x@,
{
    let i: usize = text_place(v, x);
    let ghost t0 = texts(v@);
    if i < v.len() && same(v[i].as_str(), x) {
        assert(t0[i as int] == x@);
        return;
    }
    v.insert(i, x.to_owned());
    proof {
        let t1 = texts(v@);
        assert(t1 =~= t0.insert(i as int, x@));
        if i < t0.len() {
            assert(t0[i as int] != x@);
        }
        assert forall|a: int, b: int| 0 <= a < b < t1.len() implies text_less(#[trigger] t1[a], #[trigger] t1[b]) by {
            if a < i && b > i {
                assert(t1[b] == t0[b - 1]);
            } else if a == i {
                assert(t1[b] == t0[b - 1]);
                lemma_text_order(x@, t0[b - 1], x@);
                lemma_text_order(x@, t0[i as int], t0[b - 1]);
            } else if a > i {
                assert(t1[a] == t0[a - 1] && t1[b] == t0[b - 1]);
            }
        }
        assert forall|y: Seq<char>| #[trigger] t1.contains(y) <==> t0.contains(y) || y == x@ by {
            if t1.contains(y) {
                let k = choose|k: int| 0 <= k < t1.len() && t1[k] == y;
                if k < i {
                    assert(t0[k] == y);
                } else if k > i {
                    assert(t0[k - 1] == y);
                }
            }
            if t0.contains(y) {
                let k = choose|k: int| 0 <= k < t0.len() && t0[k] == y;
                if k < i {
                    assert(t1[k] == y);
                } else {
                    assert(t1[k + 1] == y);
                }
            }
            assert(t1[i as int] == x@);
        }
    }
}

/// Words are what stands between white space: a text without any is one word, and
/// white space between two texts keeps their words apart.
pub proof fn law_white_space_parts_words(a: Seq<char>, c: char, b: Seq<char>)
    requires
        is_white(c),
    ensures
        words(Seq::empty()) == Seq::<Seq<char>>::empty(),
        a.len() > 0 && (forall|i: int| 0 <= i < a.len() ==> !is_white(#[trigger] a[i])) ==> words(a) == seq![a],
        words(a.push(c) + b) == words(a) + words(b),
    decreases a.len(),
{
    let all = a.push(c) + b;
    if a.len() == 0 {
        assert(all[0] == c);
        assert(all.drop_first() =~= b);
        assert(words(a) + words(b) =~= words(b));
    } else if is_white(a[0]) {
        assert(all[0] == a[0]);
        assert(all.drop_first() =~= a.drop_first().push(c) + b);
        law_white_space_parts_words(a.drop_first(), c, b);
    } else {
        assert(all[0] == a[0]);
        lemma_word_len(a);
        lemma_word_len(all);
        let n = word_len(a) as int;
        let m = word_len(all) as int;
        assert(all[a.len() as int] == c);
        assert(m <= a.len());
        if m < n {
            assert(all[m] == a[m]);
        }
        if n < m {
            assert(all[n] == a[n]);
        }
        assert(n == m);
        let rest = a.subrange(n, a.len() as int);
        assert(a.subrange(0, n) =~= all.subrange(0, n));
        assert(all.subrange(n, all.len() as int) =~= rest.push(c) + b);
        law_white_space_parts_words(rest, c, b);
        assert(seq![a.subrange(0, n)] + (words(rest) + words(b)) =~= (seq![a.subrange(0, n)] + words(rest)) + words(b));
        if forall|i: int| 0 <= i < a.len() ==> !is_white(#[trigger] a[i]) {
            assert(n == a.len());
            assert(a.subrange(0, n) =~= a);
            assert(rest =~= Seq::empty());
            assert(words(rest) =~= Seq::empty());
            assert(words(a) =~= seq![a]);
        }
    }
}

} // verus!
