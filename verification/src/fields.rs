//! Texts made of fields: splitting, trimming, and hexadecimal numbers.

use crate::text::{chars_of, is_white, string_of, texts, white, without_plus};
use vstd::prelude::*;
use vstd::string::*;

verus! {

/// The place of the first `c`, or the length.
pub open spec fn first_at(s: Seq<char>, c: char) -> nat
    decreases s.len(),
{
    if s.len() == 0 || s[0] == c {
        0
    } else {
        1 + first_at(s.skip(1), c)
    }
}

/// The pieces between the separators, of which there is at least one.
pub open spec fn split_on(s: Seq<char>, c: char) -> Seq<Seq<char>>
    decreases s.len(),
{
    let i = first_at(s, c);
    if i >= s.len() {
        seq![s]
    } else {
        seq![s.take(i as int)] + split_on(s.skip(i as int + 1), c)
    }
}

pub proof fn lemma_first_at(s: Seq<char>, c: char)
    ensures
        first_at(s, c) <= s.len(),
        first_at(s, c) < s.len() ==> s[first_at(s, c) as int] == c,
        forall|k: int| 0 <= k < first_at(s, c) ==> s[k] != c,
    decreases s.len(),
{
    if s.len() > 0 && s[0] != c {
        lemma_first_at(s.skip(1), c);
        assert forall|k: int| 0 <= k < first_at(s, c) implies s[k] != c by {
            if k > 0 {
                assert(s.skip(1)[k - 1] == s[k]);
            }
        }
    }
}

/// The first place is the only one with no separator before it.
pub proof fn lemma_first_is(s: Seq<char>, c: char, i: int)
    requires
        0 <= i <= s.len(),
        forall|k: int| 0 <= k < i ==> s[k] != c,
        i < s.len() ==> s[i] == c,
    ensures
        first_at(s, c) == i,
{
    lemma_first_at(s, c);
    let f = first_at(s, c) as int;
    if f < i {
        assert(s[f] != c);
    } else if f > i {
        assert(s[i] != c);
    }
}

/// A piece, a separator, and the rest.
pub proof fn lemma_split_cons(a: Seq<char>, c: char, b: Seq<char>)
    requires
        !a.contains(c),
    ensures
        split_on(a + seq![c] + b, c) == seq![a] + split_on(b, c),
{
    let s = a + seq![c] + b;
    assert forall|k: int| 0 <= k < a.len() implies s[k] != c by {
        assert(a[k] == s[k]);
        assert(a.contains(a[k]));
    }
    assert(s[a.len() as int] == c);
    lemma_first_is(s, c, a.len() as int);
    assert(s.take(a.len() as int) =~= a);
    assert(s.skip(a.len() as int + 1) =~= b);
}

/// A text without separators is one piece.
pub proof fn lemma_split_one(a: Seq<char>, c: char)
    requires
        !a.contains(c),
    ensures
        split_on(a, c) == seq![a],
{
    assert forall|k: int| 0 <= k < a.len() implies a[k] != c by {
        assert(a.contains(a[k]));
    }
    lemma_first_is(a, c, a.len() as int);
}

/// Split a text at each `c`.
pub fn split_text(s: &str, c: char) -> (r: Vec<String>)
    ensures
        texts(r@) == split_on(s@, c),
        r@.len() >= 1,
{
    let chars: Vec<char> = chars_of(s);
    let n: usize = chars.len();
    let mut r: Vec<String> = Vec::new();
    let mut from: usize = 0;
    let mut i: usize = 0;
    proof {
        assert(chars@.skip(0) =~= chars@);
        assert(texts(r@) + split_on(chars@.skip(0), c) =~= split_on(chars@, c));
    }
    while i < n
        invariant
            from <= i <= n,
            n == chars@.len(),
            forall|k: int| from <= k < i ==> chars@[k] != c,
            texts(r@) + split_on(chars@.skip(from as int), c) == split_on(chars@, c),
        decreases n - i,
    {
        if chars[i] == c {
            let ghost t0 = texts(r@);
            let ghost rest = chars@.skip(from as int);
            let piece: String = string_of(&chars, from, i);
            proof {
                lemma_first_is(rest, c, i - from);
                assert(rest.take(i - from) =~= piece@);
                assert(rest.skip(i - from + 1) =~= chars@.skip(i + 1));
            }
            r.push(piece);
            from = i + 1;
            proof {
                assert(texts(r@) =~= t0.push(piece@));
                assert(t0 + (seq![piece@] + split_on(chars@.skip(from as int), c)) =~= texts(r@) + split_on(chars@.skip(from as int), c));
            }
        }
        i = i + 1;
    }
    let ghost t0 = texts(r@);
    let piece: String = string_of(&chars, from, n);
    proof {
        let rest = chars@.skip(from as int);
        lemma_first_is(rest, c, rest.len() as int);
        assert(piece@ =~= rest);
    }
    r.push(piece);
    proof {
        assert(texts(r@) =~= t0 + seq![piece@]);
    }
    r
}

/// The text without white space at its end.
pub open spec fn trim_end(s: Seq<char>) -> Seq<char>
    decreases s.len(),
{
    if s.len() > 0 && is_white(s.last()) {
        trim_end(s.drop_last())
    } else {
        s
    }
}

/// The text without white space at its start.
pub open spec fn trim_start(s: Seq<char>) -> Seq<char>
    decreases s.len(),
{
    if s.len() > 0 && is_white(s[0]) {
        trim_start(s.skip(1))
    } else {
        s
    }
}

/// The text without white space at its ends.
pub open spec fn trimmed(s: Seq<char>) -> Seq<char> {
    trim_end(trim_start(s))
}

/// Remove white space from the end.
pub fn trim_text_end(s: &str) -> (r: String)
    ensures
        r@ == trim_end(s@),
{
    let chars: Vec<char> = chars_of(s);
    let mut to: usize = chars.len();
    assert(chars@.take(to as int) =~= s@);
    while to > 0 && white(chars[to - 1])
        invariant
            to <= chars@.len(),
            trim_end(chars@.take(to as int)) == trim_end(s@),
        decreases to,
    {
        to = to - 1;
        assert(chars@.take(to + 1).drop_last() =~= chars@.take(to as int));
    }
    let r: String = string_of(&chars, 0, to);
    assert(r@ =~= chars@.take(to as int));
    r
}

/// Remove white space from both ends.
pub fn trim_text(s: &str) -> (r: String)
    ensures
        r@ == trimmed(s@),
{
    let chars: Vec<char> = chars_of(s);
    let n: usize = chars.len();
    let mut from: usize = 0;
    assert(chars@.skip(0) =~= s@);
    while from < n && white(chars[from])
        invariant
            from <= n,
            n == chars@.len(),
            trim_start(chars@.skip(from as int)) == trim_start(s@),
        decreases n - from,
    {
        from = from + 1;
        assert(chars@.skip(from - 1).skip(1) =~= chars@.skip(from as int));
    }
    let rest: String = string_of(&chars, from, n);
    assert(rest@ =~= chars@.skip(from as int));
    trim_text_end(rest.as_str())
}

/// Text that neither starts nor ends with white space is not changed.
pub proof fn lemma_trimmed(s: Seq<char>)
    requires
        s.len() > 0 ==> !is_white(s[0]) && !is_white(s.last()),
    ensures
        trimmed(s) == s,
{
}

/// The value of a hexadecimal digit.
pub open spec fn hex_value(c: char) -> Option<nat> {
    if '0' <= c <= '9' {
        Some((c as int - 48) as nat)
    } else if 'a' <= c <= 'f' {
        Some((c as int - 87) as nat)
    } else if 'A' <= c <= 'F' {
        Some((c as int - 55) as nat)
    } else {
        None
    }
}

/// The value of some hexadecimal digits.
pub open spec fn hex_digits(s: Seq<char>) -> nat
    decreases s.len(),
{
    if s.len() == 0 {
        0
    } else {
        hex_digits(s.drop_last()) * 16 + hex_value(s.last())->0
    }
}

/// Text that denotes a hexadecimal number of 64 bits.
pub open spec fn parsed_hex(s: Seq<char>) -> Option<u64> {
    let d = without_plus(s);
    if d.len() > 0 && (forall|i: int| 0 <= i < d.len() ==> hex_value(#[trigger] d[i]) is Some) && hex_digits(d) <= u64::MAX {
        Some(hex_digits(d) as u64)
    } else {
        None
    }
}

/// The value of a hexadecimal digit.
pub fn hex_of(c: char) -> (r: Option<u32>)
    ensures
        r == (match hex_value(c) {
            Some(v) => Some(v as u32),
            None => None,
        }),
        r matches Some(v) ==> v < 16,
{
    if '0' <= c && c <= '9' {
        Some(c as u32 - 48)
    } else if 'a' <= c && c <= 'f' {
        Some(c as u32 - 87)
    } else if 'A' <= c && c <= 'F' {
        Some(c as u32 - 55)
    } else {
        None
    }
}

proof fn lemma_hex_grows(s: Seq<char>, k: int)
    requires
        0 <= k <= s.len(),
    ensures
        hex_digits(s.take(k)) <= hex_digits(s),
    decreases s.len() - k,
{
    if k == s.len() {
        assert(s.take(k) =~= s);
    } else {
        lemma_hex_grows(s, k + 1);
        assert(s.take(k + 1).drop_last() =~= s.take(k));
    }
}

/// Read a hexadecimal number of 64 bits.
pub fn parse_hex(s: &str) -> (r: Option<u64>)
    ensures
        r == parsed_hex(s@),
{
    let chars: Vec<char> = chars_of(s);
    let n: usize = chars.len();
    let from: usize = if n > 0 && chars[0] == '+' { 1 } else { 0 };
    let ghost d = without_plus(s@);
    assert(d =~= chars@.skip(from as int));
    if from == n {
        return None;
    }
    let mut v: u64 = 0;
    let mut i: usize = from;
    assert(d.take(0) =~= Seq::<char>::empty());
    while i < n
        invariant
            from <= i <= n,
            n == chars@.len(),
            d == without_plus(s@),
            d == chars@.skip(from as int),
            forall|k: int| 0 <= k < i - from ==> hex_value(#[trigger] d[k]) is Some,
            v == hex_digits(d.take(i - from)),
        decreases n - i,
    {
        assert(d[i - from] == chars@[i as int]);
        let h: u32 = match hex_of(chars[i]) {
            None => {
                return None;
            },
            Some(h) => h,
        };
        proof {
            assert(d.take(i - from + 1).drop_last() =~= d.take(i - from));
            assert(d.take(i - from + 1).last() == chars@[i as int]);
            lemma_hex_grows(d, i - from + 1);
        }
        if v > (u64::MAX - h as u64) / 16 {
            return None;
        }
        v = v * 16 + h as u64;
        i = i + 1;
    }
    assert(d.take(n - from) =~= d);
    Some(v)
}

/// A hexadecimal digit, in lower case.
pub open spec fn hex_char(v: int) -> char {
    if v < 10 {
        (v + 48) as char
    } else {
        (v + 87) as char
    }
}

/// The last `n` hexadecimal digits of a number.
pub open spec fn hex_text(v: nat, n: nat) -> Seq<char>
    decreases n,
{
    if n == 0 {
        Seq::empty()
    } else {
        hex_text(v / 16, (n - 1) as nat).push(hex_char((v % 16) as int))
    }
}

/// A number of 64 bits in 16 hexadecimal digits.
pub fn hex16(v: u64) -> (r: String)
    ensures
        r@ == hex_text(v as nat, 16),
{
    hex_last(v, 16)
}

fn hex_last(v: u64, n: u32) -> (r: String)
    ensures
        r@ == hex_text(v as nat, n as nat),
    decreases n,
{
    if n == 0 {
        let r: String = String::new();
        assert(r@ =~= hex_text(v as nat, 0));
        r
    } else {
        let mut r: String = hex_last(v / 16, n - 1);
        let d: u8 = (v % 16) as u8;
        r.push(if d < 10 { (d + 48) as char } else { (d + 87) as char });
        r
    }
}

proof fn lemma_hex_text(v: nat, n: nat, bound: nat)
    requires
        v < bound,
        bound == vstd::arithmetic::power::pow(16, n),
    ensures
        hex_text(v, n).len() == n,
        forall|i: int| 0 <= i < n ==> hex_value(#[trigger] hex_text(v, n)[i]) is Some,
        hex_digits(hex_text(v, n)) == v,
    decreases n,
{
    vstd::arithmetic::power::lemma_pow0(16);
    if n > 0 {
        let b1 = vstd::arithmetic::power::pow(16, (n - 1) as nat);
        reveal(vstd::arithmetic::power::pow);
        assert(bound == 16 * b1);
        vstd::arithmetic::power::lemma_pow_positive(16, (n - 1) as nat);
        lemma_hex_text(v / 16, (n - 1) as nat, b1 as nat);
        let t = hex_text(v, n);
        assert(t.drop_last() =~= hex_text(v / 16, (n - 1) as nat));
        assert forall|i: int| 0 <= i < n implies hex_value(#[trigger] t[i]) is Some by {
            if i < n - 1 {
                assert(t[i] == hex_text(v / 16, (n - 1) as nat)[i]);
            }
        }
    }
}

/// Reading 16 hexadecimal digits gives back the number.
pub proof fn law_hex_roundtrip(v: u64)
    ensures
        parsed_hex(hex_text(v as nat, 16)) == Some(v),
        hex_text(v as nat, 16).len() == 16,
        forall|i: int| 0 <= i < 16 ==> hex_value(#[trigger] hex_text(v as nat, 16)[i]) is Some,
{
    assert(vstd::arithmetic::power::pow(16, 16) == 0x1_0000_0000_0000_0000) by {
        reveal_with_fuel(vstd::arithmetic::power::pow, 17);
    }
    lemma_hex_text(v as nat, 16, 0x1_0000_0000_0000_0000);
    let t = hex_text(v as nat, 16);
    assert(hex_value(t[0]) is Some);
    assert(without_plus(t) == t);
}

/// Texts with a character between them.
pub open spec fn joined_by(parts: Seq<Seq<char>>, c: char) -> Seq<char>
    decreases parts.len(),
{
    if parts.len() == 0 {
        Seq::empty()
    } else if parts.len() == 1 {
        parts[0]
    } else {
        parts[0].push(c) + joined_by(parts.drop_first(), c)
    }
}

/// A text is its parts with the character between them, and no part has it.
pub proof fn law_parts_make_the_text(s: Seq<char>, c: char)
    ensures
        split_on(s, c).len() > 0,
        joined_by(split_on(s, c), c) == s,
        forall|i: int| 0 <= i < split_on(s, c).len() ==> !(#[trigger] split_on(s, c)[i]).contains(c),
    decreases s.len(),
{
    lemma_first_at(s, c);
    let i = first_at(s, c) as int;
    let parts = split_on(s, c);
    if i >= s.len() {
        assert(parts =~= seq![s]);
        assert(!s.contains(c));
    } else {
        let rest = s.skip(i + 1);
        law_parts_make_the_text(rest, c);
        assert(parts.drop_first() =~= split_on(rest, c));
        assert(parts[0] == s.take(i));
        assert(s.take(i).push(c) + rest =~= s);
        assert(!s.take(i).contains(c));
        assert forall|k: int| 0 <= k < parts.len() implies !(#[trigger] parts[k]).contains(c) by {
            if k > 0 {
                assert(parts[k] == split_on(rest, c)[k - 1]);
            }
        }
    }
}

/// A trimmed text is the text without the white space around it: only white space is
/// left out, at the two ends, and none is left at either.
pub proof fn law_trimmed_has_no_white_ends(front: Seq<char>, s: Seq<char>, back: Seq<char>)
    requires
        forall|i: int| 0 <= i < front.len() ==> is_white(#[trigger] front[i]),
        forall|i: int| 0 <= i < back.len() ==> is_white(#[trigger] back[i]),
        s.len() == 0 || (!is_white(s[0]) && !is_white(s.last())),
    ensures
        trimmed(front + s + back) == s,
    decreases front.len(), back.len(),
{
    let all = front + s + back;
    if front.len() > 0 {
        assert(all[0] == front[0]);
        assert(all.skip(1) =~= front.skip(1) + s + back);
        assert forall|i: int| 0 <= i < front.skip(1).len() implies is_white(#[trigger] front.skip(1)[i]) by {
            assert(front.skip(1)[i] == front[i + 1]);
        }
        law_trimmed_has_no_white_ends(front.skip(1), s, back);
    } else {
        assert(all =~= s + back);
        if s.len() > 0 {
            assert(all[0] == s[0]);
            assert(trim_start(all) == all);
            lemma_trim_back(s, back);
        } else {
            assert(all =~= back);
            lemma_all_white_goes(back);
            assert(trim_end(Seq::<char>::empty()) =~= Seq::empty());
            assert(s =~= Seq::empty());
        }
    }
}

proof fn lemma_trim_back(s: Seq<char>, back: Seq<char>)
    requires
        forall|i: int| 0 <= i < back.len() ==> is_white(#[trigger] back[i]),
        s.len() > 0,
        !is_white(s.last()),
    ensures
        trim_end(s + back) == s,
    decreases back.len(),
{
    if back.len() > 0 {
        assert((s + back).last() == back.last());
        assert((s + back).drop_last() =~= s + back.drop_last());
        lemma_trim_back(s, back.drop_last());
    } else {
        assert(s + back =~= s);
    }
}

proof fn lemma_all_white_goes(s: Seq<char>)
    requires
        forall|i: int| 0 <= i < s.len() ==> is_white(#[trigger] s[i]),
    ensures
        trim_start(s) == Seq::<char>::empty(),
    decreases s.len(),
{
    if s.len() > 0 {
        assert forall|i: int| 0 <= i < s.skip(1).len() implies is_white(#[trigger] s.skip(1)[i]) by {
            assert(s.skip(1)[i] == s[i + 1]);
        }
        lemma_all_white_goes(s.skip(1));
    } else {
        assert(s =~= Seq::empty());
    }
}

} // verus!
