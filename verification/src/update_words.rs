//! Which requests are updates, by how they are written.

use crate::http_api::{behind, behind_declaration, behind_prologue, behind_space, is_update, keyword, letter_count, upper, upper_char};
use crate::text::is_white;
use vstd::prelude::*;
use vstd::string::*;

verus! {

/// An ASCII letter.
pub open spec fn letter(c: char) -> bool {
    'a' <= c <= 'z' || 'A' <= c <= 'Z'
}

/// A text is a word in upper and lower case letters, as they come.
pub open spec fn spells(w: Seq<char>, word: Seq<char>) -> bool {
    &&& w.len() == word.len()
    &&& forall|i: int| 0 <= i < w.len() ==> letter(#[trigger] w[i]) && 'A' <= word[i] <= 'Z' && (w[i] == word[i] || w[i] as int == word[i] as int + 32)
}

/// A text that no letter starts.
pub open spec fn no_letter_first(s: Seq<char>) -> bool {
    s.len() == 0 || !letter(s[0])
}

proof fn lemma_letters(w: Seq<char>, rest: Seq<char>)
    requires
        forall|i: int| 0 <= i < w.len() ==> letter(#[trigger] w[i]),
        no_letter_first(rest),
    ensures
        letter_count(w + rest) == w.len(),
    decreases w.len(),
{
    let s = w + rest;
    if w.len() > 0 {
        let v = w.skip(1);
        assert(letter(w[0]));
        assert(s.skip(1) =~= v + rest);
        assert forall|i: int| 0 <= i < v.len() implies letter(#[trigger] v[i]) by {
            assert(letter(w[i + 1]));
        }
        lemma_letters(v, rest);
    } else {
        assert(s =~= rest);
    }
}

proof fn lemma_keyword(w: Seq<char>, word: Seq<char>, rest: Seq<char>)
    requires
        spells(w, word),
        no_letter_first(rest),
    ensures
        keyword(w + rest) == word,
        letter_count(w + rest) == w.len(),
{
    lemma_letters(w, rest);
    assert((w + rest).take(w.len() as int) =~= w);
    assert forall|i: int| 0 <= i < w.len() implies #[trigger] upper(w)[i] == word[i] by {
        assert(letter(w[i]));
        let c = w[i];
        if 'a' <= c <= 'z' {
            assert(c as int == word[i] as int + 32);
            assert(upper_char(c) == ((c as u8) - 32) as char);
            assert(((c as u8) - 32) as char as int == c as int - 32);
        }
    }
    assert(upper(w) =~= word);
}

proof fn lemma_prologue_words()
    ensures
        "PREFIX"@.len() == 6,
        "BASE"@.len() == 4,
        "PREFIX"@[0] == 'P',
        "BASE"@[0] == 'B',
{
    reveal_strlit("PREFIX");
    reveal_strlit("BASE");
}

/// A request that starts with one of the words of updates, in whatever case, is an update,
/// and one that starts with a word of read queries is none. The word ends where its letters
/// end.
pub proof fn law_first_word_decides(w: Seq<char>, word: Seq<char>, rest: Seq<char>)
    requires
        spells(w, word),
        no_letter_first(rest),
    ensures
        word == "INSERT"@ || word == "DELETE"@ || word == "LOAD"@ || word == "CLEAR"@ || word == "DROP"@ || word == "CREATE"@ || word == "ADD"@ || word == "MOVE"@ || word == "COPY"@ || word == "WITH"@ ==> is_update(w + rest),
        word == "SELECT"@ || word == "ASK"@ || word == "CONSTRUCT"@ || word == "DESCRIBE"@ ==> !is_update(w + rest),
{
    lemma_keyword(w, word, rest);
    let s = w + rest;
    if w.len() > 0 {
        assert(letter(w[0]));
        assert(s[0] == w[0]);
        assert(!is_white(s[0]));
        assert(behind_space(s) == s);
    }
    lemma_prologue_words();
    reveal_strlit("INSERT");
    reveal_strlit("DELETE");
    reveal_strlit("LOAD");
    reveal_strlit("CLEAR");
    reveal_strlit("DROP");
    reveal_strlit("CREATE");
    reveal_strlit("ADD");
    reveal_strlit("MOVE");
    reveal_strlit("COPY");
    reveal_strlit("WITH");
    reveal_strlit("SELECT");
    reveal_strlit("ASK");
    reveal_strlit("CONSTRUCT");
    reveal_strlit("DESCRIBE");
    assert("INSERT"@.len() == 6 && "INSERT"@[0] == 'I');
    assert("DELETE"@.len() == 6 && "DELETE"@[0] == 'D');
    assert("LOAD"@.len() == 4 && "LOAD"@[0] == 'L');
    assert("CLEAR"@.len() == 5);
    assert("DROP"@.len() == 4 && "DROP"@[0] == 'D');
    assert("CREATE"@.len() == 6 && "CREATE"@[0] == 'C');
    assert("ADD"@.len() == 3 && "ADD"@[1] == 'D');
    assert("MOVE"@.len() == 4 && "MOVE"@[0] == 'M');
    assert("COPY"@.len() == 4 && "COPY"@[0] == 'C');
    assert("WITH"@.len() == 4 && "WITH"@[0] == 'W');
    assert("SELECT"@.len() == 6 && "SELECT"@[0] == 'S');
    assert("ASK"@.len() == 3 && "ASK"@[1] == 'S');
    assert("CONSTRUCT"@.len() == 9);
    assert("DESCRIBE"@.len() == 8);
}

/// White space at the start does not matter.
pub proof fn law_leading_space_does_not_matter(c: char, s: Seq<char>)
    requires
        is_white(c),
    ensures
        is_update(seq![c] + s) == is_update(s),
{
    let t = seq![c] + s;
    assert(t.skip(1) =~= s);
    assert(t[0] == c);
    assert(behind_space(t) == behind_space(s));
    lemma_prologue_by_space(t, s);
}

/// The declarations at the start begin behind the space.
proof fn lemma_prologue_by_space(a: Seq<char>, b: Seq<char>)
    requires
        behind_space(a) == behind_space(b),
    ensures
        behind_prologue(a) == behind_prologue(b),
{
    let t = behind_space(a);
    lemma_behind_space_len(a);
    lemma_behind_space_len(b);
    let k = keyword(t);
    if k == "PREFIX"@ || k == "BASE"@ {
        lemma_prologue_words();
        let n = letter_count(t);
        lemma_letter_count(t);
        assert(k.len() == n);
        let rest = behind_declaration(t.skip(n as int), k == "PREFIX"@);
        lemma_declaration_len(t.skip(n as int), k == "PREFIX"@);
        assert(rest.len() < a.len());
        assert(rest.len() < b.len());
    }
}

proof fn lemma_letter_count(s: Seq<char>)
    ensures
        letter_count(s) <= s.len(),
    decreases s.len(),
{
    if s.len() > 0 {
        lemma_letter_count(s.skip(1));
    }
}

proof fn lemma_behind_len(s: Seq<char>, c: char)
    ensures
        behind(s, c).len() <= s.len(),
    decreases s.len(),
{
    if s.len() > 0 && s[0] != c {
        lemma_behind_len(s.skip(1), c);
    }
}

proof fn lemma_behind_space_len(s: Seq<char>)
    ensures
        behind_space(s).len() <= s.len(),
    decreases s.len(),
{
    if s.len() > 0 {
        if is_white(s[0]) {
            lemma_behind_space_len(s.skip(1));
        } else if s[0] == '#' && behind(s, '\n').len() < s.len() {
            lemma_behind_space_len(behind(s, '\n'));
        }
    }
}

proof fn lemma_declaration_len(s: Seq<char>, prefix: bool)
    ensures
        behind_declaration(s, prefix).len() <= s.len(),
{
    lemma_behind_space_len(s);
    let a = behind(behind_space(s), ':');
    lemma_behind_len(behind_space(s), ':');
    lemma_behind_space_len(a);
    lemma_behind_len(behind_space(a), '>');
    lemma_behind_len(behind_space(s), '>');
}

proof fn lemma_behind_at(a: Seq<char>, c: char, b: Seq<char>)
    requires
        !a.contains(c),
    ensures
        behind(a + seq![c] + b, c) == b,
    decreases a.len(),
{
    let s = a + seq![c] + b;
    if a.len() == 0 {
        assert(s.skip(1) =~= b);
    } else {
        let r = a.skip(1);
        assert(s[0] == a[0]);
        assert(a.contains(a[0]));
        assert(s.skip(1) =~= r + seq![c] + b);
        assert forall|x: char| r.contains(x) implies a.contains(x) by {
            let i = choose|i: int| 0 <= i < r.len() && r[i] == x;
            assert(a[i + 1] == x);
        }
        lemma_behind_at(r, c, b);
    }
}

/// A declaration of a prefix at the start does not matter: the request is an update exactly
/// if what follows is one.
pub proof fn law_prefix_declarations_are_skipped(w: Seq<char>, name: Seq<char>, iri: Seq<char>, s: Seq<char>)
    requires
        spells(w, "PREFIX"@),
        !name.contains(':'),
        name.len() > 0 ==> !is_white(name[0]) && name[0] != '#',
        !iri.contains('>'),
    ensures
        is_update(w + seq![' '] + name + seq![':', '<'] + iri + seq!['>'] + s) == is_update(s),
{
    let rest = seq![' '] + name + seq![':', '<'] + iri + seq!['>'] + s;
    let all = w + seq![' '] + name + seq![':', '<'] + iri + seq!['>'] + s;
    assert(all =~= w + rest);
    lemma_keyword(w, "PREFIX"@, rest);
    lemma_prologue_words();
    assert(letter(w[0]) && all[0] == w[0]);
    assert(behind_space(all) == all);
    assert(all.skip(6) =~= rest);
    let named = name + seq![':'] + (seq!['<'] + iri + seq!['>'] + s);
    assert(rest.skip(1) =~= named);
    assert(is_white(' '));
    assert(behind_space(named) == named);
    assert(behind_space(rest) == named);
    lemma_behind_at(name, ':', seq!['<'] + iri + seq!['>'] + s);
    let angle = seq!['<'] + iri + seq!['>'] + s;
    assert(!is_white('<'));
    assert(behind_space(angle) == angle);
    let inner = seq!['<'] + iri;
    assert(!inner.contains('>')) by {
        if inner.contains('>') {
            let i = choose|i: int| 0 <= i < inner.len() && inner[i] == '>';
            if i > 0 {
                assert(iri[i - 1] == '>');
            }
        }
    }
    assert(angle =~= inner + seq!['>'] + s);
    lemma_behind_at(inner, '>', s);
    assert(behind_declaration(all.skip(6), true) == s);
    assert(s.len() < all.len());
    assert(behind_prologue(all) == behind_prologue(s));
}

/// A declaration of the base at the start does not matter either.
pub proof fn law_base_declarations_are_skipped(w: Seq<char>, iri: Seq<char>, s: Seq<char>)
    requires
        spells(w, "BASE"@),
        !iri.contains('>'),
    ensures
        is_update(w + seq![' ', '<'] + iri + seq!['>'] + s) == is_update(s),
{
    let rest = seq![' ', '<'] + iri + seq!['>'] + s;
    let all = w + seq![' ', '<'] + iri + seq!['>'] + s;
    assert(all =~= w + rest);
    lemma_keyword(w, "BASE"@, rest);
    lemma_prologue_words();
    assert(letter(w[0]) && all[0] == w[0]);
    assert(behind_space(all) == all);
    assert(all.skip(4) =~= rest);
    let inner = seq!['<'] + iri;
    let angle = inner + seq!['>'] + s;
    assert(rest.skip(1) =~= angle);
    assert(is_white(' '));
    assert(!is_white('<'));
    assert(behind_space(angle) == angle);
    assert(behind_space(rest) == angle);
    assert(!inner.contains('>')) by {
        if inner.contains('>') {
            let i = choose|i: int| 0 <= i < inner.len() && inner[i] == '>';
            if i > 0 {
                assert(iri[i - 1] == '>');
            }
        }
    }
    lemma_behind_at(inner, '>', s);
    assert("PREFIX"@ != "BASE"@);
    assert(behind_declaration(all.skip(4), false) == s);
    assert(s.len() < all.len());
    assert(behind_prologue(all) == behind_prologue(s));
}

} // verus!
