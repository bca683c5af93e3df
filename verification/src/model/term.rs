//! RDF terms and triples, and their surface syntax.

use crate::text::chars_of;
use vstd::prelude::*;
use vstd::string::*;

verus! {

/// An RDF term: the value at a subject, predicate or object position.
#[derive(Debug, PartialEq, Eq, Hash, PartialOrd, Ord)]
pub enum Term {
    /// An IRI reference, stored without the angle brackets.
    Iri(String),
    /// A literal: lexical value plus optional datatype IRI or language tag. In
    /// RDF the two exclude each other.
    Literal { value: String, datatype: Option<String>, lang: Option<String> },
    /// A blank node, stored without the `_:` prefix.
    Blank(String),
}

/// A term as a mathematical value.
pub ghost enum TermSpec {
    Iri(Seq<char>),
    Literal { value: Seq<char>, datatype: Option<Seq<char>>, lang: Option<Seq<char>> },
    Blank(Seq<char>),
}

pub open spec fn opt_text(o: Option<String>) -> Option<Seq<char>> {
    match o {
        Some(s) => Some(s@),
        None => None,
    }
}

impl View for Term {
    type V = TermSpec;

    open spec fn view(&self) -> TermSpec {
        match *self {
            Term::Iri(s) => TermSpec::Iri(s@),
            Term::Literal { value, datatype, lang } => TermSpec::Literal {
                value: value@,
                datatype: opt_text(datatype),
                lang: opt_text(lang),
            },
            Term::Blank(s) => TermSpec::Blank(s@),
        }
    }
}

/// How one character of a literal is written between quotes.
pub open spec fn escape_char(c: char) -> Seq<char> {
    if c == '\\' {
        seq!['\\', '\\']
    } else if c == '"' {
        seq!['\\', '"']
    } else if c == '\n' {
        seq!['\\', 'n']
    } else if c == '\r' {
        seq!['\\', 'r']
    } else if c == '\t' {
        seq!['\\', 't']
    } else {
        seq![c]
    }
}

/// How the value of a literal is written between quotes.
pub open spec fn escape(s: Seq<char>) -> Seq<char>
    decreases s.len(),
{
    if s.len() == 0 {
        Seq::empty()
    } else {
        escape_char(s[0]) + escape(s.drop_first())
    }
}

/// What follows the closing quote of a literal: the datatype, or else the
/// language tag, or nothing.
pub open spec fn literal_suffix(datatype: Option<Seq<char>>, lang: Option<Seq<char>>) -> Seq<char> {
    match datatype {
        Some(dt) => seq!['^', '^', '<'] + dt + seq!['>'],
        None => match lang {
            Some(l) => seq!['@'] + l,
            None => Seq::empty(),
        },
    }
}

/// The surface syntax of a term, which is its dictionary key.
pub open spec fn term_key(t: TermSpec) -> Seq<char> {
    match t {
        TermSpec::Iri(s) => seq!['<'] + s + seq!['>'],
        TermSpec::Blank(s) => seq!['_', ':'] + s,
        TermSpec::Literal { value, datatype, lang } => seq!['"'] + escape(value) + seq!['"'] + literal_suffix(datatype, lang),
    }
}

/// A term as RDF has it: not both a datatype and a language tag.
pub open spec fn term_valid(t: TermSpec) -> bool {
    t matches TermSpec::Literal { value, datatype, lang } ==> datatype is None || lang is None
}

proof fn lemma_escape_push(s: Seq<char>, c: char)
    ensures
        escape(s.push(c)) == escape(s) + escape_char(c),
    decreases s.len(),
{
    if s.len() == 0 {
        assert(s.push(c).drop_first() =~= Seq::<char>::empty());
        assert(escape(s.push(c).drop_first()) =~= Seq::<char>::empty());
        assert(escape(s.push(c)) =~= escape(s) + escape_char(c));
    } else {
        assert(s.push(c).drop_first() =~= s.drop_first().push(c));
        lemma_escape_push(s.drop_first(), c);
        assert(escape(s.push(c)) =~= escape(s) + escape_char(c));
    }
}

/// Quoted values can be told apart, whatever follows the closing quote.
proof fn lemma_escape_injective(a: Seq<char>, x: Seq<char>, b: Seq<char>, y: Seq<char>)
    requires
        escape(a) + seq!['"'] + x == escape(b) + seq!['"'] + y,
    ensures
        a == b,
        x == y,
    decreases a.len() + b.len(),
{
    let l = escape(a) + seq!['"'] + x;
    let r = escape(b) + seq!['"'] + y;
    if a.len() == 0 && b.len() == 0 {
        assert(a =~= b);
        assert(l.subrange(1, l.len() as int) =~= x);
        assert(r.subrange(1, r.len() as int) =~= y);
    } else if a.len() == 0 {
        assert(l[0] == '"');
        assert(r[0] == escape_char(b[0])[0]);
    } else if b.len() == 0 {
        assert(r[0] == '"');
        assert(l[0] == escape_char(a[0])[0]);
    } else {
        let ea = escape_char(a[0]);
        let eb = escape_char(b[0]);
        assert(l[0] == ea[0]);
        assert(r[0] == eb[0]);
        if ea.len() > 1 {
            assert(l[1] == ea[1]);
        }
        if eb.len() > 1 {
            assert(r[1] == eb[1]);
        }
        assert(a[0] == b[0]);
        let k = ea.len() as int;
        assert(l.subrange(k, l.len() as int) =~= escape(a.drop_first()) + seq!['"'] + x);
        assert(r.subrange(k, r.len() as int) =~= escape(b.drop_first()) + seq!['"'] + y);
        lemma_escape_injective(a.drop_first(), x, b.drop_first(), y);
        assert(a =~= seq![a[0]] + a.drop_first());
        assert(b =~= seq![b[0]] + b.drop_first());
    }
}

/// Dictionary keys are lossless: terms with the same key are the same term.
pub proof fn law_key_is_lossless(a: TermSpec, b: TermSpec)
    requires
        term_valid(a),
        term_valid(b),
        term_key(a) == term_key(b),
    ensures
        a == b,
{
    let ka = term_key(a);
    let kb = term_key(b);
    assert(ka[0] == kb[0]);
    match a {
        TermSpec::Iri(s) => {
            assert(ka[0] == '<');
            match b {
                TermSpec::Iri(t) => {
                    assert(ka.subrange(1, ka.len() - 1) =~= s);
                    assert(kb.subrange(1, kb.len() - 1) =~= t);
                },
                TermSpec::Blank(t) => {
                    assert(kb[0] == '_');
                },
                TermSpec::Literal { value, datatype, lang } => {
                    assert(kb[0] == '"');
                },
            }
        },
        TermSpec::Blank(s) => {
            assert(ka[0] == '_');
            match b {
                TermSpec::Iri(t) => {
                    assert(kb[0] == '<');
                },
                TermSpec::Blank(t) => {
                    assert(ka.subrange(2, ka.len() as int) =~= s);
                    assert(kb.subrange(2, kb.len() as int) =~= t);
                },
                TermSpec::Literal { value, datatype, lang } => {
                    assert(kb[0] == '"');
                },
            }
        },
        TermSpec::Literal { value, datatype, lang } => {
            assert(ka[0] == '"');
            match b {
                TermSpec::Iri(t) => {
                    assert(kb[0] == '<');
                },
                TermSpec::Blank(t) => {
                    assert(kb[0] == '_');
                },
                TermSpec::Literal { value: v2, datatype: d2, lang: l2 } => {
                    let x = literal_suffix(datatype, lang);
                    let y = literal_suffix(d2, l2);
                    assert(ka.subrange(1, ka.len() as int) =~= escape(value) + seq!['"'] + x);
                    assert(kb.subrange(1, kb.len() as int) =~= escape(v2) + seq!['"'] + y);
                    lemma_escape_injective(value, x, v2, y);
                    lemma_suffix_injective(datatype, lang, d2, l2);
                },
            }
        },
    }
}

proof fn lemma_suffix_injective(d1: Option<Seq<char>>, l1: Option<Seq<char>>, d2: Option<Seq<char>>, l2: Option<Seq<char>>)
    requires
        d1 is None || l1 is None,
        d2 is None || l2 is None,
        literal_suffix(d1, l1) == literal_suffix(d2, l2),
    ensures
        d1 == d2,
        l1 == l2,
{
    let x = literal_suffix(d1, l1);
    let y = literal_suffix(d2, l2);
    if d1 is Some {
        assert(x[0] == '^');
        if d2 is Some {
            assert(x.subrange(3, x.len() - 1) =~= d1->0);
            assert(y.subrange(3, y.len() - 1) =~= d2->0);
        } else if l2 is Some {
            assert(y[0] == '@');
        } else {
            assert(y.len() == 0);
        }
    } else if l1 is Some {
        assert(x[0] == '@');
        if d2 is Some {
            assert(y[0] == '^');
        } else if l2 is Some {
            assert(x.subrange(1, x.len() as int) =~= l1->0);
            assert(y.subrange(1, y.len() as int) =~= l2->0);
        } else {
            assert(y.len() == 0);
        }
    } else {
        assert(x.len() == 0);
        if d2 is Some {
            assert(y[0] == '^');
        } else if l2 is Some {
            assert(y[0] == '@');
        }
    }
}

/// Append the escaped form of `s` to `out`.
fn push_escaped(out: &mut String, s: &str)
    ensures
        final(out)@ == old(out)@ + escape(s@),
{
    let chars: Vec<char> = chars_of(s);
    let mut i: usize = 0;
    assert(chars@.subrange(0, 0) =~= Seq::<char>::empty());
    assert(out@ =~= out@ + escape(Seq::<char>::empty()));
    while i < chars.len()
        invariant
            i <= chars.len(),
            out@ == old(out)@ + escape(chars@.subrange(0, i as int)),
        decreases chars.len() - i,
    {
        let c: char = chars[i];
        let ghost before = out@;
        if c == '\\' {
            out.push('\\');
            out.push('\\');
        } else if c == '"' {
            out.push('\\');
            out.push('"');
        } else if c == '\n' {
            out.push('\\');
            out.push('n');
        } else if c == '\r' {
            out.push('\\');
            out.push('r');
        } else if c == '\t' {
            out.push('\\');
            out.push('t');
        } else {
            out.push(c);
        }
        proof {
            let s0 = chars@.subrange(0, i as int);
            assert(chars@.subrange(0, i + 1) =~= s0.push(c));
            lemma_escape_push(s0, c);
            assert(out@ =~= before + escape_char(c));
            assert(out@ =~= old(out)@ + escape(chars@.subrange(0, i + 1)));
        }
        i = i + 1;
    }
    assert(chars@.subrange(0, chars.len() as int) =~= s@);
}

fn clone_text(o: &Option<String>) -> (r: Option<String>)
    ensures
        r == *o,
{
    match o {
        Some(s) => Some(s.clone()),
        None => None,
    }
}

impl Clone for Term {
    fn clone(&self) -> (r: Self)
        ensures
            r == *self,
    {
        match self {
            Term::Iri(s) => Term::Iri(s.clone()),
            Term::Literal { value, datatype, lang } => Term::Literal {
                value: value.clone(),
                datatype: clone_text(datatype),
                lang: clone_text(lang),
            },
            Term::Blank(s) => Term::Blank(s.clone()),
        }
    }
}

impl Term {
    /// An IRI term.
    pub fn iri(s: &str) -> (t: Term)
        ensures
            t@ == TermSpec::Iri(s@),
    {
        Term::Iri(s.to_owned())
    }

    /// A plain literal: no datatype, no language tag.
    pub fn plain_literal(s: &str) -> (t: Term)
        ensures
            t@ == (TermSpec::Literal { value: s@, datatype: None, lang: None }),
    {
        Term::Literal { value: s.to_owned(), datatype: None, lang: None }
    }

    /// A typed literal.
    pub fn typed_literal(value: &str, datatype: &str) -> (t: Term)
        ensures
            t@ == (TermSpec::Literal { value: value@, datatype: Some(datatype@), lang: None }),
    {
        Term::Literal { value: value.to_owned(), datatype: Some(datatype.to_owned()), lang: None }
    }

    /// A blank node, e.g. label `b0` for `_:b0`.
    pub fn blank(s: &str) -> (t: Term)
        ensures
            t@ == TermSpec::Blank(s@),
    {
        Term::Blank(s.to_owned())
    }

    /// Is this term a literal?
    pub fn is_literal(&self) -> (b: bool)
        ensures
            b == (self@ is Literal),
    {
        match self {
            Term::Literal { value, datatype, lang } => true,
            _ => false,
        }
    }

    /// Is this term an entity (IRI or blank node)?
    pub fn is_entity(&self) -> (b: bool)
        ensures
            b == (self@ is Iri || self@ is Blank),
    {
        match self {
            Term::Literal { value, datatype, lang } => false,
            _ => true,
        }
    }

    /// The term in N-Triples surface syntax: `<iri>`, `_:blank`, or the literal
    /// with its quotes and its `^^<datatype>` or `@lang` suffix.
    pub fn to_text(&self) -> (r: String)
        ensures
            r@ == term_key(self@),
    {
        let mut r: String = String::new();
        match self {
            Term::Iri(s) => {
                r.push('<');
                r.append(s.as_str());
                r.push('>');
                assert(r@ =~= term_key(self@));
            },
            Term::Blank(s) => {
                r.push('_');
                r.push(':');
                r.append(s.as_str());
                assert(r@ =~= term_key(self@));
            },
            Term::Literal { value, datatype, lang } => {
                r.push('"');
                push_escaped(&mut r, value.as_str());
                r.push('"');
                let ghost head = r@;
                assert(head =~= seq!['"'] + escape(value@) + seq!['"']);
                match datatype {
                    Some(dt) => {
                        r.push('^');
                        r.push('^');
                        r.push('<');
                        r.append(dt.as_str());
                        r.push('>');
                        assert(r@ =~= head + (seq!['^', '^', '<'] + dt@ + seq!['>']));
                    },
                    None => {
                        match lang {
                            Some(l) => {
                                r.push('@');
                                r.append(l.as_str());
                                assert(r@ =~= head + (seq!['@'] + l@));
                            },
                            None => {
                                assert(r@ =~= head + Seq::<char>::empty());
                            },
                        }
                    },
                }
            },
        }
        r
    }

    /// The canonical string key used by the dictionary.
    pub fn dict_key(&self) -> (r: String)
        ensures
            r@ == term_key(self@),
    {
        self.to_text()
    }
}

/// Whether an object position holds an entity or a literal.
#[derive(Debug, Clone, Copy, PartialEq, Eq, Structural)]
pub enum ObjectType {
    Entity,
    Literal,
}

/// A parsed RDF triple.
#[derive(Debug, PartialEq, Eq)]
pub struct Triple {
    pub subject: Term,
    pub predicate: Term,
    pub object: Term,
}

/// The surface syntax of a triple: its terms, separated by spaces, and a dot.
pub open spec fn triple_text(t: Triple) -> Seq<char> {
    term_key(t.subject@) + seq![' '] + term_key(t.predicate@) + seq![' '] + term_key(t.object@) + seq![' ', '.']
}

impl Clone for Triple {
    fn clone(&self) -> (r: Self)
        ensures
            r == *self,
    {
        Triple { subject: self.subject.clone(), predicate: self.predicate.clone(), object: self.object.clone() }
    }
}

impl Triple {
    pub fn new(subject: Term, predicate: Term, object: Term) -> (t: Triple)
        ensures
            t == (Triple { subject, predicate, object }),
    {
        Triple { subject, predicate, object }
    }

    /// Whether the object is an entity or a literal.
    pub fn object_type(&self) -> (r: ObjectType)
        ensures
            r == (if self.object@ is Literal { ObjectType::Literal } else { ObjectType::Entity }),
    {
        if self.object.is_literal() {
            ObjectType::Literal
        } else {
            ObjectType::Entity
        }
    }

    /// The triple in N-Triples surface syntax.
    pub fn to_text(&self) -> (r: String)
        ensures
            r@ == triple_text(*self),
    {
        let mut r: String = self.subject.to_text();
        r.push(' ');
        r.append(self.predicate.to_text().as_str());
        r.push(' ');
        r.append(self.object.to_text().as_str());
        r.push(' ');
        r.push('.');
        assert(r@ =~= triple_text(*self));
        r
    }
}

/// IRIs stand between angle brackets, blank nodes behind `_:`, and literals between quotes,
/// with the datatype in brackets behind `^^`, or else the language tag behind `@`.
pub proof fn law_terms_have_their_syntax(s: Seq<char>, datatype: Seq<char>, lang: Seq<char>)
    requires
        forall|i: int| 0 <= i < s.len() ==> #[trigger] s[i] != '\\' && s[i] != '"' && s[i] != '\n' && s[i] != '\r' && s[i] != '\t',
    ensures
        term_key(TermSpec::Iri(s)) == "<"@ + s + ">"@,
        term_key(TermSpec::Blank(s)) == "_:"@ + s,
        term_key(TermSpec::Literal { value: s, datatype: None, lang: None }) == "\""@ + s + "\""@,
        term_key(TermSpec::Literal { value: s, datatype: Some(datatype), lang: None }) == "\""@ + s + "\"^^<"@ + datatype + ">"@,
        term_key(TermSpec::Literal { value: s, datatype: None, lang: Some(lang) }) == "\""@ + s + "\"@"@ + lang,
{
    reveal_strlit("<");
    reveal_strlit(">");
    reveal_strlit("_:");
    reveal_strlit("\"");
    reveal_strlit("\"^^<");
    reveal_strlit("\"@");
    lemma_plain_escape(s);
    assert("<"@ =~= seq!['<'] && ">"@ =~= seq!['>'] && "_:"@ =~= seq!['_', ':'] && "\""@ =~= seq!['"']);
    assert("\"^^<"@ =~= seq!['"', '^', '^', '<'] && "\"@"@ =~= seq!['"', '@']);
    assert(term_key(TermSpec::Literal { value: s, datatype: None, lang: None }) =~= "\""@ + s + "\""@);
    assert(term_key(TermSpec::Literal { value: s, datatype: Some(datatype), lang: None }) =~= "\""@ + s + "\"^^<"@ + datatype + ">"@);
    assert(term_key(TermSpec::Literal { value: s, datatype: None, lang: Some(lang) }) =~= "\""@ + s + "\"@"@ + lang);
}

proof fn lemma_plain_escape(s: Seq<char>)
    requires
        forall|i: int| 0 <= i < s.len() ==> #[trigger] s[i] != '\\' && s[i] != '"' && s[i] != '\n' && s[i] != '\r' && s[i] != '\t',
    ensures
        escape(s) == s,
    decreases s.len(),
{
    if s.len() > 0 {
        let rest = s.drop_first();
        assert forall|i: int| 0 <= i < rest.len() implies #[trigger] rest[i] != '\\' && rest[i] != '"' && rest[i] != '\n' && rest[i] != '\r' && rest[i] != '\t' by {
            assert(rest[i] == s[i + 1]);
        }
        lemma_plain_escape(rest);
        assert(s[0] != '\\');
        assert(seq![s[0]] + rest =~= s);
    } else {
        assert(escape(s) =~= s);
    }
}

/// A literal is escaped character by character: a backslash, a quote, a line feed, a carriage
/// return and a tab become a backslash with a letter or the character behind it.
pub proof fn law_characters_are_escaped(a: Seq<char>, c: char, b: Seq<char>)
    ensures
        escape(a.push(c) + b) == escape(a) + escape(seq![c]) + escape(b),
        escape(seq!['\\']) == "\\\\"@,
        escape(seq!['"']) == "\\\""@,
        escape(seq!['\n']) == "\\n"@,
        escape(seq!['\r']) == "\\r"@,
        escape(seq!['\t']) == "\\t"@,
{
    reveal_strlit("\\\\");
    reveal_strlit("\\\"");
    reveal_strlit("\\n");
    reveal_strlit("\\r");
    reveal_strlit("\\t");
    lemma_escape_one('\\');
    lemma_escape_one('"');
    lemma_escape_one('\n');
    lemma_escape_one('\r');
    lemma_escape_one('\t');
    assert("\\\\"@ =~= seq!['\\', '\\']);
    assert("\\\""@ =~= seq!['\\', '"']);
    assert("\\n"@ =~= seq!['\\', 'n']);
    assert("\\r"@ =~= seq!['\\', 'r']);
    assert("\\t"@ =~= seq!['\\', 't']);
    lemma_escape_one(c);
    lemma_escape_join(a.push(c), b);
    lemma_escape_push(a, c);
}

proof fn lemma_escape_one(c: char)
    ensures
        escape(seq![c]) == escape_char(c),
{
    assert(seq![c].drop_first() =~= Seq::empty());
    assert(escape(seq![c].drop_first()) =~= Seq::empty());
    assert(escape(seq![c]) =~= escape_char(c));
}

proof fn lemma_escape_join(a: Seq<char>, b: Seq<char>)
    ensures
        escape(a + b) == escape(a) + escape(b),
    decreases a.len(),
{
    if a.len() == 0 {
        assert(a + b =~= b);
        assert(escape(a) + escape(b) =~= escape(b));
    } else {
        assert((a + b).drop_first() =~= a.drop_first() + b);
        lemma_escape_join(a.drop_first(), b);
        assert(escape(a + b) =~= escape(a) + escape(b));
    }
}

} // verus!
