//! What the command-line programs decide: the shards' initial contents, the format
//! of an input file, and the lines of the console.

use crate::fields::{split_on, split_text, trim_text, trimmed};
use crate::model::IdTriple;
use crate::text::{chars_of, decimal, decimal_of, parse_unsigned, parsed_unsigned, same, split_words, string_of, texts, words};
use vstd::prelude::*;
use vstd::string::*;

verus! {

/// What a line of a file of triples of ids says.
pub ghost enum LineSpec {
    Skip,
    Ids(IdTriple),
    Bad(Seq<char>),
}

/// The number that a word denotes.
pub open spec fn id_word(w: Seq<char>) -> Option<nat> {
    parsed_unsigned(w, u32::MAX as nat)
}

/// A line holds three ids with white space between them. Lines with nothing on them
/// and lines that start with `#` are passed over.
pub open spec fn line_ids(line: Seq<char>) -> LineSpec {
    let t = trimmed(line);
    let w = words(t);
    if t.len() == 0 || t[0] == '#' {
        LineSpec::Skip
    } else if w.len() < 1 {
        LineSpec::Bad("expected three integers"@)
    } else if id_word(w[0]) is None {
        LineSpec::Bad("id is not a u32"@)
    } else if w.len() < 2 {
        LineSpec::Bad("expected three integers"@)
    } else if id_word(w[1]) is None {
        LineSpec::Bad("id is not a u32"@)
    } else if w.len() < 3 {
        LineSpec::Bad("expected three integers"@)
    } else if id_word(w[2]) is None {
        LineSpec::Bad("id is not a u32"@)
    } else if w.len() > 3 {
        LineSpec::Bad("expected exactly three integers"@)
    } else {
        LineSpec::Ids(IdTriple { sub: id_word(w[0])->0 as u32, pred: id_word(w[1])->0 as u32, obj: id_word(w[2])->0 as u32 })
    }
}

/// The first line that is not as it should be.
pub open spec fn first_bad_line(lines: Seq<Seq<char>>) -> Option<int>
    decreases lines.len(),
{
    if lines.len() == 0 {
        None
    } else {
        match first_bad_line(lines.drop_last()) {
            Some(k) => Some(k),
            None => if line_ids(lines.last()) is Bad {
                Some(lines.len() - 1)
            } else {
                None
            },
        }
    }
}

/// The triples of some lines.
pub open spec fn triples_in(lines: Seq<Seq<char>>) -> Seq<IdTriple>
    decreases lines.len(),
{
    if lines.len() == 0 {
        Seq::empty()
    } else {
        match line_ids(lines.last()) {
            LineSpec::Ids(t) => triples_in(lines.drop_last()).push(t),
            _ => triples_in(lines.drop_last()),
        }
    }
}

/// The message for a line.
pub open spec fn line_message(k: int, msg: Seq<char>) -> Seq<char> {
    "line "@ + decimal((k + 1) as nat) + ": "@ + msg
}

/// What a line says: a triple, nothing, or why it is not as it should be.
fn read_line(line: &str) -> (r: Result<Option<IdTriple>, &'static str>)
    ensures
        match line_ids(line@) {
            LineSpec::Skip => r == Ok::<Option<IdTriple>, &'static str>(None),
            LineSpec::Ids(t) => r == Ok::<Option<IdTriple>, &'static str>(Some(t)),
            LineSpec::Bad(m) => r matches Err(e) && e@ == m,
        },
{
    let t: String = trim_text(line);
    let chars: Vec<char> = chars_of(&t);
    if chars.len() == 0 || chars[0] == '#' {
        return Ok(None);
    }
    let ws: Vec<String> = split_words(&t);
    let ghost w = words(t@);
    let mut ids: Vec<u32> = Vec::new();
    let mut i: usize = 0;
    assert(texts(ws@) == w);
    while i < 3
        invariant
            i <= 3,
            texts(ws@) == w,
            w == words(trimmed(line@)),
            trimmed(line@).len() > 0,
            trimmed(line@)[0] != '#',
            ids@.len() == i,
            i <= w.len(),
            forall|k: int| 0 <= k < i ==> id_word(#[trigger] w[k]) == Some(ids@[k] as nat),
        decreases 3 - i,
    {
        if i >= ws.len() {
            assert(i < 3);
            return Err("expected three integers");
        }
        assert(w[i as int] == ws@[i as int]@);
        let cs: Vec<char> = chars_of(&ws[i]);
        assert(cs@.subrange(0, cs.len() as int) =~= cs@);
        match parse_unsigned(&cs, 0, cs.len(), 0xffff_ffff) {
            None => {
                return Err("id is not a u32");
            },
            Some(v) => {
                ids.push(v as u32);
            },
        }
        i = i + 1;
    }
    if ws.len() > 3 {
        return Err("expected exactly three integers");
    }
    assert(id_word(w[0]) == Some(ids@[0] as nat) && id_word(w[1]) == Some(ids@[1] as nat) && id_word(w[2]) == Some(ids@[2] as nat));
    Ok(Some(IdTriple::new(ids[0], ids[1], ids[2])))
}

/// Read the triples of ids of a text, one to a line. Gives the message for the first
/// line that is not as it should be.
pub fn load_id_triples(text: &str) -> (r: Result<Vec<IdTriple>, String>)
    ensures
        ({
            let lines = split_on(text@, '\n');
            match first_bad_line(lines) {
                Some(k) => r matches Err(m) && (line_ids(lines[k]) matches LineSpec::Bad(why) && m@ == line_message(k, why)),
                None => r matches Ok(v) && v@ == triples_in(lines),
            }
        }),
{
    let rows: Vec<String> = split_text(text, '\n');
    let ghost lines = split_on(text@, '\n');
    let mut out: Vec<IdTriple> = Vec::new();
    let mut i: usize = 0;
    assert(lines.take(0) =~= Seq::<Seq<char>>::empty());
    while i < rows.len()
        invariant
            i <= rows@.len(),
            texts(rows@) == lines,
            lines == split_on(text@, '\n'),
            first_bad_line(lines.take(i as int)) is None,
            out@ == triples_in(lines.take(i as int)),
        decreases rows.len() - i,
    {
        proof {
            assert(lines[i as int] == rows@[i as int]@);
            assert(lines.take(i + 1).drop_last() =~= lines.take(i as int));
            assert(lines.take(i + 1).last() == lines[i as int]);
        }
        match read_line(&rows[i]) {
            Err(why) => {
                proof {
                    assert(first_bad_line(lines.take(i + 1)) == Some(i as int));
                    lemma_first_bad(lines, i + 1, i as int);
                }
                let mut m: String = "line ".to_owned();
                m.append(&decimal_of(i as u64 + 1));
                m.append(": ");
                m.append(why);
                return Err(m);
            },
            Ok(None) => {},
            Ok(Some(t)) => {
                out.push(t);
            },
        }
        i = i + 1;
    }
    assert(lines.take(i as int) =~= lines);
    Ok(out)
}

proof fn lemma_first_bad(lines: Seq<Seq<char>>, n: int, k: int)
    requires
        0 <= n <= lines.len(),
        first_bad_line(lines.take(n)) == Some(k),
    ensures
        first_bad_line(lines) == Some(k),
    decreases lines.len(),
{
    if n == lines.len() {
        assert(lines.take(n) =~= lines);
    } else {
        assert(lines.drop_last().take(n) =~= lines.take(n));
        lemma_first_bad(lines.drop_last(), n, k);
    }
}

/// The formats of RDF files.
#[derive(Debug, Clone, Copy, PartialEq, Eq, Structural)]
pub enum RdfFormat {
    NTriples,
    Turtle,
    NQuads,
    TriG,
    RdfXml,
}

/// A letter in lower case, of those without accents.
pub open spec fn lower(c: char) -> char {
    if 'A' <= c <= 'Z' {
        (c as u32 + 32) as u8 as char
    } else {
        c
    }
}

/// A text in lower case.
pub fn lowered(s: &str) -> (r: String)
    ensures
        r@ == s@.map_values(|c: char| lower(c)),
{
    let chars: Vec<char> = chars_of(s);
    let mut low: Vec<char> = Vec::new();
    let mut i: usize = 0;
    while i < chars.len()
        invariant
            i <= chars@.len(),
            chars@ == s@,
            low@.len() == i,
            forall|k: int| 0 <= k < i ==> #[trigger] low@[k] == lower(s@[k]),
        decreases chars.len() - i,
    {
        let c: char = chars[i];
        if c >= 'A' && c <= 'Z' {
            let code: u8 = (c as u32 + 32) as u8;
            low.push(code as char);
        } else {
            low.push(c);
        }
        i = i + 1;
    }
    assert(low@ =~= s@.map_values(|c: char| lower(c)));
    assert(low@.subrange(0, low.len() as int) =~= low@);
    string_of(&low, 0, low.len())
}

/// The format for a file name extension in lower case. Turtle is taken for all that
/// are not known.
pub open spec fn format_for(ext: Seq<char>) -> RdfFormat {
    if ext == "nt"@ {
        RdfFormat::NTriples
    } else if ext == "nq"@ || ext == "nquads"@ {
        RdfFormat::NQuads
    } else if ext == "trig"@ {
        RdfFormat::TriG
    } else if ext == "rdf"@ || ext == "xml"@ || ext == "owl"@ || ext == "rdfs"@ {
        RdfFormat::RdfXml
    } else {
        RdfFormat::Turtle
    }
}

/// The format of a file by its extension, in which case does not matter.
pub fn rdf_format(ext: &str) -> (r: RdfFormat)
    ensures
        r == format_for(ext@.map_values(|c: char| lower(c))),
{
    let e: String = lowered(ext);
    if same(&e, "nt") {
        RdfFormat::NTriples
    } else if same(&e, "nq") || same(&e, "nquads") {
        RdfFormat::NQuads
    } else if same(&e, "trig") {
        RdfFormat::TriG
    } else if same(&e, "rdf") || same(&e, "xml") || same(&e, "owl") || same(&e, "rdfs") {
        RdfFormat::RdfXml
    } else {
        RdfFormat::Turtle
    }
}

/// What the console is to do after a line.
#[derive(Debug)]
pub enum Command {
    /// Ask for the next line.
    Prompt,
    Quit,
    Help,
    Stats,
    Save,
    Import(String),
    Load(String),
    Run(String),
}

/// A command as a mathematical value.
pub ghost enum CommandSpec {
    Prompt,
    Quit,
    Help,
    Stats,
    Save,
    Import(Seq<char>),
    Load(Seq<char>),
    Run(Seq<char>),
}

impl View for Command {
    type V = CommandSpec;

    open spec fn view(&self) -> CommandSpec {
        match self {
            Command::Prompt => CommandSpec::Prompt,
            Command::Quit => CommandSpec::Quit,
            Command::Help => CommandSpec::Help,
            Command::Stats => CommandSpec::Stats,
            Command::Save => CommandSpec::Save,
            Command::Import(s) => CommandSpec::Import(s@),
            Command::Load(s) => CommandSpec::Load(s@),
            Command::Run(s) => CommandSpec::Run(s@),
        }
    }
}

/// The text without semicolons at its end.
pub open spec fn without_semicolons(s: Seq<char>) -> Seq<char>
    decreases s.len(),
{
    if s.len() > 0 && s.last() == ';' {
        without_semicolons(s.drop_last())
    } else {
        s
    }
}

/// Whether a text starts with another.
pub open spec fn begins(s: Seq<char>, p: Seq<char>) -> bool {
    s.len() >= p.len() && s.take(p.len() as int) == p
}

/// What a line means to the console, and what it keeps of the query so far. Between
/// queries a line may be a command. A query ends with a semicolon.
pub open spec fn console(buffer: Seq<char>, line: Seq<char>) -> (CommandSpec, Seq<char>) {
    let t = trimmed(line);
    let idle = trimmed(buffer).len() == 0;
    let more = buffer + line + "\n"@;
    if idle && t.len() == 0 {
        (CommandSpec::Prompt, buffer)
    } else if idle && (t == "quit"@ || t == "exit"@) {
        (CommandSpec::Quit, buffer)
    } else if idle && t == "help"@ {
        (CommandSpec::Help, buffer)
    } else if idle && t == "stats"@ {
        (CommandSpec::Stats, buffer)
    } else if idle && t == "save"@ {
        (CommandSpec::Save, buffer)
    } else if idle && begins(t, "import "@) {
        (CommandSpec::Import(trimmed(t.skip(7))), buffer)
    } else if idle && begins(t, "load "@) {
        (CommandSpec::Load(trimmed(t.skip(5))), buffer)
    } else if t.len() > 0 && t.last() == ';' {
        (CommandSpec::Run(without_semicolons(trimmed(more))), Seq::empty())
    } else {
        (CommandSpec::Prompt, more)
    }
}

/// Whether some characters start with a text.
fn starts_with(chars: &Vec<char>, p: &str) -> (b: bool)
    ensures
        b == begins(chars@, p@),
{
    let ps: Vec<char> = chars_of(p);
    if chars.len() < ps.len() {
        return false;
    }
    let mut i: usize = 0;
    while i < ps.len()
        invariant
            i <= ps@.len() <= chars@.len(),
            ps@ == p@,
            forall|k: int| 0 <= k < i ==> chars@[k] == ps@[k],
        decreases ps.len() - i,
    {
        if chars[i] != ps[i] {
            assert(chars@.take(p@.len() as int)[i as int] != p@[i as int]);
            return false;
        }
        i = i + 1;
    }
    assert(chars@.take(p@.len() as int) =~= p@);
    true
}

/// The text without semicolons at its end.
fn cut_semicolons(s: &str) -> (r: String)
    ensures
        r@ == without_semicolons(s@),
{
    let chars: Vec<char> = chars_of(s);
    let mut n: usize = chars.len();
    assert(chars@.take(n as int) =~= s@);
    while n > 0 && chars[n - 1] == ';'
        invariant
            n <= chars@.len(),
            chars@ == s@,
            without_semicolons(chars@.take(n as int)) == without_semicolons(s@),
        decreases n,
    {
        assert(chars@.take(n as int).drop_last() =~= chars@.take(n - 1));
        n = n - 1;
    }
    assert(chars@.subrange(0, n as int) =~= chars@.take(n as int));
    string_of(&chars, 0, n)
}

/// What a line means to the console, and what it keeps of the query so far.
pub fn console_step(buffer: &str, line: &str) -> (r: (Command, String))
    ensures
        (r.0@, r.1@) == console(buffer@, line@),
{
    let t: String = trim_text(line);
    let chars: Vec<char> = chars_of(&t);
    let rest: String = trim_text(buffer);
    let idle: bool = chars_of(&rest).len() == 0;
    if idle {
        if chars.len() == 0 {
            return (Command::Prompt, buffer.to_owned());
        }
        if same(&t, "quit") || same(&t, "exit") {
            return (Command::Quit, buffer.to_owned());
        }
        if same(&t, "help") {
            return (Command::Help, buffer.to_owned());
        }
        if same(&t, "stats") {
            return (Command::Stats, buffer.to_owned());
        }
        if same(&t, "save") {
            return (Command::Save, buffer.to_owned());
        }
        proof {
            reveal_strlit("import ");
            reveal_strlit("load ");
        }
        if starts_with(&chars, "import ") {
            assert(chars@.subrange(7, chars@.len() as int) =~= chars@.skip(7));
            let path: String = trim_text(&string_of(&chars, 7, chars.len()));
            return (Command::Import(path), buffer.to_owned());
        }
        if starts_with(&chars, "load ") {
            assert(chars@.subrange(5, chars@.len() as int) =~= chars@.skip(5));
            let name: String = trim_text(&string_of(&chars, 5, chars.len()));
            return (Command::Load(name), buffer.to_owned());
        }
    }
    let mut more: String = buffer.to_owned();
    more.append(line);
    more.append("\n");
    if chars.len() > 0 && chars[chars.len() - 1] == ';' {
        let query: String = cut_semicolons(&trim_text(&more));
        let none: String = String::new();
        assert(none@ =~= Seq::<char>::empty());
        return (Command::Run(query), none);
    }
    (Command::Prompt, more)
}

/// A query reaches the engine with all its lines and without the semicolons: what
/// was kept between the lines is what was typed.
pub proof fn law_query_spans_lines(first: Seq<char>, second: Seq<char>)
    requires
        console(Seq::empty(), first) == (CommandSpec::Prompt, Seq::<char>::empty() + first + "\n"@),
        trimmed(Seq::<char>::empty() + first + "\n"@).len() > 0,
        trimmed(second).len() > 0,
        trimmed(second).last() == ';',
    ensures
        console(console(Seq::empty(), first).1, second) == (
            CommandSpec::Run(without_semicolons(trimmed(Seq::<char>::empty() + first + "\n"@ + second + "\n"@))),
            Seq::<char>::empty(),
        ),
{
}

/// What a line of ids says: a line with nothing on it, or that starts with `#`, says
/// nothing; one with three words that are numbers says the triple of these numbers,
/// in their order; any other is refused.
pub proof fn law_line_says_three_numbers(line: Seq<char>, s: u32, p: u32, o: u32)
    ensures
        line_ids(line) is Skip <==> trimmed(line).len() == 0 || trimmed(line)[0] == '#',
        trimmed(line).len() > 0 && trimmed(line)[0] != '#' ==> {
            let w = words(trimmed(line));
            &&& line_ids(line) == LineSpec::Ids(IdTriple { sub: s, pred: p, obj: o }) <==> {
                &&& w.len() == 3
                &&& parsed_unsigned(w[0], 0xffff_ffff) == Some(s as nat)
                &&& parsed_unsigned(w[1], 0xffff_ffff) == Some(p as nat)
                &&& parsed_unsigned(w[2], 0xffff_ffff) == Some(o as nat)
            }
            &&& line_ids(line) is Bad <==> w.len() != 3 || exists|i: int| 0 <= i < 3 && parsed_unsigned(#[trigger] w[i], 0xffff_ffff) is None
        },
{
    let w = words(trimmed(line));
    if w.len() == 3 {
        assert(w[0] == w[0] && w[1] == w[1] && w[2] == w[2]);
    }
}

/// The first line that is refused is one that is refused, behind lines that are not;
/// there is none just if no line is refused.
pub proof fn law_first_refused_line_is_told(lines: Seq<Seq<char>>)
    ensures
        match first_bad_line(lines) {
            Some(k) => 0 <= k < lines.len() && line_ids(lines[k]) is Bad && forall|i: int| 0 <= i < k ==> !(line_ids(#[trigger] lines[i]) is Bad),
            None => forall|i: int| 0 <= i < lines.len() ==> !(line_ids(#[trigger] lines[i]) is Bad),
        },
    decreases lines.len(),
{
    if lines.len() > 0 {
        law_first_refused_line_is_told(lines.drop_last());
        assert forall|i: int| 0 <= i < lines.len() - 1 implies #[trigger] lines[i] == lines.drop_last()[i] by {
        }
    }
}

/// The triples of a text come line by line: what one line says stands between what
/// the lines before it say and what the lines behind it say.
pub proof fn law_triples_come_line_by_line(front: Seq<Seq<char>>, line: Seq<char>, back: Seq<Seq<char>>)
    ensures
        triples_in(front.push(line) + back) == triples_in(front) + (match line_ids(line) {
            LineSpec::Ids(t) => seq![t],
            _ => Seq::empty(),
        }) + triples_in(back),
    decreases back.len(),
{
    let all = front.push(line) + back;
    if back.len() == 0 {
        assert(all =~= front.push(line));
        assert(all.drop_last() =~= front);
        assert(triples_in(back) =~= Seq::empty());
        match line_ids(line) {
            LineSpec::Ids(t) => {
                assert(triples_in(front).push(t) =~= triples_in(front) + seq![t] + triples_in(back));
            },
            _ => {
                assert(triples_in(front) =~= triples_in(front) + Seq::empty() + triples_in(back));
            },
        }
    } else {
        assert(all.drop_last() =~= front.push(line) + back.drop_last());
        assert(all.last() == back.last());
        law_triples_come_line_by_line(front, line, back.drop_last());
        let own = match line_ids(line) {
            LineSpec::Ids(t) => seq![t],
            _ => Seq::empty(),
        };
        match line_ids(back.last()) {
            LineSpec::Ids(t) => {
                assert((triples_in(front) + own + triples_in(back.drop_last())).push(t) =~= triples_in(front) + own + triples_in(back.drop_last()).push(t));
            },
            _ => {},
        }
    }
}

/// The extensions of N-Triples, N-Quads, TriG and RDF/XML name these formats in
/// upper case, lower case, or any mix of both; every other extension means Turtle.
pub proof fn law_extension_names_the_format(ext: Seq<char>)
    ensures
        ({
            let f = format_for(ext.map_values(|c: char| lower(c)));
            &&& f == RdfFormat::NTriples <==> spelled(ext, "nt"@)
            &&& f == RdfFormat::NQuads <==> spelled(ext, "nq"@) || spelled(ext, "nquads"@)
            &&& f == RdfFormat::TriG <==> spelled(ext, "trig"@)
            &&& f == RdfFormat::RdfXml <==> spelled(ext, "rdf"@) || spelled(ext, "xml"@) || spelled(ext, "owl"@) || spelled(ext, "rdfs"@)
            &&& f == RdfFormat::Turtle || f == RdfFormat::NTriples || f == RdfFormat::NQuads || f == RdfFormat::TriG || f == RdfFormat::RdfXml
        }),
{
    reveal_strlit("nt");
    reveal_strlit("nq");
    reveal_strlit("nquads");
    reveal_strlit("trig");
    reveal_strlit("rdf");
    reveal_strlit("xml");
    reveal_strlit("owl");
    reveal_strlit("rdfs");
    lemma_spelled(ext, "nt"@);
    lemma_spelled(ext, "nq"@);
    lemma_spelled(ext, "nquads"@);
    lemma_spelled(ext, "trig"@);
    lemma_spelled(ext, "rdf"@);
    lemma_spelled(ext, "xml"@);
    lemma_spelled(ext, "owl"@);
    lemma_spelled(ext, "rdfs"@);
    assert("nt"@ != "nq"@ && "nt"@.len() == 2 && "nq"@.len() == 2) by {
        assert("nt"@[1] == 't' && "nq"@[1] == 'q');
    }
    assert("rdf"@[0] == 'r' && "xml"@[0] == 'x' && "owl"@[0] == 'o');
    assert("rdfs"@[0] == 'r' && "trig"@[0] == 't');
    assert("nquads"@.len() == 6 && "trig"@.len() == 4 && "rdf"@.len() == 3 && "xml"@.len() == 3 && "owl"@.len() == 3 && "rdfs"@.len() == 4);
}

/// A text is a word in small letters, but for the case of its letters.
pub open spec fn spelled(s: Seq<char>, word: Seq<char>) -> bool {
    &&& s.len() == word.len()
    &&& forall|i: int| 0 <= i < s.len() ==> #[trigger] s[i] == word[i] || ('A' <= s[i] <= 'Z' && s[i] as u32 + 32 == word[i] as u32)
}

proof fn lemma_spelled(s: Seq<char>, word: Seq<char>)
    requires
        forall|i: int| 0 <= i < word.len() ==> 'a' <= #[trigger] word[i] <= 'z',
    ensures
        spelled(s, word) <==> s.map_values(|c: char| lower(c)) == word,
{
    let low = s.map_values(|c: char| lower(c));
    if spelled(s, word) {
        assert forall|i: int| 0 <= i < s.len() implies low[i] == word[i] by {
            assert(s[i] == s[i]);
            assert('a' <= word[i] <= 'z');
        }
        assert(low =~= word);
    }
    if low == word {
        assert forall|i: int| 0 <= i < s.len() implies #[trigger] s[i] == word[i] || ('A' <= s[i] <= 'Z' && s[i] as u32 + 32 == word[i] as u32) by {
            assert(low[i] == lower(s[i]));
        }
    }
}

/// Between queries each command is told by its word, `import` and `load` with the
/// path behind it, and what is kept of a query stays.
pub proof fn law_commands_are_told_by_their_word(buffer: Seq<char>, line: Seq<char>, path: Seq<char>)
    requires
        trimmed(buffer).len() == 0,
    ensures
        trimmed(line).len() == 0 ==> console(buffer, line) == (CommandSpec::Prompt, buffer),
        trimmed(line) == "quit"@ || trimmed(line) == "exit"@ ==> console(buffer, line) == (CommandSpec::Quit, buffer),
        trimmed(line) == "help"@ ==> console(buffer, line) == (CommandSpec::Help, buffer),
        trimmed(line) == "stats"@ ==> console(buffer, line) == (CommandSpec::Stats, buffer),
        trimmed(line) == "save"@ ==> console(buffer, line) == (CommandSpec::Save, buffer),
        trimmed(line) == "import "@ + path ==> console(buffer, line) == (CommandSpec::Import(trimmed(path)), buffer),
        trimmed(line) == "load "@ + path ==> console(buffer, line) == (CommandSpec::Load(trimmed(path)), buffer),
{
    reveal_strlit("quit");
    reveal_strlit("exit");
    reveal_strlit("help");
    reveal_strlit("stats");
    reveal_strlit("save");
    reveal_strlit("import ");
    reveal_strlit("load ");
    let t = trimmed(line);
    assert("quit"@[0] == 'q' && "exit"@[0] == 'e' && "help"@[0] == 'h' && "stats"@[1] == 't' && "save"@[1] == 'a' && "import "@[0] == 'i' && "load "@[0] == 'l');
    assert("quit"@.len() == 4 && "exit"@.len() == 4 && "help"@.len() == 4 && "stats"@.len() == 5 && "save"@.len() == 4 && "import "@.len() == 7 && "load "@.len() == 5);
    if t == "import "@ + path {
        assert(t[0] == 'i');
        assert(t.take(7) =~= "import "@);
        assert(t.skip(7) =~= path);
    }
    if t == "load "@ + path {
        assert(t[0] == 'l');
        assert(t.take(7)[0] == 'l' || t.len() < 7);
        assert(t.take(5) =~= "load "@);
        assert(t.skip(5) =~= path);
    }
}

/// In the midst of a query no line is a command: each is added to the query, until
/// one ends with a semicolon.
pub proof fn law_lines_add_to_the_query(buffer: Seq<char>, line: Seq<char>)
    requires
        trimmed(buffer).len() > 0,
    ensures
        trimmed(line).len() == 0 || trimmed(line).last() != ';' ==> console(buffer, line) == (CommandSpec::Prompt, buffer + line + "\n"@),
        trimmed(line).len() > 0 && trimmed(line).last() == ';' ==> console(buffer, line).0 is Run && console(buffer, line).1.len() == 0,
{
}

/// What is run is the text without white space around it and without the semicolons
/// at its end, and nothing else is left out.
pub proof fn law_only_semicolons_are_left_out(s: Seq<char>)
    ensures
        without_semicolons(s).is_prefix_of(s),
        forall|i: int| without_semicolons(s).len() <= i < s.len() ==> #[trigger] s[i] == ';',
        without_semicolons(s).len() > 0 ==> without_semicolons(s).last() != ';',
    decreases s.len(),
{
    if s.len() > 0 && s.last() == ';' {
        law_only_semicolons_are_left_out(s.drop_last());
        let r = without_semicolons(s);
        assert(r =~= s.take(r.len() as int));
        assert forall|i: int| r.len() <= i < s.len() implies #[trigger] s[i] == ';' by {
            if i < s.len() - 1 {
                assert(s.drop_last()[i] == s[i]);
            }
        }
    } else {
        assert(s =~= s.take(s.len() as int));
    }
}

} // verus!
