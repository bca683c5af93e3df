use gstore::cli::{console_step, load_id_triples, rdf_format, Command, RdfFormat};
use gstore::model::IdTriple;

#[test]
fn id_triples_are_read_line_by_line() {
    let text = "# shard\n1 2 3\n\n  4\t5 6  \n";
    assert_eq!(load_id_triples(text).unwrap(), vec![IdTriple::new(1, 2, 3), IdTriple::new(4, 5, 6)]);
    assert!(load_id_triples("").unwrap().is_empty());
}

#[test]
fn lines_without_three_ids_are_refused() {
    for (text, what) in [
        ("1 2", "expected three integers"),
        ("1 2 x", "id is not a u32"),
        ("1 2 4294967296", "id is not a u32"),
        ("1 2 3 4", "expected exactly three integers"),
    ] {
        let e = load_id_triples(text).unwrap_err();
        assert!(e.contains(what), "{e}");
        assert!(e.contains('1'), "{e}");
    }
    let e = load_id_triples("1 2 3\n\n7 8\n").unwrap_err();
    assert!(e.contains('3'), "{e}");
}

#[test]
fn formats_follow_the_extension() {
    assert_eq!(rdf_format("nt"), RdfFormat::NTriples);
    assert_eq!(rdf_format("NQ"), RdfFormat::NQuads);
    assert_eq!(rdf_format("trig"), RdfFormat::TriG);
    assert_eq!(rdf_format("Owl"), RdfFormat::RdfXml);
    assert_eq!(rdf_format("ttl"), RdfFormat::Turtle);
    assert_eq!(rdf_format("txt"), RdfFormat::Turtle);
}

#[test]
fn a_query_spans_lines_until_its_end() {
    let (c, buffer) = console_step("", "SELECT ?s");
    assert!(matches!(c, Command::Prompt));
    let (c, buffer) = console_step(&buffer, "WHERE { ?s ?p ?o } ;");
    match c {
        Command::Run(q) => assert_eq!(q, "SELECT ?s\nWHERE { ?s ?p ?o } "),
        other => panic!("{other:?}"),
    }
    assert_eq!(buffer, "");
}

#[test]
fn a_line_between_queries_may_be_a_command() {
    assert!(matches!(console_step("", "  quit ").0, Command::Quit));
    assert!(matches!(console_step("", "exit").0, Command::Quit));
    assert!(matches!(console_step("", "help").0, Command::Help));
    assert!(matches!(console_step("", "stats").0, Command::Stats));
    assert!(matches!(console_step("", "save").0, Command::Save));
    assert!(matches!(console_step("", "import  a.nt ").0, Command::Import(p) if p == "a.nt"));
    assert!(matches!(console_step("", "load b.db").0, Command::Load(p) if p == "b.db"));
    assert!(matches!(console_step("SELECT\n", "help").0, Command::Prompt));
}
