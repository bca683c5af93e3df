use gstore::fields::{hex16, parse_hex, split_text, trim_text, trim_text_end};
use gstore::{db_dir_for, trim_db_suffix};

#[test]
fn hex_numbers_roundtrip() {
    for v in [0u64, 1, 0xdead_beef, u64::MAX] {
        assert_eq!(parse_hex(&hex16(v)), Some(v));
        assert_eq!(hex16(v).len(), 16);
    }
    assert_eq!(hex16(255), "00000000000000ff");
    assert_eq!(parse_hex("xyz"), None);
    assert_eq!(parse_hex("10000000000000000"), None);
}

#[test]
fn a_database_has_one_directory() {
    assert_eq!(db_dir_for("movies"), "movies.db");
    assert_eq!(db_dir_for("movies.db"), "movies.db");
    assert_eq!(db_dir_for(&db_dir_for("x")), db_dir_for("x"));
    assert_eq!(trim_db_suffix("movies.db.db"), "movies");
    assert_eq!(trim_db_suffix("movies"), "movies");
}

#[test]
fn fields_are_split_and_trimmed() {
    assert_eq!(split_text("a:b::c", ':'), vec!["a", "b", "", "c"]);
    assert_eq!(split_text("", ':'), vec![""]);
    assert_eq!(trim_text(" \t a b \n"), "a b");
    assert_eq!(trim_text_end(" a \r\n"), " a");
}
