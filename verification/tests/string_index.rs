use gstore::kvstore::string_index::StringIndex;

/// An index of borrowed strings.
fn build(pairs: &[(u32, &str)]) -> StringIndex {
    let owned: Vec<(u32, String)> = pairs.iter().map(|(id, s)| (*id, s.to_string())).collect();
    StringIndex::build(&owned)
}

fn sample() -> StringIndex {
    build(&[
        (0u32, "<http://example.org/alice>"),
        (1, "<http://example.org/alicia>"),
        (2, "<http://example.org/bob>"),
        (3, "\"Alice in Wonderland\""),
        (4, "\"a\""),
        (5, "<http://other.test/carol>"),
    ])
}

#[test]
fn contains_is_exact_and_sound() {
    let idx = sample();
    // "alic" matches alice(0), alicia(1) — entities, lowercase.
    let mut hit = idx.search_contains("alic");
    hit.sort_unstable();
    assert_eq!(hit, vec![0, 1]);

    // Candidates are a superset of the verified hits.
    let cands = idx.contains_candidates("alic");
    for id in &hit {
        assert!(cands.contains(id));
    }

    // Case-sensitive: capital "Alice" only matches the literal (id 3).
    assert_eq!(idx.search_contains("Alice"), vec![3]);

    // A needle present nowhere yields nothing.
    assert!(idx.search_contains("zzzzz").is_empty());
}

#[test]
fn trigram_index_actually_prunes() {
    // A selective needle's candidate set is far smaller than the whole index.
    let mut idx = StringIndex::new();
    for i in 0..1000u32 {
        idx.insert(i, &format!("<http://ex/node{i:05}>"));
    }
    idx.insert(2000, "<http://ex/UNIQUEMARKER>");
    let cands = idx.contains_candidates("UNIQUEMARKER");
    assert_eq!(cands, vec![2000]);
    assert!(
        cands.len() < idx.len(),
        "trigram filter must prune below the full set"
    );
    assert_eq!(idx.search_contains("UNIQUEMARKER"), vec![2000]);
}

#[test]
fn short_needle_returns_sound_superset() {
    let idx = sample();
    // "a" is shorter than a trigram: the index can't prune, so every id is a
    // candidate (a sound superset) and verification still gives exact hits.
    let cands = idx.contains_candidates("a");
    assert_eq!(cands.len(), idx.len());
    // Verified: strings actually containing "a".
    let hit = idx.search_contains("a");
    for id in &hit {
        assert!(idx.string_of(*id).unwrap().contains('a'));
    }
    // ids 0,1,2,3,4,5: alice,alicia,bob,Alice in Wonderland,"a",carol all contain 'a'.
    assert!(hit.contains(&4));
}

#[test]
fn prefix_is_exact_and_ordered() {
    let idx = sample();
    let mut p = idx.prefix("<http://example.org/");
    p.sort_unstable();
    assert_eq!(p, vec![0, 1, 2]);

    assert_eq!(idx.prefix("<http://other"), vec![5]);
    assert!(idx.prefix("<http://nope").is_empty());
    // Whole-string prefix.
    assert_eq!(idx.prefix("\"Alice in Wonderland\""), vec![3]);
}

#[test]
fn insert_matches_build() {
    let built = sample();
    let mut inc = StringIndex::new();
    for (id, s) in [
        (0u32, "<http://example.org/alice>"),
        (1, "<http://example.org/alicia>"),
        (2, "<http://example.org/bob>"),
        (3, "\"Alice in Wonderland\""),
        (4, "\"a\""),
        (5, "<http://other.test/carol>"),
    ] {
        inc.insert(id, s);
    }
    assert_eq!(inc.search_contains("alic"), built.search_contains("alic"));
    assert_eq!(inc.prefix("<http://example.org/"), built.prefix("<http://example.org/"));
}


#[test]
fn unicode_substring_bytewise() {
    // Byte-exact substring semantics over multibyte UTF-8.
    let idx = build(&[(0u32, "café société"), (1, "naïve")]);
    assert_eq!(idx.search_contains("café"), vec![0]);
    assert_eq!(idx.search_contains("ïve"), vec![1]);
    assert!(idx.search_contains("xyz").is_empty());
}

#[test]
fn serde_roundtrip_preserves_lookups() {
    let idx = sample();
    let bytes = bincode::serialize(&idx.pairs()).unwrap();
    let pairs: Vec<(u32, String)> = bincode::deserialize(&bytes).unwrap();
    let back = StringIndex::build(&pairs);
    assert_eq!(back.search_contains("alic"), idx.search_contains("alic"));
    assert_eq!(back.prefix("<http://example.org/"), idx.prefix("<http://example.org/"));
    assert_eq!(back.len(), idx.len());
}

#[test]
fn pairs_are_listed_by_id() {
    let mut idx = StringIndex::new();
    idx.insert(7, "seven");
    idx.insert(2, "zwei");
    idx.insert(7, "sieben");
    assert_eq!(idx.pairs(), vec![(2, "zwei".to_string()), (7, "sieben".to_string())]);
    let back = StringIndex::build(&idx.pairs());
    assert_eq!(idx.contains_candidates("seven"), vec![7]);
    assert!(back.contains_candidates("seven").is_empty());
    assert_eq!(back.search_contains("sieb"), idx.search_contains("sieb"));
    assert!(StringIndex::new().pairs().is_empty());
}
