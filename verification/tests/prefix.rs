use gstore::dict::prefix::{decode_block, encode_block, raw_bytes, MAX_SHARED_PREFIX};
use gstore::kvstore::vlist::write_varint;

#[test]
fn roundtrips_sorted_strings() {
    let mut v = vec![
        "<http://ex.org/a>".to_string(),
        "<http://ex.org/abc>".to_string(),
        "<http://ex.org/abd>".to_string(),
        "<http://ex.org/b>".to_string(),
        "\"a literal\"".to_string(),
        "\"a literal too\"".to_string(),
    ];
    v.sort();
    let enc = encode_block(&v);
    assert_eq!(decode_block(&enc).unwrap(), v);
}

#[test]
fn roundtrips_empty_and_single() {
    let empty: Vec<String> = Vec::new();
    assert_eq!(decode_block(&encode_block(&empty)).unwrap(), empty);
    let one = vec!["solo".to_string()];
    assert_eq!(decode_block(&encode_block(&one)).unwrap(), one);
}

#[test]
fn handles_multibyte_utf8_prefixes() {
    // Shared multibyte prefix must not be split mid-codepoint.
    let mut v = vec![
        "café-1".to_string(),
        "café-2".to_string(),
        "café-au-lait".to_string(),
        "naïve".to_string(),
    ];
    v.sort();
    let enc = encode_block(&v);
    assert_eq!(decode_block(&enc).unwrap(), v);
}

#[test]
fn shares_prefixes_to_save_space() {
    // Many IRIs under one long namespace: front-coding should slash the size.
    let mut v: Vec<String> = (0..1000)
        .map(|i| format!("<http://dbpedia.org/resource/Entity_{i:06}>"))
        .collect();
    v.sort();
    let enc = encode_block(&v);
    let raw = raw_bytes(&v);
    assert!(
        enc.len() < raw / 2,
        "front-coded block should be <1/2 of raw {raw} bytes, got {}",
        enc.len()
    );
    assert_eq!(decode_block(&enc).unwrap(), v);
}

#[test]
fn bounded_shared_prefix_is_respected() {
    // Two strings sharing more than MAX_SHARED_PREFIX bytes: only the bound
    // is elided, and the value still round-trips.
    let base = "x".repeat(MAX_SHARED_PREFIX + 50);
    let a = format!("{base}A");
    let b = format!("{base}B");
    let v = vec![a, b];
    let enc = encode_block(&v);
    // Second entry's shared byte is capped at the bound.
    // (count=1B, entry0: 1B shared +1B suflen-ish, ...). Just verify the cap
    // via round-trip plus that no shared_len byte exceeds the bound.
    assert_eq!(decode_block(&enc).unwrap(), v);
}

#[test]
fn decode_rejects_truncated_suffix() {
    let mut buf = Vec::new();
    write_varint(&mut buf, 1); // count = 1
    buf.push(0); // shared = 0
    write_varint(&mut buf, 10); // suffix_len = 10 …
    buf.extend_from_slice(b"abc"); // … but only 3 bytes present
    assert_eq!(decode_block(&buf), None);
}

#[test]
fn every_cut_of_a_block_is_refused() {
    let v = vec!["<http://ex.org/a>".to_string(), "<http://ex.org/abc>".to_string(), "\"x\"".to_string()];
    let enc = encode_block(&v);
    for k in 0..enc.len() {
        assert_eq!(decode_block(&enc[..k]), None);
    }
}
