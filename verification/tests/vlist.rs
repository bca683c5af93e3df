use gstore::kvstore::vlist::{decode_u32s, encode_u32s, read_varint, write_varint};

#[test]
fn varint_roundtrips_boundaries() {
    for v in [0u32, 1, 127, 128, 16_383, 16_384, 1 << 21, u32::MAX] {
        let mut buf = Vec::new();
        write_varint(&mut buf, v);
        let mut pos = 0;
        assert_eq!(read_varint(&buf, &mut pos), Some(v), "value {v}");
        assert_eq!(pos, buf.len(), "consumed all bytes for {v}");
    }
}

#[test]
fn varint_byte_widths_match_leb128() {
    let width = |v| {
        let mut b = Vec::new();
        write_varint(&mut b, v);
        b.len()
    };
    assert_eq!(width(0), 1);
    assert_eq!(width(127), 1);
    assert_eq!(width(128), 2);
    assert_eq!(width(16_383), 2);
    assert_eq!(width(16_384), 3);
    assert_eq!(width(u32::MAX), 5);
}

#[test]
fn read_varint_rejects_truncated_and_overlong() {
    // Continuation bit set but no following byte.
    let mut pos = 0;
    assert_eq!(read_varint(&[0x80], &mut pos), None);
    // Six bytes (overlong for a u32).
    let mut pos = 0;
    assert_eq!(read_varint(&[0xff, 0xff, 0xff, 0xff, 0xff, 0x01], &mut pos), None);
}

#[test]
fn encode_decode_roundtrip() {
    let cases: Vec<Vec<u32>> = vec![
        vec![],
        vec![0],
        vec![5],
        vec![0, 1, 2, 3, 4],
        vec![10, 20, 30, 40],
        vec![1, 1_000, 1_000_000, 2_000_000_000],
        (0..1000u32).map(|i| i * 3).collect(),
        vec![u32::MAX - 1, u32::MAX],
    ];
    for c in cases {
        let enc = encode_u32s(&c);
        assert_eq!(decode_u32s(&enc).unwrap(), c, "roundtrip {c:?}");
    }
}

#[test]
fn dense_list_is_far_smaller_than_raw() {
    // 1000 consecutive ids: raw = 4000 bytes; deltas are all 1 → ~1 byte each.
    let ids: Vec<u32> = (0..1000).collect();
    let raw = ids.len() * 4;
    let enc = encode_u32s(&ids);
    assert!(
        enc.len() < raw / 3,
        "dense vlist should be <1/3 of raw: {} vs {raw}",
        enc.len()
    );
    // A consecutive run is ~1 byte/id plus the count prefix.
    assert!(enc.len() <= ids.len() + 2);
}

#[test]
fn sparse_list_still_no_worse_than_raw_plus_count() {
    // Large gaps: each delta needs up to 5 bytes, but never more than raw + a
    // small overhead. (Worst case for varint vs fixed 4-byte is bounded.)
    let ids: Vec<u32> = vec![0, 1 << 28, 1 << 29, u32::MAX];
    let enc = encode_u32s(&ids);
    let decoded = decode_u32s(&enc).unwrap();
    assert_eq!(decoded, ids);
}

#[test]
fn decode_rejects_garbage() {
    // Claims 5 elements but provides no delta bytes.
    let mut buf = Vec::new();
    write_varint(&mut buf, 5);
    assert_eq!(decode_u32s(&buf), None);
}

#[test]
fn reading_behind_the_end_gives_nothing() {
    for start in [1usize, 2, usize::MAX] {
        let mut pos = start;
        assert_eq!(read_varint(&[0x01], &mut pos), None);
    }
}

#[test]
fn every_cut_of_a_varint_is_refused() {
    let mut buf = Vec::new();
    write_varint(&mut buf, u32::MAX);
    for k in 0..buf.len() {
        let mut pos = 0;
        assert_eq!(read_varint(&buf[..k], &mut pos), None);
    }
}
