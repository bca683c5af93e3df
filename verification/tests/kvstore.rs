use gstore::kvstore::ivarray::{IvArray, INLINE_CAP};
use gstore::kvstore::overflow::{free_chain, read_chain, write_chain, CHAIN_PAYLOAD};
use gstore::kvstore::pager::Pager;
use gstore::kvstore::wal::{crc32, parse_wal, write_wal, PageImage, PAGE_SIZE};
use gstore::GStoreError;

/// Write committed batches to a file image.
fn apply(file: &mut Vec<u8>, commits: Vec<Vec<PageImage>>) {
    for batch in commits {
        for image in batch {
            let at = image.id as usize * PAGE_SIZE;
            if file.len() < at + PAGE_SIZE {
                file.resize(at + PAGE_SIZE, 0);
            }
            file[at..at + PAGE_SIZE].copy_from_slice(&image.data);
        }
    }
}

/// What the file holds after what was committed.
fn committed(pg: &mut Pager) -> Vec<u8> {
    let mut file = Vec::new();
    apply(&mut file, pg.take_commits());
    file
}

fn fresh(capacity: usize) -> Pager {
    Pager::open(&[], None, capacity).unwrap()
}

#[test]
fn alloc_write_read_roundtrip() {
    let mut pg = fresh(16);
    let a = pg.allocate().unwrap();
    let mut data = vec![0u8; PAGE_SIZE];
    data[0] = 42;
    data[PAGE_SIZE - 1] = 7;
    pg.write_page(a, &data).unwrap();
    let back = pg.read_page(a).unwrap();
    assert_eq!(back[0], 42);
    assert_eq!(back[PAGE_SIZE - 1], 7);
}

#[test]
fn pager_persists_across_reopen() {
    let a;
    let file;
    {
        let mut pg = fresh(16);
        a = pg.allocate().unwrap();
        let mut d = vec![0u8; PAGE_SIZE];
        d[100] = 99;
        pg.write_page(a, &d).unwrap();
        pg.set_root(0, 0xDEAD_BEEF);
        pg.flush();
        file = committed(&mut pg);
    }
    {
        let mut pg = Pager::open(&file, None, 16).unwrap();
        assert_eq!(pg.root(0), 0xDEAD_BEEF);
        let d = pg.read_page(a).unwrap();
        assert_eq!(d[100], 99);
    }
}

#[test]
fn free_list_reuses_pages() {
    let mut pg = fresh(16);
    let a = pg.allocate().unwrap();
    let b = pg.allocate().unwrap();
    assert_ne!(a, b);
    pg.free(a).unwrap();
    let c = pg.allocate().unwrap();
    assert_eq!(c, a, "freed page should be reused");
}

#[test]
fn crc32_matches_known_vector() {
    // The IEEE CRC-32 of "123456789" is 0xCBF43926.
    assert_eq!(crc32(b"123456789"), 0xCBF4_3926);
}

#[test]
fn committed_wal_is_replayed_on_open() {
    // Initialise a valid main file.
    let file;
    {
        let mut pg = fresh(16);
        let _ = pg.allocate().unwrap(); // page 1 exists, zeroed
        pg.flush();
        file = committed(&mut pg);
    }
    // Simulate a crash *after* the WAL was committed but *before* it was
    // applied: hand-write a committed WAL that sets page 1.
    let mut marker = vec![0u8; PAGE_SIZE];
    marker[0..4].copy_from_slice(&0xDEAD_BEEFu32.to_le_bytes());
    let wal = write_wal(&vec![PageImage { id: 1, data: marker }]);

    // Opening must replay the log.
    let mut pg = Pager::open(&file, Some(&wal), 16).unwrap();
    let page = pg.read_page(1).unwrap();
    assert_eq!(&page[0..4], &0xDEAD_BEEFu32.to_le_bytes());
}

#[test]
fn torn_wal_is_discarded() {
    let file;
    {
        let mut pg = fresh(16);
        let a = pg.allocate().unwrap();
        pg.write_page(a, &vec![1u8; PAGE_SIZE]).unwrap();
        pg.flush();
        file = committed(&mut pg);
    }
    // Write a committed WAL, then truncate its commit marker (a torn write).
    let mut bad = vec![0u8; PAGE_SIZE];
    bad[0] = 0xAB;
    let mut bytes = write_wal(&vec![PageImage { id: 1, data: bad }]);
    bytes.truncate(bytes.len() - 4); // chop part of the commit magic

    // Recovery must reject the torn log and leave page 1 as it was (all 1s).
    let mut pg = Pager::open(&file, Some(&bytes), 16).unwrap();
    let page = pg.read_page(1).unwrap();
    assert_eq!(page[0], 1, "torn WAL must not be applied");
}

#[test]
fn unflushed_writes_are_not_durable() {
    let a;
    let file;
    {
        let mut pg = fresh(16);
        a = pg.allocate().unwrap();
        pg.write_page(a, &vec![9u8; PAGE_SIZE]).unwrap();
        pg.flush(); // commit the allocation
        pg.write_page(a, &vec![5u8; PAGE_SIZE]).unwrap(); // dirty, never flushed
        // drop without flushing ⇒ the second write is lost
        file = committed(&mut pg);
    }
    let mut pg = Pager::open(&file, None, 16).unwrap();
    assert_eq!(pg.read_page(a).unwrap()[0], 9, "uncommitted write must be lost");
}

#[test]
fn small_cache_evicts_but_keeps_data_correct() {
    // Cache capacity smaller than the working set forces eviction; data must
    // still be correct (dirty pages written back before eviction).
    let mut pg = fresh(8);
    let mut ids = Vec::new();
    for i in 0..100u32 {
        let id = pg.allocate().unwrap();
        let mut d = vec![0u8; PAGE_SIZE];
        d[0..4].copy_from_slice(&i.to_le_bytes());
        pg.write_page(id, &d).unwrap();
        ids.push(id);
    }
    for (i, &id) in ids.iter().enumerate() {
        let d = pg.read_page(id).unwrap();
        let got = u32::from_le_bytes(d[0..4].try_into().unwrap());
        assert_eq!(got, i as u32, "page {id} corrupted after eviction");
    }
}

#[test]
fn roundtrip_spanning_many_pages() {
    let mut pg = fresh(16);
    // ~10 pages worth of payload with a recognizable byte pattern.
    let data: Vec<u8> = (0..CHAIN_PAYLOAD * 10 + 123)
        .map(|i| (i % 251) as u8)
        .collect();
    let head = write_chain(&mut pg, &data).unwrap();
    assert_ne!(head, 0);
    let back = read_chain(&mut pg, head, data.len()).unwrap();
    assert_eq!(back, data);
}

#[test]
fn single_page_payload() {
    let mut pg = fresh(16);
    let data = vec![7u8; 100];
    let head = write_chain(&mut pg, &data).unwrap();
    assert_eq!(read_chain(&mut pg, head, data.len()).unwrap(), data);
}

#[test]
fn free_chain_reclaims_pages() {
    let mut pg = fresh(64);
    let data = vec![1u8; CHAIN_PAYLOAD * 5];
    let head = write_chain(&mut pg, &data).unwrap();
    let before = pg.page_count();
    free_chain(&mut pg, head).unwrap();
    // Re-allocating the same number of pages reuses the freed ones rather
    // than growing the file.
    let mut reused = Vec::new();
    for _ in 0..5 {
        reused.push(pg.allocate().unwrap());
    }
    assert!(
        pg.page_count() <= before,
        "freed chain pages must be reused (before {before}, now {})",
        pg.page_count()
    );
}

#[test]
fn overflow_persists_across_reopen() {
    let data: Vec<u8> = (0..CHAIN_PAYLOAD * 3 + 7).map(|i| (i % 97) as u8).collect();
    let head;
    let file;
    {
        let mut pg = fresh(16);
        head = write_chain(&mut pg, &data).unwrap();
        pg.flush();
        file = committed(&mut pg);
    }
    let mut pg = Pager::open(&file, None, 16).unwrap();
    assert_eq!(read_chain(&mut pg, head, data.len()).unwrap(), data);
}

#[test]
fn insert_get_basic_and_missing() {
    let mut pg = fresh(64);
    let a = IvArray::new(0);
    a.insert(&mut pg, 0, b"<alice>").unwrap();
    a.insert(&mut pg, 5, b"<bob>").unwrap();
    a.insert(&mut pg, 100, b"\"hello world\"").unwrap();
    assert_eq!(a.get(&mut pg, 0).unwrap().as_deref(), Some(&b"<alice>"[..]));
    assert_eq!(a.get(&mut pg, 5).unwrap().as_deref(), Some(&b"<bob>"[..]));
    assert_eq!(a.get(&mut pg, 100).unwrap().as_deref(), Some(&b"\"hello world\""[..]));
    // Unset keys (in and out of allocated directories) are None.
    assert_eq!(a.get(&mut pg, 1).unwrap(), None);
    assert_eq!(a.get(&mut pg, 999_999).unwrap(), None);
}

#[test]
fn replace_value_and_inline_to_overflow() {
    let mut pg = fresh(64);
    let a = IvArray::new(0);
    a.insert(&mut pg, 7, b"short").unwrap();
    assert_eq!(a.get(&mut pg, 7).unwrap().as_deref(), Some(&b"short"[..]));
    // Replace with a value that must overflow (> INLINE_CAP), then back to small.
    let big = vec![b'x'; INLINE_CAP * 4 + 17];
    a.insert(&mut pg, 7, &big).unwrap();
    assert_eq!(a.get(&mut pg, 7).unwrap().unwrap(), big);
    a.insert(&mut pg, 7, b"tiny").unwrap();
    assert_eq!(a.get(&mut pg, 7).unwrap().as_deref(), Some(&b"tiny"[..]));
}

#[test]
fn large_value_roundtrips_via_overflow_chain() {
    let mut pg = fresh(64);
    let a = IvArray::new(0);
    // Several pages worth of value, with a recognizable pattern.
    let val: Vec<u8> = (0..CHAIN_PAYLOAD * 3 + 99)
        .map(|i| (i % 251) as u8)
        .collect();
    a.insert(&mut pg, 42, &val).unwrap();
    assert_eq!(a.get(&mut pg, 42).unwrap().unwrap(), val);
}

#[test]
fn dense_many_keys_roundtrip_across_directories() {
    let mut pg = fresh(256);
    let a = IvArray::new(0);
    // Well past one directory page (32 slots) ⇒ exercises the page table.
    let n = 5000u32;
    for i in 0..n {
        a.insert(&mut pg, i, format!("<node{i}>").as_bytes()).unwrap();
    }
    for i in 0..n {
        assert_eq!(
            a.get(&mut pg, i).unwrap().unwrap(),
            format!("<node{i}>").into_bytes(),
            "key {i}"
        );
    }
}

#[test]
fn sparse_keys_do_not_allocate_dense_space() {
    // A handful of widely-spaced keys must not require allocating a page per
    // key in between (only their directories exist).
    let mut pg = fresh(64);
    let a = IvArray::new(0);
    for &k in &[0u32, 1000, 1_000_000, 5_000_000] {
        a.insert(&mut pg, k, format!("v{k}").as_bytes()).unwrap();
    }
    for &k in &[0u32, 1000, 1_000_000, 5_000_000] {
        assert_eq!(a.get(&mut pg, k).unwrap().unwrap(), format!("v{k}").into_bytes());
    }
    // Far fewer pages than 5M slots would need if it were truly dense.
    assert!(pg.page_count() < 64, "sparse keys allocated too many pages: {}", pg.page_count());
}

#[test]
fn delete_clears_and_frees() {
    let mut pg = fresh(64);
    let a = IvArray::new(0);
    a.insert(&mut pg, 3, &vec![b'z'; INLINE_CAP * 2]).unwrap(); // overflow
    a.insert(&mut pg, 4, b"keep").unwrap();
    assert!(a.delete(&mut pg, 3).unwrap());
    assert_eq!(a.get(&mut pg, 3).unwrap(), None);
    // deleting again is a no-op false
    assert!(!a.delete(&mut pg, 3).unwrap());
    // unrelated key survives
    assert_eq!(a.get(&mut pg, 4).unwrap().as_deref(), Some(&b"keep"[..]));
}

#[test]
fn ivarray_persists_across_reopen() {
    let file;
    {
        let mut pg = fresh(64);
        let a = IvArray::new(0);
        for i in 0..1000u32 {
            a.insert(&mut pg, i, format!("s{i}").as_bytes()).unwrap();
        }
        // A big one too.
        a.insert(&mut pg, 2000, &vec![7u8; INLINE_CAP * 3]).unwrap();
        pg.flush();
        file = committed(&mut pg);
    }
    let mut pg = Pager::open(&file, None, 64).unwrap();
    let a = IvArray::new(0);
    assert_eq!(a.get(&mut pg, 500).unwrap().unwrap(), b"s500".to_vec());
    assert_eq!(a.get(&mut pg, 2000).unwrap().unwrap(), vec![7u8; INLINE_CAP * 3]);
}

#[test]
fn two_arrays_share_a_pager_via_distinct_root_slots() {
    // Distinct root slots ⇒ independent arrays in one file (as DiskStore uses
    // one slot per id-keyed store).
    let mut pg = fresh(64);
    let id2ent = IvArray::new(0);
    let id2pred = IvArray::new(1);
    id2ent.insert(&mut pg, 1, b"<entity1>").unwrap();
    id2pred.insert(&mut pg, 1, b"<pred1>").unwrap();
    assert_eq!(id2ent.get(&mut pg, 1).unwrap().as_deref(), Some(&b"<entity1>"[..]));
    assert_eq!(id2pred.get(&mut pg, 1).unwrap().as_deref(), Some(&b"<pred1>"[..]));
}

#[test]
fn a_log_gives_back_its_pages() {
    let mut a = vec![0u8; PAGE_SIZE];
    a[5] = 3;
    let log = write_wal(&vec![
        PageImage { id: 4, data: a },
        PageImage { id: 9, data: vec![8u8; PAGE_SIZE] },
    ]);
    let back = parse_wal(&log).unwrap();
    assert_eq!(back.len(), 2);
    assert_eq!((back[0].id, back[0].data[5]), (4, 3));
    assert_eq!((back[1].id, back[1].data[0]), (9, 8));
    assert!(parse_wal(&log[..log.len() - 1]).is_none());
}

#[test]
fn a_foreign_file_is_refused() {
    let r = Pager::open(&vec![7u8; PAGE_SIZE], None, 16);
    match r.err() {
        Some(GStoreError::Database(m)) => assert_eq!(m, "not a gStore KV file"),
        other => panic!("{other:?}"),
    }
    assert!(matches!(Pager::open(&[1, 2, 3], None, 16).err(), Some(GStoreError::Io(_))));
}

#[test]
fn a_key_beyond_the_array_is_refused() {
    let mut pg = fresh(16);
    let a = IvArray::new(0);
    assert!(a.insert(&mut pg, 33_554_432, b"x").is_err());
    assert!(a.insert(&mut pg, 33_554_431, b"x").is_ok());
}
