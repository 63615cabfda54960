use expanse::blobmap::{ArenaError, BlobArena, DEFAULT_CHUNK_SIZE};
use expanse::map::ExpanseMap;

#[test]
fn map_insert_get_remove_and_range() {
    let mut m = ExpanseMap::new();
    assert_eq!(m.insert(5, 50), None);
    assert_eq!(m.insert(1, 10), None);
    assert_eq!(m.insert(9, 90), None);
    assert_eq!(m.insert(5, 55), Some(50));
    assert_eq!(m.len(), 3);
    assert_eq!(m.get(5), Some(55));
    assert_eq!(m.get(4), None);
    assert!(m.contains_key(9));
    assert_eq!(m.range_entries(2, 9), vec![(5, 55), (9, 90)]);
    assert_eq!(m.range_entries(9, 2), Vec::<(u64, u64)>::new());
    assert_eq!(m.remove(1), Some(10));
    assert_eq!(m.remove(1), None);
    assert_eq!(m.len(), 2);
    assert_eq!(m.mem_used(), 32);
}

#[test]
fn arena_stores_and_returns_blobs() {
    let mut a = BlobArena::new(64);
    assert_eq!(a.chunk_size(), 64);
    let o1 = a.alloc_blob(b"hello").unwrap();
    let o2 = a.alloc_blob(&[7u8; 40]).unwrap();
    assert_eq!(a.get_blob_slice(o1).unwrap(), b"hello");
    assert_eq!(a.get_blob_slice(o2).unwrap(), vec![7u8; 40]);
    // 8-byte header plus payload, padded to 16: 16 then 48 bytes, which
    // fill the first chunk exactly; the next blob opens a second chunk.
    assert_eq!(o1, 0);
    assert_eq!(o2, 16);
    assert_eq!(a.mem_used(), 64);
    assert_eq!(a.alloc_blob(&[0u8; 57]), Err(ArenaError::PayloadTooLarge));
    assert_eq!(a.alloc_blob(&[0u8; 56]), Ok(64));
    assert_eq!(a.mem_used(), 128);
}

#[test]
fn arena_zero_chunk_size_is_one_byte_and_default_is_two_mib() {
    let a = BlobArena::new(0);
    assert_eq!(a.chunk_size(), 1);
    assert_eq!(DEFAULT_CHUNK_SIZE, 2 * 1024 * 1024);
    let mut b = BlobArena::new(DEFAULT_CHUNK_SIZE);
    let off = b.alloc_blob(b"").unwrap();
    assert_eq!(b.get_blob_slice(off).unwrap(), Vec::<u8>::new());
}
