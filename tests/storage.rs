use rowstore::arena::{BlobHeap, RowArena};
use rowstore::StorageError;

#[test]
fn row_arena_grows_geometrically() {
    let mut a = RowArena::new();
    assert_eq!(a.capacity_bytes(), 32);
    assert_eq!(a.append(&[1u8; 20]), 0);
    assert_eq!(a.capacity_bytes(), 32);
    assert_eq!(a.append(&[2u8; 20]), 20);
    assert_eq!(a.capacity_bytes(), 64);
    assert_eq!(a.append(&[3u8; 100]), 40);
    assert_eq!(a.capacity_bytes(), 140);
    assert_eq!(a.len(), 140);
    assert_eq!(a.read(18, 4), Ok(&[1u8, 1, 2, 2][..]));
    assert_eq!(a.read(139, 2), Err(StorageError::OutOfBounds));
}

#[test]
fn blob_heap_aligns_and_prefixes_payloads() {
    let mut h = BlobHeap::new();
    assert_eq!(h.capacity_bytes(), 16);
    assert_eq!(h.append(b"abc"), 0);
    assert_eq!(h.len(), 5);
    assert_eq!(h.append(b"x"), 6);
    assert_eq!(h.len(), 9);
    assert_eq!(h.read(0), Ok(&b"abc"[..]));
    assert_eq!(h.read(6), Ok(&b"x"[..]));
    assert_eq!(h.read(1), Err(StorageError::CorruptHeap));
    assert_eq!(h.read(8), Err(StorageError::CorruptHeap));
    assert_eq!(h.read(100), Err(StorageError::CorruptHeap));
    assert_eq!(h.append(&[7u8; 20]), 10);
    assert_eq!(h.capacity_bytes(), 32);
    assert_eq!(h.read(10), Ok(&[7u8; 20][..]));
}

#[test]
fn blob_heap_reads_empty_payload() {
    let mut h = BlobHeap::new();
    assert_eq!(h.append(b""), 0);
    assert_eq!(h.read(0), Ok(&b""[..]));
}
