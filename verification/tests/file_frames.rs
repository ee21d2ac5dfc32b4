use wovenhat::file_frames::{same_page, FrameCache, Key, MemoryStore};

/// A store for file 5 at generation 1, version 9, of `length` zero bytes; frames from
/// 0x10000 on; a frame reads as 0xaa bytes.
fn store_with(length: usize) -> MemoryStore {
    let mut store = MemoryStore::new((5, 1, 9), vec![0; length], 0x10000);
    store.fill = 0xaa;
    store
}

fn key(count: usize, shared: bool) -> Key {
    Key { node: 1, generation: 2, version: 3, offset: 4096, count, shared, snapshot: 0 }
}

#[test]
fn shared_pages_match_whatever_their_length() {
    assert!(same_page(key(10, true), key(20, true)));
    assert!(!same_page(key(10, false), key(20, false)));
    assert!(same_page(key(10, false), key(10, false)));
    assert!(!same_page(key(10, true), key(10, false)));
}

#[test]
fn second_mapping_reuses_the_frame() {
    let mut cache = FrameCache::new();
    let mut store = store_with(8192);
    assert!(cache.map(&mut store, 1, 0x4000, 7, 1, 0, 4096, false));
    assert!(cache.map(&mut store, 1, 0x5000, 7, 1, 0, 4096, false));
    assert_eq!(store.reads, 1);
    assert_eq!(store.mapping(0), Some((1, 0x4000, 0x10000, false)));
    assert_eq!(store.mapping(1), Some((1, 0x5000, 0x10000, false)));
    // A stale generation maps nothing.
    assert!(!cache.map(&mut store, 1, 0x6000, 7, 2, 0, 4096, false));
    assert_eq!(store.mapping(2), None);
    assert_eq!(cache.reclaim_unused(&mut store), 1);
    assert_eq!(store.released, vec![0x10000]);
}

#[test]
fn writes_reach_shared_pages() {
    let mut cache = FrameCache::new();
    let mut store = store_with(100);
    assert!(cache.map(&mut store, 1, 0x4000, 7, 1, 0, 100, true));
    cache.update(&mut store, 5, 1, 90, &[1, 2, 3, 4, 5, 6, 7, 8, 9, 10, 11, 12, 13, 14, 15, 16, 17, 18, 19, 20]);
    assert_eq!(store.writes, vec![(0x10000, 90, (1..=20).collect::<Vec<u8>>())]);
    let mut seen = [0u8; 8];
    cache.overlay(&mut store, 5, 1, 106, &mut seen);
    assert_eq!(seen, [0xaa, 0xaa, 0xaa, 0xaa, 0, 0, 0, 0]);
    cache.replace(&mut store, 5, 1, &[7; 10]);
    let last = store.writes.last().unwrap();
    assert_eq!(last.1, 0);
    assert_eq!(&last.2[..10], &[7; 10]);
    assert!(last.2[10..].iter().all(|b| *b == 0));
}

#[test]
fn mapping_records_the_cached_frame() {
    let mut cache = FrameCache::new();
    let mut store = MemoryStore::new((5, 1, 9), (0..100u8).collect(), 0x20000);
    assert!(cache.map(&mut store, 1, 0x4000, 7, 1, 0, 100, true));
    assert!(cache.map(&mut store, 2, 0x8000, 7, 1, 0, 100, true));
    // Both mappings go through the one cached frame.
    assert_eq!(store.mapping(0), Some((1, 0x4000, 0x20000, true)));
    assert_eq!(store.mapping(1), Some((2, 0x8000, 0x20000, true)));
    // A replaced file maps nothing.
    assert!(!cache.map(&mut store, 1, 0x6000, 7, 2, 0, 100, true));
    assert_eq!(store.mapping(2), None);
}
