use wovenhat::page_cache::{boundary_test, eviction_and_failure_test};

#[test]
fn cross_page_eof_and_hits() {
    assert!(boundary_test());
}

#[test]
fn lru_failed_load_and_invalidation() {
    assert!(eviction_and_failure_test());
}

#[test]
fn invalidated_pages_are_loaded_again() {
    let mut cache = wovenhat::page_cache::PageCache::<4>::new();
    let mut loads = 0;
    let mut bytes = [0u8; 8];
    let loader = |_at: usize, page: &mut [u8]| -> Result<usize, wovenhat::block::Error> {
        page.fill(7);
        Ok(page.len())
    };
    assert_eq!(cache.read("file", 0, &mut bytes, loader), Ok(8));
    loads += 1;
    assert_eq!(cache.read("file", 0, &mut bytes, loader), Ok(8));
    assert_eq!(cache.stats().misses, loads);
    cache.invalidate();
    assert_eq!(cache.read("file", 0, &mut bytes, loader), Ok(8));
    assert_eq!(cache.stats().misses, loads + 1);
    assert_eq!(bytes, [7; 8]);
}
