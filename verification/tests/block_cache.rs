use wovenhat::block::{BlockDevice, Error, SECTOR_SIZE};
use wovenhat::block_cache::{
    failure_recovery_test, reuse_and_eviction_test, same_bytes, validation_and_bypass_test,
    CachedDevice, Probe,
};

#[test]
fn reuses_reads_coalesces_writes_and_evicts_lru() {
    assert!(reuse_and_eviction_test());
}

#[test]
fn retains_data_on_io_failure_and_retries() {
    assert!(failure_recovery_test());
}

#[test]
fn validates_and_supports_zero_capacity() {
    assert!(validation_and_bypass_test());
}

#[test]
fn cached_view_matches_device_after_flush() {
    let mut cache = CachedDevice::<Probe, 2>::new(Probe::new());
    let data = [5u8; SECTOR_SIZE];
    assert!(cache.write_sector(3, &data).is_ok());
    assert_eq!(cache.inner().writes, 0);
    assert!(cache.flush().is_ok());
    assert_eq!(cache.inner().writes, 1);
    let mut out = [0u8; SECTOR_SIZE];
    assert!(cache.inner_mut().disk.read_sector(3, &mut out).is_ok());
    assert!(same_bytes(&out, &data));
    assert_eq!(cache.read_sector(9, &mut out), Err(Error::OutOfBounds));
    assert_eq!(cache.sector_count(), 4);
}
