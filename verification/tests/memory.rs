use wovenhat::memory::{init, self_test, stats, FrameAllocator, InitError, Region, MAX_USABLE_REGIONS};

fn usable(start: u64, end: u64) -> Region {
    Region { start, end, usable: true }
}

fn reserved(start: u64, end: u64) -> Region {
    Region { start, end, usable: false }
}

#[test]
fn regions_are_shrunk_to_whole_frames() {
    let mut allocator = FrameAllocator::empty();
    let regions = [usable(0x1001, 0x5000), reserved(0x5000, 0x9000), usable(0x9000, 0xb800)];
    assert_eq!(init(&mut allocator, &regions), Ok(()));
    let s = stats(&allocator);
    assert_eq!(s.usable_regions, 2);
    assert_eq!(s.total_frames, 3 + 2);
    assert_eq!(s.allocated_frames, 0);
    assert_eq!(s.remaining_frames, 5);
    assert!(allocator.contains(0x2000));
    assert!(!allocator.contains(0x1000));
    assert!(!allocator.contains(0x6000));
    assert!(allocator.contains(0xa000));
    assert!(!allocator.contains(0xb000));
}

#[test]
fn frames_come_out_in_order_across_regions() {
    let mut allocator = FrameAllocator::empty();
    let regions = [usable(0x1000, 0x3000), usable(0x8000, 0x9000)];
    assert_eq!(init(&mut allocator, &regions), Ok(()));
    assert_eq!(allocator.allocate_frame(), Some(0x1000));
    assert_eq!(allocator.allocate_frame(), Some(0x2000));
    assert_eq!(allocator.allocate_frame(), Some(0x8000));
    assert_eq!(allocator.allocate_frame(), None);
    assert_eq!(allocator.allocate_frame(), None);
    let s = stats(&allocator);
    assert_eq!(s.allocated_frames, 3);
    assert_eq!(s.remaining_frames, 0);
}

#[test]
fn nothing_is_handed_out_before_init() {
    let mut allocator = FrameAllocator::empty();
    assert_eq!(allocator.allocate_frame(), None);
    assert!(!self_test(&mut allocator));
}

#[test]
fn second_init_is_refused() {
    let mut allocator = FrameAllocator::empty();
    assert_eq!(init(&mut allocator, &[usable(0, 0x4000)]), Ok(()));
    assert_eq!(init(&mut allocator, &[usable(0x10000, 0x20000)]), Err(InitError::AlreadyInitialized));
    assert_eq!(stats(&allocator).total_frames, 4);
}

#[test]
fn memory_map_without_whole_frames_is_refused() {
    let mut allocator = FrameAllocator::empty();
    let regions = [usable(0x1001, 0x1fff), reserved(0, 0x100000)];
    assert_eq!(init(&mut allocator, &regions), Err(InitError::NoUsableFrames));
    assert_eq!(allocator.allocate_frame(), None);
}

#[test]
fn start_near_the_top_overflows() {
    let mut allocator = FrameAllocator::empty();
    let regions = [usable(u64::MAX - 10, u64::MAX)];
    assert_eq!(init(&mut allocator, &regions), Err(InitError::AddressOverflow));
}

#[test]
fn too_many_usable_regions_are_refused() {
    let mut allocator = FrameAllocator::empty();
    let mut regions = Vec::new();
    for i in 0..(MAX_USABLE_REGIONS as u64 + 1) {
        regions.push(usable(i * 0x2000, i * 0x2000 + 0x1000));
    }
    assert_eq!(init(&mut allocator, &regions), Err(InitError::TooManyUsableRegions));
}

#[test]
fn self_test_hands_out_three_distinct_frames() {
    let mut allocator = FrameAllocator::empty();
    assert_eq!(init(&mut allocator, &[usable(0x100000, 0x104000)]), Ok(()));
    assert!(self_test(&mut allocator));
    assert_eq!(stats(&allocator).allocated_frames, 3);
    assert!(!self_test(&mut allocator));
}
