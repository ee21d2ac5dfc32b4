use wovenhat::paging::{
    file_frame_references, map_user_range_in, page_range, protect_user_range_in, share_user_range_in, try_break_cow,
    unmap_user_range_in, user_flags, CowTable, MapRangeError, PageMapper, TableMapper,
    NO_EXECUTE, PRESENT, USER_ACCESSIBLE, WRITABLE,
};

#[test]
fn sharing_counts_references() {
    let mut table = CowTable::empty();
    assert_eq!(table.refcount(0x1000), 1);
    assert_eq!(table.share(0x1000), Ok(()));
    assert_eq!(table.refcount(0x1000), 2);
    assert_eq!(table.share(0x1000), Ok(()));
    assert_eq!(file_frame_references(&table, 0x1000), 3);
    assert!(!table.release(0x1000));
    assert!(!table.release(0x1000));
    assert_eq!(table.refcount(0x1000), 1);
    assert!(table.release(0x1000));
    assert!(table.release(0x2000));
}

#[test]
fn share_then_release_restores_counts() {
    let mut table = CowTable::empty();
    table.share(0x5000).unwrap();
    let before = table.refcount(0x5000);
    table.share(0x5000).unwrap();
    assert!(!table.release(0x5000));
    assert_eq!(table.refcount(0x5000), before);
}

#[test]
fn full_table_refuses_new_frames() {
    let mut table = CowTable::empty();
    for frame in 0..1024u64 {
        assert_eq!(table.share(frame * 4096), Ok(()));
    }
    assert_eq!(table.share(0xdead_0000), Err(MapRangeError::OutOfFrames));
    assert_eq!(table.share(0), Ok(()));
}

#[test]
fn flags_and_ranges() {
    assert_eq!(user_flags(true, false), PRESENT | USER_ACCESSIBLE | WRITABLE | NO_EXECUTE);
    assert_eq!(user_flags(false, true), PRESENT | USER_ACCESSIBLE);
    assert_eq!(page_range(0x4000, 0x2000), Ok((0x4000, 0x5000)));
    assert_eq!(page_range(0x4001, 0x1000), Err(MapRangeError::InvalidRange));
    assert_eq!(page_range(0x4000, 0), Err(MapRangeError::InvalidRange));
    assert_eq!(page_range(u64::MAX - 0xfff, 0x2000), Err(MapRangeError::InvalidRange));
}

const USER: u64 = PRESENT | USER_ACCESSIBLE;

/// A mapper whose first frame, `first`, is mapped at `pages` with `flags`.
fn mapper_with(first: u64, pages: &[u64], flags: u64) -> TableMapper {
    let mut mapper = TableMapper::new(first);
    let frame = mapper.allocate_frame().unwrap();
    for &page in pages {
        assert!(mapper.map_to(page, frame, flags));
    }
    mapper
}

#[test]
fn copy_on_write_breaks_sharing() {
    let mut table = CowTable::empty();
    table.share(0x9000).unwrap();
    let mut mapper = mapper_with(0x9000, &[0x4000_0000, 0x4000_1000], USER | NO_EXECUTE);
    // The shared frame is copied to a fresh one, mapped writable.
    assert!(try_break_cow(&mut table, &mut mapper, 0x4000_0123));
    assert_eq!(mapper.copies, 1);
    assert_eq!(mapper.lookup(0x4000_0000), Some((0xa000, USER | WRITABLE | NO_EXECUTE)));
    assert_eq!(table.refcount(0x9000), 1);
    // The last sharer keeps its frame and only regains write access.
    assert!(try_break_cow(&mut table, &mut mapper, 0x4000_1fff));
    assert_eq!(mapper.copies, 1);
    assert_eq!(mapper.lookup(0x4000_1000), Some((0x9000, USER | WRITABLE | NO_EXECUTE)));
    assert!(mapper.freed.is_empty());
    // A writable page, or an unmapped one, is no copy-on-write fault.
    assert!(!try_break_cow(&mut table, &mut mapper, 0x4000_1000));
    assert!(!try_break_cow(&mut table, &mut mapper, 0x5000_0000));
    assert_eq!(mapper.lookup(0x4000_1000), Some((0x9000, USER | WRITABLE | NO_EXECUTE)));
}

#[test]
fn sharing_a_range_counts_each_page() {
    let mut table = CowTable::empty();
    let mut source = mapper_with(0x7000, &[0x4000, 0x5000], USER | WRITABLE);
    let mut destination = TableMapper::new(0x10_0000);
    assert_eq!(
        share_user_range_in(&mut table, 1, &mut source, 1, &mut destination, 0x4000, 0x1000, true, false),
        Err(MapRangeError::InvalidRange)
    );
    assert_eq!(
        share_user_range_in(&mut table, 1, &mut source, 2, &mut destination, 0x4000, 0x2000, true, false),
        Ok(())
    );
    // Both pages map the same frame: two more references, read-only on both sides.
    assert_eq!(table.refcount(0x7000), 3);
    assert_eq!(destination.lookup(0x4000), Some((0x7000, USER | NO_EXECUTE)));
    assert_eq!(destination.lookup(0x5000), Some((0x7000, USER | NO_EXECUTE)));
    assert_eq!(source.lookup(0x4000), Some((0x7000, USER | NO_EXECUTE)));
    // A destination page already mapped stops the sharing and changes nothing there.
    assert_eq!(
        share_user_range_in(&mut table, 1, &mut source, 2, &mut destination, 0x4000, 0x1000, true, false),
        Err(MapRangeError::AlreadyMapped)
    );
    assert_eq!(table.refcount(0x7000), 3);
    // A source page that is not mapped stops it too; the pages shared before it are
    // taken back.
    let mut other = TableMapper::new(0x10_0000);
    assert_eq!(
        share_user_range_in(&mut table, 1, &mut source, 3, &mut other, 0x5000, 0x2000, false, false),
        Err(MapRangeError::NotMapped)
    );
    assert_eq!(other.lookup(0x5000), None);
    assert_eq!(table.refcount(0x7000), 3);
}

#[test]
fn mapping_a_range_maps_fresh_frames() {
    let mut mapper = TableMapper::new(0xb000);
    let flags = USER | WRITABLE | NO_EXECUTE;
    assert_eq!(map_user_range_in(&mut mapper, 0x4000, 0x2000, true, false), Ok(()));
    assert_eq!(mapper.lookup(0x4000), Some((0xb000, flags)));
    assert_eq!(mapper.lookup(0x5000), Some((0xc000, flags)));
    assert_eq!(map_user_range_in(&mut mapper, 0x4001, 0x1000, true, false), Err(MapRangeError::InvalidRange));
    // The second page of this range is taken: the first is unmapped again.
    assert_eq!(map_user_range_in(&mut mapper, 0x3000, 0x2000, false, false), Err(MapRangeError::AlreadyMapped));
    assert_eq!(mapper.lookup(0x3000), None);
    assert_eq!(mapper.freed, vec![0xd000]);
    assert_eq!(mapper.lookup(0x4000), Some((0xb000, flags)));
}

#[test]
fn protecting_a_range_updates_each_page() {
    let mut mapper = TableMapper::new(0xb000);
    assert_eq!(map_user_range_in(&mut mapper, 0x4000, 0x3000, true, false), Ok(()));
    assert_eq!(protect_user_range_in(&mut mapper, 0x4000, 0x3000, false, true), Ok(()));
    assert_eq!(mapper.lookup(0x4000), Some((0xb000, USER)));
    assert_eq!(mapper.lookup(0x6000), Some((0xd000, USER)));
    assert_eq!(protect_user_range_in(&mut mapper, 0x4000, 0, false, true), Err(MapRangeError::InvalidRange));
    assert_eq!(protect_user_range_in(&mut mapper, 0x6000, 0x2000, true, true), Err(MapRangeError::NotMapped));
    assert_eq!(mapper.lookup(0x6000), Some((0xd000, USER | WRITABLE)));
}

#[test]
fn unmapping_a_range_releases_its_frames() {
    let mut table = CowTable::empty();
    table.share(0x7000).unwrap();
    let mut mapper = mapper_with(0x7000, &[0x4000, 0x5000], USER);
    // Both pages map the shared frame: the first unmap drops a reference, the second
    // frees it.
    assert_eq!(unmap_user_range_in(&mut table, &mut mapper, 0x4000, 0x2000), Ok(()));
    assert_eq!(mapper.freed, vec![0x7000]);
    assert_eq!(table.refcount(0x7000), 1);
    assert_eq!(mapper.lookup(0x4000), None);
    assert_eq!(unmap_user_range_in(&mut table, &mut mapper, 0x4000, 0x1000), Err(MapRangeError::NotMapped));
    assert_eq!(unmap_user_range_in(&mut table, &mut mapper, 0x4000, 0x1001), Err(MapRangeError::InvalidRange));
}
