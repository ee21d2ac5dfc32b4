use wovenhat::block::BlockDevice;
use wovenhat::fat32::{
    create_path_file, encode_short_name, find_root, mkdir_path, mount, mutable_fat_disk,
    range_self_test, read_file, resolve_path, self_test, test_disk, Error,
};

#[test]
fn unaligned_range_and_eof() {
    assert!(range_self_test());
}

#[test]
fn existing_fat32_regressions() {
    assert!(self_test());
}

#[test]
fn short_names_are_padded_and_upper_cased() {
    assert_eq!(encode_short_name("kernel.bin"), Some(*b"KERNEL  BIN"));
    assert_eq!(encode_short_name("a"), Some(*b"A          "));
    assert_eq!(encode_short_name("toolongname.txt"), None);
    assert_eq!(encode_short_name(""), None);
}

#[test]
fn written_file_reads_back() {
    let mut disk = mutable_fat_disk();
    let volume = mount(&mut disk).expect("volume mounts");
    assert!(mkdir_path(&mut disk, volume, "notes").is_ok());
    assert!(create_path_file(&mut disk, volume, "notes/todo.txt", b"write tests").is_ok());
    let entry = resolve_path(&mut disk, volume, "notes/todo.txt").expect("file exists");
    let mut out = [0u8; 16];
    assert_eq!(read_file(&mut disk, volume, entry, &mut out), Ok(11));
    assert_eq!(&out[..11], b"write tests");
    assert_eq!(mkdir_path(&mut disk, volume, "notes"), Ok(()));
    assert_eq!(resolve_path(&mut disk, volume, "notes/missing.txt"), Err(Error::NotFound));
}

#[test]
fn read_only_volume_refuses_writes() {
    let mut disk = test_disk(true, false);
    assert!(disk.is_read_only());
    let volume = mount(&mut disk).expect("volume mounts");
    assert!(find_root(&mut disk, volume, b"KERNEL  BIN").is_ok());
    assert!(create_path_file(&mut disk, volume, "new.txt", b"x").is_err());
}

#[test]
fn leading_slash_resolves_the_same() {
    let mut disk = test_disk(true, false);
    let volume = mount(&mut disk).unwrap();
    let plain = resolve_path(&mut disk, volume, "kernel.bin");
    assert!(plain.is_ok());
    assert_eq!(resolve_path(&mut disk, volume, "/kernel.bin"), plain);
    assert_eq!(resolve_path(&mut disk, volume, "/missing.txt"), resolve_path(&mut disk, volume, "missing.txt"));
}

#[test]
fn reading_across_clusters_gives_the_file_bytes() {
    let mut disk = test_disk(true, false);
    let volume = mount(&mut disk).unwrap();
    let entry = find_root(&mut disk, volume, b"KERNEL  BIN").unwrap();
    let mut data = [0u8; 32];
    assert_eq!(wovenhat::fat32::read_file_at(&mut disk, volume, entry, 500, &mut data), Ok(32));
    assert_eq!(&data[..12], &[b'A'; 12]);
    assert_eq!(&data[12..], &[b'B'; 20]);
}

#[test]
fn making_an_existing_directory_again_succeeds() {
    let mut disk = mutable_fat_disk();
    let volume = mount(&mut disk).unwrap();
    assert_eq!(mkdir_path(&mut disk, volume, "docs/notes"), Ok(()));
    assert_eq!(mkdir_path(&mut disk, volume, "/docs/./notes/"), Ok(()));
    assert!(resolve_path(&mut disk, volume, "docs/notes").is_ok());
    assert_eq!(mkdir_path(&mut disk, volume, "docs/../x"), Err(Error::NameTooLong));
    assert_eq!(mkdir_path(&mut disk, volume, "///"), Ok(()));
}
