use wovenhat::file_mapping::mapped_size;

#[test]
fn range_validation() {
    assert_eq!(mapped_size(4103, 4096, 7), Some(4096));
    assert_eq!(mapped_size(65536, 0, 65536), Some(65536));
    for (file, offset, length) in [
        (0, 0, 1),
        (4096, 0, 0),
        (4096, 1, 1),
        (4096, 4096, 1),
        (4096, 0, 4097),
        (70000, 0, 65537),
        (usize::MAX, usize::MAX - 4095, 4096),
    ] {
        assert_eq!(mapped_size(file, offset, length), None);
    }
}
