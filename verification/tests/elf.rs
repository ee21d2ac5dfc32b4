use wovenhat::elf::{parse, Error};

fn put(bytes: &mut [u8], at: usize, value: u64, width: usize) {
    for i in 0..width {
        bytes[at + i] = (value >> (8 * i)) as u8;
    }
}

fn image(entry: u64) -> [u8; 120] {
    let mut bytes = [0u8; 120];
    bytes[0..7].copy_from_slice(&[0x7f, b'E', b'L', b'F', 2, 1, 1]);
    put(&mut bytes, 16, 2, 2);
    put(&mut bytes, 18, 0x3e, 2);
    put(&mut bytes, 20, 1, 4);
    put(&mut bytes, 24, entry, 8);
    put(&mut bytes, 32, 64, 8);
    put(&mut bytes, 52, 64, 2);
    put(&mut bytes, 54, 56, 2);
    put(&mut bytes, 56, 1, 2);
    put(&mut bytes, 64, 1, 4);
    put(&mut bytes, 68, 5, 4);
    put(&mut bytes, 72, 0, 8);
    put(&mut bytes, 80, 0x400000, 8);
    put(&mut bytes, 96, 120, 8);
    put(&mut bytes, 104, 120, 8);
    put(&mut bytes, 112, 0x1000, 8);
    bytes
}

#[test]
fn entry_inside_the_executable_segment_is_accepted() {
    let parsed = parse(&image(0x400077)).ok().unwrap();
    assert_eq!(parsed.segment_count(), 1);
}

#[test]
fn entry_past_the_segment_is_refused() {
    assert!(matches!(parse(&image(0x400078)), Err(Error::InvalidEntry)));
}

#[test]
fn short_and_foreign_images_are_refused() {
    assert!(matches!(parse(&[0u8; 10]), Err(Error::Truncated)));
    let mut bytes = image(0x400077);
    bytes[18] = 0x28;
    assert!(matches!(parse(&bytes), Err(Error::InvalidHeader)));
}
