use wovenhat::ata::{self, identify_sector_count, AtaPio, PortIo, LBA28_SECTORS};
use wovenhat::block::Error;

#[test]
fn identify_decoding() {
    assert!(ata::self_test());
    let mut words = [0u16; 256];
    words[49] = 1 << 9;
    words[60] = 0x0800;
    assert_eq!(identify_sector_count(&words), Some(0x0800));
    words[61] = 0xffff;
    assert_eq!(identify_sector_count(&words), Some(LBA28_SECTORS));
}

struct FakeDrive {
    status: u8,
    words: Vec<u16>,
    writes: Vec<(u16, u8)>,
}

impl PortIo for FakeDrive {
    fn inb(&mut self, port: u16) -> u8 {
        if port == 0x1f7 { self.status } else { 0 }
    }
    fn inw(&mut self, _port: u16) -> u16 {
        if self.words.is_empty() { 0 } else { self.words.remove(0) }
    }
    fn outb(&mut self, port: u16, value: u8) {
        self.writes.push((port, value));
    }
}

#[test]
fn identify_and_read_through_ports() {
    let mut words = vec![0u16; 256];
    words[49] = 1 << 9;
    words[60] = 100;
    let mut drive = FakeDrive { status: 0x08, words, writes: Vec::new() };
    let mut disk = AtaPio::identify(&mut drive).expect("disk answers");
    assert_eq!(disk.sector_count(), 100);
    drive.words = (0..256u16).map(|i| i | 0x0100).collect();
    let mut sector = [0u8; 512];
    assert_eq!(disk.read_sector(&mut drive, 0x12, &mut sector), Ok(()));
    assert_eq!(&sector[..4], &[0x00, 0x01, 0x01, 0x01]);
    assert!(drive.writes.contains(&(0x1f3, 0x12)));
    assert_eq!(disk.read_sector(&mut drive, 100, &mut sector), Err(Error::OutOfBounds));
    let mut short = [0u8; 4];
    assert_eq!(disk.read_sector(&mut drive, 0, &mut short), Err(Error::InvalidBuffer));
    assert_eq!(disk.write_sector(0, &sector), Err(Error::ReadOnly));
    let mut silent = FakeDrive { status: 0, words: Vec::new(), writes: Vec::new() };
    assert!(AtaPio::identify(&mut silent).is_none());
}
