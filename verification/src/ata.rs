//! The primary ATA disk driven by programmed I/O: identification and sector reads.
use vstd::prelude::*;

use crate::block::{Error, SECTOR_SIZE};

verus! {

pub const DATA: u16 = 0x1f0;
pub const SECTOR_COUNT: u16 = 0x1f2;
pub const LBA_LOW: u16 = 0x1f3;
pub const LBA_MID: u16 = 0x1f4;
pub const LBA_HIGH: u16 = 0x1f5;
pub const DRIVE: u16 = 0x1f6;
pub const STATUS_COMMAND: u16 = 0x1f7;
pub const ALT_STATUS: u16 = 0x3f6;

pub const COMMAND_IDENTIFY: u8 = 0xec;
pub const COMMAND_READ_SECTORS: u8 = 0x20;
pub const STATUS_ERR: u8 = 1;
pub const STATUS_DRQ: u8 = 8;
pub const STATUS_DF: u8 = 32;
pub const STATUS_BSY: u8 = 128;

/// Status polls before a command is given up.
pub const POLL_LIMIT: usize = 100_000;

/// Sectors that 28-bit addressing reaches.
pub const LBA28_SECTORS: u64 = 0x1000_0000;

/// The I/O ports of the machine.
pub trait PortIo {
    fn inb(&mut self, port: u16) -> u8;

    fn inw(&mut self, port: u16) -> u16;

    fn outb(&mut self, port: u16, value: u8);
}

/// The sector count an IDENTIFY answer announces: none unless the device supports
/// LBA addressing (bit 9 of word 49); words 60 and 61 hold the count, low word
/// first; zero means none, and more than 28-bit addressing reaches is capped.
pub open spec fn spec_identify_sector_count(words: Seq<u16>) -> Option<u64> {
    let sectors = words[60] + words[61] * 0x10000;
    if words[49] & 0x200 == 0 || sectors == 0 {
        None
    } else if sectors < LBA28_SECTORS {
        Some(sectors as u64)
    } else {
        Some(LBA28_SECTORS)
    }
}

pub fn identify_sector_count(words: &[u16; 256]) -> (sectors: Option<u64>)
    ensures
        sectors == spec_identify_sector_count(words@),
{
    if words[49] & 0x200 == 0 {
        return None;
    }
    let sectors = words[60] as u64 + words[61] as u64 * 0x10000;
    if sectors == 0 {
        None
    } else if sectors < LBA28_SECTORS {
        Some(sectors)
    } else {
        Some(LBA28_SECTORS)
    }
}

/// Waits until the device is not busy; false on an error or device fault, or when
/// it stays busy.
fn poll_not_busy<P: PortIo>(ports: &mut P) -> bool {
    let mut i: usize = 0;
    while i < POLL_LIMIT
        decreases POLL_LIMIT - i,
    {
        let status = ports.inb(STATUS_COMMAND);
        if status & (STATUS_ERR | STATUS_DF) != 0 {
            return false;
        }
        if status & STATUS_BSY == 0 {
            return true;
        }
        i = i + 1;
    }
    false
}

/// Waits until the device has data for us; false on an error or device fault, or
/// when none comes.
fn poll_data_ready<P: PortIo>(ports: &mut P) -> bool {
    let mut i: usize = 0;
    while i < POLL_LIMIT
        decreases POLL_LIMIT - i,
    {
        let status = ports.inb(STATUS_COMMAND);
        if status & (STATUS_ERR | STATUS_DF) != 0 {
            return false;
        }
        if status & STATUS_BSY == 0 && status & STATUS_DRQ != 0 {
            return true;
        }
        i = i + 1;
    }
    false
}

fn io_delay<P: PortIo>(ports: &mut P) {
    let mut i: usize = 0;
    while i < 4
        decreases 4 - i,
    {
        let _ = ports.inb(ALT_STATUS);
        i = i + 1;
    }
}

/// The primary master disk and how many sectors it has.
pub struct AtaPio {
    sectors: u64,
}

impl AtaPio {
    pub closed spec fn spec_sectors(&self) -> u64 {
        self.sectors
    }

    /// Asks the primary master to identify itself: a disk that answers, is not a
    /// packet device, and supports LBA addressing is taken with the sector count it
    /// announces.
    pub fn identify<P: PortIo>(ports: &mut P) -> (disk: Option<AtaPio>)
        ensures
            disk matches Some(d) ==> 0 < d.spec_sectors() <= LBA28_SECTORS,
    {
        ports.outb(DRIVE, 0xa0);
        io_delay(ports);
        ports.outb(SECTOR_COUNT, 0);
        ports.outb(LBA_LOW, 0);
        ports.outb(LBA_MID, 0);
        ports.outb(LBA_HIGH, 0);
        ports.outb(STATUS_COMMAND, COMMAND_IDENTIFY);
        if ports.inb(STATUS_COMMAND) == 0 || !poll_data_ready(ports) {
            return None;
        }
        if ports.inb(LBA_MID) != 0 || ports.inb(LBA_HIGH) != 0 {
            return None;
        }
        let mut words = [0u16; 256];
        let mut i: usize = 0;
        while i < 256
            decreases 256 - i,
        {
            words[i] = ports.inw(DATA);
            i = i + 1;
        }
        match identify_sector_count(&words) {
            Some(sectors) => Some(AtaPio { sectors }),
            None => None,
        }
    }

    pub fn sector_count(&self) -> (count: u64)
        ensures
            count == self.spec_sectors(),
    {
        self.sectors
    }

    /// Reads the sector at `lba` into `sector`, a word at a time, low byte first.
    pub fn read_sector<P: PortIo>(&mut self, ports: &mut P, lba: u64, sector: &mut [u8]) -> (result: Result<(), Error>)
        ensures
            final(self).spec_sectors() == old(self).spec_sectors(),
            final(sector)@.len() == old(sector)@.len(),
            old(sector)@.len() != SECTOR_SIZE ==> result == Err::<(), Error>(Error::InvalidBuffer),
            old(sector)@.len() == SECTOR_SIZE && (lba >= old(self).spec_sectors() || lba >= LBA28_SECTORS) ==> result
                == Err::<(), Error>(Error::OutOfBounds),
            old(sector)@.len() == SECTOR_SIZE && lba < old(self).spec_sectors() && lba < LBA28_SECTORS ==> (result
                is Ok || result == Err::<(), Error>(Error::DeviceFault)),
            result is Err ==> final(sector)@ == old(sector)@,
    {
        if sector.len() != SECTOR_SIZE {
            return Err(Error::InvalidBuffer);
        }
        if lba >= self.sectors || lba >= LBA28_SECTORS {
            return Err(Error::OutOfBounds);
        }
        if !poll_not_busy(ports) {
            return Err(Error::DeviceFault);
        }
        ports.outb(DRIVE, 0xe0 | ((lba / 0x100_0000) as u8 & 0x0f));
        ports.outb(SECTOR_COUNT, 1);
        ports.outb(LBA_LOW, (lba % 0x100) as u8);
        ports.outb(LBA_MID, (lba / 0x100 % 0x100) as u8);
        ports.outb(LBA_HIGH, (lba / 0x1_0000 % 0x100) as u8);
        ports.outb(STATUS_COMMAND, COMMAND_READ_SECTORS);
        if !poll_data_ready(ports) {
            return Err(Error::DeviceFault);
        }
        let mut index: usize = 0;
        while index < 256
            invariant
                sector@.len() == SECTOR_SIZE,
                index <= 256,
            decreases 256 - index,
        {
            let word = ports.inw(DATA);
            sector[index * 2] = (word % 0x100) as u8;
            sector[index * 2 + 1] = (word / 0x100) as u8;
            index = index + 1;
        }
        Ok(())
    }

    /// The driver does not write.
    pub fn write_sector(&mut self, lba: u64, sector: &[u8]) -> (result: Result<(), Error>)
        ensures
            result == Err::<(), Error>(Error::ReadOnly),
    {
        Err(Error::ReadOnly)
    }
}

/// Identifies the primary master; its sector count if there is one.
pub fn init<P: PortIo>(ports: &mut P) -> (found: Option<(AtaPio, u64)>)
    ensures
        found matches Some((disk, count)) ==> count == disk.spec_sectors() && 0 < count <= LBA28_SECTORS,
{
    match AtaPio::identify(ports) {
        Some(disk) => {
            let sectors = disk.sectors;
            Some((disk, sectors))
        },
        None => None,
    }
}

/// The IDENTIFY decoding caps the announced count to 28-bit addressing, needs LBA
/// support and refuses a zero count.
pub fn self_test() -> (passed: bool)
    ensures
        passed,
{
    proof {
        assert(0x200u16 & 0x200u16 == 0x200u16) by (bit_vector);
        assert(0u16 & 0x200u16 == 0u16) by (bit_vector);
    }
    let mut words = [0u16; 256];
    words[49] = 0x200;
    words[60] = 0x5678;
    words[61] = 0x1234;
    let valid = match identify_sector_count(&words) {
        Some(count) => count == LBA28_SECTORS,
        None => false,
    };
    words[49] = 0;
    let requires_lba = identify_sector_count(&words).is_none();
    words[49] = 0x200;
    words[60] = 0;
    words[61] = 0;
    let zero_refused = identify_sector_count(&words).is_none();
    valid && requires_lba && zero_refused
}

} // verus!
