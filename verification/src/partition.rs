//! MBR partition tables and a device view of one partition.
use vstd::prelude::*;

use crate::block::{BlockDevice, Error as BlockError, SECTOR_SIZE};
use crate::elf::le32;

verus! {

/// Byte offset of the partition table in the boot sector.
pub const PARTITION_TABLE_OFFSET: usize = 446;

/// Size of one partition table entry.
pub const PARTITION_ENTRY_SIZE: usize = 16;

/// Entries in the partition table.
pub const PARTITION_COUNT: usize = 4;

/// A partition: where it starts, how long it is, and its type byte.
#[derive(Clone, Copy, PartialEq, Eq, Structural, Debug)]
pub struct Partition {
    pub start_lba: u64,
    pub sectors: u64,
    pub kind: u8,
}

/// Why a partition table was refused.
#[derive(Clone, Copy, PartialEq, Eq, Structural, Debug)]
pub enum Error {
    Block(BlockError),
    InvalidTable,
    OutOfBounds,
}

/// Byte offset of table entry `index`.
pub open spec fn entry_offset(index: int) -> int {
    PARTITION_TABLE_OFFSET + index * PARTITION_ENTRY_SIZE
}

/// The partition entry `index` of boot sector `sector` describes.
pub open spec fn entry_partition(sector: Seq<u8>, index: int) -> Partition {
    Partition {
        start_lba: le32(sector, entry_offset(index) + 8) as u64,
        sectors: le32(sector, entry_offset(index) + 12) as u64,
        kind: sector[entry_offset(index) + 4],
    }
}

/// Entry `index` is all zero in the fields that matter: unused.
pub open spec fn entry_unused(sector: Seq<u8>, index: int) -> bool {
    let p = entry_partition(sector, index);
    p.kind == 0 && p.start_lba == 0 && p.sectors == 0
}

/// Entry `index` is acceptable on a disk of `disk_sectors` sectors.
pub open spec fn entry_acceptable(sector: Seq<u8>, index: int, disk_sectors: int) -> bool {
    let boot = sector[entry_offset(index)];
    let p = entry_partition(sector, index);
    &&& boot == 0 || boot == 0x80
    &&& entry_unused(sector, index) || (p.start_lba != 0 && p.sectors != 0 && p.start_lba
        + p.sectors <= disk_sectors)
}

/// The type bytes of a FAT32 partition.
pub open spec fn is_fat32_kind(kind: u8) -> bool {
    kind == 0x0b || kind == 0x0c
}

/// The first FAT32 entry among the first `count` entries, if any.
pub open spec fn first_fat32(sector: Seq<u8>, count: int) -> Option<Partition>
    decreases count,
{
    if count <= 0 {
        None
    } else {
        match first_fat32(sector, count - 1) {
            Some(p) => Some(p),
            None => if !entry_unused(sector, count - 1) && is_fat32_kind(
                entry_partition(sector, count - 1).kind,
            ) {
                Some(entry_partition(sector, count - 1))
            } else {
                None
            },
        }
    }
}

/// Why the first unacceptable entry among the first `count` entries refuses the
/// table, if one does: a bad boot flag, or an entry outside the disk.
pub open spec fn first_table_error(sector: Seq<u8>, count: int, disk_sectors: int) -> Option<Error>
    decreases count,
{
    if count <= 0 {
        None
    } else {
        match first_table_error(sector, count - 1, disk_sectors) {
            Some(error) => Some(error),
            None => {
                let boot = sector[entry_offset(count - 1)];
                if !(boot == 0 || boot == 0x80) {
                    Some(Error::InvalidTable)
                } else if !entry_acceptable(sector, count - 1, disk_sectors) {
                    Some(Error::OutOfBounds)
                } else {
                    None
                }
            },
        }
    }
}

/// Once some entry refuses the table, more entries do not change why.
proof fn lemma_table_error_stays(sector: Seq<u8>, count: int, more: int, disk_sectors: int)
    requires
        0 <= count <= more,
        first_table_error(sector, count, disk_sectors) is Some,
    ensures
        first_table_error(sector, more, disk_sectors) == first_table_error(sector, count, disk_sectors),
    decreases more - count,
{
    if count < more {
        lemma_table_error_stays(sector, count, more - 1, disk_sectors);
    }
}

fn read_u32(bytes: &[u8], offset: usize) -> (value: u32)
    requires
        offset + 4 <= bytes@.len(),
    ensures
        value == le32(bytes@, offset as int),
{
    let low = bytes[offset] as u32 + bytes[offset + 1] as u32 * 0x100;
    let high = bytes[offset + 2] as u32 + bytes[offset + 3] as u32 * 0x100;
    low + high * 0x1_0000
}

/// Finds the first FAT32 partition in the MBR of `device`.
///
/// Without a boot signature there is no table and no partition. A table with a bad
/// boot flag or an entry outside the disk is refused.
pub fn find_fat32<D: BlockDevice>(device: &mut D) -> (result: Result<Option<Partition>, Error>)
    requires
        old(device).valid(),
    ensures
        final(device).valid(),
        final(device).sectors() == old(device).sectors(),
        final(device).read_only() == old(device).read_only(),
        result is Ok && old(device).sectors().len() > 0 ==> {
            let sector = old(device).sectors()[0];
            ||| !(sector[510] == 0x55 && sector[511] == 0xaa) && result == Ok::<Option<Partition>, Error>(None)
            ||| {
                &&& sector[510] == 0x55 && sector[511] == 0xaa
                &&& forall|i: int| 0 <= i < PARTITION_COUNT ==> #[trigger] entry_acceptable(
                    sector,
                    i,
                    old(device).sectors().len() as int,
                )
                &&& result == Ok::<Option<Partition>, Error>(first_fat32(sector, PARTITION_COUNT as int))
            }
        },
        result is Ok ==> old(device).sectors().len() > 0,
        result is Err && old(device).sectors().len() > 0 && old(device).sectors()[0].len() == SECTOR_SIZE
            ==> result->Err_0 is Block || {
            let sector = old(device).sectors()[0];
            &&& sector[510] == 0x55 && sector[511] == 0xaa
            &&& exists|i: int| 0 <= i < PARTITION_COUNT && !#[trigger] entry_acceptable(
                sector,
                i,
                old(device).sectors().len() as int,
            )
        },
        final(device).reliable() == old(device).reliable(),
        result is Err && result->Err_0 is Block ==> !old(device).reliable() || old(device).sectors().len() == 0
            || old(device).sectors()[0].len() != SECTOR_SIZE,
        result is Err && !(result->Err_0 is Block) ==> Some(result->Err_0) == first_table_error(
            old(device).sectors()[0],
            PARTITION_COUNT as int,
            old(device).sectors().len() as int,
        ),
        result is Ok && old(device).sectors()[0][510] == 0x55 && old(device).sectors()[0][511] == 0xaa
            ==> first_table_error(old(device).sectors()[0], PARTITION_COUNT as int, old(device).sectors().len() as int)
            is None,
{
    let mut sector = [0u8; 512];
    match device.read_sector(0, &mut sector) {
        Ok(()) => {},
        Err(error) => return Err(Error::Block(error)),
    }
    if sector[510] != 0x55 || sector[511] != 0xaa {
        return Ok(None);
    }
    let disk_sectors = device.sector_count();
    let mut result: Option<Partition> = None;
    let mut index: usize = 0;
    while index < PARTITION_COUNT
        invariant
            device.valid(),
            device.sectors() == old(device).sectors(),
            device.read_only() == old(device).read_only(),
            old(device).sectors().len() > 0,
            index <= PARTITION_COUNT,
            sector@ == old(device).sectors()[0],
            sector@[510] == 0x55 && sector@[511] == 0xaa,
            disk_sectors == old(device).sectors().len(),
            forall|i: int| 0 <= i < index ==> #[trigger] entry_acceptable(sector@, i, disk_sectors as int),
            result == first_fat32(sector@, index as int),
            first_table_error(sector@, index as int, disk_sectors as int) is None,
            device.reliable() == old(device).reliable(),
        decreases PARTITION_COUNT - index,
    {
        let offset = PARTITION_TABLE_OFFSET + index * PARTITION_ENTRY_SIZE;
        let boot = sector[offset];
        if boot != 0 && boot != 0x80 {
            assert(!entry_acceptable(sector@, index as int, disk_sectors as int));
            proof {
                lemma_table_error_stays(sector@, index + 1, PARTITION_COUNT as int, disk_sectors as int);
            }
            return Err(Error::InvalidTable);
        }
        let kind = sector[offset + 4];
        let start_lba = read_u32(&sector, offset + 8) as u64;
        let sectors = read_u32(&sector, offset + 12) as u64;
        if kind == 0 && start_lba == 0 && sectors == 0 {
            index = index + 1;
            continue;
        }
        let end = match start_lba.checked_add(sectors) {
            Some(end) => end,
            None => {
                assert(!entry_acceptable(sector@, index as int, disk_sectors as int));
                proof {
                    lemma_table_error_stays(sector@, index + 1, PARTITION_COUNT as int, disk_sectors as int);
                }
                return Err(Error::OutOfBounds);
            },
        };
        if start_lba == 0 || sectors == 0 || end > disk_sectors {
            assert(!entry_acceptable(sector@, index as int, disk_sectors as int));
            proof {
                lemma_table_error_stays(sector@, index + 1, PARTITION_COUNT as int, disk_sectors as int);
            }
            return Err(Error::OutOfBounds);
        }
        if result.is_none() && (kind == 0x0b || kind == 0x0c) {
            result = Some(Partition { start_lba, sectors, kind });
        }
        index = index + 1;
    }
    Ok(result)
}

/// A device that shows one partition of another device as a whole disk.
pub struct PartitionDevice<'a, D> {
    pub device: &'a mut D,
    pub partition: Partition,
}

impl<'a, D: BlockDevice> PartitionDevice<'a, D> {
    /// The partition shown.
    pub open spec fn region(&self) -> Partition {
        self.partition
    }

    /// The device underneath, as it is now.
    pub open spec fn whole(&self) -> D {
        *self.device
    }

    /// A view of `partition` of `device`, if it lies on the device.
    pub fn new(device: &'a mut D, partition: Partition) -> (result: Result<Self, Error>)
        requires
            old(device).valid(),
        ensures
            result is Ok <==> partition.start_lba != 0 && partition.sectors != 0
                && partition.start_lba + partition.sectors <= old(device).sectors().len(),
            result is Err ==> result->Err_0 == Error::OutOfBounds && *final(device) == *old(device),
            result is Ok ==> result->Ok_0.region() == partition && result->Ok_0.whole() == *old(device)
                && *final(result->Ok_0.device) == *final(device) && result->Ok_0.valid(),
    {
        let count = device.sector_count();
        let end = match partition.start_lba.checked_add(partition.sectors) {
            Some(end) => end,
            None => return Err(Error::OutOfBounds),
        };
        if partition.start_lba == 0 || partition.sectors == 0 || end > count {
            return Err(Error::OutOfBounds);
        }
        Ok(PartitionDevice { device, partition })
    }

    fn absolute_lba(&self, lba: u64) -> (absolute: Result<u64, BlockError>)
        ensures
            absolute is Ok <==> lba < self.partition.sectors && self.partition.start_lba + lba
                <= u64::MAX,
            absolute is Ok ==> absolute->Ok_0 == self.partition.start_lba + lba,
            absolute is Err ==> absolute->Err_0 == BlockError::OutOfBounds,
    {
        if lba >= self.partition.sectors {
            return Err(BlockError::OutOfBounds);
        }
        match self.partition.start_lba.checked_add(lba) {
            Some(absolute) => Ok(absolute),
            None => Err(BlockError::OutOfBounds),
        }
    }
}

impl<'a, D: BlockDevice> BlockDevice for PartitionDevice<'a, D> {
    open spec fn sectors(&self) -> Seq<Seq<u8>> {
        self.whole().sectors().subrange(
            self.region().start_lba as int,
            self.region().start_lba + self.region().sectors,
        )
    }

    open spec fn read_only(&self) -> bool {
        self.whole().read_only()
    }

    open spec fn valid(&self) -> bool {
        &&& self.whole().valid()
        &&& self.region().start_lba + self.region().sectors <= self.whole().sectors().len()
    }

    fn sector_count(&self) -> (count: u64) {
        self.partition.sectors
    }

    fn is_read_only(&self) -> (read_only: bool) {
        self.device.is_read_only()
    }

    fn flush(&mut self) -> (result: Result<(), BlockError>) {
        self.device.flush()
    }

    fn read_sector(&mut self, lba: u64, sector: &mut [u8]) -> (result: Result<(), BlockError>) {
        let absolute = match self.absolute_lba(lba) {
            Ok(absolute) => absolute,
            Err(error) => return Err(error),
        };
        self.device.read_sector(absolute, sector)
    }

    fn write_sector(&mut self, lba: u64, sector: &[u8]) -> (result: Result<(), BlockError>)
        ensures
            !(lba < old(self).region().sectors && old(self).region().start_lba + lba <= u64::MAX) ==> result
                == Err::<(), BlockError>(BlockError::OutOfBounds) && *final(self) == *old(self),
            final(self).region() == old(self).region(),
            final(self).whole().sectors().len() == old(self).whole().sectors().len(),
            forall|i: int|
                0 <= i < old(self).whole().sectors().len() && !(old(self).region().start_lba <= i
                    < old(self).region().start_lba + old(self).region().sectors) ==> #[trigger] final(self).whole().sectors()[i]
                    == old(self).whole().sectors()[i],
    {
        let absolute = match self.absolute_lba(lba) {
            Ok(absolute) => absolute,
            Err(error) => return Err(error),
        };
        let result = self.device.write_sector(absolute, sector);
        proof {
            if result is Ok {
                assert(self.sectors() =~= old(self).sectors().update(lba as int, sector@));
            }
        }
        result
    }
}

/// Finds a FAT32 partition on a small disk and writes through a view of it.
pub fn self_test() -> (passed: bool)
{
    let mut disk = crate::block::RamDisk::<8>::new();
    let mut mbr = [0u8; 512];
    mbr[510] = 0x55;
    mbr[511] = 0xaa;
    mbr[PARTITION_TABLE_OFFSET] = 0x80;
    mbr[PARTITION_TABLE_OFFSET + 4] = 0x0c;
    mbr[PARTITION_TABLE_OFFSET + 8] = 2;
    mbr[PARTITION_TABLE_OFFSET + 12] = 4;
    if disk.write_sector(0, &mbr).is_err() {
        return false;
    }
    let partition = match find_fat32(&mut disk) {
        Ok(Some(partition)) => partition,
        _ => return false,
    };
    let mut payload = [0u8; 512];
    let word: [u8; 9] = [112, 97, 114, 116, 105, 116, 105, 111, 110];
    crate::block::copy_bytes(&mut payload, 0, &word, 0, 9);
    {
        let mut view = match PartitionDevice::new(&mut disk, partition) {
            Ok(view) => view,
            Err(_) => return false,
        };
        if view.write_sector(1, &payload).is_err() || view.read_sector(4, &mut payload).is_ok() {
            return false;
        }
    }
    let mut physical = [0u8; 512];
    if disk.read_sector(3, &mut physical).is_err() {
        return false;
    }
    let mut matches = true;
    let mut i: usize = 0;
    while i < 9
        invariant
            i <= 9,
            physical@.len() == 512,
        decreases 9 - i,
    {
        if physical[i] != word[i] {
            matches = false;
        }
        i = i + 1;
    }
    matches && partition.start_lba == 2 && partition.sectors == 4
}

} // verus!
