//! GUID partition tables: checksummed header and entry array, and the choice of the
//! partition that holds the FAT file system.
use vstd::prelude::*;

use crate::block::{BlockDevice, Error as BlockError, SECTOR_SIZE};
use crate::elf::{le32, le64};
use crate::partition::Partition;

verus! {

/// Smallest header size the table may declare.
pub const GPT_HEADER_MIN_SIZE: usize = 92;

/// Most entries the array may hold.
pub const MAX_PARTITION_ENTRIES: usize = 128;

/// Largest entry size the array may use.
pub const MAX_PARTITION_ENTRY_SIZE: usize = 256;

/// Why a table was refused.
#[derive(Clone, Copy, PartialEq, Eq, Structural, Debug)]
pub enum Error {
    Block(BlockError),
    MissingProtectiveMbr,
    InvalidHeader,
    InvalidChecksum,
    Unsupported,
    OutOfBounds,
}

/// Type GUID of an EFI system partition, in on-disk byte order.
pub open spec fn efi_system_guid() -> Seq<u8> {
    seq![0x28u8, 0x73, 0x2a, 0xc1, 0x1f, 0xf8, 0xd2, 0x11, 0xba, 0x4b, 0x00, 0xa0, 0xc9, 0x3e, 0xc9, 0x3b]
}

/// Type GUID of a basic data partition, in on-disk byte order.
pub open spec fn basic_data_guid() -> Seq<u8> {
    seq![0xa2u8, 0xa0, 0xd0, 0xeb, 0xe5, 0xb9, 0x33, 0x44, 0x87, 0xc0, 0x68, 0xb6, 0xb7, 0x26, 0x99, 0xc7]
}

/// The header signature "EFI PART".
pub open spec fn header_signature() -> Seq<u8> {
    seq![0x45u8, 0x46, 0x49, 0x20, 0x50, 0x41, 0x52, 0x54]
}

// ---- CRC-32 (reflected, polynomial 0xEDB88320) ----

/// One shift of the CRC register.
pub open spec fn crc_round(state: u32) -> u32 {
    if state & 1 == 1 {
        (state >> 1u32) ^ 0xedb8_8320u32
    } else {
        state >> 1u32
    }
}

/// `count` shifts of the CRC register.
pub open spec fn crc_rounds(state: u32, count: nat) -> u32
    decreases count,
{
    if count == 0 {
        state
    } else {
        crc_round(crc_rounds(state, (count - 1) as nat))
    }
}

/// The register after taking in `byte`.
pub open spec fn crc_byte(state: u32, byte: u8) -> u32 {
    crc_rounds(state ^ (byte as u32), 8)
}

/// The register after taking in `bytes`, from `state`.
pub open spec fn crc_bytes(state: u32, bytes: Seq<u8>) -> u32
    decreases bytes.len(),
{
    if bytes.len() == 0 {
        state
    } else {
        crc_byte(crc_bytes(state, bytes.drop_last()), bytes.last())
    }
}

/// The CRC-32 of `bytes`.
pub open spec fn crc32_of(bytes: Seq<u8>) -> u32 {
    !crc_bytes(0xffff_ffff, bytes)
}

/// Taking in two pieces is taking in their concatenation.
pub proof fn lemma_crc_concat(state: u32, a: Seq<u8>, b: Seq<u8>)
    ensures
        crc_bytes(state, a + b) == crc_bytes(crc_bytes(state, a), b),
    decreases b.len(),
{
    if b.len() == 0 {
        assert(a + b =~= a);
    } else {
        assert((a + b).drop_last() =~= a + b.drop_last());
        assert((a + b).last() == b.last());
        lemma_crc_concat(state, a, b.drop_last());
    }
}

/// Takes `bytes` into the CRC register `state`.
pub fn crc32_extend(state: u32, bytes: &[u8]) -> (extended: u32)
    ensures
        extended == crc_bytes(state, bytes@),
{
    let mut state = state;
    let ghost initial = state;
    let mut i: usize = 0;
    while i < bytes.len()
        invariant
            i <= bytes@.len(),
            state == crc_bytes(initial, bytes@.take(i as int)),
        decreases bytes@.len() - i,
    {
        assert(bytes@.take(i as int + 1).drop_last() =~= bytes@.take(i as int));
        let ghost before = state;
        state = state ^ (bytes[i] as u32);
        let ghost mixed = state;
        let mut round: usize = 0;
        while round < 8
            invariant
                round <= 8,
                state == crc_rounds(mixed, round as nat),
            decreases 8 - round,
        {
            state = if state & 1 == 1 {
                (state >> 1) ^ 0xedb8_8320
            } else {
                state >> 1
            };
            round = round + 1;
        }
        i = i + 1;
    }
    assert(bytes@.take(i as int) =~= bytes@);
    state
}

/// The CRC-32 of `bytes`.
pub fn crc32(bytes: &[u8]) -> (crc: u32)
    ensures
        crc == crc32_of(bytes@),
{
    !crc32_extend(0xffff_ffff, bytes)
}

// ---- byte ranges of a disk ----

/// The byte at absolute position `at` of `sectors`.
pub open spec fn disk_byte(sectors: Seq<Seq<u8>>, at: int) -> u8 {
    sectors[at / 512][at % 512]
}

/// Byte `k` after absolute position `start` lies in a whole sector of `sectors`.
pub open spec fn byte_readable(sectors: Seq<Seq<u8>>, start: int, k: int) -> bool {
    (start + k) / 512 < sectors.len() && sectors[(start + k) / 512].len() == SECTOR_SIZE
}

/// Every one of `length` bytes from absolute position `start` on lies in a whole
/// sector, so that reading them can succeed.
pub open spec fn bytes_readable(sectors: Seq<Seq<u8>>, start: int, length: int) -> bool {
    forall|k: int| 0 <= k < length ==> #[trigger] byte_readable(sectors, start, k)
}

/// The bytes within a readable window are readable.
proof fn lemma_bytes_readable_within(sectors: Seq<Seq<u8>>, start: int, length: int, from: int, count: int)
    requires
        bytes_readable(sectors, start, length),
        start <= from,
        from + count <= start + length,
    ensures
        bytes_readable(sectors, from, count),
{
    assert forall|k: int| 0 <= k < count implies #[trigger] byte_readable(sectors, from, k) by {
        assert(byte_readable(sectors, start, from - start + k));
    }
}

/// `length` bytes of `sectors` from absolute position `start` on.
pub open spec fn disk_bytes(sectors: Seq<Seq<u8>>, start: int, length: int) -> Seq<u8> {
    Seq::new(length as nat, |i: int| disk_byte(sectors, start + i))
}

/// Positions within one sector share its index.
proof fn lemma_within_sector(at: int, k: int)
    requires
        0 <= at,
        0 <= k,
        at % 512 + k < 512,
    ensures
        (at + k) / 512 == at / 512,
        (at + k) % 512 == at % 512 + k,
{
    vstd::arithmetic::div_mod::lemma_fundamental_div_mod(at, 512);
    vstd::arithmetic::div_mod::lemma_fundamental_div_mod_converse(at + k, 512, at / 512, at % 512 + k);
}

/// Reads `output.len()` bytes from absolute byte position `start` of `device`.
fn read_bytes<D: BlockDevice>(device: &mut D, start: u64, output: &mut Vec<u8>) -> (result: Result<(), Error>)
    requires
        old(device).valid(),
        start + old(output)@.len() <= u64::MAX,
    ensures
        final(device).valid(),
        final(device).sectors() == old(device).sectors(),
        final(device).read_only() == old(device).read_only(),
        final(output)@.len() == old(output)@.len(),
        result is Ok ==> final(output)@ == disk_bytes(old(device).sectors(), start as int, old(output)@.len() as int),
        result is Err ==> result->Err_0 is Block,
        final(device).reliable() == old(device).reliable(),
        old(device).reliable() && bytes_readable(old(device).sectors(), start as int, old(output)@.len() as int)
            ==> result is Ok,
{
    let ghost readable = old(device).reliable() && bytes_readable(old(device).sectors(), start as int, old(output)@.len() as int);
    let length = output.len();
    let mut sector = [0u8; 512];
    let mut copied: usize = 0;
    while copied < length
        invariant
            device.valid(),
            device.sectors() == old(device).sectors(),
            device.read_only() == old(device).read_only(),
            length == output@.len(),
            output@.len() == old(output)@.len(),
            start + length <= u64::MAX,
            copied <= length,
            forall|k: int| 0 <= k < copied ==> #[trigger] output@[k] == disk_byte(device.sectors(), start + k),
            forall|k: int| 0 <= k < copied ==> (start + k) / 512 < device.sectors().len()
                && #[trigger] device.sectors()[(start + k) / 512].len() == SECTOR_SIZE,
            device.reliable() == old(device).reliable(),
            readable == (old(device).reliable() && bytes_readable(old(device).sectors(), start as int, length as int)),
        decreases length - copied,
    {
        let position = start + copied as u64;
        let lba = position / 512;
        let offset = (position % 512) as usize;
        proof {
            if readable {
                assert(byte_readable(old(device).sectors(), start as int, copied as int));
            }
        }
        match device.read_sector(lba, &mut sector) {
            Ok(()) => {},
            Err(error) => return Err(Error::Block(error)),
        }
        let count = if 512 - offset < length - copied {
            512 - offset
        } else {
            length - copied
        };
        let mut k: usize = 0;
        while k < count
            invariant
                k <= count,
                offset + count <= 512,
                copied + count <= length,
                length == output@.len(),
                sector@ == device.sectors()[lba as int],
                sector@.len() == 512,
                lba < device.sectors().len(),
                position == start + copied,
                lba == position / 512,
                offset == position % 512,
                forall|m: int| 0 <= m < copied + k ==> #[trigger] output@[m] == disk_byte(device.sectors(), start + m),
            decreases count - k,
        {
            proof {
                lemma_within_sector(position as int, k as int);
            }
            output.set(copied + k, sector[offset + k]);
            k = k + 1;
        }
        proof {
            assert forall|m: int| 0 <= m < copied + count implies (start + m) / 512 < device.sectors().len()
                && #[trigger] device.sectors()[(start + m) / 512].len() == SECTOR_SIZE by {
                if m >= copied {
                    lemma_within_sector(position as int, m - copied);
                }
            }
        }
        copied = copied + count;
    }
    assert(output@ =~= disk_bytes(old(device).sectors(), start as int, length as int));
    assert(device.sectors() == old(device).sectors());
    Ok(())
}

/// The CRC register after taking in `length` bytes of `device` from `start` on.
fn entries_crc<D: BlockDevice>(device: &mut D, start: u64, length: usize) -> (result: Result<u32, Error>)
    requires
        old(device).valid(),
        start + length <= u64::MAX,
    ensures
        final(device).valid(),
        final(device).sectors() == old(device).sectors(),
        final(device).read_only() == old(device).read_only(),
        result is Ok ==> result->Ok_0 == crc32_of(disk_bytes(old(device).sectors(), start as int, length as int)),
        result is Err ==> result->Err_0 is Block,
        final(device).reliable() == old(device).reliable(),
        old(device).reliable() && bytes_readable(old(device).sectors(), start as int, length as int) ==> result is Ok,
{
    let mut bytes: Vec<u8> = vec![0u8; length];
    match read_bytes(device, start, &mut bytes) {
        Ok(()) => {},
        Err(error) => return Err(error),
    }
    Ok(crc32(bytes.as_slice()))
}

// ---- the table ----

/// Byte offset of partition record `index` in the boot sector.
pub open spec fn mbr_record(index: int) -> int {
    446 + 16 * index
}

/// Boot sector `sector` is a protective MBR: signed, with a record of type 0xEE starting
/// at sector 1.
pub open spec fn protective_mbr(sector: Seq<u8>) -> bool {
    &&& sector[510] == 0x55 && sector[511] == 0xaa
    &&& exists|i: int| 0 <= i < 4 && sector[mbr_record(i) + 4] == 0xee && #[trigger] le32(sector, mbr_record(i) + 8) == 1
}

/// `header` with its checksum field zeroed.
pub open spec fn header_without_crc(header: Seq<u8>) -> Seq<u8> {
    header.update(16, 0).update(17, 0).update(18, 0).update(19, 0)
}

/// The header in sector 1 is well formed for a disk of `sectors` sectors.
pub open spec fn header_valid(header: Seq<u8>, sectors: int) -> bool {
    let size = le32(header, 12);
    let count = le32(header, 80);
    let entry_size = le32(header, 84);
    &&& header.subrange(0, 8) == header_signature()
    &&& le32(header, 8) == 0x0001_0000
    &&& GPT_HEADER_MIN_SIZE <= size <= SECTOR_SIZE
    &&& crc32_of(header_without_crc(header).subrange(0, size)) == le32(header, 16)
    &&& le64(header, 24) == 1
    &&& le64(header, 32) < sectors
    &&& le64(header, 40) <= le64(header, 48)
    &&& le64(header, 48) < sectors
    &&& 0 < count <= MAX_PARTITION_ENTRIES
    &&& 128 <= entry_size <= MAX_PARTITION_ENTRY_SIZE
    &&& entry_size % 8 == 0
    &&& le64(header, 72) * 512 + count * entry_size <= sectors * 512
}

/// Entry `index` of the array that `header` describes, as bytes of `disk`.
pub open spec fn table_entry(disk: Seq<Seq<u8>>, header: Seq<u8>, index: int) -> Seq<u8> {
    let size = le32(header, 84);
    disk_bytes(disk, le64(header, 72) * 512 + index * size, size)
}

/// An entry whose type GUID is all zero is unused.
pub open spec fn entry_used(entry: Seq<u8>) -> bool {
    exists|k: int| 0 <= k < 16 && #[trigger] entry[k] != 0
}

/// A used entry lies within the usable sectors that `header` names.
pub open spec fn entry_in_bounds(entry: Seq<u8>, header: Seq<u8>) -> bool {
    let first = le64(entry, 32);
    let last = le64(entry, 40);
    le64(header, 40) <= first && last <= le64(header, 48) && first <= last
}

/// The partition an entry describes.
pub open spec fn entry_partition(entry: Seq<u8>) -> Partition {
    Partition {
        start_lba: le64(entry, 32) as u64,
        sectors: (le64(entry, 40) - le64(entry, 32) + 1) as u64,
        kind: 0xee,
    }
}

/// The entry holds a file system this kernel mounts.
pub open spec fn entry_selectable(entry: Seq<u8>) -> bool {
    entry_used(entry) && (entry.subrange(0, 16) == efi_system_guid() || entry.subrange(0, 16)
        == basic_data_guid())
}

/// The first selectable partition among the first `count` entries.
pub open spec fn first_selectable(disk: Seq<Seq<u8>>, header: Seq<u8>, count: int) -> Option<Partition>
    decreases count,
{
    if count <= 0 {
        None
    } else {
        match first_selectable(disk, header, count - 1) {
            Some(p) => Some(p),
            None => if entry_selectable(table_entry(disk, header, count - 1)) {
                Some(entry_partition(table_entry(disk, header, count - 1)))
            } else {
                None
            },
        }
    }
}

/// An entry is selectable exactly when its type GUID is that of an EFI system partition,
/// C12A7328-F81F-11D2-BA4B-00A0C93EC93B, or of a basic data partition,
/// EBD0A0A2-B9E5-4433-87C0-68B6B72699C7, in on-disk byte order.
pub proof fn law_fat_type_guids_selectable(entry: Seq<u8>)
    requires
        entry.len() >= 16,
    ensures
        entry_selectable(entry) <==> (entry.subrange(0, 16) == seq![0x28u8, 0x73, 0x2a, 0xc1,
            0x1f, 0xf8, 0xd2, 0x11, 0xba, 0x4b, 0x00, 0xa0, 0xc9, 0x3e, 0xc9, 0x3b]
            || entry.subrange(0, 16) == seq![0xa2u8, 0xa0, 0xd0, 0xeb, 0xe5, 0xb9, 0x33, 0x44,
            0x87, 0xc0, 0x68, 0xb6, 0xb7, 0x26, 0x99, 0xc7]),
{
    let guid = entry.subrange(0, 16);
    if guid == efi_system_guid() || guid == basic_data_guid() {
        assert(guid[0] == entry[0]);
        assert(entry[0] != 0);
    }
}

/// When the first entry of the table has the EFI system or basic data type, the search
/// selects the partition that entry describes, whatever follows it.
pub proof fn law_first_fat_entry_selected(disk: Seq<Seq<u8>>, header: Seq<u8>, count: int)
    requires
        count >= 1,
        table_entry(disk, header, 0).len() >= 16,
        table_entry(disk, header, 0).subrange(0, 16) == seq![0x28u8, 0x73, 0x2a, 0xc1, 0x1f,
            0xf8, 0xd2, 0x11, 0xba, 0x4b, 0x00, 0xa0, 0xc9, 0x3e, 0xc9, 0x3b]
            || table_entry(disk, header, 0).subrange(0, 16) == seq![0xa2u8, 0xa0, 0xd0, 0xeb,
            0xe5, 0xb9, 0x33, 0x44, 0x87, 0xc0, 0x68, 0xb6, 0xb7, 0x26, 0x99, 0xc7],
    ensures
        first_selectable(disk, header, count) == Some(entry_partition(table_entry(disk, header, 0))),
    decreases count,
{
    law_fat_type_guids_selectable(table_entry(disk, header, 0));
    if count > 1 {
        law_first_fat_entry_selected(disk, header, count - 1);
    } else {
        assert(first_selectable(disk, header, 0) is None);
    }
}

fn read_u32(bytes: &[u8], offset: usize) -> (value: u32)
    requires
        offset + 4 <= bytes@.len(),
    ensures
        value == le32(bytes@, offset as int),
{
    let low = bytes[offset] as u32 + bytes[offset + 1] as u32 * 0x100;
    let high = bytes[offset + 2] as u32 + bytes[offset + 3] as u32 * 0x100;
    low + high * 0x1_0000
}

fn read_u64(bytes: &[u8], offset: usize) -> (value: u64)
    requires
        offset + 8 <= bytes@.len(),
    ensures
        value == le64(bytes@, offset as int),
{
    let length = bytes.len();
    assert(length == bytes@.len());
    read_u32(bytes, offset) as u64 + read_u32(bytes, offset + 4) as u64 * 0x1_0000_0000
}

/// Checks that sector 0 of `device` is a protective MBR.
fn validate_protective_mbr<D: BlockDevice>(device: &mut D) -> (result: Result<(), Error>)
    requires
        old(device).valid(),
    ensures
        final(device).valid(),
        final(device).sectors() == old(device).sectors(),
        final(device).read_only() == old(device).read_only(),
        result is Ok ==> old(device).sectors().len() > 0 && protective_mbr(old(device).sectors()[0])
            && old(device).sectors()[0].len() == SECTOR_SIZE,
        result is Err && old(device).sectors().len() > 0 && old(device).sectors()[0].len() == SECTOR_SIZE
            && protective_mbr(old(device).sectors()[0]) ==> result->Err_0 is Block,
        final(device).reliable() == old(device).reliable(),
        result is Err && result->Err_0 is Block ==> !old(device).reliable() || old(device).sectors().len() == 0
            || old(device).sectors()[0].len() != SECTOR_SIZE,
{
    let mut sector = [0u8; 512];
    match device.read_sector(0, &mut sector) {
        Ok(()) => {},
        Err(error) => return Err(Error::Block(error)),
    }
    if sector[510] != 0x55 || sector[511] != 0xaa {
        return Err(Error::MissingProtectiveMbr);
    }
    let mut index: usize = 0;
    while index < 4
        invariant
            device.valid(),
            device.sectors() == old(device).sectors(),
            device.read_only() == old(device).read_only(),
            device.reliable() == old(device).reliable(),
            old(device).sectors().len() > 0,
            index <= 4,
            sector@ == old(device).sectors()[0],
            sector@.len() == 512,
            sector@[510] == 0x55 && sector@[511] == 0xaa,
            forall|i: int| 0 <= i < index ==> !(sector@[mbr_record(i) + 4] == 0xee && #[trigger] le32(sector@, mbr_record(i) + 8) == 1),
        decreases 4 - index,
    {
        let offset = 446 + index * 16;
        if sector[offset + 4] == 0xee && read_u32(&sector, offset + 8) == 1 {
            assert(sector@[mbr_record(index as int) + 4] == 0xee && le32(sector@, mbr_record(index as int) + 8) == 1);
            return Ok(());
        }
        index = index + 1;
    }
    Err(Error::MissingProtectiveMbr)
}

/// Whether the first 16 bytes of `entry` equal `guid`.
fn guid_is(entry: &Vec<u8>, guid: &[u8; 16]) -> (equal: bool)
    requires
        entry@.len() >= 16,
    ensures
        equal == (entry@.subrange(0, 16) == guid@),
{
    let mut k: usize = 0;
    while k < 16
        invariant
            k <= 16,
            entry@.len() >= 16,
            forall|m: int| 0 <= m < k ==> entry@[m] == guid@[m],
        decreases 16 - k,
    {
        if entry[k] != guid[k] {
            return false;
        }
        k = k + 1;
    }
    assert(entry@.subrange(0, 16) =~= guid@);
    true
}

/// What one table entry contributes: an error when it is used but out of bounds, else
/// its partition when it is selectable.
fn classify_entry(entry: &Vec<u8>, first_usable: u64, last_usable: u64, efi: &[u8; 16], basic: &[u8; 16]) -> (result: Result<Option<Partition>, Error>)
    requires
        entry@.len() >= 128,
        last_usable < u64::MAX,
        efi@ == efi_system_guid(),
        basic@ == basic_data_guid(),
    ensures
        result is Err <==> entry_used(entry@) && !(first_usable <= le64(entry@, 32) && le64(entry@, 40)
            <= last_usable && le64(entry@, 32) <= le64(entry@, 40)),
        result is Err ==> result->Err_0 == Error::OutOfBounds,
        result is Ok ==> result->Ok_0 == if entry_selectable(entry@) {
            Some(entry_partition(entry@))
        } else {
            None
        },
{
    let mut used = false;
    let mut k: usize = 0;
    while k < 16
        invariant
            k <= 16,
            entry@.len() >= 16,
            used == exists|m: int| 0 <= m < k && #[trigger] entry@[m] != 0,
        decreases 16 - k,
    {
        if entry[k] != 0 {
            used = true;
        }
        k = k + 1;
    }
    if !used {
        return Ok(None);
    }
    let first_lba = read_u64(entry.as_slice(), 32);
    let last_lba = read_u64(entry.as_slice(), 40);
    if first_lba < first_usable || last_lba > last_usable || first_lba > last_lba {
        return Err(Error::OutOfBounds);
    }
    if guid_is(entry, efi) || guid_is(entry, basic) {
        Ok(Some(Partition { start_lba: first_lba, sectors: last_lba - first_lba + 1, kind: 0xee }))
    } else {
        Ok(None)
    }
}

/// A disk whose GUID partition table the kernel takes: a protective MBR, a
/// well-formed header whose checksum matches, an entry array whose checksum
/// matches, and every used entry within the usable sectors.
pub open spec fn gpt_accepted(disk: Seq<Seq<u8>>) -> bool {
    let header = disk[1];
    let count = le32(header, 80);
    &&& 1 < disk.len() && disk.len() * 512 <= u64::MAX
    &&& disk[0].len() == SECTOR_SIZE
    &&& protective_mbr(disk[0])
    &&& header_valid(header, disk.len() as int)
    &&& crc32_of(disk_bytes(disk, le64(header, 72) * 512, count * le32(header, 84))) == le32(header, 88)
    &&& forall|i: int| 0 <= i < count && entry_used(#[trigger] table_entry(disk, header, i))
        ==> entry_in_bounds(table_entry(disk, header, i), header)
}

/// The header sector is whole and the bytes of the entry array it names lie in whole
/// sectors, so that every read of the table can succeed.
pub open spec fn gpt_readable(disk: Seq<Seq<u8>>) -> bool {
    let header = disk[1];
    &&& disk[1].len() == SECTOR_SIZE
    &&& bytes_readable(disk, le64(header, 72) * 512, le32(header, 80) * le32(header, 84))
}

/// Finds the partition holding the FAT file system in the GUID partition table of
/// `device`: the first used entry of EFI system or basic data type.
///
/// The table is accepted only behind a protective MBR, with a well-formed header whose
/// checksum matches, an entry array whose checksum matches, and every used entry within
/// the usable sectors; a table without such an entry gives `None`.
#[verifier::rlimit(60)]
pub fn find_fat_partition<D: BlockDevice>(device: &mut D) -> (result: Result<Option<Partition>, Error>)
    requires
        old(device).valid(),
    ensures
        final(device).valid(),
        final(device).sectors() == old(device).sectors(),
        final(device).read_only() == old(device).read_only(),
        result is Ok ==> gpt_accepted(old(device).sectors()) && result->Ok_0 == first_selectable(
            old(device).sectors(),
            old(device).sectors()[1],
            le32(old(device).sectors()[1], 80),
        ),
        gpt_accepted(old(device).sectors()) && result is Err ==> result->Err_0 is Block,
        final(device).reliable() == old(device).reliable(),
        old(device).reliable() && gpt_accepted(old(device).sectors()) && gpt_readable(old(device).sectors())
            ==> result is Ok,
{
    let ghost readable = old(device).reliable() && gpt_readable(old(device).sectors());
    match validate_protective_mbr(device) {
        Ok(()) => {},
        Err(error) => return Err(error),
    }
    let mut header = [0u8; 512];
    match device.read_sector(1, &mut header) {
        Ok(()) => {},
        Err(error) => return Err(Error::Block(error)),
    }
    let ghost original = header@;
    let signature: [u8; 8] = [0x45, 0x46, 0x49, 0x20, 0x50, 0x41, 0x52, 0x54];
    assert(signature@ =~= header_signature());
    let mut k: usize = 0;
    while k < 8
        invariant
            device.valid(),
            device.sectors() == old(device).sectors(),
            device.read_only() == old(device).read_only(),
            device.reliable() == old(device).reliable(),
            k <= 8,
            header@ == original,
            original == old(device).sectors()[1],
            signature@ == header_signature(),
            header@.len() == 512,
            forall|m: int| 0 <= m < k ==> header@[m] == signature@[m],
        decreases 8 - k,
    {
        if header[k] != signature[k] {
            proof {
                assert(header@.subrange(0, 8)[k as int] == header@[k as int]);
                assert(header_signature()[k as int] == signature@[k as int]);
            }
            return Err(Error::InvalidHeader);
        }
        k = k + 1;
    }
    assert(header@.subrange(0, 8) =~= header_signature());
    if read_u32(&header, 8) != 0x0001_0000 {
        return Err(Error::InvalidHeader);
    }
    let header_size = read_u32(&header, 12) as usize;
    if header_size < GPT_HEADER_MIN_SIZE || header_size > SECTOR_SIZE {
        return Err(Error::InvalidHeader);
    }
    let expected_header_crc = read_u32(&header, 16);
    let current_lba = read_u64(&header, 24);
    let backup_lba = read_u64(&header, 32);
    let first_usable = read_u64(&header, 40);
    let last_usable = read_u64(&header, 48);
    let entries_lba = read_u64(&header, 72);
    let entry_count = read_u32(&header, 80) as usize;
    let entry_size = read_u32(&header, 84) as usize;
    let expected_entries_crc = read_u32(&header, 88);
    header[16] = 0;
    header[17] = 0;
    header[18] = 0;
    header[19] = 0;
    assert(header@ =~= header_without_crc(original));
    let (checked, _) = header.split_at(header_size);
    if crc32(checked) != expected_header_crc {
        return Err(Error::InvalidChecksum);
    }
    let disk_sectors = device.sector_count();
    if current_lba != 1 || backup_lba >= disk_sectors || first_usable > last_usable || last_usable
        >= disk_sectors || entry_count == 0 || entry_count > MAX_PARTITION_ENTRIES || entry_size < 128
        || entry_size > MAX_PARTITION_ENTRY_SIZE || entry_size % 8 != 0 {
        return Err(Error::Unsupported);
    }
    assert(entry_count * entry_size <= 128 * 256) by (nonlinear_arith)
        requires entry_count <= 128, entry_size <= 256;
    let entries_bytes = entry_count * entry_size;
    let entries_start = match entries_lba.checked_mul(512) {
        Some(start) => start,
        None => return Err(Error::OutOfBounds),
    };
    let disk_bytes_total = match disk_sectors.checked_mul(512) {
        Some(total) => total,
        None => return Err(Error::OutOfBounds),
    };
    match entries_start.checked_add(entries_bytes as u64) {
        Some(end) => {
            if end > disk_bytes_total {
                return Err(Error::OutOfBounds);
            }
        },
        None => return Err(Error::OutOfBounds),
    }
    assert(entries_bytes == le32(original, 80) * le32(original, 84));
    let crc = match entries_crc(device, entries_start, entries_bytes) {
        Ok(crc) => crc,
        Err(error) => return Err(error),
    };
    if crc != expected_entries_crc {
        return Err(Error::InvalidChecksum);
    }
    let efi: [u8; 16] = [0x28, 0x73, 0x2a, 0xc1, 0x1f, 0xf8, 0xd2, 0x11, 0xba, 0x4b, 0x00, 0xa0, 0xc9, 0x3e, 0xc9, 0x3b];
    let basic: [u8; 16] = [0xa2, 0xa0, 0xd0, 0xeb, 0xe5, 0xb9, 0x33, 0x44, 0x87, 0xc0, 0x68, 0xb6, 0xb7, 0x26, 0x99, 0xc7];
    assert(efi@ =~= efi_system_guid());
    assert(basic@ =~= basic_data_guid());
    let mut selected: Option<Partition> = None;
    let mut entry: Vec<u8> = vec![0u8; entry_size];
    let mut index: usize = 0;
    while index < entry_count
        invariant
            device.valid(),
            device.sectors() == old(device).sectors(),
            device.read_only() == old(device).read_only(),
            device.reliable() == old(device).reliable(),
            readable == (old(device).reliable() && gpt_readable(old(device).sectors())),
            original == old(device).sectors()[1],
            index <= entry_count,
            entry@.len() == entry_size,
            128 <= entry_size <= MAX_PARTITION_ENTRY_SIZE,
            0 < entry_count <= MAX_PARTITION_ENTRIES,
            entry_count == le32(original, 80),
            entry_size == le32(original, 84),
            first_usable == le64(original, 40),
            last_usable == le64(original, 48),
            last_usable < disk_sectors,
            entries_start == le64(original, 72) * 512,
            entries_start + entry_count * entry_size <= u64::MAX,
            efi@ == efi_system_guid(),
            basic@ == basic_data_guid(),
            forall|i: int| 0 <= i < index && entry_used(#[trigger] table_entry(old(device).sectors(), original, i))
                ==> entry_in_bounds(table_entry(old(device).sectors(), original, i), original),
            selected == first_selectable(old(device).sectors(), original, index as int),
        decreases entry_count - index,
    {
        proof {
            assert(entry_size * index <= entry_size * entry_count) by (nonlinear_arith)
                requires index <= entry_count;
            assert(entry_size * (index + 1) <= entry_size * entry_count) by (nonlinear_arith)
                requires index < entry_count;
            assert(entry_size * (index + 1) == entry_size * index + entry_size) by (nonlinear_arith);
            assert(index * entry_size == entry_size * index) by (nonlinear_arith);
            assert(entry_count * entry_size == entry_size * entry_count) by (nonlinear_arith);
        }
        assert(entry_size * index <= 32768) by (nonlinear_arith)
            requires entry_size <= 256, index < 128;
        let position = entries_start + (entry_size * index) as u64;
        proof {
            if readable {
                lemma_bytes_readable_within(
                    old(device).sectors(),
                    entries_start as int,
                    entry_count * entry_size,
                    position as int,
                    entry_size as int,
                );
            }
        }
        match read_bytes(device, position, &mut entry) {
            Ok(()) => {},
            Err(error) => return Err(error),
        }
        assert(entry@ =~= table_entry(old(device).sectors(), original, index as int));
        let found = match classify_entry(&entry, first_usable, last_usable, &efi, &basic) {
            Ok(found) => found,
            Err(error) => return Err(error),
        };
        if selected.is_none() {
            selected = found;
        }
        index = index + 1;
    }
    Ok(selected)
}

/// Stores `value` little-endian at `at`.
fn put_u32(bytes: &mut [u8; 512], at: usize, value: u32)
    requires
        at + 4 <= 512,
{
    bytes[at] = (value % 0x100) as u8;
    bytes[at + 1] = (value / 0x100 % 0x100) as u8;
    bytes[at + 2] = (value / 0x1_0000 % 0x100) as u8;
    bytes[at + 3] = (value / 0x100_0000) as u8;
}

/// Stores `value` little-endian at `at`.
fn put_u64(bytes: &mut [u8; 512], at: usize, value: u64)
    requires
        at + 8 <= 512,
{
    put_u32(bytes, at, (value % 0x1_0000_0000) as u32);
    put_u32(bytes, at + 4, (value / 0x1_0000_0000) as u32);
}

/// Builds a one-entry table on a small disk, finds its partition, then checks that a
/// corrupted header and a corrupted entry are each refused by their checksum.
pub fn self_test() -> (passed: bool)
{
    let mut disk = crate::block::RamDisk::<16>::new();
    let mut mbr = [0u8; 512];
    mbr[446 + 4] = 0xee;
    put_u32(&mut mbr, 446 + 8, 1);
    put_u32(&mut mbr, 446 + 12, 15);
    mbr[510] = 0x55;
    mbr[511] = 0xaa;
    if disk.write_sector(0, &mbr).is_err() {
        return false;
    }
    let efi: [u8; 16] = [0x28, 0x73, 0x2a, 0xc1, 0x1f, 0xf8, 0xd2, 0x11, 0xba, 0x4b, 0x00, 0xa0, 0xc9, 0x3e, 0xc9, 0x3b];
    let mut entries = [0u8; 512];
    crate::block::copy_bytes(&mut entries, 0, &efi, 0, 16);
    entries[16] = 1;
    put_u64(&mut entries, 32, 3);
    put_u64(&mut entries, 40, 7);
    let entries_checksum = {
        let (head, _) = entries.split_at(128);
        crc32(head)
    };
    if disk.write_sector(2, &entries).is_err() {
        return false;
    }
    let mut header = [0u8; 512];
    let signature: [u8; 8] = [0x45, 0x46, 0x49, 0x20, 0x50, 0x41, 0x52, 0x54];
    crate::block::copy_bytes(&mut header, 0, &signature, 0, 8);
    put_u32(&mut header, 8, 0x0001_0000);
    put_u32(&mut header, 12, GPT_HEADER_MIN_SIZE as u32);
    put_u64(&mut header, 24, 1);
    put_u64(&mut header, 32, 15);
    put_u64(&mut header, 40, 3);
    put_u64(&mut header, 48, 14);
    put_u64(&mut header, 72, 2);
    put_u32(&mut header, 80, 1);
    put_u32(&mut header, 84, 128);
    put_u32(&mut header, 88, entries_checksum);
    let header_checksum = {
        let (head, _) = header.split_at(GPT_HEADER_MIN_SIZE);
        crc32(head)
    };
    put_u32(&mut header, 16, header_checksum);
    if disk.write_sector(1, &header).is_err() {
        return false;
    }
    let valid = match find_fat_partition(&mut disk) {
        Ok(Some(partition)) => partition.start_lba == 3 && partition.sectors == 5,
        _ => false,
    };
    header[20] = header[20] ^ 1;
    if disk.write_sector(1, &header).is_err() {
        return false;
    }
    let header_corruption_rejected = match find_fat_partition(&mut disk) {
        Err(Error::InvalidChecksum) => true,
        _ => false,
    };
    header[20] = header[20] ^ 1;
    entries[20] = entries[20] ^ 1;
    if disk.write_sector(1, &header).is_err() || disk.write_sector(2, &entries).is_err() {
        return false;
    }
    let entries_corruption_rejected = match find_fat_partition(&mut disk) {
        Err(Error::InvalidChecksum) => true,
        _ => false,
    };
    valid && header_corruption_rejected && entries_corruption_rejected
}

} // verus!
