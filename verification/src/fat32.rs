//! FAT32 volumes on a block device: mounting, directory lookup, path resolution, file
//! reads, space accounting, consistency checks, and creating, deleting and renaming
//! files and directories.
use vstd::prelude::*;

use crate::block::{copy_bytes, BlockDevice, Error as BlockError, FailingWriteDisk, SparseDisk, SECTOR_SIZE};
use crate::elf::{le16, le32};
use vstd::string::StringSliceAdditionalSpecFns;

verus! {

/// Fewest clusters a FAT32 volume has.
pub const FAT32_MIN_CLUSTERS: u32 = 65_525;

/// Size of one directory entry.
pub const DIRECTORY_ENTRY_SIZE: usize = 32;

/// Directory entries in one sector.
pub const DIRECTORY_ENTRIES_PER_SECTOR: usize = 16;

/// Bits of a FAT entry that hold the cluster number.
pub const FAT32_ENTRY_MASK: u32 = 0x0fff_ffff;

/// FAT value of a bad cluster.
pub const FAT32_BAD_CLUSTER: u32 = 0x0fff_fff7;

/// Smallest FAT value that ends a chain.
pub const FAT32_END_MIN: u32 = 0x0fff_fff8;

/// FSInfo value meaning "not known".
pub const FSINFO_UNKNOWN: u32 = 0xffff_ffff;

/// FSInfo signatures.
pub const FSINFO_LEAD_SIGNATURE: u32 = 0x4161_5252;
pub const FSINFO_STRUCT_SIGNATURE: u32 = 0x6141_7272;
pub const FSINFO_TRAIL_SIGNATURE: u32 = 0xaa55_0000;

/// Offsets of the FSInfo counters.
pub const FSINFO_FREE_COUNT_OFFSET: usize = 488;
pub const FSINFO_NEXT_FREE_OFFSET: usize = 492;

/// Directory entry attributes.
pub const READ_ONLY_ATTRIBUTE: u8 = 0x01;
pub const VOLUME_ID_ATTRIBUTE: u8 = 0x08;
pub const DIRECTORY_ATTRIBUTE: u8 = 0x10;
pub const LONG_NAME_ATTRIBUTE: u8 = 0x0f;

/// Most clusters a directory may span.
pub const MAX_DIRECTORY_CLUSTERS: usize = 128;

/// Deepest directory level a check descends to.
pub const MAX_FS_CHECK_DEPTH: usize = 4;

/// Why a file system operation failed.
#[derive(Clone, Copy, PartialEq, Eq, Structural, Debug)]
pub enum Error {
    Block(BlockError),
    InvalidBootSector,
    UnsupportedGeometry,
    CorruptDirectory,
    DirectoryFull,
    CorruptChain,
    ChainLoop,
    ChainTooLong,
    TruncatedFile,
    NotFound,
    NoSpace,
    NameTooLong,
    AlreadyExists,
    DirectoryNotEmpty,
    ReadOnly,
    InvalidPath,
    WriteFailed,
}

/// The geometry of a mounted volume.
#[derive(Clone, Copy, PartialEq, Eq, Structural, Debug)]
pub struct Volume {
    pub total_sectors: u32,
    pub sectors_per_cluster: u8,
    pub fat_count: u8,
    pub fat_size: u32,
    pub root_cluster: u32,
    pub first_fat_sector: u64,
    pub first_data_sector: u64,
    pub fs_info_sector: Option<u32>,
    pub backup_fs_info_sector: Option<u32>,
    pub cluster_count: u32,
}

/// A short directory entry.
#[derive(Clone, Copy, PartialEq, Eq, Debug)]
pub struct DirectoryEntry {
    pub short_name: [u8; 11],
    pub first_cluster: u32,
    pub size: u32,
    pub attributes: u8,
}

/// Where a directory entry lives, with its decoded and raw forms.
#[derive(Clone, Copy)]
pub struct DirectorySlot {
    pub lba: u64,
    pub offset: usize,
    pub entry: DirectoryEntry,
    pub raw: [u8; 32],
}

/// The FSInfo counters.
#[derive(Clone, Copy, PartialEq, Eq, Structural, Debug)]
pub struct FsInfo {
    pub free_count: u32,
    pub next_free: u32,
}

/// A cluster linked to a directory to make room, to be undone on failure.
#[derive(Clone, Copy, PartialEq, Eq, Structural, Debug)]
pub struct DirectoryExtension {
    pub parent_cluster: u32,
    pub cluster: u32,
}

/// A directory slot reserved for an entry: an existing entry of the same name, a free
/// slot, or a slot in a freshly linked cluster.
#[derive(Clone, Copy)]
pub struct DirectorySlotReservation {
    pub lba: u64,
    pub offset: usize,
    pub existing: Option<DirectoryEntry>,
    pub extension: Option<DirectoryExtension>,
}

/// What follows a cluster in its chain.
#[derive(Clone, Copy, PartialEq, Eq, Structural, Debug)]
pub enum ClusterLink {
    Next(u32),
    End,
}

/// Free space of a volume.
#[derive(Clone, Copy, PartialEq, Eq, Structural, Debug)]
pub struct SpaceInfo {
    pub total_clusters: u32,
    pub free_clusters: u32,
    pub bytes_per_cluster: u32,
    pub fs_info_free_count: Option<u32>,
    pub fs_info_next_free: Option<u32>,
    pub fs_info_matches: bool,
}

/// What a consistency check found.
#[derive(Clone, Copy, PartialEq, Eq, Structural, Debug)]
pub struct CheckReport {
    pub files: usize,
    pub directories: usize,
    pub total_clusters: u32,
    pub free_clusters: u32,
    pub fs_info_free_count: Option<u32>,
    pub fs_info_matches: bool,
}

// ---- byte helpers ----

fn read_u16(bytes: &[u8], offset: usize) -> (value: u16)
    requires
        offset + 2 <= bytes@.len(),
    ensures
        value == le16(bytes@, offset as int),
{
    bytes[offset] as u16 + bytes[offset + 1] as u16 * 0x100
}

fn read_u32(bytes: &[u8], offset: usize) -> (value: u32)
    requires
        offset + 4 <= bytes@.len(),
    ensures
        value == le32(bytes@, offset as int),
{
    let low = bytes[offset] as u32 + bytes[offset + 1] as u32 * 0x100;
    let high = bytes[offset + 2] as u32 + bytes[offset + 3] as u32 * 0x100;
    low + high * 0x1_0000
}

fn write_u16(bytes: &mut [u8; 512], offset: usize, value: u16)
    requires
        offset + 2 <= 512,
    ensures
        le16(final(bytes)@, offset as int) == value,
        forall|k: int| 0 <= k < 512 && !(offset <= k < offset + 2) ==> #[trigger] final(bytes)@[k] == old(bytes)@[k],
{
    bytes[offset] = (value % 0x100) as u8;
    bytes[offset + 1] = (value / 0x100) as u8;
}

fn write_u32(bytes: &mut [u8; 512], offset: usize, value: u32)
    requires
        offset + 4 <= 512,
    ensures
        le32(final(bytes)@, offset as int) == value,
        forall|k: int| 0 <= k < 512 && !(offset <= k < offset + 4) ==> #[trigger] final(bytes)@[k] == old(bytes)@[k],
{
    bytes[offset] = (value % 0x100) as u8;
    bytes[offset + 1] = (value / 0x100 % 0x100) as u8;
    bytes[offset + 2] = (value / 0x1_0000 % 0x100) as u8;
    bytes[offset + 3] = (value / 0x100_0000) as u8;
}

// ---- clusters ----

/// `cluster` is a data cluster of `volume`.
pub open spec fn cluster_in_range(volume: Volume, cluster: int) -> bool {
    2 <= cluster < (if volume.cluster_count + 2 > u32::MAX {
        u32::MAX as int
    } else {
        volume.cluster_count + 2
    })
}

/// First sector of `cluster`, when it is a data cluster.
pub open spec fn cluster_sector(volume: Volume, cluster: int) -> int {
    volume.first_data_sector + (cluster - 2) * volume.sectors_per_cluster
}

impl Volume {
    /// First sector of data cluster `cluster`.
    pub fn cluster_lba(&self, cluster: u32) -> (lba: Result<u64, Error>)
        ensures
            !cluster_in_range(*self, cluster as int) ==> lba == Err::<u64, Error>(Error::CorruptChain),
            cluster_in_range(*self, cluster as int) && cluster_sector(*self, cluster as int) > u64::MAX
                ==> lba == Err::<u64, Error>(Error::UnsupportedGeometry),
            cluster_in_range(*self, cluster as int) && cluster_sector(*self, cluster as int) <= u64::MAX
                ==> lba == Ok::<u64, Error>(cluster_sector(*self, cluster as int) as u64),
    {
        if cluster < 2 || cluster >= self.cluster_count.saturating_add(2) {
            return Err(Error::CorruptChain);
        }
        assert((cluster - 2) * self.sectors_per_cluster < 0x1_0000_0000 * 0x100) by (nonlinear_arith)
            requires cluster < 0x1_0000_0000int, self.sectors_per_cluster < 0x100int, cluster >= 2;
        let offset = (cluster - 2) as u64 * self.sectors_per_cluster as u64;
        match self.first_data_sector.checked_add(offset) {
            Some(lba) => Ok(lba),
            None => Err(Error::UnsupportedGeometry),
        }
    }
}

/// Sector of the first FAT holding the entry of `cluster`.
pub open spec fn fat_entry_sector(volume: Volume, cluster: int) -> int {
    volume.first_fat_sector + cluster * 4 / 512
}

/// Byte offset of the entry of `cluster` in its FAT sector.
pub open spec fn fat_entry_offset(cluster: int) -> int {
    cluster * 4 % 512
}

/// The FAT entry of `cluster` in the first FAT of `disk`.
pub open spec fn fat_value(disk: Seq<Seq<u8>>, volume: Volume, cluster: int) -> u32 {
    (le32(disk[fat_entry_sector(volume, cluster)], fat_entry_offset(cluster)) as u32) & FAT32_ENTRY_MASK
}

/// The FAT entry of `cluster` is readable: its sector lies before the data area, on
/// the disk, and is a whole sector.
pub open spec fn fat_entry_readable(disk: Seq<Seq<u8>>, volume: Volume, cluster: int) -> bool {
    &&& fat_entry_sector(volume, cluster) < volume.first_data_sector
    &&& fat_entry_sector(volume, cluster) < disk.len()
    &&& disk[fat_entry_sector(volume, cluster)].len() == SECTOR_SIZE
}

/// What the FAT of `disk` says follows `cluster`, if the chain is sound there.
pub open spec fn chain_link(disk: Seq<Seq<u8>>, volume: Volume, cluster: int) -> Option<ClusterLink> {
    let value = fat_value(disk, volume, cluster);
    if value >= FAT32_END_MIN {
        Some(ClusterLink::End)
    } else if cluster_in_range(volume, value as int) && value != FAT32_BAD_CLUSTER && cluster_sector(
        volume,
        value as int,
    ) <= u64::MAX {
        Some(ClusterLink::Next(value))
    } else {
        None
    }
}

/// The FAT entry of `cluster` has a place: the cluster is a data cluster and its
/// entry lies in the FAT, before the data area.
pub open spec fn fat_entry_located(volume: Volume, cluster: int) -> bool {
    &&& cluster_in_range(volume, cluster)
    &&& cluster_sector(volume, cluster) <= u64::MAX
    &&& fat_entry_sector(volume, cluster) < volume.first_data_sector
    &&& fat_entry_sector(volume, cluster) <= u64::MAX
}

/// Sector `lba` of `disk` exists and is a whole sector, so that a read of it can
/// succeed.
pub open spec fn sector_readable(disk: Seq<Seq<u8>>, lba: int) -> bool {
    0 <= lba < disk.len() && disk[lba].len() == SECTOR_SIZE
}

/// What `next_cluster` answers for `cluster` on `disk`, or `None` where the read of
/// its FAT entry cannot succeed.
pub open spec fn next_outcome(disk: Seq<Seq<u8>>, volume: Volume, cluster: int) -> Option<Result<ClusterLink, Error>> {
    if !cluster_in_range(volume, cluster) {
        Some(Err(Error::CorruptChain))
    } else if cluster_sector(volume, cluster) > u64::MAX {
        Some(Err(Error::UnsupportedGeometry))
    } else if fat_entry_sector(volume, cluster) > u64::MAX || fat_entry_sector(volume, cluster)
        >= volume.first_data_sector {
        Some(Err(Error::CorruptChain))
    } else if !sector_readable(disk, fat_entry_sector(volume, cluster)) {
        None
    } else {
        let value = fat_value(disk, volume, cluster);
        if value >= FAT32_END_MIN {
            Some(Ok(ClusterLink::End))
        } else if value < 2 || value == FAT32_BAD_CLUSTER || !cluster_in_range(volume, value as int) {
            Some(Err(Error::CorruptChain))
        } else if cluster_sector(volume, value as int) > u64::MAX {
            Some(Err(Error::UnsupportedGeometry))
        } else {
            Some(Ok(ClusterLink::Next(value)))
        }
    }
}

/// `result` is what `outcome` says, or a failed read; on a reliable device, exactly
/// what `outcome` says, a failed read standing for `None`.
pub open spec fn answers<T>(outcome: Option<Result<T, Error>>, result: Result<T, Error>, reliable: bool) -> bool {
    &&& match outcome {
        Some(expected) => result == expected || (result is Err && result->Err_0 is Block),
        None => result is Err && result->Err_0 is Block,
    }
    &&& reliable ==> match outcome {
        Some(expected) => result == expected,
        None => result is Err && result->Err_0 is Block,
    }
}

/// Where the FAT entry of `cluster` is: its sector and offset; fails on a cluster
/// outside the data area or an entry past the FAT.
fn fat_location(volume: Volume, cluster: u32) -> (location: Result<(u64, usize), Error>)
    ensures
        !cluster_in_range(volume, cluster as int) ==> location == Err::<(u64, usize), Error>(Error::CorruptChain),
        location is Ok ==> {
            let (sector, offset) = location->Ok_0;
            &&& cluster_in_range(volume, cluster as int)
            &&& cluster_sector(volume, cluster as int) <= u64::MAX
            &&& sector == fat_entry_sector(volume, cluster as int)
            &&& offset == fat_entry_offset(cluster as int)
            &&& sector < volume.first_data_sector
            &&& offset + 4 <= 512
        },
        location is Err ==> !cluster_in_range(volume, cluster as int) || cluster_sector(volume, cluster as int)
            > u64::MAX || fat_entry_sector(volume, cluster as int) >= volume.first_data_sector
            || fat_entry_sector(volume, cluster as int) > u64::MAX,
        location is Ok <==> fat_entry_located(volume, cluster as int),
        location is Err ==> !(location->Err_0 is Block),
        cluster_in_range(volume, cluster as int) && cluster_sector(volume, cluster as int) > u64::MAX
            ==> location == Err::<(u64, usize), Error>(Error::UnsupportedGeometry),
        cluster_in_range(volume, cluster as int) && cluster_sector(volume, cluster as int) <= u64::MAX
            && location is Err ==> location == Err::<(u64, usize), Error>(Error::CorruptChain),
{
    match volume.cluster_lba(cluster) {
        Ok(_) => {},
        Err(error) => return Err(error),
    }
    let fat_offset = cluster as u64 * 4;
    let fat_sector = match volume.first_fat_sector.checked_add(fat_offset / 512) {
        Some(sector) => sector,
        None => return Err(Error::CorruptChain),
    };
    if fat_sector >= volume.first_data_sector {
        return Err(Error::CorruptChain);
    }
    Ok((fat_sector, (fat_offset % 512) as usize))
}

/// What follows `cluster` in its chain.
///
/// Fails on a cluster outside the data area, on a FAT entry that is free, reserved,
/// bad or points outside the data area, and on a failed read.
pub fn next_cluster<D: BlockDevice>(device: &mut D, volume: Volume, cluster: u32) -> (link: Result<ClusterLink, Error>)
    requires
        old(device).valid(),
    ensures
        final(device).valid(),
        final(device).sectors() == old(device).sectors(),
        final(device).read_only() == old(device).read_only(),
        !cluster_in_range(volume, cluster as int) ==> link == Err::<ClusterLink, Error>(Error::CorruptChain),
        link is Ok ==> {
            &&& cluster_in_range(volume, cluster as int)
            &&& fat_entry_readable(old(device).sectors(), volume, cluster as int)
            &&& chain_link(old(device).sectors(), volume, cluster as int) == Some(link->Ok_0)
        },
        link is Err && fat_entry_readable(old(device).sectors(), volume, cluster as int) && cluster_in_range(
            volume,
            cluster as int,
        ) && cluster_sector(volume, cluster as int) <= u64::MAX ==> chain_link(old(device).sectors(), volume, cluster as int) is None
            || link->Err_0 is Block,
        answers(next_outcome(old(device).sectors(), volume, cluster as int), link, old(device).reliable()),
        final(device).reliable() == old(device).reliable(),
{
    let (fat_sector, offset) = match fat_location(volume, cluster) {
        Ok(location) => location,
        Err(error) => return Err(error),
    };
    let mut sector = [0u8; 512];
    match device.read_sector(fat_sector, &mut sector) {
        Ok(()) => {},
        Err(error) => return Err(Error::Block(error)),
    }
    let value = read_u32(&sector, offset) & FAT32_ENTRY_MASK;
    if value >= FAT32_END_MIN {
        return Ok(ClusterLink::End);
    }
    if value < 2 || value == FAT32_BAD_CLUSTER {
        return Err(Error::CorruptChain);
    }
    match volume.cluster_lba(value) {
        Ok(_) => {},
        Err(error) => return Err(error),
    }
    Ok(ClusterLink::Next(value))
}

/// The FAT entry of `cluster`, masked to its cluster bits.
fn read_fat_entry<D: BlockDevice>(device: &mut D, volume: Volume, cluster: u32) -> (value: Result<u32, Error>)
    requires
        old(device).valid(),
    ensures
        final(device).valid(),
        final(device).sectors() == old(device).sectors(),
        final(device).read_only() == old(device).read_only(),
        value is Ok ==> cluster_in_range(volume, cluster as int) && fat_entry_readable(old(device).sectors(), volume, cluster as int)
            && value->Ok_0 == fat_value(old(device).sectors(), volume, cluster as int),
        !fat_entry_located(volume, cluster as int) ==> value is Err && !(value->Err_0 is Block),
        fat_entry_located(volume, cluster as int) && value is Err ==> value->Err_0 is Block,
{
    let (fat_sector, offset) = match fat_location(volume, cluster) {
        Ok(location) => location,
        Err(error) => return Err(error),
    };
    let mut sector = [0u8; 512];
    match device.read_sector(fat_sector, &mut sector) {
        Ok(()) => {},
        Err(error) => return Err(Error::Block(error)),
    }
    Ok(read_u32(&sector, offset) & FAT32_ENTRY_MASK)
}

/// Sets the FAT entry of `cluster` to `value` in every FAT copy, keeping the reserved
/// high bits.
fn write_fat_entry<D: BlockDevice>(device: &mut D, volume: Volume, cluster: u32, value: u32) -> (result: Result<(), Error>)
    requires
        old(device).valid(),
    ensures
        final(device).valid(),
        final(device).read_only() == old(device).read_only(),
        final(device).sectors().len() == old(device).sectors().len(),
        result is Ok ==> cluster_in_range(volume, cluster as int),
        !fat_entry_located(volume, cluster as int) ==> result is Err && !(result->Err_0 is Block)
            && final(device).sectors() == old(device).sectors(),
{
    let (first_sector, offset) = match fat_location(volume, cluster) {
        Ok(location) => location,
        Err(error) => return Err(error),
    };
    let sector_index = first_sector - volume.first_fat_sector;
    let masked = value & FAT32_ENTRY_MASK;
    let mut fat: u64 = 0;
    while fat < volume.fat_count as u64
        invariant
            device.valid(),
            device.read_only() == old(device).read_only(),
            device.sectors().len() == old(device).sectors().len(),
            offset + 4 <= 512,
            cluster_in_range(volume, cluster as int),
            fat_entry_located(volume, cluster as int),
        decreases volume.fat_count - fat,
    {
        assert(fat * volume.fat_size <= 0x100 * 0x1_0000_0000) by (nonlinear_arith)
            requires fat < 0x100, volume.fat_size < 0x1_0000_0000int;
        let base = match volume.first_fat_sector.checked_add(fat * volume.fat_size as u64) {
            Some(base) => base,
            None => return Err(Error::CorruptChain),
        };
        let fat_sector = match base.checked_add(sector_index) {
            Some(sector) => sector,
            None => return Err(Error::CorruptChain),
        };
        if fat_sector >= volume.first_data_sector {
            return Err(Error::CorruptChain);
        }
        let mut sector = [0u8; 512];
        match device.read_sector(fat_sector, &mut sector) {
            Ok(()) => {},
            Err(error) => return Err(Error::Block(error)),
        }
        let existing = read_u32(&sector, offset);
        let new_value = (existing & !FAT32_ENTRY_MASK) | masked;
        write_u32(&mut sector, offset, new_value);
        match device.write_sector(fat_sector, &sector) {
            Ok(()) => {},
            Err(error) => return Err(Error::Block(error)),
        }
        fat = fat + 1;
    }
    Ok(())
}

// ---- short names ----

/// The FAT form of one name byte: lower case raised, upper case, digits, `_` and `-`
/// kept, anything else refused.
pub open spec fn fat_char(byte: u8) -> Option<u8> {
    if 0x61 <= byte <= 0x7a {
        Some((byte - 0x20) as u8)
    } else if (0x41 <= byte <= 0x5a) || (0x30 <= byte <= 0x39) || byte == 0x5f || byte == 0x2d {
        Some(byte)
    } else {
        None
    }
}

/// Every byte of `part` has a FAT form.
pub open spec fn all_fat_chars(part: Seq<u8>) -> bool {
    forall|k: int| 0 <= k < part.len() ==> #[trigger] fat_char(part[k]) is Some
}

/// `part` in FAT form, space padded to `width`.
pub open spec fn padded_fat(part: Seq<u8>, width: int) -> Seq<u8> {
    Seq::new(width as nat, |k: int| if k < part.len() { fat_char(part[k])->0 } else { 0x20u8 })
}

/// The base name and extension of `name`, split at its first dot.
pub open spec fn name_parts(name: Seq<u8>) -> (Seq<u8>, Seq<u8>) {
    match name.index_of_first(0x2eu8) {
        Some(dot) => (name.subrange(0, dot), name.subrange(dot + 1, name.len() as int)),
        None => (name, Seq::empty()),
    }
}

/// The 8.3 short name of path component `name`, if it has one.
pub open spec fn short_name_of(name: Seq<u8>) -> Option<Seq<u8>> {
    let (base, ext) = name_parts(name);
    if name.len() == 0 || name.len() > 12 || base.len() == 0 || base.len() > 8 || ext.len() > 3
        || ext.contains(0x2eu8) || !all_fat_chars(base) || !all_fat_chars(ext) {
        None
    } else {
        Some(padded_fat(base, 8) + padded_fat(ext, 3))
    }
}

fn to_fat_char(byte: u8) -> (converted: Option<u8>)
    ensures
        converted == fat_char(byte),
{
    if byte >= 0x61 && byte <= 0x7a {
        Some(byte - 0x20)
    } else if (byte >= 0x41 && byte <= 0x5a) || (byte >= 0x30 && byte <= 0x39) || byte == 0x5f
        || byte == 0x2d {
        Some(byte)
    } else {
        None
    }
}

/// Writes the FAT form of `part` into `out` from `at` on; false if a byte has none.
fn put_fat_chars(out: &mut [u8; 11], at: usize, part: &[u8], from: usize, count: usize) -> (ok: bool)
    requires
        at + count <= 11,
        from + count <= part@.len(),
    ensures
        ok == all_fat_chars(part@.subrange(from as int, from + count)),
        ok ==> forall|k: int| 0 <= k < count ==> #[trigger] final(out)@[at + k] == fat_char(part@[from + k])->0,
        forall|k: int| 0 <= k < 11 && !(at <= k < at + count) ==> #[trigger] final(out)@[k] == old(out)@[k],
{
    let length = part.len();
    let mut k: usize = 0;
    while k < count
        invariant
            k <= count,
            at + count <= 11,
            length == part@.len(),
            from + count <= part@.len(),
            forall|m: int| 0 <= m < k ==> #[trigger] fat_char(part@[from + m]) is Some,
            forall|m: int| 0 <= m < k ==> #[trigger] out@[at + m] == fat_char(part@[from + m])->0,
            forall|m: int| 0 <= m < 11 && !(at <= m < at + k) ==> #[trigger] out@[m] == old(out)@[m],
        decreases count - k,
    {
        match to_fat_char(part[from + k]) {
            Some(converted) => {
                out[at + k] = converted;
            },
            None => {
                assert(fat_char(part@.subrange(from as int, from + count)[k as int]) is None);
                return false;
            },
        }
        k = k + 1;
    }
    proof {
        assert forall|m: int| 0 <= m < count implies #[trigger] fat_char(part@.subrange(from as int, from + count)[m]) is Some by {
            assert(part@.subrange(from as int, from + count)[m] == part@[from + m]);
        }
    }
    true
}

/// The 8.3 short name of `name`, taken as bytes.
pub fn encode_short_name_bytes(name: &[u8]) -> (short: Option<[u8; 11]>)
    ensures
        match short {
            Some(short) => short_name_of(name@) == Some(short@),
            None => short_name_of(name@) is None,
        },
{
    proof {
        name@.index_of_first_ensures(0x2eu8);
    }
    let length = name.len();
    if length == 0 || length > 12 {
        return None;
    }
    let mut dot: usize = 0;
    while dot < length && name[dot] != 0x2e
        invariant
            dot <= length,
            length == name@.len(),
            forall|j: int| 0 <= j < dot ==> name@[j] != 0x2eu8,
        decreases length - dot,
    {
        dot = dot + 1;
    }
    let has_dot = dot < length;
    let base_len = dot;
    let ext_start = if has_dot { dot + 1 } else { length };
    let ext_len = length - ext_start;
    proof {
        if has_dot {
            assert(name@.contains(0x2eu8));
            assert(name@.index_of_first(0x2eu8) == Some(dot as int));
        } else {
            assert(!name@.contains(0x2eu8));
        }
        let (base, ext) = name_parts(name@);
        assert(base =~= name@.subrange(0, base_len as int));
        assert(ext =~= name@.subrange(ext_start as int, length as int));
    }
    if base_len == 0 || base_len > 8 || ext_len > 3 {
        assert(short_name_of(name@) is None);
        return None;
    }
    let mut j = ext_start;
    while j < length
        invariant
            ext_start <= j <= length,
            length == name@.len(),
            name_parts(name@).1 == name@.subrange(ext_start as int, length as int),
            forall|m: int| ext_start <= m < j ==> name@[m] != 0x2eu8,
        decreases length - j,
    {
        if name[j] == 0x2e {
            proof {
                let ext = name@.subrange(ext_start as int, length as int);
                assert(ext[j - ext_start] == 0x2eu8);
                assert(ext.contains(0x2eu8));
            }
            return None;
        }
        j = j + 1;
    }
    proof {
        let ext = name@.subrange(ext_start as int, length as int);
        assert(!ext.contains(0x2eu8));
    }
    let mut out = [0x20u8; 11];
    if !put_fat_chars(&mut out, 0, name, 0, base_len) {
        assert(name@.subrange(0, base_len as int) =~= name_parts(name@).0);
        assert(short_name_of(name@) is None);
        return None;
    }
    let ghost after_base = out@;
    if !put_fat_chars(&mut out, 8, name, ext_start, ext_len) {
        assert(name@.subrange(ext_start as int, ext_start + ext_len) =~= name_parts(name@).1);
        assert(short_name_of(name@) is None);
        return None;
    }
    proof {
        let (base, ext) = name_parts(name@);
        assert(name@.subrange(0, base_len as int) =~= base);
        assert(name@.subrange(ext_start as int, ext_start + ext_len) =~= ext);
        assert forall|k: int| 0 <= k < 11 implies #[trigger] out@[k] == (padded_fat(base, 8) + padded_fat(ext, 3))[k] by {
            if k < 8 {
                assert(out@[k] == after_base[k]);
                if k < base_len {
                    assert(base[k] == name@[k]);
                    assert(after_base[0 + k] == fat_char(name@[0 + k])->0);
                } else {
                    assert(after_base[k] == 0x20u8);
                }
            } else {
                if k - 8 < ext_len {
                    assert(ext[k - 8] == name@[ext_start + (k - 8)]);
                    assert(out@[8 + (k - 8)] == fat_char(name@[ext_start + (k - 8)])->0);
                } else {
                    assert(after_base[k] == 0x20u8);
                }
            }
        }
        assert(out@ =~= padded_fat(base, 8) + padded_fat(ext, 3));
    }
    Some(out)
}

/// The 8.3 short name of path component `name`: upper-cased, base and extension space
/// padded to eight and three bytes.
pub fn encode_short_name(name: &str) -> (short: Option<[u8; 11]>)
    ensures
        match short {
            Some(short) => short_name_of(name.spec_bytes()) == Some(short@),
            None => short_name_of(name.spec_bytes()) is None,
        },
{
    encode_short_name_bytes(name.as_bytes())
}

/// A byte of the portable file name set other than the dot: a letter, a digit, `_` or `-`.
pub open spec fn portable_name_byte(byte: u8) -> bool {
    (0x61 <= byte <= 0x7a) || (0x41 <= byte <= 0x5a) || (0x30 <= byte <= 0x39) || byte == 0x5f
        || byte == 0x2d
}

/// `byte` as an upper-case letter where it is a lower-case one.
pub open spec fn upper_case(byte: u8) -> u8 {
    if 0x61 <= byte <= 0x7a { (byte - 0x20) as u8 } else { byte }
}

/// `part` upper-cased and space padded to `width` bytes.
pub open spec fn upper_padded(part: Seq<u8>, width: int) -> Seq<u8> {
    Seq::new(width as nat, |k: int| if k < part.len() { upper_case(part[k]) } else { 0x20u8 })
}

/// Exactly the letters, digits, `_` and `-` have a FAT form, and that form is the byte
/// upper-cased.
pub proof fn law_fat_chars_are_portable(byte: u8)
    ensures
        fat_char(byte) is Some <==> portable_name_byte(byte),
        portable_name_byte(byte) ==> fat_char(byte) == Some(upper_case(byte)),
{
}

/// A name whose base of one to eight bytes and extension of up to three bytes are made of
/// letters, digits, `_` and `-` has an 8.3 short name: both parts upper-cased and space
/// padded, with or without the dot between them.
pub proof fn law_portable_names_have_short_names(base: Seq<u8>, ext: Seq<u8>)
    requires
        1 <= base.len() <= 8,
        ext.len() <= 3,
        forall|k: int| 0 <= k < base.len() ==> #[trigger] portable_name_byte(base[k]),
        forall|k: int| 0 <= k < ext.len() ==> #[trigger] portable_name_byte(ext[k]),
    ensures
        short_name_of(base + seq![0x2eu8] + ext) == Some(upper_padded(base, 8) + upper_padded(ext, 3)),
        short_name_of(base) == Some(upper_padded(base, 8) + upper_padded(Seq::<u8>::empty(), 3)),
{
    let name = base + seq![0x2eu8] + ext;
    assert(!base.contains(0x2eu8)) by {
        if base.contains(0x2eu8) {
            let k = choose|k: int| 0 <= k < base.len() && base[k] == 0x2eu8;
            assert(portable_name_byte(base[k]));
        }
    }
    assert(!ext.contains(0x2eu8)) by {
        if ext.contains(0x2eu8) {
            let k = choose|k: int| 0 <= k < ext.len() && ext[k] == 0x2eu8;
            assert(portable_name_byte(ext[k]));
        }
    }
    name.index_of_first_ensures(0x2eu8);
    assert(name[base.len() as int] == 0x2eu8);
    assert(name.index_of_first(0x2eu8) == Some(base.len() as int)) by {
        match name.index_of_first(0x2eu8) {
            Some(dot) => {
                if dot < base.len() {
                    assert(base[dot] == name[dot]);
                }
            },
            None => {},
        }
    }
    assert(name.subrange(0, base.len() as int) =~= base);
    assert(name.subrange(base.len() as int + 1, name.len() as int) =~= ext);
    assert(all_fat_chars(base)) by {
        assert forall|k: int| 0 <= k < base.len() implies #[trigger] fat_char(base[k]) is Some by {
            assert(portable_name_byte(base[k]));
        }
    }
    assert(all_fat_chars(ext)) by {
        assert forall|k: int| 0 <= k < ext.len() implies #[trigger] fat_char(ext[k]) is Some by {
            assert(portable_name_byte(ext[k]));
        }
    }
    assert(padded_fat(base, 8) =~= upper_padded(base, 8)) by {
        assert forall|k: int| 0 <= k < 8 && k < base.len() implies padded_fat(base, 8)[k]
            == upper_padded(base, 8)[k] by {
            assert(portable_name_byte(base[k]));
        }
    }
    assert(padded_fat(ext, 3) =~= upper_padded(ext, 3)) by {
        assert forall|k: int| 0 <= k < 3 && k < ext.len() implies padded_fat(ext, 3)[k]
            == upper_padded(ext, 3)[k] by {
            assert(portable_name_byte(ext[k]));
        }
    }
    base.index_of_first_ensures(0x2eu8);
    assert(base.index_of_first(0x2eu8) is None);
    assert(padded_fat(Seq::<u8>::empty(), 3) =~= upper_padded(Seq::<u8>::empty(), 3));
    assert(!Seq::<u8>::empty().contains(0x2eu8));
    assert(all_fat_chars(Seq::<u8>::empty()));
}

/// Only such names have a short name: a name with one is made of letters, digits, `_`,
/// `-` and at most one dot, with one to eight bytes before the dot and at most three
/// after it.
pub proof fn law_short_names_only_for_portable_names(name: Seq<u8>)
    requires
        short_name_of(name) is Some,
    ensures
        1 <= name.len() <= 12,
        forall|k: int| 0 <= k < name.len() ==> #[trigger] portable_name_byte(name[k]) || name[k] == 0x2eu8,
        forall|k: int| 0 <= k < name.len() && #[trigger] name[k] == 0x2eu8 ==> 1 <= k <= 8 && name.len() - k - 1 <= 3
            && forall|m: int| 0 <= m < name.len() && m != k ==> name[m] != 0x2eu8,
        !name.contains(0x2eu8) ==> name.len() <= 8,
{
    name.index_of_first_ensures(0x2eu8);
    let (base, ext) = name_parts(name);
    assert forall|k: int| 0 <= k < base.len() implies portable_name_byte(#[trigger] base[k]) by {
        assert(fat_char(base[k]) is Some);
    }
    assert forall|k: int| 0 <= k < ext.len() implies portable_name_byte(#[trigger] ext[k]) && ext[k] != 0x2eu8 by {
        assert(fat_char(ext[k]) is Some);
    }
    match name.index_of_first(0x2eu8) {
        Some(dot) => {
            assert forall|k: int| 0 <= k < name.len() implies #[trigger] portable_name_byte(name[k])
                || name[k] == 0x2eu8 by {
                if k < dot {
                    assert(name[k] == base[k]);
                } else if k > dot {
                    assert(name[k] == ext[k - dot - 1]);
                }
            }
            assert forall|k: int| 0 <= k < name.len() && #[trigger] name[k] == 0x2eu8 implies k == dot by {
                if k < dot {
                    assert(name[k] == base[k]);
                } else if k > dot {
                    assert(name[k] == ext[k - dot - 1]);
                }
            }
        },
        None => {
            assert forall|k: int| 0 <= k < name.len() implies #[trigger] portable_name_byte(name[k])
                || name[k] == 0x2eu8 by {
                assert(name[k] == base[k]);
            }
        },
    }
}

// ---- directory entries ----

/// Offset of entry `index` in a directory sector.
pub open spec fn entry_at(index: int) -> int {
    index * 32
}

/// Entry `index` of `sector` ends the directory.
pub open spec fn entry_ends(sector: Seq<u8>, index: int) -> bool {
    sector[entry_at(index)] == 0
}

/// Entry `index` of `sector` is deleted, a long-name part or a volume label.
pub open spec fn entry_skipped(sector: Seq<u8>, index: int) -> bool {
    let attributes = sector[entry_at(index) + 11];
    sector[entry_at(index)] == 0xe5 || attributes == LONG_NAME_ATTRIBUTE || attributes
        & VOLUME_ID_ATTRIBUTE != 0
}

/// The name bytes of entry `index` of `sector`.
pub open spec fn entry_name(sector: Seq<u8>, index: int) -> Seq<u8> {
    sector.subrange(entry_at(index), entry_at(index) + 11)
}

/// The entry at `offset` of `sector`, or why it is corrupt.
pub open spec fn decode_entry(sector: Seq<u8>, offset: int) -> Result<DirectoryEntry, Error> {
    let first_cluster = le16(sector, offset + 20) * 0x1_0000 + le16(sector, offset + 26);
    let size = le32(sector, offset + 28);
    let attributes = sector[offset + 11];
    if first_cluster < 2 && (size != 0 || attributes & DIRECTORY_ATTRIBUTE != 0) {
        Err(Error::CorruptDirectory)
    } else {
        Ok(
            DirectoryEntry {
                short_name: arbitrary(),
                first_cluster: first_cluster as u32,
                size: size as u32,
                attributes,
            },
        )
    }
}

/// The entry decoded from `offset` of `sector` has the fields found there.
pub open spec fn entry_decoded(entry: DirectoryEntry, sector: Seq<u8>, offset: int) -> bool {
    &&& entry.short_name@ == sector.subrange(offset, offset + 11)
    &&& entry.first_cluster == le16(sector, offset + 20) * 0x1_0000 + le16(sector, offset + 26)
    &&& entry.size == le32(sector, offset + 28)
    &&& entry.attributes == sector[offset + 11]
}

/// An entry pointing at no cluster holds no data and is no directory.
pub open spec fn entry_sound(sector: Seq<u8>, offset: int) -> bool {
    let first_cluster = le16(sector, offset + 20) * 0x1_0000 + le16(sector, offset + 26);
    !(first_cluster < 2 && (le32(sector, offset + 28) != 0 || sector[offset + 11] & DIRECTORY_ATTRIBUTE
        != 0))
}

/// Decodes the entry at `offset` of `sector`.
fn directory_entry_from_sector(sector: &[u8; 512], offset: usize) -> (entry: Result<DirectoryEntry, Error>)
    requires
        offset + 32 <= 512,
    ensures
        entry is Ok <==> entry_sound(sector@, offset as int),
        entry is Err ==> entry->Err_0 == Error::CorruptDirectory,
        entry is Ok ==> entry_decoded(entry->Ok_0, sector@, offset as int),
{
    let mut short_name = [0u8; 11];
    copy_bytes(&mut short_name, 0, sector, offset, 11);
    let first_cluster = read_u16(sector, offset + 20) as u32 * 0x1_0000 + read_u16(sector, offset + 26) as u32;
    let size = read_u32(sector, offset + 28);
    let attributes = sector[offset + 11];
    if first_cluster < 2 && (size != 0 || attributes & DIRECTORY_ATTRIBUTE != 0) {
        return Err(Error::CorruptDirectory);
    }
    assert(short_name@ =~= sector@.subrange(offset as int, offset + 11));
    Ok(DirectoryEntry { short_name, first_cluster, size, attributes })
}

/// Whether `a` and `b` hold the same eleven bytes.
fn names_equal(a: &[u8; 11], b: &[u8; 11]) -> (equal: bool)
    ensures
        equal == (a@ == b@),
{
    crate::ipc::bytes_equal(a, b)
}

/// What scanning one directory sector for a name found.
pub enum DirectoryScan {
    Found(DirectoryEntry),
    Continue,
    End,
}

/// The first entry from `index` on of `sector` that ends the directory or carries
/// `name`: the outcome of scanning from there.
pub open spec fn scan_outcome(sector: Seq<u8>, name: Seq<u8>, index: int) -> Option<(int, bool)>
    decreases 16 - index,
{
    if index >= 16 || index < 0 {
        None
    } else if entry_ends(sector, index) {
        Some((index, false))
    } else if !entry_skipped(sector, index) && entry_name(sector, index) == name {
        Some((index, true))
    } else {
        scan_outcome(sector, name, index + 1)
    }
}

/// The entry index a scan stopped at.
pub open spec fn outcome_index(outcome: Option<(int, bool)>) -> int {
    match outcome {
        Some((index, _)) => index,
        None => 0,
    }
}

/// A scan that found an entry found one carrying the name it looked for.
proof fn lemma_scan_found_name(sector: Seq<u8>, name: Seq<u8>, index: int)
    requires
        scan_outcome(sector, name, index) matches Some((_, true)),
    ensures
        entry_name(sector, outcome_index(scan_outcome(sector, name, index))) == name,
    decreases 16 - index,
{
    if 0 <= index < 16 && !entry_ends(sector, index) && !(!entry_skipped(sector, index) && entry_name(sector, index) == name) {
        lemma_scan_found_name(sector, name, index + 1);
    }
}

/// Looks for `short_name` in one directory sector.
fn scan_directory_sector(sector: &[u8; 512], short_name: &[u8; 11]) -> (result: Result<DirectoryScan, Error>)
    ensures
        match scan_outcome(sector@, short_name@, 0) {
            None => result is Ok && result->Ok_0 is Continue,
            Some((index, false)) => result is Ok && result->Ok_0 is End,
            Some((index, true)) => match result {
                Ok(DirectoryScan::Found(entry)) => entry_sound(sector@, entry_at(index)) && entry_decoded(
                    entry,
                    sector@,
                    entry_at(index),
                ),
                Err(error) => error == Error::CorruptDirectory && !entry_sound(sector@, entry_at(index)),
                _ => false,
            },
        },
{
    let mut index: usize = 0;
    while index < DIRECTORY_ENTRIES_PER_SECTOR
        invariant
            index <= 16,
            scan_outcome(sector@, short_name@, 0) == scan_outcome(sector@, short_name@, index as int),
        decreases 16 - index,
    {
        let offset = index * DIRECTORY_ENTRY_SIZE;
        let first = sector[offset];
        if first == 0 {
            return Ok(DirectoryScan::End);
        }
        let attributes = sector[offset + 11];
        if first == 0xe5 || attributes == LONG_NAME_ATTRIBUTE || attributes & VOLUME_ID_ATTRIBUTE != 0 {
            index = index + 1;
            continue;
        }
        let mut entry_name_bytes = [0u8; 11];
        copy_bytes(&mut entry_name_bytes, 0, sector, offset, 11);
        assert(entry_name_bytes@ =~= entry_name(sector@, index as int));
        if !names_equal(&entry_name_bytes, short_name) {
            index = index + 1;
            continue;
        }
        return match directory_entry_from_sector(sector, offset) {
            Ok(entry) => Ok(DirectoryScan::Found(entry)),
            Err(error) => Err(error),
        };
    }
    Ok(DirectoryScan::Continue)
}

// ---- FSInfo ----

/// `sector` carries the three FSInfo signatures.
pub open spec fn fs_info_signed(sector: Seq<u8>) -> bool {
    &&& sector.len() == SECTOR_SIZE
    &&& le32(sector, 0) == FSINFO_LEAD_SIGNATURE
    &&& le32(sector, 484) == FSINFO_STRUCT_SIGNATURE
    &&& le32(sector, 508) == FSINFO_TRAIL_SIGNATURE
}

fn fs_info_signatures_valid(sector: &[u8]) -> (valid: bool)
    ensures
        valid == fs_info_signed(sector@),
{
    sector.len() == SECTOR_SIZE && read_u32(sector, 0) == FSINFO_LEAD_SIGNATURE && read_u32(sector, 484)
        == FSINFO_STRUCT_SIGNATURE && read_u32(sector, 508) == FSINFO_TRAIL_SIGNATURE
}

/// `sector_lba`, if it names a signed FSInfo sector among the reserved sectors.
fn valid_fs_info_sector<D: BlockDevice>(device: &mut D, sector_lba: u32, reserved_sectors: u16) -> (found: Option<u32>)
    requires
        old(device).valid(),
    ensures
        final(device).valid(),
        final(device).sectors() == old(device).sectors(),
        final(device).read_only() == old(device).read_only(),
        found is Some ==> found->0 == sector_lba && 0 < sector_lba < reserved_sectors && sector_lba
            < old(device).sectors().len() && fs_info_signed(old(device).sectors()[sector_lba as int]),
        (sector_lba == 0 || sector_lba >= reserved_sectors) ==> found is None,
        final(device).reliable() == old(device).reliable(),
{
    if sector_lba == 0 || sector_lba >= reserved_sectors as u32 {
        return None;
    }
    let mut sector = [0u8; 512];
    if device.read_sector(sector_lba as u64, &mut sector).is_err() {
        return None;
    }
    if fs_info_signatures_valid(&sector) {
        Some(sector_lba)
    } else {
        None
    }
}

/// `cluster` can be handed out.
pub open spec fn allocatable(volume: Volume, cluster: int) -> bool {
    cluster_in_range(volume, cluster)
}

fn is_allocatable_cluster(volume: Volume, cluster: u32) -> (usable: bool)
    ensures
        usable == allocatable(volume, cluster as int),
{
    cluster >= 2 && cluster < volume.cluster_count.saturating_add(2)
}

fn sanitize_fs_info_value(value: u32, max: u32) -> (sane: u32)
    ensures
        sane == if value == FSINFO_UNKNOWN || value <= max { value } else { FSINFO_UNKNOWN },
{
    if value == FSINFO_UNKNOWN || value <= max {
        value
    } else {
        FSINFO_UNKNOWN
    }
}

fn sanitize_next_free(volume: Volume, value: u32) -> (sane: u32)
    ensures
        sane == if allocatable(volume, value as int) { value } else { FSINFO_UNKNOWN },
{
    if is_allocatable_cluster(volume, value) {
        value
    } else {
        FSINFO_UNKNOWN
    }
}

/// The FSInfo counters as the volume's FSInfo sector in `disk` holds them, made sane.
pub open spec fn stored_fs_info(disk: Seq<Seq<u8>>, volume: Volume) -> Option<FsInfo> {
    match volume.fs_info_sector {
        None => None,
        Some(lba) => {
            let sector = disk[lba as int];
            if !fs_info_signed(sector) {
                None
            } else {
                let free = le32(sector, FSINFO_FREE_COUNT_OFFSET as int) as u32;
                let next = le32(sector, FSINFO_NEXT_FREE_OFFSET as int) as u32;
                Some(
                    FsInfo {
                        free_count: if free == FSINFO_UNKNOWN || free <= volume.cluster_count {
                            free
                        } else {
                            FSINFO_UNKNOWN
                        },
                        next_free: if allocatable(volume, next as int) {
                            next
                        } else {
                            FSINFO_UNKNOWN
                        },
                    },
                )
            }
        },
    }
}

/// The FSInfo counters of the volume, if it has an FSInfo sector.
fn read_fs_info<D: BlockDevice>(device: &mut D, volume: Volume) -> (info: Result<Option<FsInfo>, Error>)
    requires
        old(device).valid(),
    ensures
        final(device).valid(),
        final(device).sectors() == old(device).sectors(),
        final(device).read_only() == old(device).read_only(),
        volume.fs_info_sector is None ==> info == Ok::<Option<FsInfo>, Error>(None),
        info is Ok ==> info->Ok_0 == stored_fs_info(old(device).sectors(), volume),
{
    let sector_lba = match volume.fs_info_sector {
        Some(lba) => lba,
        None => return Ok(None),
    };
    let mut sector = [0u8; 512];
    match device.read_sector(sector_lba as u64, &mut sector) {
        Ok(()) => {},
        Err(error) => return Err(Error::Block(error)),
    }
    if !fs_info_signatures_valid(&sector) {
        return Ok(None);
    }
    let free = read_u32(&sector, FSINFO_FREE_COUNT_OFFSET);
    let next = read_u32(&sector, FSINFO_NEXT_FREE_OFFSET);
    Ok(Some(FsInfo {
        free_count: sanitize_fs_info_value(free, volume.cluster_count),
        next_free: sanitize_next_free(volume, next),
    }))
}

/// Writes `info` into the signed FSInfo sector `sector_lba`; an unsigned sector is left.
fn write_fs_info_sector<D: BlockDevice>(device: &mut D, sector_lba: u32, info: FsInfo) -> (result: Result<(), Error>)
    requires
        old(device).valid(),
    ensures
        final(device).valid(),
        final(device).read_only() == old(device).read_only(),
        final(device).sectors().len() == old(device).sectors().len(),
        forall|j: int| 0 <= j < old(device).sectors().len() && j != sector_lba ==> #[trigger] final(device).sectors()[j]
            == old(device).sectors()[j],
        result is Ok && sector_lba < old(device).sectors().len() && fs_info_signed(old(device).sectors()[sector_lba as int])
            ==> {
            let written = final(device).sectors()[sector_lba as int];
            &&& le32(written, FSINFO_FREE_COUNT_OFFSET as int) == info.free_count
            &&& le32(written, FSINFO_NEXT_FREE_OFFSET as int) == info.next_free
            &&& forall|k: int|
                0 <= k < 512 && !(FSINFO_FREE_COUNT_OFFSET <= k < FSINFO_NEXT_FREE_OFFSET + 4) ==> #[trigger] written[k]
                    == old(device).sectors()[sector_lba as int][k]
        },
        result is Ok && !(sector_lba < old(device).sectors().len() && fs_info_signed(old(device).sectors()[sector_lba as int]))
            ==> final(device).sectors() == old(device).sectors(),
{
    let mut sector = [0u8; 512];
    match device.read_sector(sector_lba as u64, &mut sector) {
        Ok(()) => {},
        Err(error) => return Err(Error::Block(error)),
    }
    if !fs_info_signatures_valid(&sector) {
        return Ok(());
    }
    write_u32(&mut sector, FSINFO_FREE_COUNT_OFFSET, info.free_count);
    write_u32(&mut sector, FSINFO_NEXT_FREE_OFFSET, info.next_free);
    match device.write_sector(sector_lba as u64, &sector) {
        Ok(()) => Ok(()),
        Err(error) => Err(Error::Block(error)),
    }
}

/// Writes `info` into the FSInfo sector and its backup.
fn write_fs_info<D: BlockDevice>(device: &mut D, volume: Volume, info: FsInfo) -> (result: Result<(), Error>)
    requires
        old(device).valid(),
    ensures
        final(device).valid(),
        final(device).read_only() == old(device).read_only(),
        final(device).sectors().len() == old(device).sectors().len(),
        volume.fs_info_sector is None && volume.backup_fs_info_sector is None ==> result is Ok && *final(device)
            == *old(device),
        result is Ok ==> forall|l: u32|
            (volume.fs_info_sector == Some(l) || volume.backup_fs_info_sector == Some(l)) && l < old(device).sectors().len()
                && fs_info_signed(old(device).sectors()[l as int]) ==> le32(
                #[trigger] final(device).sectors()[l as int],
                FSINFO_FREE_COUNT_OFFSET as int,
            ) == info.free_count && le32(final(device).sectors()[l as int], FSINFO_NEXT_FREE_OFFSET as int) == info.next_free,
{
    match volume.fs_info_sector {
        Some(lba) => match write_fs_info_sector(device, lba, info) {
            Ok(()) => {},
            Err(error) => return Err(error),
        },
        None => {},
    }
    match volume.backup_fs_info_sector {
        Some(lba) => write_fs_info_sector(device, lba, info),
        None => Ok(()),
    }
}

/// The cluster after `cluster` if it can be handed out, else the first data cluster.
fn next_cluster_hint(volume: Volume, cluster: u32) -> (hint: u32)
    ensures
        hint == if allocatable(volume, cluster as int + 1) && cluster < u32::MAX {
            (cluster + 1) as u32
        } else {
            2
        },
{
    let next = cluster.saturating_add(1);
    if is_allocatable_cluster(volume, next) {
        next
    } else {
        2
    }
}

/// Where to start looking for a free cluster: the FSInfo hint if usable, else 2.
fn fs_info_next_free_hint<D: BlockDevice>(device: &mut D, volume: Volume) -> (hint: u32)
    requires
        old(device).valid(),
    ensures
        final(device).valid(),
        final(device).sectors() == old(device).sectors(),
        final(device).read_only() == old(device).read_only(),
        hint == 2 || allocatable(volume, hint as int),
{
    match read_fs_info(device, volume) {
        Ok(Some(info)) => {
            if is_allocatable_cluster(volume, info.next_free) {
                info.next_free
            } else {
                2
            }
        },
        _ => 2,
    }
}

/// Records in FSInfo that `allocated_cluster` was taken.
fn update_fs_info_after_alloc<D: BlockDevice>(device: &mut D, volume: Volume, allocated_cluster: u32) -> (result: Result<(), Error>)
    requires
        old(device).valid(),
    ensures
        final(device).valid(),
        final(device).read_only() == old(device).read_only(),
        final(device).sectors().len() == old(device).sectors().len(),
{
    let mut info = match read_fs_info(device, volume) {
        Ok(Some(info)) => info,
        Ok(None) => return Ok(()),
        Err(error) => return Err(error),
    };
    if info.free_count != FSINFO_UNKNOWN {
        info.free_count = info.free_count.saturating_sub(1);
    }
    info.next_free = next_cluster_hint(volume, allocated_cluster);
    write_fs_info(device, volume, info)
}

/// Records in FSInfo that `freed_count` clusters from `first_freed` on were released.
fn update_fs_info_after_free<D: BlockDevice>(device: &mut D, volume: Volume, freed_count: u32, first_freed: u32) -> (result: Result<(), Error>)
    requires
        old(device).valid(),
    ensures
        final(device).valid(),
        final(device).read_only() == old(device).read_only(),
        final(device).sectors().len() == old(device).sectors().len(),
{
    let mut info = match read_fs_info(device, volume) {
        Ok(Some(info)) => info,
        Ok(None) => return Ok(()),
        Err(error) => return Err(error),
    };
    if info.free_count != FSINFO_UNKNOWN {
        let raised = info.free_count.saturating_add(freed_count);
        info.free_count = if raised < volume.cluster_count { raised } else { volume.cluster_count };
    }
    if is_allocatable_cluster(volume, first_freed) {
        info.next_free = first_freed;
    }
    write_fs_info(device, volume, info)
}

// ---- mounting ----

/// The geometry of a volume as `mount` produces it: clusters of at most 128 sectors
/// and a data area that ends within 32-bit sector numbers.
pub open spec fn volume_sane(volume: Volume) -> bool {
    &&& 1 <= volume.sectors_per_cluster <= 128
    &&& volume.first_fat_sector <= volume.first_data_sector <= u32::MAX
    &&& volume.cluster_count * volume.sectors_per_cluster <= u32::MAX
    &&& cluster_in_range(volume, volume.root_cluster as int)
}

/// Sectors of a sane volume's clusters never overflow.
pub proof fn lemma_cluster_sector_bound(volume: Volume, cluster: int, index: int)
    requires
        volume_sane(volume),
        cluster_in_range(volume, cluster),
        0 <= index < volume.sectors_per_cluster,
    ensures
        cluster_sector(volume, cluster) + index < 2 * 0x1_0000_0000,
        cluster_sector(volume, cluster) + index < volume.first_data_sector + volume.cluster_count * volume.sectors_per_cluster,
{
    assert((cluster - 2) * volume.sectors_per_cluster + index < volume.cluster_count * volume.sectors_per_cluster) by (nonlinear_arith)
        requires
            0 <= cluster - 2 < volume.cluster_count,
            0 <= index < volume.sectors_per_cluster;
}

/// The boot sector describes a FAT32 volume this driver handles, on a disk of
/// `disk_sectors` sectors.
pub open spec fn boot_geometry_valid(sector: Seq<u8>, disk_sectors: int) -> bool {
    let sectors_per_cluster = sector[13];
    let reserved = le16(sector, 14);
    let fat_count = sector[16];
    let total = le32(sector, 32);
    let fat_size = le32(sector, 36);
    let root = le32(sector, 44);
    let first_data = reserved + fat_count * fat_size;
    &&& le16(sector, 11) == SECTOR_SIZE
    &&& sectors_per_cluster != 0
    &&& sectors_per_cluster & ((sectors_per_cluster - 1) as u8) == 0
    &&& sectors_per_cluster <= 128
    &&& reserved != 0
    &&& (fat_count == 1 || fat_count == 2)
    &&& le16(sector, 17) == 0
    &&& le16(sector, 19) == 0
    &&& le16(sector, 22) == 0
    &&& total != 0
    &&& fat_size != 0
    &&& root >= 2
    &&& total <= disk_sectors
    &&& first_data <= u32::MAX
    &&& first_data <= total
    &&& (total - first_data) / (sectors_per_cluster as int) >= FAT32_MIN_CLUSTERS
    &&& root < (total - first_data) / (sectors_per_cluster as int) + 2
}

/// The geometry fields a boot sector gives.
pub open spec fn boot_volume_matches(volume: Volume, sector: Seq<u8>) -> bool {
    let first_data = le16(sector, 14) + sector[16] * le32(sector, 36);
    &&& volume.total_sectors == le32(sector, 32)
    &&& volume.sectors_per_cluster == sector[13]
    &&& volume.fat_count == sector[16]
    &&& volume.fat_size == le32(sector, 36)
    &&& volume.root_cluster == le32(sector, 44)
    &&& volume.first_fat_sector == le16(sector, 14)
    &&& volume.first_data_sector == first_data
    &&& volume.cluster_count == (le32(sector, 32) - first_data) / (sector[13] as int)
}

/// Reads the boot sector of `device` and checks that it describes a FAT32 volume this
/// driver handles; finds the FSInfo sector and its backup when they are signed.
pub fn mount<D: BlockDevice>(device: &mut D) -> (result: Result<Volume, Error>)
    requires
        old(device).valid(),
    ensures
        final(device).valid(),
        final(device).sectors() == old(device).sectors(),
        final(device).read_only() == old(device).read_only(),
        result is Ok ==> {
            let sector = old(device).sectors()[0];
            let volume = result->Ok_0;
            &&& old(device).sectors().len() > 0
            &&& sector.len() == SECTOR_SIZE
            &&& sector[510] == 0x55 && sector[511] == 0xaa
            &&& boot_geometry_valid(sector, old(device).sectors().len() as int)
            &&& boot_volume_matches(volume, sector)
            &&& volume_sane(volume)
            &&& (volume.fs_info_sector is Some ==> volume.fs_info_sector->0 == le16(sector, 48) && fs_info_signed(
                old(device).sectors()[le16(sector, 48)],
            ))
            &&& (volume.backup_fs_info_sector is Some ==> le16(sector, 50) != 0
                && volume.backup_fs_info_sector->0 == le16(sector, 50) + 1 && volume.backup_fs_info_sector->0
                < le16(sector, 14) && fs_info_signed(old(device).sectors()[le16(sector, 50) + 1]))
        },
        result is Err && old(device).sectors().len() > 0 && old(device).sectors()[0].len() == SECTOR_SIZE
            && !(old(device).sectors()[0][510] == 0x55 && old(device).sectors()[0][511] == 0xaa)
            ==> result->Err_0 == Error::InvalidBootSector || result->Err_0 is Block,
        result is Err && old(device).sectors().len() > 0 && old(device).sectors()[0].len() == SECTOR_SIZE
            && old(device).sectors()[0][510] == 0x55 && old(device).sectors()[0][511] == 0xaa
            && !boot_geometry_valid(old(device).sectors()[0], old(device).sectors().len() as int)
            ==> result->Err_0 == Error::UnsupportedGeometry || result->Err_0 is Block,
        final(device).reliable() == old(device).reliable(),
        result is Err && result->Err_0 is Block ==> !old(device).reliable() || !sector_readable(old(device).sectors(), 0),
        old(device).reliable() && sector_readable(old(device).sectors(), 0) && old(device).sectors()[0][510] == 0x55
            && old(device).sectors()[0][511] == 0xaa && boot_geometry_valid(
            old(device).sectors()[0],
            old(device).sectors().len() as int,
        ) ==> result is Ok,
{
    let mut sector = [0u8; 512];
    match device.read_sector(0, &mut sector) {
        Ok(()) => {},
        Err(error) => return Err(Error::Block(error)),
    }
    if sector[510] != 0x55 || sector[511] != 0xaa {
        return Err(Error::InvalidBootSector);
    }
    let bytes_per_sector = read_u16(&sector, 11);
    let sectors_per_cluster = sector[13];
    let reserved_sectors = read_u16(&sector, 14);
    let fat_count = sector[16];
    let root_entries = read_u16(&sector, 17);
    let total_sectors_16 = read_u16(&sector, 19);
    let fat_size_16 = read_u16(&sector, 22);
    let total_sectors = read_u32(&sector, 32);
    let fat_size = read_u32(&sector, 36);
    let root_cluster = read_u32(&sector, 44);
    let fs_info_sector_field = read_u16(&sector, 48) as u32;
    let backup_boot_sector = read_u16(&sector, 50) as u32;
    if bytes_per_sector as usize != SECTOR_SIZE || sectors_per_cluster == 0 || sectors_per_cluster
        & (sectors_per_cluster - 1) != 0 || sectors_per_cluster > 128 || reserved_sectors == 0 || !(
    fat_count == 1 || fat_count == 2) || root_entries != 0 || total_sectors_16 != 0 || fat_size_16
        != 0 || total_sectors == 0 || fat_size == 0 || root_cluster < 2 {
        return Err(Error::UnsupportedGeometry);
    }
    if total_sectors as u64 > device.sector_count() {
        return Err(Error::UnsupportedGeometry);
    }
    let fat_sectors = match (fat_count as u32).checked_mul(fat_size) {
        Some(sectors) => sectors,
        None => return Err(Error::UnsupportedGeometry),
    };
    let first_data = match (reserved_sectors as u32).checked_add(fat_sectors) {
        Some(first) => first,
        None => return Err(Error::UnsupportedGeometry),
    };
    let data_sectors = match total_sectors.checked_sub(first_data) {
        Some(sectors) => sectors,
        None => return Err(Error::UnsupportedGeometry),
    };
    let cluster_count = data_sectors / sectors_per_cluster as u32;
    if cluster_count < FAT32_MIN_CLUSTERS || root_cluster >= cluster_count.saturating_add(2) {
        return Err(Error::UnsupportedGeometry);
    }
    proof {
        assert(cluster_count * sectors_per_cluster <= data_sectors) by (nonlinear_arith)
            requires cluster_count == data_sectors as int / (sectors_per_cluster as int), sectors_per_cluster > 0;
        assert(sectors_per_cluster <= 128);
    }
    let fs_info_sector = valid_fs_info_sector(device, fs_info_sector_field, reserved_sectors);
    let backup_fs_info_sector = if backup_boot_sector == 0 {
        None
    } else {
        match backup_boot_sector.checked_add(1) {
            Some(lba) => valid_fs_info_sector(device, lba, reserved_sectors),
            None => None,
        }
    };
    Ok(Volume {
        total_sectors,
        sectors_per_cluster,
        fat_count,
        fat_size,
        root_cluster,
        first_fat_sector: reserved_sectors as u64,
        first_data_sector: first_data as u64,
        fs_info_sector,
        backup_fs_info_sector,
        cluster_count,
    })
}

// ---- walking directories ----

/// Records `cluster` as visited by a directory walk; refuses a walk that grew too long
/// or came back to a cluster it saw.
fn visit(visited: &mut Vec<u32>, cluster: u32) -> (result: Result<(), Error>)
    requires
        old(visited)@.len() <= MAX_DIRECTORY_CLUSTERS,
    ensures
        old(visited)@.len() == MAX_DIRECTORY_CLUSTERS ==> result == Err::<(), Error>(Error::ChainTooLong),
        old(visited)@.len() < MAX_DIRECTORY_CLUSTERS && old(visited)@.contains(cluster) ==> result
            == Err::<(), Error>(Error::ChainLoop),
        result is Err ==> final(visited)@ == old(visited)@,
        result is Ok ==> final(visited)@ == old(visited)@.push(cluster),
        result is Ok <==> old(visited)@.len() < MAX_DIRECTORY_CLUSTERS && !old(visited)@.contains(cluster),
{
    if visited.len() == MAX_DIRECTORY_CLUSTERS {
        return Err(Error::ChainTooLong);
    }
    let mut i: usize = 0;
    while i < visited.len()
        invariant
            i <= visited@.len(),
            visited@ == old(visited)@,
            visited@.len() < MAX_DIRECTORY_CLUSTERS,
            forall|k: int| 0 <= k < i ==> visited@[k] != cluster,
        decreases visited@.len() - i,
    {
        if visited[i] == cluster {
            assert(visited@.contains(cluster));
            return Err(Error::ChainLoop);
        }
        i = i + 1;
    }
    visited.push(cluster);
    Ok(())
}

/// Why a directory walk that has seen the clusters in `visited` cannot go on into
/// `cluster`, if it cannot.
pub open spec fn enter_error(volume: Volume, cluster: u32, visited: Seq<u32>) -> Option<Error> {
    if visited.len() >= MAX_DIRECTORY_CLUSTERS {
        Some(Error::ChainTooLong)
    } else if visited.contains(cluster) {
        Some(Error::ChainLoop)
    } else if !cluster_in_range(volume, cluster as int) {
        Some(Error::CorruptChain)
    } else if cluster_sector(volume, cluster as int) > u64::MAX {
        Some(Error::UnsupportedGeometry)
    } else {
        None
    }
}

/// Where a lookup of `name` ends when it scans `cluster` from its sector `index` on,
/// `visited` holding the clusters walked so far: the sector and offset of the first
/// live entry carrying the name, the error the walk meets, or `None` where a read
/// that the lookup needs cannot succeed.
pub open spec fn lookup_scan(
    disk: Seq<Seq<u8>>,
    volume: Volume,
    name: Seq<u8>,
    cluster: u32,
    index: int,
    visited: Seq<u32>,
) -> Option<Result<(int, int), Error>>
    decreases MAX_DIRECTORY_CLUSTERS - visited.len(), volume.sectors_per_cluster - index,
{
    if index < volume.sectors_per_cluster {
        let lba = cluster_sector(volume, cluster as int) + index;
        if !sector_readable(disk, lba) {
            None
        } else {
            match scan_outcome(disk[lba], name, 0) {
                None => lookup_scan(disk, volume, name, cluster, index + 1, visited),
                Some((_, false)) => Some(Err(Error::NotFound)),
                Some((slot, true)) => if entry_sound(disk[lba], entry_at(slot)) {
                    Some(Ok((lba, entry_at(slot))))
                } else {
                    Some(Err(Error::CorruptDirectory))
                },
            }
        }
    } else {
        match next_outcome(disk, volume, cluster as int) {
            None => None,
            Some(Err(error)) => Some(Err(error)),
            Some(Ok(ClusterLink::End)) => Some(Err(Error::NotFound)),
            Some(Ok(ClusterLink::Next(next))) => match enter_error(volume, next, visited) {
                Some(error) => Some(Err(error)),
                None => lookup_scan(disk, volume, name, next, 0, visited.push(next)),
            },
        }
    }
}

/// Where a lookup of `name` in the directory whose chain starts at `dir_cluster`
/// ends (see `lookup_scan`).
pub open spec fn lookup_in(disk: Seq<Seq<u8>>, volume: Volume, name: Seq<u8>, dir_cluster: u32) -> Option<Result<(int, int), Error>> {
    match enter_error(volume, dir_cluster, Seq::empty()) {
        Some(error) => Some(Err(error)),
        None => lookup_scan(disk, volume, name, dir_cluster, 0, Seq::empty().push(dir_cluster)),
    }
}

/// `result` is the entry decoded from the place `outcome` names, or the error it
/// names.
pub open spec fn found_as(disk: Seq<Seq<u8>>, outcome: Option<Result<(int, int), Error>>, result: Result<DirectoryEntry, Error>) -> bool {
    match outcome {
        Some(Ok((lba, offset))) => result is Ok && entry_decoded(result->Ok_0, disk[lba], offset),
        Some(Err(error)) => result == Err::<DirectoryEntry, Error>(error),
        None => false,
    }
}

/// `result` answers the lookup `outcome`, or a read failed; on a reliable device a
/// read fails only where `outcome` is `None`.
pub open spec fn lookup_answers(
    disk: Seq<Seq<u8>>,
    outcome: Option<Result<(int, int), Error>>,
    result: Result<DirectoryEntry, Error>,
    reliable: bool,
) -> bool {
    &&& found_as(disk, outcome, result) || (result is Err && result->Err_0 is Block)
    &&& reliable ==> found_as(disk, outcome, result) || (outcome is None && result is Err
        && result->Err_0 is Block)
}

/// Looks up `short_name` in the directory whose chain starts at `dir_cluster`: the
/// first live entry carrying it, scanning the chain's sectors in order and stopping
/// at the end marker (see `lookup_in`). The device is only read.
pub fn find_in_directory<D: BlockDevice>(device: &mut D, volume: Volume, dir_cluster: u32, short_name: &[u8; 11]) -> (result: Result<DirectoryEntry, Error>)
    requires
        old(device).valid(),
        volume_sane(volume),
    ensures
        final(device).valid(),
        final(device).sectors() == old(device).sectors(),
        final(device).read_only() == old(device).read_only(),
        result is Ok ==> result->Ok_0.short_name@ == short_name@,
        final(device).reliable() == old(device).reliable(),
        lookup_answers(
            old(device).sectors(),
            lookup_in(old(device).sectors(), volume, short_name@, dir_cluster),
            result,
            old(device).reliable(),
        ),
{
    let ghost disk = old(device).sectors();
    let ghost goal = lookup_in(disk, volume, short_name@, dir_cluster);
    let mut cluster = dir_cluster;
    let mut visited: Vec<u32> = Vec::new();
    let mut sector = [0u8; 512];
    loop
        invariant
            device.valid(),
            device.sectors() == disk,
            disk == old(device).sectors(),
            device.read_only() == old(device).read_only(),
            device.reliable() == old(device).reliable(),
            goal == lookup_in(disk, volume, short_name@, dir_cluster),
            volume_sane(volume),
            visited@.len() <= MAX_DIRECTORY_CLUSTERS,
            visited@.len() == 0 ==> cluster == dir_cluster,
            goal == match enter_error(volume, cluster, visited@) {
                Some(error) => Some(Err(error)),
                None => lookup_scan(disk, volume, short_name@, cluster, 0, visited@.push(cluster)),
            },
        decreases MAX_DIRECTORY_CLUSTERS - visited@.len(),
    {
        match visit(&mut visited, cluster) {
            Ok(()) => {},
            Err(error) => return Err(error),
        }
        let base = match volume.cluster_lba(cluster) {
            Ok(lba) => lba,
            Err(error) => return Err(error),
        };
        let mut index: u64 = 0;
        while index < volume.sectors_per_cluster as u64
            invariant
                device.valid(),
                device.sectors() == disk,
                disk == old(device).sectors(),
                goal == lookup_in(disk, volume, short_name@, dir_cluster),
                device.read_only() == old(device).read_only(),
                device.reliable() == old(device).reliable(),
                volume_sane(volume),
                cluster_in_range(volume, cluster as int),
                base == cluster_sector(volume, cluster as int),
                visited@.len() <= MAX_DIRECTORY_CLUSTERS,
                index <= volume.sectors_per_cluster,
                goal == lookup_scan(disk, volume, short_name@, cluster, index as int, visited@),
            decreases volume.sectors_per_cluster - index,
        {
            proof {
                lemma_cluster_sector_bound(volume, cluster as int, index as int);
            }
            match device.read_sector(base + index, &mut sector) {
                Ok(()) => {},
                Err(error) => return Err(Error::Block(error)),
            }
            match scan_directory_sector(&sector, short_name) {
                Ok(DirectoryScan::Found(entry)) => {
                    proof {
                        lemma_scan_found_name(sector@, short_name@, 0);
                    }
                    return Ok(entry);
                },
                Ok(DirectoryScan::End) => return Err(Error::NotFound),
                Ok(DirectoryScan::Continue) => {},
                Err(error) => return Err(error),
            }
            index = index + 1;
        }
        cluster = match next_cluster(device, volume, cluster) {
            Ok(ClusterLink::Next(next)) => next,
            Ok(ClusterLink::End) => return Err(Error::NotFound),
            Err(error) => return Err(error),
        };
    }
}

/// Looks up `short_name` in the root directory.
pub fn find_root<D: BlockDevice>(device: &mut D, volume: Volume, short_name: &[u8; 11]) -> (result: Result<DirectoryEntry, Error>)
    requires
        old(device).valid(),
        volume_sane(volume),
    ensures
        final(device).valid(),
        final(device).sectors() == old(device).sectors(),
        final(device).read_only() == old(device).read_only(),
        result is Ok ==> result->Ok_0.short_name@ == short_name@,
        final(device).reliable() == old(device).reliable(),
        lookup_answers(
            old(device).sectors(),
            lookup_in(old(device).sectors(), volume, short_name@, volume.root_cluster),
            result,
            old(device).reliable(),
        ),
{
    find_in_directory(device, volume, volume.root_cluster, short_name)
}

/// Hands every live short entry of the directory at `dir_cluster` to `visitor`, in
/// order, until the end of the directory or the first error.
pub fn for_each_directory_entry<D: BlockDevice, F: FnMut(DirectoryEntry) -> Result<(), Error>>(device: &mut D, volume: Volume, dir_cluster: u32, visitor: F) -> (result: Result<(), Error>)
    requires
        old(device).valid(),
        volume_sane(volume),
        forall|entry: DirectoryEntry| visitor.requires((entry,)),
    ensures
        final(device).valid(),
        final(device).sectors() == old(device).sectors(),
        final(device).read_only() == old(device).read_only(),
        final(device).reliable() == old(device).reliable(),
        result is Ok ==> listing_in(old(device).sectors(), volume, dir_cluster) is Some && listing_in(
            old(device).sectors(),
            volume,
            dir_cluster,
        )->0 is Ok,
{
    let ghost disk = old(device).sectors();
    let ghost goal = listing_in(disk, volume, dir_cluster);
    let ghost mut places: Seq<(int, int)> = Seq::empty();
    proof {
        lemma_listed_after_empty(goal);
    }
    let mut visitor = visitor;
    let mut cluster = dir_cluster;
    let mut visited: Vec<u32> = Vec::new();
    let mut sector = [0u8; 512];
    loop
        invariant
            device.valid(),
            device.sectors() == disk,
            disk == old(device).sectors(),
            device.read_only() == old(device).read_only(),
            device.reliable() == old(device).reliable(),
            goal == listing_in(disk, volume, dir_cluster),
            volume_sane(volume),
            forall|entry: DirectoryEntry| call_requires(visitor, (entry,)),
            visited@.len() <= MAX_DIRECTORY_CLUSTERS,
            visited@.len() == 0 ==> cluster == dir_cluster && places.len() == 0,
            goal == listed_after(places, match enter_error(volume, cluster, visited@) {
                Some(error) => Some(Err(error)),
                None => listing_scan(disk, volume, cluster, 0, 0, visited@.push(cluster)),
            }),
        decreases MAX_DIRECTORY_CLUSTERS - visited@.len(),
    {
        match visit(&mut visited, cluster) {
            Ok(()) => {},
            Err(error) => return Err(error),
        }
        let base = match volume.cluster_lba(cluster) {
            Ok(lba) => lba,
            Err(error) => return Err(error),
        };
        let mut index: u64 = 0;
        while index < volume.sectors_per_cluster as u64
            invariant
                device.valid(),
                device.sectors() == disk,
                disk == old(device).sectors(),
                device.read_only() == old(device).read_only(),
                device.reliable() == old(device).reliable(),
                goal == listing_in(disk, volume, dir_cluster),
                volume_sane(volume),
                forall|entry: DirectoryEntry| call_requires(visitor, (entry,)),
                cluster_in_range(volume, cluster as int),
                base == cluster_sector(volume, cluster as int),
                visited@.len() <= MAX_DIRECTORY_CLUSTERS,
                index <= volume.sectors_per_cluster,
                goal == listed_after(places, listing_scan(disk, volume, cluster, index as int, 0, visited@)),
            decreases volume.sectors_per_cluster - index,
        {
            proof {
                lemma_cluster_sector_bound(volume, cluster as int, index as int);
            }
            match device.read_sector(base + index, &mut sector) {
                Ok(()) => {},
                Err(error) => return Err(Error::Block(error)),
            }
            let ghost lba = base + index;
            let mut slot: usize = 0;
            while slot < DIRECTORY_ENTRIES_PER_SECTOR
                invariant
                    slot <= 16,
                    device.valid(),
                    device.sectors() == disk,
                    disk == old(device).sectors(),
                    device.read_only() == old(device).read_only(),
                    device.reliable() == old(device).reliable(),
                    goal == listing_in(disk, volume, dir_cluster),
                    forall|entry: DirectoryEntry| call_requires(visitor, (entry,)),
                    index < volume.sectors_per_cluster,
                    lba == cluster_sector(volume, cluster as int) + index,
                    sector_readable(disk, lba),
                    sector@ == disk[lba],
                    goal == listed_after(places, listing_scan(disk, volume, cluster, index as int, slot as int, visited@)),
                decreases 16 - slot,
            {
                let offset = slot * DIRECTORY_ENTRY_SIZE;
                let first = sector[offset];
                if first == 0 {
                    return Ok(());
                }
                let attributes = sector[offset + 11];
                if !(first == 0xe5 || attributes == LONG_NAME_ATTRIBUTE || attributes & VOLUME_ID_ATTRIBUTE != 0) {
                    let entry = match directory_entry_from_sector(&sector, offset) {
                        Ok(entry) => entry,
                        Err(error) => return Err(error),
                    };
                    proof {
                        lemma_listed_after_push(
                            places,
                            (lba, offset as int),
                            listing_scan(disk, volume, cluster, index as int, slot + 1, visited@),
                        );
                        places = places.push((lba, offset as int));
                    }
                    match visitor(entry) {
                        Ok(()) => {},
                        Err(error) => return Err(error),
                    }
                }
                slot = slot + 1;
            }
            index = index + 1;
        }
        cluster = match next_cluster(device, volume, cluster) {
            Ok(ClusterLink::Next(next)) => next,
            Ok(ClusterLink::End) => return Ok(()),
            Err(error) => return Err(error),
        };
    }
}

/// The places (sector and offset) of the live short entries that a walk of a
/// directory meets from entry `slot` of sector `index` of `cluster` on, `visited`
/// holding the clusters walked so far; the error the walk meets; or `None` where a
/// read that the walk needs cannot succeed.
pub open spec fn listing_scan(
    disk: Seq<Seq<u8>>,
    volume: Volume,
    cluster: u32,
    index: int,
    slot: int,
    visited: Seq<u32>,
) -> Option<Result<Seq<(int, int)>, Error>>
    decreases MAX_DIRECTORY_CLUSTERS - visited.len(), volume.sectors_per_cluster - index, 16 - slot,
{
    if index < volume.sectors_per_cluster {
        let lba = cluster_sector(volume, cluster as int) + index;
        if !sector_readable(disk, lba) {
            None
        } else if slot < 16 {
            let sector = disk[lba];
            if entry_ends(sector, slot) {
                Some(Ok(Seq::empty()))
            } else if entry_skipped(sector, slot) {
                listing_scan(disk, volume, cluster, index, slot + 1, visited)
            } else if !entry_sound(sector, entry_at(slot)) {
                Some(Err(Error::CorruptDirectory))
            } else {
                listed_after(seq![(lba, entry_at(slot))], listing_scan(disk, volume, cluster, index, slot + 1, visited))
            }
        } else {
            listing_scan(disk, volume, cluster, index + 1, 0, visited)
        }
    } else {
        match next_outcome(disk, volume, cluster as int) {
            None => None,
            Some(Err(error)) => Some(Err(error)),
            Some(Ok(ClusterLink::End)) => Some(Ok(Seq::empty())),
            Some(Ok(ClusterLink::Next(next))) => match enter_error(volume, next, visited) {
                Some(error) => Some(Err(error)),
                None => listing_scan(disk, volume, next, 0, 0, visited.push(next)),
            },
        }
    }
}

/// `places` in front of what `rest` lists; `rest` itself where it fails.
pub open spec fn listed_after(places: Seq<(int, int)>, rest: Option<Result<Seq<(int, int)>, Error>>) -> Option<Result<Seq<(int, int)>, Error>> {
    match rest {
        Some(Ok(more)) => Some(Ok(places + more)),
        other => other,
    }
}

/// The places of the live short entries of the directory whose chain starts at
/// `dir_cluster`, in order (see `listing_scan`).
pub open spec fn listing_in(disk: Seq<Seq<u8>>, volume: Volume, dir_cluster: u32) -> Option<Result<Seq<(int, int)>, Error>> {
    match enter_error(volume, dir_cluster, Seq::empty()) {
        Some(error) => Some(Err(error)),
        None => listing_scan(disk, volume, dir_cluster, 0, 0, Seq::empty().push(dir_cluster)),
    }
}

/// `entries` are the entries decoded from `places` of `disk`, one for one.
pub open spec fn entries_at(disk: Seq<Seq<u8>>, places: Seq<(int, int)>, entries: Seq<DirectoryEntry>) -> bool {
    &&& entries.len() == places.len()
    &&& forall|i: int| 0 <= i < places.len() ==> entry_decoded(#[trigger] entries[i], disk[places[i].0], places[i].1)
}

/// The first `places.len()` slots of `output` hold the entries decoded from
/// `places` of `disk`, one for one.
pub open spec fn slots_hold(disk: Seq<Seq<u8>>, places: Seq<(int, int)>, output: Seq<Option<DirectoryEntry>>) -> bool {
    &&& places.len() <= output.len()
    &&& forall|i: int| 0 <= i < places.len() ==> (#[trigger] output[i] matches Some(entry) && entry_decoded(entry, disk[places[i].0], places[i].1))
}

proof fn lemma_listed_after_empty(rest: Option<Result<Seq<(int, int)>, Error>>)
    ensures
        listed_after(Seq::empty(), rest) == rest,
{
    match rest {
        Some(Ok(more)) => {
            assert(Seq::<(int, int)>::empty() + more =~= more);
        },
        _ => {},
    }
}

proof fn lemma_listed_after_push(prefix: Seq<(int, int)>, place: (int, int), rest: Option<Result<Seq<(int, int)>, Error>>)
    ensures
        listed_after(prefix, listed_after(seq![place], rest)) == listed_after(prefix.push(place), rest),
{
    match rest {
        Some(Ok(more)) => {
            assert(prefix + (seq![place] + more) =~= prefix.push(place) + more);
        },
        _ => {},
    }
}

/// Fills `output` with the live short entries of the directory at `dir_cluster`, in
/// order; refuses a directory with more entries than `output` holds.
pub fn list_directory<D: BlockDevice>(device: &mut D, volume: Volume, dir_cluster: u32, output: &mut [Option<DirectoryEntry>]) -> (result: Result<usize, Error>)
    requires
        old(device).valid(),
        volume_sane(volume),
    ensures
        final(device).valid(),
        final(device).sectors() == old(device).sectors(),
        final(device).read_only() == old(device).read_only(),
        final(output)@.len() == old(output)@.len(),
        result is Ok ==> result->Ok_0 <= old(output)@.len() && forall|i: int| 0 <= i < result->Ok_0 ==> (#[trigger] final(output)@[i]) is Some,
        final(device).reliable() == old(device).reliable(),
        match result {
            Ok(count) => listing_in(old(device).sectors(), volume, dir_cluster) matches Some(Ok(places)) && {
                &&& count == places.len()
                &&& slots_hold(old(device).sectors(), places, final(output)@)
                &&& final(output)@.subrange(count as int, final(output)@.len() as int) == old(output)@.subrange(
                    count as int,
                    old(output)@.len() as int,
                )
            },
            Err(Error::DirectoryFull) => listing_in(old(device).sectors(), volume, dir_cluster) matches Some(Ok(places))
                ==> places.len() > old(output)@.len(),
            Err(Error::Block(_)) => !old(device).reliable() || listing_in(old(device).sectors(), volume, dir_cluster) is None,
            Err(error) => listing_in(old(device).sectors(), volume, dir_cluster) == Some(Err::<Seq<(int, int)>, Error>(error)),
        },
{
    let ghost disk = old(device).sectors();
    let ghost goal = listing_in(disk, volume, dir_cluster);
    let ghost mut places: Seq<(int, int)> = Seq::empty();
    proof {
        lemma_listed_after_empty(goal);
    }
    let capacity = output.len();
    let mut count: usize = 0;
    let mut cluster = dir_cluster;
    let mut visited: Vec<u32> = Vec::new();
    let mut sector = [0u8; 512];
    loop
        invariant
            device.valid(),
            device.sectors() == disk,
            disk == old(device).sectors(),
            device.read_only() == old(device).read_only(),
            device.reliable() == old(device).reliable(),
            goal == listing_in(disk, volume, dir_cluster),
            volume_sane(volume),
            capacity == output@.len(),
            output@.len() == old(output)@.len(),
            count <= capacity,
            forall|i: int| 0 <= i < count ==> (#[trigger] output@[i]) is Some,
            visited@.len() <= MAX_DIRECTORY_CLUSTERS,
            visited@.len() == 0 ==> cluster == dir_cluster && places.len() == 0,
            count == places.len(),
            slots_hold(disk, places, output@),
            output@.subrange(count as int, output@.len() as int) == old(output)@.subrange(count as int, old(output)@.len() as int),
            goal == listed_after(places, match enter_error(volume, cluster, visited@) {
                Some(error) => Some(Err(error)),
                None => listing_scan(disk, volume, cluster, 0, 0, visited@.push(cluster)),
            }),
        decreases MAX_DIRECTORY_CLUSTERS - visited@.len(),
    {
        match visit(&mut visited, cluster) {
            Ok(()) => {},
            Err(error) => return Err(error),
        }
        let base = match volume.cluster_lba(cluster) {
            Ok(lba) => lba,
            Err(error) => return Err(error),
        };
        let mut index: u64 = 0;
        while index < volume.sectors_per_cluster as u64
            invariant
                device.valid(),
                device.sectors() == disk,
                disk == old(device).sectors(),
                device.read_only() == old(device).read_only(),
                device.reliable() == old(device).reliable(),
                goal == listing_in(disk, volume, dir_cluster),
                volume_sane(volume),
                cluster_in_range(volume, cluster as int),
                base == cluster_sector(volume, cluster as int),
                capacity == output@.len(),
                output@.len() == old(output)@.len(),
                count <= capacity,
                forall|i: int| 0 <= i < count ==> (#[trigger] output@[i]) is Some,
                visited@.len() <= MAX_DIRECTORY_CLUSTERS,
                count == places.len(),
                slots_hold(disk, places, output@),
                output@.subrange(count as int, output@.len() as int) == old(output)@.subrange(count as int, old(output)@.len() as int),
                index <= volume.sectors_per_cluster,
                goal == listed_after(places, listing_scan(disk, volume, cluster, index as int, 0, visited@)),
            decreases volume.sectors_per_cluster - index,
        {
            proof {
                lemma_cluster_sector_bound(volume, cluster as int, index as int);
            }
            match device.read_sector(base + index, &mut sector) {
                Ok(()) => {},
                Err(error) => return Err(Error::Block(error)),
            }
            let ghost lba = base + index;
            let mut slot: usize = 0;
            while slot < DIRECTORY_ENTRIES_PER_SECTOR
                invariant
                    slot <= 16,
                    device.valid(),
                    device.sectors() == disk,
                    disk == old(device).sectors(),
                    device.read_only() == old(device).read_only(),
                    device.reliable() == old(device).reliable(),
                    goal == listing_in(disk, volume, dir_cluster),
                    capacity == output@.len(),
                    output@.len() == old(output)@.len(),
                    count <= capacity,
                    forall|i: int| 0 <= i < count ==> (#[trigger] output@[i]) is Some,
                    count == places.len(),
                    slots_hold(disk, places, output@),
                    output@.subrange(count as int, output@.len() as int) == old(output)@.subrange(count as int, old(output)@.len() as int),
                    index < volume.sectors_per_cluster,
                    lba == cluster_sector(volume, cluster as int) + index,
                    sector_readable(disk, lba),
                    sector@ == disk[lba],
                    goal == listed_after(places, listing_scan(disk, volume, cluster, index as int, slot as int, visited@)),
                decreases 16 - slot,
            {
                let offset = slot * DIRECTORY_ENTRY_SIZE;
                let first = sector[offset];
                if first == 0 {
                    assert(places + Seq::<(int, int)>::empty() =~= places);
                    return Ok(count);
                }
                let attributes = sector[offset + 11];
                if !(first == 0xe5 || attributes == LONG_NAME_ATTRIBUTE || attributes & VOLUME_ID_ATTRIBUTE != 0) {
                    let entry = match directory_entry_from_sector(&sector, offset) {
                        Ok(entry) => entry,
                        Err(error) => return Err(error),
                    };
                    proof {
                        lemma_listed_after_push(
                            places,
                            (lba, offset as int),
                            listing_scan(disk, volume, cluster, index as int, slot + 1, visited@),
                        );
                    }
                    if count == capacity {
                        return Err(Error::DirectoryFull);
                    }
                    let ghost before = output@;
                    output[count] = Some(entry);
                    proof {
                        places = places.push((lba, offset as int));
                        assert(output@.subrange(count + 1, output@.len() as int) =~= before.subrange(count + 1, before.len() as int));
                        assert(old(output)@.subrange(count + 1, old(output)@.len() as int) =~= old(output)@.subrange(count as int, old(output)@.len() as int).subrange(1, old(output)@.len() - count));
                        assert(before.subrange(count + 1, before.len() as int) =~= before.subrange(count as int, before.len() as int).subrange(1, before.len() - count));
                    }
                    count = count + 1;
                }
                slot = slot + 1;
            }
            index = index + 1;
        }
        cluster = match next_cluster(device, volume, cluster) {
            Ok(ClusterLink::Next(next)) => next,
            Ok(ClusterLink::End) => {
                assert(places + Seq::<(int, int)>::empty() =~= places);
                return Ok(count);
            },
            Err(error) => return Err(error),
        };
    }
}

/// The live short entries of the directory at `dir_cluster`, in order.
pub fn directory_entries<D: BlockDevice>(device: &mut D, volume: Volume, dir_cluster: u32) -> (result: Result<Vec<DirectoryEntry>, Error>)
    requires
        old(device).valid(),
        volume_sane(volume),
    ensures
        final(device).valid(),
        final(device).sectors() == old(device).sectors(),
        final(device).read_only() == old(device).read_only(),
        final(device).reliable() == old(device).reliable(),
        match result {
            Ok(entries) => listing_in(old(device).sectors(), volume, dir_cluster) matches Some(Ok(places))
                && entries_at(old(device).sectors(), places, entries@),
            Err(Error::Block(_)) => !old(device).reliable() || listing_in(old(device).sectors(), volume, dir_cluster) is None,
            Err(error) => listing_in(old(device).sectors(), volume, dir_cluster) == Some(Err::<Seq<(int, int)>, Error>(error)),
        },
{
    let ghost disk = old(device).sectors();
    let ghost goal = listing_in(disk, volume, dir_cluster);
    let ghost mut places: Seq<(int, int)> = Seq::empty();
    proof {
        lemma_listed_after_empty(goal);
    }
    let mut entries: Vec<DirectoryEntry> = Vec::new();
    let mut cluster = dir_cluster;
    let mut visited: Vec<u32> = Vec::new();
    let mut sector = [0u8; 512];
    loop
        invariant
            device.valid(),
            device.sectors() == disk,
            disk == old(device).sectors(),
            device.read_only() == old(device).read_only(),
            device.reliable() == old(device).reliable(),
            goal == listing_in(disk, volume, dir_cluster),
            volume_sane(volume),
            visited@.len() <= MAX_DIRECTORY_CLUSTERS,
            visited@.len() == 0 ==> cluster == dir_cluster && places.len() == 0,
            entries_at(disk, places, entries@),
            goal == listed_after(places, match enter_error(volume, cluster, visited@) {
                Some(error) => Some(Err(error)),
                None => listing_scan(disk, volume, cluster, 0, 0, visited@.push(cluster)),
            }),
        decreases MAX_DIRECTORY_CLUSTERS - visited@.len(),
    {
        match visit(&mut visited, cluster) {
            Ok(()) => {},
            Err(error) => return Err(error),
        }
        let base = match volume.cluster_lba(cluster) {
            Ok(lba) => lba,
            Err(error) => return Err(error),
        };
        let mut index: u64 = 0;
        while index < volume.sectors_per_cluster as u64
            invariant
                device.valid(),
                device.sectors() == disk,
                disk == old(device).sectors(),
                device.read_only() == old(device).read_only(),
                device.reliable() == old(device).reliable(),
                goal == listing_in(disk, volume, dir_cluster),
                volume_sane(volume),
                cluster_in_range(volume, cluster as int),
                base == cluster_sector(volume, cluster as int),
                visited@.len() <= MAX_DIRECTORY_CLUSTERS,
                entries_at(disk, places, entries@),
                index <= volume.sectors_per_cluster,
                goal == listed_after(places, listing_scan(disk, volume, cluster, index as int, 0, visited@)),
            decreases volume.sectors_per_cluster - index,
        {
            proof {
                lemma_cluster_sector_bound(volume, cluster as int, index as int);
            }
            match device.read_sector(base + index, &mut sector) {
                Ok(()) => {},
                Err(error) => return Err(Error::Block(error)),
            }
            let ghost lba = base + index;
            let mut slot: usize = 0;
            while slot < DIRECTORY_ENTRIES_PER_SECTOR
                invariant
                    slot <= 16,
                    device.valid(),
                    device.sectors() == disk,
                    disk == old(device).sectors(),
                    device.read_only() == old(device).read_only(),
                    device.reliable() == old(device).reliable(),
                    goal == listing_in(disk, volume, dir_cluster),
                    entries_at(disk, places, entries@),
                    index < volume.sectors_per_cluster,
                    lba == cluster_sector(volume, cluster as int) + index,
                    sector_readable(disk, lba),
                    sector@ == disk[lba],
                    goal == listed_after(places, listing_scan(disk, volume, cluster, index as int, slot as int, visited@)),
                decreases 16 - slot,
            {
                let offset = slot * DIRECTORY_ENTRY_SIZE;
                let first = sector[offset];
                if first == 0 {
                    assert(places + Seq::<(int, int)>::empty() =~= places);
                    return Ok(entries);
                }
                let attributes = sector[offset + 11];
                if !(first == 0xe5 || attributes == LONG_NAME_ATTRIBUTE || attributes & VOLUME_ID_ATTRIBUTE != 0) {
                    let entry = match directory_entry_from_sector(&sector, offset) {
                        Ok(entry) => entry,
                        Err(error) => return Err(error),
                    };
                    proof {
                        lemma_listed_after_push(
                            places,
                            (lba, offset as int),
                            listing_scan(disk, volume, cluster, index as int, slot + 1, visited@),
                        );
                    }
                    entries.push(entry);
                    proof {
                        places = places.push((lba, offset as int));
                    }
                }
                slot = slot + 1;
            }
            index = index + 1;
        }
        cluster = match next_cluster(device, volume, cluster) {
            Ok(ClusterLink::Next(next)) => next,
            Ok(ClusterLink::End) => {
                assert(places + Seq::<(int, int)>::empty() =~= places);
                return Ok(entries);
            },
            Err(error) => return Err(error),
        };
    }
}

/// Fills `output` with the live short entries of the root directory.
pub fn list_root<D: BlockDevice>(device: &mut D, volume: Volume, output: &mut [Option<DirectoryEntry>]) -> (result: Result<usize, Error>)
    requires
        old(device).valid(),
        volume_sane(volume),
    ensures
        final(device).valid(),
        final(device).sectors() == old(device).sectors(),
        final(device).read_only() == old(device).read_only(),
        final(output)@.len() == old(output)@.len(),
        result is Ok ==> result->Ok_0 <= old(output)@.len(),
        final(device).reliable() == old(device).reliable(),
        match result {
            Ok(count) => listing_in(old(device).sectors(), volume, volume.root_cluster) matches Some(Ok(places)) && {
                &&& count == places.len()
                &&& slots_hold(old(device).sectors(), places, final(output)@)
                &&& final(output)@.subrange(count as int, final(output)@.len() as int) == old(output)@.subrange(
                    count as int,
                    old(output)@.len() as int,
                )
            },
            Err(Error::DirectoryFull) => listing_in(old(device).sectors(), volume, volume.root_cluster) matches Some(
                Ok(places),
            ) ==> places.len() > old(output)@.len(),
            Err(Error::Block(_)) => !old(device).reliable() || listing_in(old(device).sectors(), volume, volume.root_cluster)
                is None,
            Err(error) => listing_in(old(device).sectors(), volume, volume.root_cluster) == Some(
                Err::<Seq<(int, int)>, Error>(error),
            ),
        },
{
    list_directory(device, volume, volume.root_cluster, output)
}

// ---- paths ----

/// Bytes `start..end` of `bytes`.
pub fn subslice(bytes: &[u8], start: usize, end: usize) -> (part: &[u8])
    requires
        start <= end <= bytes@.len(),
    ensures
        part@ == bytes@.subrange(start as int, end as int),
{
    let (head, _) = bytes.split_at(end);
    let (_, tail) = head.split_at(start);
    tail
}

/// The next `/`-separated component of `bytes` from `from` on: its start and end.
fn next_component(bytes: &[u8], from: usize) -> (range: (usize, usize))
    requires
        from <= bytes@.len(),
    ensures
        from <= range.0 <= range.1 <= bytes@.len(),
        range.0 == from,
        range.1 == bytes@.len() || bytes@[range.1 as int] == 0x2fu8,
        forall|k: int| range.0 <= k < range.1 ==> bytes@[k] != 0x2fu8,
{
    let mut end = from;
    while end < bytes.len() && bytes[end] != 0x2f
        invariant
            from <= end <= bytes@.len(),
            forall|k: int| from <= k < end ==> bytes@[k] != 0x2fu8,
        decreases bytes@.len() - end,
    {
        end = end + 1;
    }
    (from, end)
}

/// Whether `bytes[start..end]` is `.`.
fn is_dot(bytes: &[u8], start: usize, end: usize) -> (dot: bool)
    requires
        start <= end <= bytes@.len(),
    ensures
        dot == (end == start + 1 && bytes@[start as int] == 0x2eu8),
{
    end - start == 1 && bytes[start] == 0x2e
}

/// Whether `bytes[start..end]` is `..`.
fn is_dot_dot(bytes: &[u8], start: usize, end: usize) -> (dot_dot: bool)
    requires
        start <= end <= bytes@.len(),
    ensures
        dot_dot == (end == start + 2 && bytes@[start as int] == 0x2eu8 && bytes@[start + 1] == 0x2eu8),
{
    end - start == 2 && bytes[start] == 0x2e && bytes[start + 1] == 0x2e
}

/// The end of the component of `path` that starts at `at`: the next slash or the end.
pub open spec fn component_end_at(path: Seq<u8>, at: int) -> int
    decreases path.len() - at,
{
    if at < 0 || at >= path.len() || path[at] == 0x2f {
        at
    } else {
        component_end_at(path, at + 1)
    }
}

/// `path[start..end]` is `.` or `..`.
pub open spec fn dot_range(path: Seq<u8>, start: int, end: int) -> bool {
    end == start + 1 && path[start] == 0x2eu8
}

pub open spec fn dot_dot_range(path: Seq<u8>, start: int, end: int) -> bool {
    end == start + 2 && path[start] == 0x2eu8 && path[start + 1] == 0x2eu8
}

/// The ranges of the components of `path` from `at` on that name something:
/// neither empty nor `.`.
pub open spec fn named_components(path: Seq<u8>, at: int) -> Seq<(usize, usize)>
    decreases path.len() - at,
{
    if at < 0 || at > path.len() {
        Seq::empty()
    } else {
        let end = component_end_at(path, at);
        proof {
            lemma_component_end_bounds(path, at);
        }
        let rest = if end >= path.len() { Seq::empty() } else { named_components(path, end + 1) };
        if end == at || dot_range(path, at, end) {
            rest
        } else {
            seq![(at as usize, end as usize)] + rest
        }
    }
}

/// Some component of `path` from `at` on is `..`.
pub open spec fn has_dot_dot(path: Seq<u8>, at: int) -> bool
    decreases path.len() - at,
{
    if at < 0 || at > path.len() {
        false
    } else {
        let end = component_end_at(path, at);
        proof {
            lemma_component_end_bounds(path, at);
        }
        dot_dot_range(path, at, end) || (end < path.len() && has_dot_dot(path, end + 1))
    }
}

/// A component ends no earlier than it starts and no later than the path.
pub proof fn lemma_component_end_bounds(path: Seq<u8>, at: int)
    ensures
        0 <= at <= path.len() ==> at <= component_end_at(path, at) <= path.len(),
    decreases path.len() - at,
{
    if 0 <= at < path.len() && path[at] != 0x2f {
        lemma_component_end_bounds(path, at + 1);
    }
}

proof fn lemma_component_end_at(path: Seq<u8>, at: int, end: int)
    requires
        0 <= at <= end <= path.len(),
        end == path.len() || path[end] == 0x2fu8,
        forall|k: int| at <= k < end ==> path[k] != 0x2fu8,
    ensures
        component_end_at(path, at) == end,
    decreases end - at,
{
    if at < end {
        lemma_component_end_at(path, at + 1, end);
    }
}

/// The components of `path` that name something: neither empty nor `.`, at most
/// `limit` of them; `None` on a `..` or on more than `limit`.
fn path_components(path: &[u8], limit: usize) -> (parts: Option<Vec<(usize, usize)>>)
    ensures
        parts is Some ==> parts->0@.len() <= limit && forall|i: int| 0 <= i < parts->0@.len() ==> {
            let (start, end) = #[trigger] parts->0@[i];
            start < end <= path@.len() && forall|k: int| start <= k < end ==> path@[k] != 0x2fu8
        },
        parts is None <==> has_dot_dot(path@, 0) || named_components(path@, 0).len() > limit,
        parts is Some ==> parts->0@ == named_components(path@, 0),
{
    let mut parts: Vec<(usize, usize)> = Vec::new();
    let mut at: usize = 0;
    loop
        invariant_except_break
            parts@ + named_components(path@, at as int) == named_components(path@, 0),
            has_dot_dot(path@, 0) == has_dot_dot(path@, at as int),
        invariant
            at <= path@.len(),
            parts@.len() <= limit,
            forall|i: int| 0 <= i < parts@.len() ==> {
                let (start, end) = #[trigger] parts@[i];
                start < end <= path@.len() && forall|k: int| start <= k < end ==> path@[k] != 0x2fu8
            },
        ensures
            parts@ == named_components(path@, 0),
            !has_dot_dot(path@, 0),
        decreases path@.len() - at,
    {
        let (start, end) = next_component(path, at);
        proof {
            lemma_component_end_at(path@, at as int, end as int);
        }
        if !(start == end || is_dot(path, start, end)) {
            if is_dot_dot(path, start, end) || parts.len() == limit {
                return None;
            }
            parts.push((start, end));
        }
        if end == path.len() {
            break;
        }
        at = end + 1;
    }
    Some(parts)
}

/// Where resolving the components `parts[i..]` of `path` ends, starting in the
/// directory at `cluster`: the place of the entry the last one names, the error met
/// on the way, or `None` where a read cannot succeed. Every component but the last
/// must name a directory.
pub open spec fn resolve_from(
    disk: Seq<Seq<u8>>,
    volume: Volume,
    path: Seq<u8>,
    parts: Seq<(usize, usize)>,
    i: int,
    cluster: u32,
) -> Option<Result<(int, int), Error>>
    decreases parts.len() - i,
{
    if i < 0 || i >= parts.len() {
        Some(Err(Error::NotFound))
    } else {
        match short_name_of(path.subrange(parts[i].0 as int, parts[i].1 as int)) {
            None => Some(Err(Error::NotFound)),
            Some(short) => match lookup_in(disk, volume, short, cluster) {
                Some(Ok((lba, offset))) => if i + 1 == parts.len() {
                    Some(Ok((lba, offset)))
                } else {
                    let sector = disk[lba];
                    let first_cluster = le16(sector, offset + 20) * 0x1_0000 + le16(sector, offset + 26);
                    if sector[offset + 11] & DIRECTORY_ATTRIBUTE == 0 || first_cluster < 2 {
                        Some(Err(Error::NotFound))
                    } else {
                        resolve_from(disk, volume, path, parts, i + 1, first_cluster as u32)
                    }
                },
                other => other,
            },
        }
    }
}

/// Where resolving `path` from the root directory ends (see `resolve_from`).
pub open spec fn resolve_outcome(disk: Seq<Seq<u8>>, volume: Volume, path: Seq<u8>) -> Option<Result<(int, int), Error>> {
    if has_dot_dot(path, 0) || named_components(path, 0).len() > 8 || named_components(path, 0).len() == 0 {
        Some(Err(Error::NotFound))
    } else {
        resolve_from(disk, volume, path, named_components(path, 0), 0, volume.root_cluster)
    }
}

/// The ranges `parts`, each moved one byte on.
pub open spec fn shifted(parts: Seq<(usize, usize)>) -> Seq<(usize, usize)> {
    parts.map_values(|r: (usize, usize)| ((r.0 + 1) as usize, (r.1 + 1) as usize))
}

proof fn lemma_end_after_slash(path: Seq<u8>, at: int)
    requires
        0 <= at <= path.len(),
    ensures
        component_end_at(seq![0x2fu8] + path, at + 1) == component_end_at(path, at) + 1,
    decreases path.len() - at,
{
    let q = seq![0x2fu8] + path;
    if at < path.len() {
        assert(q[at + 1] == path[at]);
        if path[at] != 0x2f {
            lemma_end_after_slash(path, at + 1);
        }
    }
}

proof fn lemma_components_after_slash(path: Seq<u8>, at: int)
    requires
        0 <= at <= path.len(),
        path.len() + 1 <= usize::MAX,
    ensures
        named_components(seq![0x2fu8] + path, at + 1) == shifted(named_components(path, at)),
        has_dot_dot(seq![0x2fu8] + path, at + 1) == has_dot_dot(path, at),
        forall|i: int|
            0 <= i < named_components(path, at).len() ==> at <= (#[trigger] named_components(path, at)[i]).0
                <= named_components(path, at)[i].1 <= path.len(),
    decreases path.len() - at,
{
    let q = seq![0x2fu8] + path;
    lemma_end_after_slash(path, at);
    lemma_component_end_bounds(path, at);
    lemma_component_end_bounds(q, at + 1);
    let end = component_end_at(path, at);
    assert forall|j: int| 0 <= j < path.len() implies q[j + 1] == path[j] by {}
    if end < path.len() {
        lemma_components_after_slash(path, end + 1);
    }
    let rest = if end >= path.len() { Seq::<(usize, usize)>::empty() } else { named_components(path, end + 1) };
    if !(end == at || dot_range(path, at, end)) {
        assert(shifted(seq![(at as usize, end as usize)] + rest) =~= seq![((at + 1) as usize, (end + 1) as usize)]
            + shifted(rest));
    } else {
        assert(rest == named_components(path, at));
    }
    if end >= path.len() {
        assert(shifted(Seq::<(usize, usize)>::empty()) =~= Seq::<(usize, usize)>::empty());
    }
}

proof fn lemma_resolve_after_slash(
    disk: Seq<Seq<u8>>,
    volume: Volume,
    path: Seq<u8>,
    parts: Seq<(usize, usize)>,
    i: int,
    cluster: u32,
)
    requires
        path.len() + 1 <= usize::MAX,
        forall|k: int| 0 <= k < parts.len() ==> (#[trigger] parts[k]).0 <= parts[k].1 <= path.len(),
    ensures
        resolve_from(disk, volume, seq![0x2fu8] + path, shifted(parts), i, cluster) == resolve_from(
            disk,
            volume,
            path,
            parts,
            i,
            cluster,
        ),
    decreases parts.len() - i,
{
    let q = seq![0x2fu8] + path;
    if 0 <= i < parts.len() {
        let r = parts[i];
        assert(shifted(parts)[i] == ((r.0 + 1) as usize, (r.1 + 1) as usize));
        assert(q.subrange(r.0 + 1, r.1 + 1) =~= path.subrange(r.0 as int, r.1 as int));
        match short_name_of(path.subrange(r.0 as int, r.1 as int)) {
            None => {},
            Some(short) => match lookup_in(disk, volume, short, cluster) {
                Some(Ok((lba, offset))) => {
                    if i + 1 != parts.len() {
                        let sector = disk[lba];
                        let first_cluster = le16(sector, offset + 20) * 0x1_0000 + le16(sector, offset + 26);
                        lemma_resolve_after_slash(disk, volume, path, parts, i + 1, first_cluster as u32);
                    }
                },
                _ => {},
            },
        }
    }
}

/// A leading `/` changes nothing: a path resolves as the same path without it.
pub proof fn law_leading_slash_ignored(disk: Seq<Seq<u8>>, volume: Volume, path: Seq<u8>)
    requires
        path.len() + 1 <= usize::MAX,
    ensures
        resolve_outcome(disk, volume, seq![0x2fu8] + path) == resolve_outcome(disk, volume, path),
{
    let q = seq![0x2fu8] + path;
    lemma_components_after_slash(path, 0);
    assert(component_end_at(q, 0) == 0);
    assert(named_components(q, 0) == named_components(q, 1));
    assert(has_dot_dot(q, 0) == has_dot_dot(q, 1));
    lemma_resolve_after_slash(disk, volume, path, named_components(path, 0), 0, volume.root_cluster);
}

/// Resolves a `/`-separated path of 8.3 names from the root directory; empty and `.`
/// components are skipped, `..` is refused, and at most eight components are taken.
pub fn resolve_path<D: BlockDevice>(device: &mut D, volume: Volume, path: &str) -> (result: Result<DirectoryEntry, Error>)
    requires
        old(device).valid(),
        volume_sane(volume),
    ensures
        final(device).valid(),
        final(device).sectors() == old(device).sectors(),
        final(device).read_only() == old(device).read_only(),
        final(device).reliable() == old(device).reliable(),
        lookup_answers(
            old(device).sectors(),
            resolve_outcome(old(device).sectors(), volume, path.spec_bytes()),
            result,
            old(device).reliable(),
        ),
{
    resolve_path_bytes(device, volume, path.as_bytes())
}

/// As `resolve_path`, with the path given as bytes.
pub fn resolve_path_bytes<D: BlockDevice>(device: &mut D, volume: Volume, path: &[u8]) -> (result: Result<DirectoryEntry, Error>)
    requires
        old(device).valid(),
        volume_sane(volume),
    ensures
        final(device).valid(),
        final(device).sectors() == old(device).sectors(),
        final(device).read_only() == old(device).read_only(),
        has_dot_dot(path@, 0) || named_components(path@, 0).len() > 8 || named_components(path@, 0).len() == 0
            ==> result == Err::<DirectoryEntry, Error>(Error::NotFound) && *final(device) == *old(device),
        final(device).reliable() == old(device).reliable(),
        lookup_answers(old(device).sectors(), resolve_outcome(old(device).sectors(), volume, path@), result, old(device).reliable()),
{
    let ghost disk = old(device).sectors();
    let ghost goal = resolve_outcome(disk, volume, path@);
    let bytes = path;
    let parts = match path_components(bytes, 8) {
        Some(parts) => parts,
        None => return Err(Error::NotFound),
    };
    if parts.len() == 0 {
        return Err(Error::NotFound);
    }
    let mut cluster = volume.root_cluster;
    let mut current: Option<DirectoryEntry> = None;
    let mut i: usize = 0;
    while i < parts.len()
        invariant
            device.valid(),
            device.sectors() == old(device).sectors(),
            device.sectors() == disk,
            device.read_only() == old(device).read_only(),
            device.reliable() == old(device).reliable(),
            goal == resolve_outcome(disk, volume, path@),
            parts@ == named_components(path@, 0),
            bytes@ == path@,
            volume_sane(volume),
            !has_dot_dot(path@, 0) && 0 < named_components(path@, 0).len() <= 8,
            i <= parts@.len(),
            i < parts@.len() ==> goal == resolve_from(disk, volume, path@, parts@, i as int, cluster),
            i == parts@.len() ==> current is Some && found_as(disk, goal, Ok(current->0)),
            forall|j: int| 0 <= j < parts@.len() ==> {
                let (start, end) = #[trigger] parts@[j];
                start < end <= bytes@.len()
            },
        decreases parts@.len() - i,
    {
        let (start, end) = parts[i];
        let short = match encode_short_name_bytes(subslice(bytes, start, end)) {
            Some(short) => short,
            None => return Err(Error::NotFound),
        };
        let entry = match find_in_directory(device, volume, cluster, &short) {
            Ok(entry) => entry,
            Err(error) => return Err(error),
        };
        if i + 1 != parts.len() {
            if entry.attributes & DIRECTORY_ATTRIBUTE == 0 || entry.first_cluster < 2 {
                return Err(Error::NotFound);
            }
            cluster = entry.first_cluster;
        }
        current = Some(entry);
        i = i + 1;
    }
    match current {
        Some(entry) => Ok(entry),
        None => Err(Error::NotFound),
    }
}

// ---- cluster chains ----

/// The chain from `first` is exactly `clusters`: distinct data clusters, each FAT
/// entry readable and linking to the next, the last marking the end; no longer than
/// the volume has clusters.
pub open spec fn chain_ends(disk: Seq<Seq<u8>>, volume: Volume, first: u32, clusters: Seq<u32>) -> bool {
    &&& chain_walk(disk, volume, first, clusters)
    &&& chain_link(disk, volume, clusters.last() as int) == Some(ClusterLink::End)
    &&& clusters.len() <= volume.cluster_count
    &&& forall|i: int|
        0 <= i < clusters.len() ==> fat_entry_readable(disk, volume, #[trigger] clusters[i] as int)
            && fat_entry_located(volume, clusters[i] as int)
    &&& forall|i: int, j: int| 0 <= i < j < clusters.len() ==> #[trigger] clusters[i] != #[trigger] clusters[j]
}

/// Every sector of every cluster of `clusters` can be read.
pub open spec fn chain_data_readable(disk: Seq<Seq<u8>>, volume: Volume, clusters: Seq<u32>) -> bool {
    forall|i: int, j: int|
        0 <= i < clusters.len() && 0 <= j < volume.sectors_per_cluster ==> #[trigger] data_sector_readable(
            disk,
            volume,
            clusters[i],
            j,
        )
}

/// Sector `j` of `cluster` can be read.
pub open spec fn data_sector_readable(disk: Seq<Seq<u8>>, volume: Volume, cluster: u32, j: int) -> bool {
    sector_readable(disk, cluster_sector(volume, cluster as int) + j)
}

/// On a chain that ends (`chain_ends`), `guard` is at step `s` with the slow pointer
/// at cluster `s` and the fast one at cluster `2s`, or has seen the end.
pub open spec fn guard_on_chain(clusters: Seq<u32>, guard: ChainCycleGuard) -> bool {
    guard.spec_active() ==> {
        let s = guard.spec_steps() as int;
        &&& 2 * s < clusters.len()
        &&& guard.spec_positions() == (clusters[s], clusters[2 * s])
    }
}

/// Detects a cycle in a cluster chain while a reader walks it: a second pointer moves
/// two links for each one the reader moves and must never meet the first.
pub struct ChainCycleGuard {
    tortoise: u32,
    hare: u32,
    active: bool,
    steps: u32,
}

impl ChainCycleGuard {
    /// Whether the chain has not yet been seen to end.
    pub closed spec fn spec_active(&self) -> bool {
        self.active
    }

    /// Steps taken so far.
    pub closed spec fn spec_steps(&self) -> u32 {
        self.steps
    }

    /// The slow and the fast position in the chain.
    pub closed spec fn spec_positions(&self) -> (u32, u32) {
        (self.tortoise, self.hare)
    }

    pub fn new(start: u32) -> (guard: Self)
        ensures
            guard.spec_active(),
            guard.spec_steps() == 0,
            guard.spec_positions() == (start, start),
    {
        ChainCycleGuard { tortoise: start, hare: start, active: true, steps: 0 }
    }

    /// Moves the guard along with the reader; fails when the chain loops or runs longer
    /// than the volume has clusters.
    pub fn advance<D: BlockDevice>(&mut self, device: &mut D, volume: Volume) -> (result: Result<(), Error>)
        requires
            old(device).valid(),
        ensures
            final(device).valid(),
            final(device).sectors() == old(device).sectors(),
            final(device).read_only() == old(device).read_only(),
            !old(self).spec_active() ==> result is Ok && *final(self) == *old(self),
            old(self).spec_active() && old(self).spec_steps() + 1 > volume.cluster_count ==> result
                == Err::<(), Error>(Error::ChainTooLong),
            old(self).spec_active() && result is Ok && final(self).spec_active() ==> {
                &&& final(self).spec_steps() == old(self).spec_steps() + 1
                &&& final(self).spec_positions().0 != final(self).spec_positions().1
            },
            old(self).spec_active() && result is Ok ==> final(self).spec_steps() == old(self).spec_steps() + 1,
            result is Err ==> link_error(result->Err_0),
            final(device).reliable() == old(device).reliable(),
            forall|clusters: Seq<u32>|
                #![trigger guard_on_chain(clusters, *old(self))]
                old(device).reliable() && volume_sane(volume) && chain_ends(
                    old(device).sectors(),
                    volume,
                    clusters[0],
                    clusters,
                ) && guard_on_chain(clusters, *old(self)) ==> result is Ok && guard_on_chain(clusters, *final(self)),
    {
        if !self.active {
            return Ok(());
        }
        self.steps = match self.steps.checked_add(1) {
            Some(steps) => steps,
            None => return Err(Error::ChainTooLong),
        };
        if self.steps > volume.cluster_count {
            return Err(Error::ChainTooLong);
        }
        let tortoise = match advance_chain_once(device, volume, self.tortoise) {
            Ok(Some(next)) => next,
            Ok(None) => {
                self.active = false;
                return Ok(());
            },
            Err(error) => return Err(error),
        };
        let first_hare = match advance_chain_once(device, volume, self.hare) {
            Ok(Some(next)) => next,
            Ok(None) => {
                self.tortoise = tortoise;
                self.active = false;
                return Ok(());
            },
            Err(error) => return Err(error),
        };
        let hare = match advance_chain_once(device, volume, first_hare) {
            Ok(Some(next)) => next,
            Ok(None) => {
                self.tortoise = tortoise;
                self.hare = first_hare;
                self.active = false;
                return Ok(());
            },
            Err(error) => return Err(error),
        };
        self.tortoise = tortoise;
        self.hare = hare;
        if self.tortoise == self.hare {
            return Err(Error::ChainLoop);
        }
        Ok(())
    }
}

/// The cluster after `cluster`, or `None` at the end of its chain.
fn advance_chain_once<D: BlockDevice>(device: &mut D, volume: Volume, cluster: u32) -> (result: Result<Option<u32>, Error>)
    requires
        old(device).valid(),
    ensures
        final(device).valid(),
        final(device).sectors() == old(device).sectors(),
        final(device).read_only() == old(device).read_only(),
        result is Ok ==> chain_link(old(device).sectors(), volume, cluster as int) == Some(match result->Ok_0 {
            Some(next) => ClusterLink::Next(next),
            None => ClusterLink::End,
        }),
        result is Err ==> link_error(result->Err_0),
        final(device).reliable() == old(device).reliable(),
        old(device).reliable() && fat_entry_readable(old(device).sectors(), volume, cluster as int)
            && fat_entry_located(volume, cluster as int) && chain_link(old(device).sectors(), volume, cluster as int)
            is Some ==> result is Ok,
{
    match next_cluster(device, volume, cluster) {
        Ok(ClusterLink::Next(next)) => Ok(Some(next)),
        Ok(ClusterLink::End) => Ok(None),
        Err(error) => Err(error),
    }
}

/// Walks the chain from `start` to its end, failing on a broken link, a loop or a
/// chain longer than the volume.
fn validate_cluster_chain<D: BlockDevice>(device: &mut D, volume: Volume, start: u32) -> (result: Result<(), Error>)
    requires
        old(device).valid(),
    ensures
        final(device).valid(),
        final(device).sectors() == old(device).sectors(),
        final(device).read_only() == old(device).read_only(),
        result is Ok ==> cluster_in_range(volume, start as int),
{
    let mut cluster = start;
    let mut chain = ChainCycleGuard::new(start);
    let mut traversed: u32 = 0;
    loop
        invariant
            device.valid(),
            device.sectors() == old(device).sectors(),
            device.read_only() == old(device).read_only(),
            traversed <= volume.cluster_count,
            traversed == 0 ==> cluster == start,
            traversed > 0 ==> cluster_in_range(volume, start as int),
        decreases volume.cluster_count - traversed,
    {
        traversed = match traversed.checked_add(1) {
            Some(count) => count,
            None => return Err(Error::ChainTooLong),
        };
        if traversed > volume.cluster_count {
            return Err(Error::ChainTooLong);
        }
        match next_cluster(device, volume, cluster) {
            Ok(ClusterLink::Next(next)) => {
                match chain.advance(device, volume) {
                    Ok(()) => {},
                    Err(error) => return Err(error),
                }
                cluster = next;
            },
            Ok(ClusterLink::End) => {
                assert(traversed == 1 ==> cluster == start);
                return Ok(());
            },
            Err(error) => return Err(error),
        }
    }
}

/// Frees every cluster of the chain from `start` on, after checking the chain, and
/// records the freed space in FSInfo.
fn free_cluster_chain<D: BlockDevice>(device: &mut D, volume: Volume, start: u32) -> (result: Result<(), Error>)
    requires
        old(device).valid(),
    ensures
        final(device).valid(),
        final(device).read_only() == old(device).read_only(),
        final(device).sectors().len() == old(device).sectors().len(),
        start < 2 ==> result is Ok && final(device).sectors() == old(device).sectors(),
{
    if start < 2 {
        return Ok(());
    }
    match validate_cluster_chain(device, volume, start) {
        Ok(()) => {},
        Err(error) => return Err(error),
    }
    let mut cluster = start;
    let mut freed: u32 = 0;
    loop
        invariant
            device.valid(),
            device.read_only() == old(device).read_only(),
            device.sectors().len() == old(device).sectors().len(),
            start >= 2,
            freed <= volume.cluster_count,
        decreases volume.cluster_count - freed,
    {
        freed = match freed.checked_add(1) {
            Some(count) => count,
            None => return Err(Error::ChainTooLong),
        };
        if freed > volume.cluster_count {
            return Err(Error::ChainTooLong);
        }
        let link = match next_cluster(device, volume, cluster) {
            Ok(link) => link,
            Err(error) => return Err(error),
        };
        match write_fat_entry(device, volume, cluster, 0) {
            Ok(()) => {},
            Err(error) => return Err(error),
        }
        match link {
            ClusterLink::Next(next) => {
                cluster = next;
            },
            ClusterLink::End => {
                let _ = update_fs_info_after_free(device, volume, freed, start);
                return Ok(());
            },
        }
    }
}

// ---- reading files ----

/// Bytes a read of `wanted` bytes at `offset` of a file of `size` bytes returns.
pub open spec fn read_length(size: int, offset: int, wanted: int) -> int {
    let available = if size > offset { size - offset } else { 0 };
    if available < wanted {
        available
    } else {
        wanted
    }
}

/// An error a walk along a cluster chain can meet: a failed read, a broken or
/// out-of-range link, a loop, a chain longer than the volume, or one that ends
/// before the data asked for.
pub open spec fn walk_error(error: Error) -> bool {
    link_error(error) || error == Error::TruncatedFile
}

/// An error following links of a cluster chain can meet: a failed read, a broken or
/// out-of-range link, a loop, or a chain longer than the volume.
pub open spec fn link_error(error: Error) -> bool {
    ||| error is Block
    ||| error == Error::CorruptChain
    ||| error == Error::UnsupportedGeometry
    ||| error == Error::ChainTooLong
    ||| error == Error::ChainLoop
}

/// The clusters `clusters` are a walk of the chain from `first`: each a data
/// cluster, each linked by the FAT to the next.
pub open spec fn chain_walk(disk: Seq<Seq<u8>>, volume: Volume, first: u32, clusters: Seq<u32>) -> bool {
    &&& clusters.len() > 0
    &&& clusters[0] == first
    &&& forall|i: int| 0 <= i < clusters.len() ==> cluster_in_range(volume, #[trigger] clusters[i] as int)
    &&& forall|i: int|
        0 <= i < clusters.len() - 1 ==> #[trigger] chain_link(disk, volume, clusters[i] as int) == Some(
            ClusterLink::Next(clusters[i + 1]),
        )
}

/// Byte `position` of the data held by the clusters `clusters`, taken in order, each
/// of its sectors in order.
pub open spec fn chain_byte(disk: Seq<Seq<u8>>, volume: Volume, clusters: Seq<u32>, position: int) -> u8 {
    let span = volume.sectors_per_cluster * 512;
    let within = position % span;
    disk[cluster_sector(volume, clusters[position / span] as int) + within / 512][within % 512]
}

/// `bytes` are the bytes from `offset` on of the data along the chain from `first`.
pub open spec fn chain_window(disk: Seq<Seq<u8>>, volume: Volume, first: u32, offset: int, bytes: Seq<u8>) -> bool {
    exists|clusters: Seq<u32>|
        #[trigger] chain_walk(disk, volume, first, clusters) && offset + bytes.len() <= clusters.len() * (
        volume.sectors_per_cluster * 512) && forall|k: int|
            0 <= k < bytes.len() ==> #[trigger] bytes[k] == chain_byte(disk, volume, clusters, offset + k)
}

proof fn lemma_position_parts(cluster_index: int, sectors_per_cluster: int, index: int, byte: int)
    requires
        0 <= cluster_index,
        1 <= sectors_per_cluster,
        0 <= index < sectors_per_cluster,
        0 <= byte < 512,
    ensures
        (cluster_index * (sectors_per_cluster * 512) + index * 512 + byte) / (sectors_per_cluster * 512) == cluster_index,
        (cluster_index * (sectors_per_cluster * 512) + index * 512 + byte) % (sectors_per_cluster * 512) == index * 512 + byte,
        (index * 512 + byte) / 512 == index,
        (index * 512 + byte) % 512 == byte,
{
    assert(index * 512 + byte < sectors_per_cluster * 512) by (nonlinear_arith)
        requires index < sectors_per_cluster, byte < 512;
    vstd::arithmetic::div_mod::lemma_fundamental_div_mod_converse(
        cluster_index * (sectors_per_cluster * 512) + index * 512 + byte,
        sectors_per_cluster * 512,
        cluster_index,
        index * 512 + byte,
    );
    vstd::arithmetic::div_mod::lemma_fundamental_div_mod_converse(index * 512 + byte, 512, index, byte);
}

/// Reads the start of the file of `entry` into `buffer`.
pub fn read_file<D: BlockDevice>(device: &mut D, volume: Volume, entry: DirectoryEntry, buffer: &mut [u8]) -> (result: Result<usize, Error>)
    requires
        old(device).valid(),
        volume_sane(volume),
    ensures
        final(device).valid(),
        final(device).sectors() == old(device).sectors(),
        final(device).read_only() == old(device).read_only(),
        final(buffer)@.len() == old(buffer)@.len(),
        result is Ok ==> result->Ok_0 == read_length(entry.size as int, 0, old(buffer)@.len() as int),
        result is Ok && result->Ok_0 > 0 ==> chain_window(
            old(device).sectors(),
            volume,
            entry.first_cluster,
            0,
            final(buffer)@.subrange(0, result->Ok_0 as int),
        ),
        result is Err ==> walk_error(result->Err_0),
        result == Err::<usize, Error>(Error::TruncatedFile) ==> exists|clusters: Seq<u32>|
            #[trigger] chain_walk(old(device).sectors(), volume, entry.first_cluster, clusters) && chain_link(
                old(device).sectors(),
                volume,
                clusters.last() as int,
            ) == Some(ClusterLink::End) && clusters.len() * (volume.sectors_per_cluster * 512) < read_length(
                entry.size as int,
                0,
                old(buffer)@.len() as int,
            ),
        final(device).reliable() == old(device).reliable(),
        forall|clusters: Seq<u32>|
            #![trigger chain_ends(old(device).sectors(), volume, entry.first_cluster, clusters)]
            old(device).reliable() && chain_ends(old(device).sectors(), volume, entry.first_cluster, clusters)
                && chain_data_readable(old(device).sectors(), volume, clusters) && read_length(
                entry.size as int,
                0,
                old(buffer)@.len() as int,
            ) <= clusters.len() * (volume.sectors_per_cluster * 512) ==> result == Ok::<usize, Error>(
                read_length(entry.size as int, 0, old(buffer)@.len() as int) as usize,
            ),
{
    read_file_at(device, volume, entry, 0, buffer)
}

/// Reads up to `buffer.len()` bytes of the file of `entry` from byte `offset` on,
/// following its cluster chain from the cluster holding `offset` without copying what
/// lies before it.
pub fn read_file_at<D: BlockDevice>(device: &mut D, volume: Volume, entry: DirectoryEntry, offset: usize, buffer: &mut [u8]) -> (result: Result<usize, Error>)
    requires
        old(device).valid(),
        volume_sane(volume),
    ensures
        final(device).valid(),
        final(device).sectors() == old(device).sectors(),
        final(device).read_only() == old(device).read_only(),
        final(buffer)@.len() == old(buffer)@.len(),
        read_length(entry.size as int, offset as int, old(buffer)@.len() as int) == 0 ==> result == Ok::<usize, Error>(0)
            && final(buffer)@ == old(buffer)@,
        result is Ok ==> result->Ok_0 == read_length(entry.size as int, offset as int, old(buffer)@.len() as int)
            && final(buffer)@.subrange(result->Ok_0 as int, old(buffer)@.len() as int) == old(buffer)@.subrange(
            result->Ok_0 as int,
            old(buffer)@.len() as int,
        ),
        result is Ok && result->Ok_0 > 0 ==> chain_window(
            old(device).sectors(),
            volume,
            entry.first_cluster,
            offset as int,
            final(buffer)@.subrange(0, result->Ok_0 as int),
        ),
        result is Err ==> walk_error(result->Err_0),
        result == Err::<usize, Error>(Error::TruncatedFile) ==> exists|clusters: Seq<u32>|
            #[trigger] chain_walk(old(device).sectors(), volume, entry.first_cluster, clusters) && chain_link(
                old(device).sectors(),
                volume,
                clusters.last() as int,
            ) == Some(ClusterLink::End) && clusters.len() * (volume.sectors_per_cluster * 512) < offset
                + read_length(entry.size as int, offset as int, old(buffer)@.len() as int),
        final(device).reliable() == old(device).reliable(),
        forall|clusters: Seq<u32>|
            #![trigger chain_ends(old(device).sectors(), volume, entry.first_cluster, clusters)]
            old(device).reliable() && chain_ends(old(device).sectors(), volume, entry.first_cluster, clusters)
                && chain_data_readable(old(device).sectors(), volume, clusters) && offset + read_length(
                entry.size as int,
                offset as int,
                old(buffer)@.len() as int,
            ) <= clusters.len() * (volume.sectors_per_cluster * 512) ==> result == Ok::<usize, Error>(
                read_length(entry.size as int, offset as int, old(buffer)@.len() as int) as usize,
            ),
{
    let ghost disk = old(device).sectors();
    let ghost span: int = volume.sectors_per_cluster * 512;
    let ghost mut clusters: Seq<u32> = Seq::empty();
    let ghost cs: Seq<u32> = choose|cs: Seq<u32>|
        old(device).reliable() && chain_ends(disk, volume, entry.first_cluster, cs) && chain_data_readable(
            disk,
            volume,
            cs,
        ) && offset + read_length(entry.size as int, offset as int, old(buffer)@.len() as int) <= cs.len() * span;
    let ghost good = old(device).reliable() && chain_ends(disk, volume, entry.first_cluster, cs)
        && chain_data_readable(disk, volume, cs) && offset + read_length(
        entry.size as int,
        offset as int,
        old(buffer)@.len() as int,
    ) <= cs.len() * span;
    proof {
        assert forall|other: Seq<u32>|
            #![trigger chain_ends(disk, volume, entry.first_cluster, other)]
            old(device).reliable() && chain_ends(disk, volume, entry.first_cluster, other) && chain_data_readable(
                disk,
                volume,
                other,
            ) && offset + read_length(entry.size as int, offset as int, old(buffer)@.len() as int) <= other.len()
                * span implies good by {
            lemma_chain_unique(disk, volume, entry.first_cluster, cs, other);
        }
    }
    let size = entry.size as usize;
    let available = if size > offset { size - offset } else { 0 };
    let target = if available < buffer.len() { available } else { buffer.len() };
    if target == 0 {
        return Ok(0);
    }
    let mut cluster = entry.first_cluster;
    let mut chain = ChainCycleGuard::new(cluster);
    let mut traversed: u32 = 0;
    let mut position: u64 = 0;
    let mut copied: usize = 0;
    let mut sector = [0u8; 512];
    while copied < target
        invariant
            device.valid(),
            device.sectors() == disk,
            disk == old(device).sectors(),
            device.read_only() == old(device).read_only(),
            volume_sane(volume),
            span == volume.sectors_per_cluster * 512,
            buffer@.len() == old(buffer)@.len(),
            target <= buffer@.len(),
            copied <= target,
            target == read_length(entry.size as int, offset as int, old(buffer)@.len() as int),
            offset < entry.size,
            position <= traversed as int * 128 * 512,
            position == traversed as int * span,
            traversed <= volume.cluster_count,
            buffer@.subrange(copied as int, buffer@.len() as int) == old(buffer)@.subrange(copied as int, buffer@.len() as int),
            clusters.len() == traversed,
            traversed == 0 ==> cluster == entry.first_cluster,
            traversed > 0 ==> chain_walk(disk, volume, entry.first_cluster, clusters) && chain_link(
                disk,
                volume,
                clusters.last() as int,
            ) == Some(ClusterLink::Next(cluster)),
            copied == 0 ==> position <= offset,
            copied > 0 ==> offset + copied <= position,
            0 < copied < target ==> offset + copied == position,
            forall|k: int| 0 <= k < copied ==> #[trigger] buffer@[k] == chain_byte(disk, volume, clusters, offset + k),
            device.reliable() == old(device).reliable(),
            good == (old(device).reliable() && chain_ends(disk, volume, entry.first_cluster, cs) && chain_data_readable(
                disk,
                volume,
                cs,
            ) && offset + target <= cs.len() * span),
            good ==> traversed <= cs.len() && clusters == cs.subrange(0, traversed as int) && (traversed < cs.len()
                ==> cluster == cs[traversed as int]) && guard_on_chain(cs, chain),
            forall|other: Seq<u32>|
                #![trigger chain_ends(disk, volume, entry.first_cluster, other)]
                old(device).reliable() && chain_ends(disk, volume, entry.first_cluster, other) && chain_data_readable(
                    disk,
                    volume,
                    other,
                ) && offset + target <= other.len() * span ==> good,
        decreases volume.cluster_count - traversed,
    {
        proof {
            if good {
                assert(position < offset + target);
                assert(traversed < cs.len()) by (nonlinear_arith)
                    requires
                        position == traversed * span,
                        position < offset + target,
                        offset + target <= cs.len() * span,
                        span > 0;
            }
        }
        traversed = match traversed.checked_add(1) {
            Some(count) => count,
            None => return Err(Error::ChainTooLong),
        };
        if traversed > volume.cluster_count {
            return Err(Error::ChainTooLong);
        }
        let base = match volume.cluster_lba(cluster) {
            Ok(lba) => lba,
            Err(error) => return Err(error),
        };
        let ghost previous = clusters;
        proof {
            clusters = clusters.push(cluster);
            assert forall|k: int| 0 <= k < copied implies #[trigger] buffer@[k] == chain_byte(disk, volume, clusters, offset + k) by {
                assert(offset + k < previous.len() * span);
                if previous.len() > 0 {
                    lemma_window_prefix(volume, previous.len() as int, offset + k);
                }
                assert(buffer@[k] == chain_byte(disk, volume, previous, offset + k));
            }
            if previous.len() > 0 {
                assert(chain_link(disk, volume, clusters[previous.len() - 1] as int) == Some(ClusterLink::Next(clusters[previous.len() as int])));
            }
        }
        let mut index: u64 = 0;
        while index < volume.sectors_per_cluster as u64
            invariant
                device.valid(),
                device.sectors() == disk,
                disk == old(device).sectors(),
                device.read_only() == old(device).read_only(),
                volume_sane(volume),
                span == volume.sectors_per_cluster * 512,
                cluster_in_range(volume, cluster as int),
                base == cluster_sector(volume, cluster as int),
                buffer@.len() == old(buffer)@.len(),
                target <= buffer@.len(),
                copied <= target,
                offset < entry.size,
                index <= volume.sectors_per_cluster,
                1 <= traversed,
                position <= (traversed - 1) as int * 128 * 512 + index * 512,
                position == (traversed - 1) as int * span + index * 512,
                buffer@.subrange(copied as int, buffer@.len() as int) == old(buffer)@.subrange(copied as int, buffer@.len() as int),
                clusters.len() == traversed,
                clusters.last() == cluster,
                chain_walk(disk, volume, entry.first_cluster, clusters),
                device.reliable() == old(device).reliable(),
                good == (old(device).reliable() && chain_ends(disk, volume, entry.first_cluster, cs)
                    && chain_data_readable(disk, volume, cs) && offset + target <= cs.len() * span),
                target == read_length(entry.size as int, offset as int, old(buffer)@.len() as int),
                good ==> traversed <= cs.len() && clusters == cs.subrange(0, traversed as int) && cluster == cs[traversed
                    - 1] && guard_on_chain(cs, chain),
                forall|other: Seq<u32>|
                    #![trigger chain_ends(disk, volume, entry.first_cluster, other)]
                    old(device).reliable() && chain_ends(disk, volume, entry.first_cluster, other) && chain_data_readable(
                        disk,
                        volume,
                        other,
                    ) && offset + target <= other.len() * span ==> good,
                copied == 0 ==> position <= offset,
                copied > 0 ==> offset + copied <= position,
                0 < copied < target ==> offset + copied == position,
                forall|k: int| 0 <= k < copied ==> #[trigger] buffer@[k] == chain_byte(disk, volume, clusters, offset + k),
            ensures
                copied == target || index == volume.sectors_per_cluster,
            decreases volume.sectors_per_cluster - index,
        {
            if copied == target {
                break;
            }
            proof {
                lemma_cluster_sector_bound(volume, cluster as int, index as int);
            }
            if position + 512 > offset as u64 {
                proof {
                    if good {
                        assert(data_sector_readable(disk, volume, cs[traversed - 1], index as int));
                        assert(sector_readable(disk, base + index));
                        assert(device.sectors()[(base + index) as int].len() == SECTOR_SIZE);
                    }
                }
                match device.read_sector(base + index, &mut sector) {
                    Ok(()) => {},
                    Err(error) => return Err(Error::Block(error)),
                }
                let start = if offset as u64 > position { (offset as u64 - position) as usize } else { 0 };
                let room = 512 - start;
                let count = if room < target - copied { room } else { target - copied };
                let ghost before = buffer@;
                copy_bytes(buffer, copied, &sector, start, count);
                proof {
                    assert(offset + copied == position + start);
                    assert(buffer@.subrange(copied + count, buffer@.len() as int) =~= before.subrange(copied + count, before.len() as int));
                    assert forall|k: int| copied + count <= k < buffer@.len() implies before[k] == old(buffer)@[k] by {
                        assert(before.subrange(copied as int, before.len() as int)[k - copied] == old(buffer)@.subrange(copied as int, before.len() as int)[k - copied]);
                    }
                    assert(buffer@.subrange(copied + count, buffer@.len() as int) =~= old(buffer)@.subrange(copied + count, buffer@.len() as int));
                    assert forall|k: int| 0 <= k < copied + count implies #[trigger] buffer@[k] == chain_byte(disk, volume, clusters, offset + k) by {
                        if k < copied {
                            assert(buffer@[k] == before[k]);
                        } else {
                            let j = k - copied;
                            assert(buffer@[k] == sector@[start + j]);
                            lemma_position_parts((traversed - 1) as int, volume.sectors_per_cluster as int, index as int, start + j);
                            assert(clusters[(traversed - 1) as int] == cluster);
                        }
                    }
                }
                copied = copied + count;
            }
            position = position + 512;
            index = index + 1;
        }
        if copied == target {
            proof {
                assert(chain_walk(disk, volume, entry.first_cluster, clusters));
                assert(offset + copied <= clusters.len() * span) by (nonlinear_arith)
                    requires
                        offset + copied <= position,
                        position == (traversed - 1) * span + index * 512,
                        index <= volume.sectors_per_cluster,
                        span == volume.sectors_per_cluster * 512,
                        clusters.len() == traversed,
                        traversed >= 1;
                assert forall|k: int| 0 <= k < copied implies #[trigger] buffer@.subrange(0, copied as int)[k] == chain_byte(disk, volume, clusters, offset + k) by {
                    assert(buffer@[k] == chain_byte(disk, volume, clusters, offset + k));
                }
            }
            return Ok(copied);
        }
        proof {
            if good {
                assert(position < offset + target);
                assert(traversed < cs.len()) by (nonlinear_arith)
                    requires
                        position == (traversed - 1) * span + index * 512,
                        index == volume.sectors_per_cluster,
                        span == volume.sectors_per_cluster * 512,
                        position < offset + target,
                        offset + target <= cs.len() * span,
                        span > 0;
                assert(cs[traversed - 1] == cluster);
                assert(chain_link(disk, volume, cs[traversed - 1] as int) == Some(ClusterLink::Next(cs[traversed as int])));
                assert(fat_entry_readable(disk, volume, cs[traversed - 1] as int));
            }
            assert(position == traversed as int * span) by (nonlinear_arith)
                requires
                    position == (traversed - 1) * span + index * 512,
                    index == volume.sectors_per_cluster,
                    span == volume.sectors_per_cluster * 512;
        }
        cluster = match next_cluster(device, volume, cluster) {
            Ok(ClusterLink::Next(next)) => {
                match chain.advance(device, volume) {
                    Ok(()) => {},
                    Err(error) => return Err(error),
                }
                next
            },
            Ok(ClusterLink::End) => {
                proof {
                    assert(clusters.len() * span == position);
                    assert(chain_walk(disk, volume, entry.first_cluster, clusters));
                }
                return Err(Error::TruncatedFile);
            },
            Err(error) => return Err(error),
        };
    }
    Ok(copied)
}

/// A chain that ends is determined by its first cluster.
proof fn lemma_chain_unique(disk: Seq<Seq<u8>>, volume: Volume, first: u32, a: Seq<u32>, b: Seq<u32>)
    requires
        chain_ends(disk, volume, first, a),
        chain_ends(disk, volume, first, b),
    ensures
        a == b,
{
    assert forall|i: int| 0 <= i < a.len() && i < b.len() implies a[i] == b[i] by {
        lemma_chain_prefix(disk, volume, first, a, b, i);
    }
    if a.len() < b.len() {
        let n = a.len() - 1;
        assert(a[n] == b[n]);
        assert(chain_link(disk, volume, b[n] as int) == Some(ClusterLink::Next(b[n + 1])));
    } else if b.len() < a.len() {
        let n = b.len() - 1;
        assert(a[n] == b[n]);
        assert(chain_link(disk, volume, a[n] as int) == Some(ClusterLink::Next(a[n + 1])));
    }
    assert(a =~= b);
}

proof fn lemma_chain_prefix(disk: Seq<Seq<u8>>, volume: Volume, first: u32, a: Seq<u32>, b: Seq<u32>, i: int)
    requires
        chain_walk(disk, volume, first, a),
        chain_walk(disk, volume, first, b),
        0 <= i < a.len(),
        i < b.len(),
    ensures
        a[i] == b[i],
    decreases i,
{
    if i > 0 {
        lemma_chain_prefix(disk, volume, first, a, b, i - 1);
        assert(chain_link(disk, volume, a[i - 1] as int) == Some(ClusterLink::Next(a[i])));
        assert(chain_link(disk, volume, b[i - 1] as int) == Some(ClusterLink::Next(b[i])));
    }
}

/// A byte inside the first `count` clusters of a walk lies in the same cluster and
/// sector of any longer walk with the same start.
proof fn lemma_window_prefix(volume: Volume, count: int, position: int)
    requires
        1 <= volume.sectors_per_cluster,
        0 <= position < count * (volume.sectors_per_cluster * 512),
    ensures
        position / (volume.sectors_per_cluster * 512) < count,
{
    let span = volume.sectors_per_cluster * 512;
    assert(count * span - 1 == (count - 1) * span + (span - 1)) by (nonlinear_arith);
    vstd::arithmetic::div_mod::lemma_div_is_ordered(position, count * span - 1, span);
    vstd::arithmetic::div_mod::lemma_fundamental_div_mod_converse(count * span - 1, span, count - 1, span - 1);
}

// ---- space and consistency ----

/// Number of clusters in `[2, end)` whose FAT entry in `disk` is free.
pub open spec fn free_below(disk: Seq<Seq<u8>>, volume: Volume, end: int) -> nat
    decreases end,
{
    if end <= 2 {
        0
    } else {
        free_below(disk, volume, end - 1) + if fat_value(disk, volume, end - 1) == 0 {
            1nat
        } else {
            0nat
        }
    }
}

/// `free_below` never exceeds the clusters it counts.
proof fn lemma_free_below_bound(disk: Seq<Seq<u8>>, volume: Volume, end: int)
    ensures
        free_below(disk, volume, end) <= if end > 2 { end - 2 } else { 0 },
    decreases end,
{
    if end > 2 {
        lemma_free_below_bound(disk, volume, end - 1);
    }
}

/// The FAT entry of cluster `k`, read from the FAT sector that starts at cluster
/// `first`, sits at `4 * (k - first)`.
proof fn lemma_fat_slot(first: int, k: int)
    requires
        first >= 0,
        first % 128 == 0,
        first <= k < first + 128,
    ensures
        k * 4 / 512 == first / 128,
        k * 4 % 512 == (k - first) * 4,
{
    vstd::arithmetic::div_mod::lemma_fundamental_div_mod_converse(k * 4, 512, first / 128, (k - first) * 4);
}

/// The FAT sector holding the entry of `cluster` starts at a multiple of 128 clusters
/// at most `cluster` and fewer than 128 below it.
proof fn lemma_fat_sector_first(cluster: int)
    requires
        cluster >= 0,
    ensures
        (cluster * 4 / 512) * 128 <= cluster < (cluster * 4 / 512) * 128 + 128,
        ((cluster * 4 / 512) * 128) % 128 == 0,
{
    vstd::arithmetic::div_mod::lemma_fundamental_div_mod(cluster, 128);
    vstd::arithmetic::div_mod::lemma_fundamental_div_mod_converse(cluster * 4, 512, cluster / 128, (cluster % 128) * 4);
    vstd::arithmetic::div_mod::lemma_fundamental_div_mod_converse((cluster * 4 / 512) * 128, 128, cluster * 4 / 512, 0);
}

/// Adding the entry of cluster `end` extends the count of free clusters below it.
proof fn lemma_free_below_step(disk: Seq<Seq<u8>>, volume: Volume, end: int)
    requires
        end >= 2,
    ensures
        free_below(disk, volume, end + 1) == free_below(disk, volume, end) + if fat_value(disk, volume, end) == 0 { 1nat } else { 0nat },
{
}

/// Counts the free entries of one FAT sector, from cluster `cluster` up to the end of the
/// sector or cluster `end`, adding them to `free`.
fn count_free_in_sector(sector: &[u8; 512], sector_first: u32, cluster: u32, end: u32, free: u32, Ghost(disk): Ghost<Seq<Seq<u8>>>, Ghost(volume): Ghost<Volume>) -> (counted: (u32, u64))
    requires
        sector_first % 128 == 0,
        sector_first <= cluster < sector_first + 128,
        2 <= cluster < end,
        end == volume.cluster_count + 2,
        sector@ == disk[volume.first_fat_sector + sector_first / 128],
        free == free_below(disk, volume, cluster as int),
    ensures
        counted.1 == (if sector_first + 128 < end { sector_first + 128 } else { end as int }),
        counted.0 == free_below(disk, volume, counted.1 as int),
{
    let mut free = free;
    let mut index: u64 = (cluster - sector_first) as u64;
    while index < 128 && sector_first as u64 + index < end as u64
        invariant
            index <= 128,
            sector_first as int + index >= cluster,
            sector_first as int + index <= end,
            sector_first % 128 == 0,
            2 <= cluster,
            sector@ == disk[volume.first_fat_sector + sector_first / 128],
            end == volume.cluster_count + 2,
            free == free_below(disk, volume, sector_first + index),
        decreases 128 - index,
    {
        let current = sector_first as u64 + index;
        proof {
            lemma_fat_slot(sector_first as int, current as int);
            lemma_free_below_step(disk, volume, current as int);
            lemma_free_below_bound(disk, volume, current as int);
        }
        let entry = read_u32(sector, (index * 4) as usize) & FAT32_ENTRY_MASK;
        assert(entry == fat_value(disk, volume, current as int));
        if entry == 0 {
            free = free + 1;
        }
        index = index + 1;
    }
    (free, sector_first as u64 + index)
}

/// Counts the free clusters of the volume and compares the count with what FSInfo
/// claims.
pub fn space_info<D: BlockDevice>(device: &mut D, volume: Volume) -> (result: Result<SpaceInfo, Error>)
    requires
        old(device).valid(),
        volume_sane(volume),
    ensures
        final(device).valid(),
        final(device).sectors() == old(device).sectors(),
        final(device).read_only() == old(device).read_only(),
        result is Ok ==> {
            let info = result->Ok_0;
            let stored = stored_fs_info(old(device).sectors(), volume);
            &&& info.total_clusters == volume.cluster_count
            &&& info.free_clusters == free_below(old(device).sectors(), volume, volume.cluster_count + 2)
            &&& info.bytes_per_cluster == volume.sectors_per_cluster * 512
            &&& info.fs_info_free_count == match stored {
                Some(fs) => if fs.free_count == FSINFO_UNKNOWN { None } else { Some(fs.free_count) },
                None => None,
            }
            &&& info.fs_info_next_free == match stored {
                Some(fs) => if fs.next_free == FSINFO_UNKNOWN { None } else { Some(fs.next_free) },
                None => None,
            }
            &&& info.fs_info_matches == (info.fs_info_free_count is None || info.fs_info_free_count
                == Some(info.free_clusters))
        },
{
    let total_clusters = volume.cluster_count;
    let bytes_per_cluster = volume.sectors_per_cluster as u32 * 512;
    let end = match total_clusters.checked_add(2) {
        Some(end) => end,
        None => return Err(Error::UnsupportedGeometry),
    };
    let mut free_clusters: u32 = 0;
    let mut cluster: u32 = 2;
    let mut sector = [0u8; 512];
    while cluster < end
        invariant
            device.valid(),
            device.sectors() == old(device).sectors(),
            device.read_only() == old(device).read_only(),
            volume_sane(volume),
            end == volume.cluster_count + 2,
            2 <= cluster <= end as int + 128,
            free_clusters == free_below(old(device).sectors(), volume, if cluster < end { cluster as int } else { end as int }),
        decreases end as int + 128 - cluster,
    {
        let (fat_sector, _) = match fat_location(volume, cluster) {
            Ok(location) => location,
            Err(error) => return Err(error),
        };
        match device.read_sector(fat_sector, &mut sector) {
            Ok(()) => {},
            Err(error) => return Err(Error::Block(error)),
        }
        proof {
            lemma_fat_sector_first(cluster as int);
        }
        let sector_first = ((fat_sector - volume.first_fat_sector) * 128) as u32;
        let (counted, reached) = count_free_in_sector(&sector, sector_first, cluster, end, free_clusters, Ghost(old(device).sectors()), Ghost(volume));
        free_clusters = counted;
        let next = sector_first.saturating_add(128);
        if next <= cluster {
            return Err(Error::CorruptChain);
        }
        cluster = next;
    }
    let fs_info = match read_fs_info(device, volume) {
        Ok(info) => info,
        Err(error) => return Err(error),
    };
    let fs_info_free_count = match fs_info {
        Some(info) => if info.free_count == FSINFO_UNKNOWN { None } else { Some(info.free_count) },
        None => None,
    };
    let fs_info_next_free = match fs_info {
        Some(info) => if info.next_free == FSINFO_UNKNOWN || !is_allocatable_cluster(volume, info.next_free) {
            None
        } else {
            Some(info.next_free)
        },
        None => None,
    };
    let fs_info_matches = match fs_info_free_count {
        Some(hint) => hint == free_clusters,
        None => true,
    };
    Ok(SpaceInfo {
        total_clusters,
        free_clusters,
        bytes_per_cluster,
        fs_info_free_count,
        fs_info_next_free,
        fs_info_matches,
    })
}

/// `.` or `..`, space padded.
pub open spec fn is_dot_name(name: Seq<u8>) -> bool {
    name.len() == 11 && name[0] == 0x2e && ((forall|k: int| 1 <= k < 11 ==> name[k] == 0x20) || (
    name[1] == 0x2e && forall|k: int| 2 <= k < 11 ==> name[k] == 0x20))
}

fn is_dot_directory_short_name(short_name: &[u8; 11]) -> (dot: bool)
    ensures
        dot == is_dot_name(short_name@),
{
    if short_name[0] != 0x2e {
        return false;
    }
    let mut single = true;
    let mut k: usize = 1;
    while k < 11
        invariant
            1 <= k <= 11,
            single == forall|m: int| 1 <= m < k ==> short_name@[m] == 0x20,
        decreases 11 - k,
    {
        if short_name[k] != 0x20 {
            single = false;
        }
        k = k + 1;
    }
    if single {
        return true;
    }
    if short_name[1] != 0x2e {
        return false;
    }
    let mut double = true;
    let mut k: usize = 2;
    while k < 11
        invariant
            2 <= k <= 11,
            double == forall|m: int| 2 <= m < k ==> short_name@[m] == 0x20,
        decreases 11 - k,
    {
        if short_name[k] != 0x20 {
            double = false;
        }
        k = k + 1;
    }
    double
}

/// Counts files and directories below the directory at `dir_cluster`, checking every
/// chain it meets, down to `MAX_FS_CHECK_DEPTH` levels.
fn check_directory_tree<D: BlockDevice>(device: &mut D, volume: Volume, dir_cluster: u32, depth: usize, report: &mut CheckReport) -> (result: Result<(), Error>)
    requires
        old(device).valid(),
        volume_sane(volume),
        depth <= MAX_FS_CHECK_DEPTH,
    ensures
        final(device).valid(),
        final(device).sectors() == old(device).sectors(),
        final(device).read_only() == old(device).read_only(),
        final(report).total_clusters == old(report).total_clusters,
        final(report).free_clusters == old(report).free_clusters,
        final(report).files >= old(report).files,
        final(report).directories >= old(report).directories,
    decreases MAX_FS_CHECK_DEPTH - depth,
{
    let mut cluster = dir_cluster;
    let mut visited: Vec<u32> = Vec::new();
    let mut sector = [0u8; 512];
    loop
        invariant
            device.valid(),
            device.sectors() == old(device).sectors(),
            device.read_only() == old(device).read_only(),
            volume_sane(volume),
            depth <= MAX_FS_CHECK_DEPTH,
            report.total_clusters == old(report).total_clusters,
            report.free_clusters == old(report).free_clusters,
            report.files >= old(report).files,
            report.directories >= old(report).directories,
            visited@.len() <= MAX_DIRECTORY_CLUSTERS,
        decreases MAX_DIRECTORY_CLUSTERS - visited@.len(),
    {
        match visit(&mut visited, cluster) {
            Ok(()) => {},
            Err(error) => return Err(error),
        }
        let base = match volume.cluster_lba(cluster) {
            Ok(lba) => lba,
            Err(error) => return Err(error),
        };
        let mut index: u64 = 0;
        while index < volume.sectors_per_cluster as u64
            invariant
                device.valid(),
                device.sectors() == old(device).sectors(),
                device.read_only() == old(device).read_only(),
                volume_sane(volume),
                depth <= MAX_FS_CHECK_DEPTH,
                cluster_in_range(volume, cluster as int),
                base == cluster_sector(volume, cluster as int),
                report.total_clusters == old(report).total_clusters,
                report.free_clusters == old(report).free_clusters,
                report.files >= old(report).files,
                report.directories >= old(report).directories,
            decreases volume.sectors_per_cluster - index,
        {
            proof {
                lemma_cluster_sector_bound(volume, cluster as int, index as int);
            }
            match device.read_sector(base + index, &mut sector) {
                Ok(()) => {},
                Err(error) => return Err(Error::Block(error)),
            }
            let mut slot: usize = 0;
            while slot < DIRECTORY_ENTRIES_PER_SECTOR
                invariant
                    slot <= 16,
                    device.valid(),
                    device.sectors() == old(device).sectors(),
                    device.read_only() == old(device).read_only(),
                    volume_sane(volume),
                    depth <= MAX_FS_CHECK_DEPTH,
                    report.total_clusters == old(report).total_clusters,
                    report.free_clusters == old(report).free_clusters,
                    report.files >= old(report).files,
                    report.directories >= old(report).directories,
                decreases 16 - slot,
            {
                let offset = slot * DIRECTORY_ENTRY_SIZE;
                let first = sector[offset];
                if first == 0 {
                    return Ok(());
                }
                let attributes = sector[offset + 11];
                if first != 0xe5 && attributes != LONG_NAME_ATTRIBUTE && attributes & VOLUME_ID_ATTRIBUTE == 0 {
                    let entry = match directory_entry_from_sector(&sector, offset) {
                        Ok(entry) => entry,
                        Err(error) => return Err(error),
                    };
                    if !is_dot_directory_short_name(&entry.short_name) {
                        if entry.attributes & DIRECTORY_ATTRIBUTE != 0 {
                            match validate_cluster_chain(device, volume, entry.first_cluster) {
                                Ok(()) => {},
                                Err(error) => return Err(error),
                            }
                            report.directories = report.directories.saturating_add(1);
                            if depth < MAX_FS_CHECK_DEPTH {
                                match check_directory_tree(device, volume, entry.first_cluster, depth + 1, report) {
                                    Ok(()) => {},
                                    Err(error) => return Err(error),
                                }
                            }
                        } else {
                            if entry.first_cluster >= 2 {
                                match validate_cluster_chain(device, volume, entry.first_cluster) {
                                    Ok(()) => {},
                                    Err(error) => return Err(error),
                                }
                            }
                            report.files = report.files.saturating_add(1);
                        }
                    }
                }
                slot = slot + 1;
            }
            index = index + 1;
        }
        cluster = match next_cluster(device, volume, cluster) {
            Ok(ClusterLink::Next(next)) => next,
            Ok(ClusterLink::End) => return Ok(()),
            Err(error) => return Err(error),
        };
    }
}

/// Checks the root chain and every chain reachable from the root directory, counts
/// files and directories, and reports free space as `space_info` does.
pub fn check_volume<D: BlockDevice>(device: &mut D, volume: Volume) -> (result: Result<CheckReport, Error>)
    requires
        old(device).valid(),
        volume_sane(volume),
    ensures
        final(device).valid(),
        final(device).sectors() == old(device).sectors(),
        final(device).read_only() == old(device).read_only(),
        result is Ok ==> {
            &&& result->Ok_0.total_clusters == volume.cluster_count
            &&& result->Ok_0.free_clusters == free_below(old(device).sectors(), volume, volume.cluster_count + 2)
            &&& result->Ok_0.directories >= 1
        },
{
    match volume.cluster_lba(volume.root_cluster) {
        Ok(_) => {},
        Err(error) => return Err(error),
    }
    match validate_cluster_chain(device, volume, volume.root_cluster) {
        Ok(()) => {},
        Err(error) => return Err(error),
    }
    let space = match space_info(device, volume) {
        Ok(space) => space,
        Err(error) => return Err(error),
    };
    let mut report = CheckReport {
        files: 0,
        directories: 1,
        total_clusters: space.total_clusters,
        free_clusters: space.free_clusters,
        fs_info_free_count: space.fs_info_free_count,
        fs_info_matches: space.fs_info_matches,
    };
    match check_directory_tree(device, volume, volume.root_cluster, 0, &mut report) {
        Ok(()) => Ok(report),
        Err(error) => Err(error),
    }
}

// ---- allocation ----

/// `after` is the device `before` became through writes: still valid, as large and as
/// writable as before.
pub open spec fn intact<D: BlockDevice>(before: D, after: D) -> bool {
    &&& after.valid()
    &&& after.read_only() == before.read_only()
    &&& after.sectors().len() == before.sectors().len()
}

/// Takes the first free cluster in `start..end`, marking it as the end of a chain.
fn allocate_cluster_in_range<D: BlockDevice>(device: &mut D, volume: Volume, start: u32, end: u32) -> (result: Result<u32, Error>)
    requires
        old(device).valid(),
    ensures
        intact(*old(device), *final(device)),
        result is Ok ==> start <= result->Ok_0 < end && allocatable(volume, result->Ok_0 as int) && fat_value(
            old(device).sectors(),
            volume,
            result->Ok_0 as int,
        ) == 0,
        start >= end ==> result == Err::<u32, Error>(Error::NoSpace),
{
    let mut cluster = start;
    while cluster < end
        invariant
            device.valid(),
            device.sectors() == old(device).sectors(),
            device.read_only() == old(device).read_only(),
            start <= cluster,
        decreases end - cluster,
    {
        let value = match read_fat_entry(device, volume, cluster) {
            Ok(value) => value,
            Err(error) => return Err(error),
        };
        if value == 0 {
            match write_fat_entry(device, volume, cluster, FAT32_END_MIN) {
                Ok(()) => {},
                Err(error) => return Err(error),
            }
            let _ = update_fs_info_after_alloc(device, volume, cluster);
            return Ok(cluster);
        }
        cluster = cluster + 1;
    }
    Err(Error::NoSpace)
}

/// Takes a free cluster, searching from the FSInfo hint on and then wrapping around.
fn allocate_cluster<D: BlockDevice>(device: &mut D, volume: Volume) -> (result: Result<u32, Error>)
    requires
        old(device).valid(),
    ensures
        intact(*old(device), *final(device)),
        result is Ok ==> allocatable(volume, result->Ok_0 as int),
{
    let max = match volume.cluster_count.checked_add(2) {
        Some(max) => max,
        None => return Err(Error::UnsupportedGeometry),
    };
    let mut start = fs_info_next_free_hint(device, volume);
    if !is_allocatable_cluster(volume, start) {
        start = 2;
    }
    match allocate_cluster_in_range(device, volume, start, max) {
        Ok(cluster) => Ok(cluster),
        Err(Error::NoSpace) => {
            if start > 2 {
                allocate_cluster_in_range(device, volume, 2, start)
            } else {
                Err(Error::NoSpace)
            }
        },
        Err(error) => Err(error),
    }
}

/// Allocates a chain of `needed_clusters` clusters, handing back its first cluster (0
/// for none); on failure whatever was allocated is freed again.
fn allocate_file_chain<D: BlockDevice>(device: &mut D, volume: Volume, needed_clusters: usize) -> (result: Result<u32, Error>)
    requires
        old(device).valid(),
    ensures
        intact(*old(device), *final(device)),
        needed_clusters == 0 ==> result == Ok::<u32, Error>(0) && *final(device) == *old(device),
        needed_clusters > 0 && result is Ok ==> allocatable(volume, result->Ok_0 as int),
{
    let mut first_cluster: u32 = 0;
    let mut previous_cluster: u32 = 0;
    let mut index: usize = 0;
    while index < needed_clusters
        invariant
            intact(*old(device), *device),
            index <= needed_clusters,
            index == 0 ==> first_cluster == 0 && *device == *old(device),
            index > 0 ==> allocatable(volume, first_cluster as int),
        decreases needed_clusters - index,
    {
        let cluster = match allocate_cluster(device, volume) {
            Ok(cluster) => cluster,
            Err(error) => {
                if first_cluster >= 2 {
                    let _ = free_cluster_chain(device, volume, first_cluster);
                }
                return Err(error);
            },
        };
        if index == 0 {
            first_cluster = cluster;
        } else {
            match write_fat_entry(device, volume, previous_cluster, cluster) {
                Ok(()) => {},
                Err(error) => {
                    let _ = free_cluster_chain(device, volume, cluster);
                    if first_cluster >= 2 {
                        let _ = free_cluster_chain(device, volume, first_cluster);
                    }
                    return Err(error);
                },
            }
        }
        previous_cluster = cluster;
        index = index + 1;
    }
    Ok(first_cluster)
}

/// Writes `data` along the chain from `first_cluster`, zero-padding the last sector.
fn write_file_data_chain<D: BlockDevice>(device: &mut D, volume: Volume, first_cluster: u32, data: &[u8]) -> (result: Result<(), Error>)
    requires
        old(device).valid(),
        volume_sane(volume),
    ensures
        intact(*old(device), *final(device)),
        data@.len() == 0 ==> result is Ok && *final(device) == *old(device),
        data@.len() > 0 && first_cluster < 2 ==> result == Err::<(), Error>(Error::CorruptChain),
{
    if data.len() == 0 {
        return Ok(());
    }
    if first_cluster < 2 {
        return Err(Error::CorruptChain);
    }
    let total = data.len();
    let mut written: usize = 0;
    let mut cluster = first_cluster;
    let mut traversed: u32 = 0;
    while written < total
        invariant
            intact(*old(device), *device),
            volume_sane(volume),
            total == data@.len(),
            total > 0,
            first_cluster >= 2,
            written <= total,
            traversed <= volume.cluster_count,
        decreases volume.cluster_count - traversed,
    {
        traversed = match traversed.checked_add(1) {
            Some(count) => count,
            None => return Err(Error::ChainTooLong),
        };
        if traversed > volume.cluster_count {
            return Err(Error::ChainTooLong);
        }
        let base = match volume.cluster_lba(cluster) {
            Ok(lba) => lba,
            Err(error) => return Err(error),
        };
        let mut index: u64 = 0;
        while index < volume.sectors_per_cluster as u64
            invariant
                intact(*old(device), *device),
                volume_sane(volume),
                cluster_in_range(volume, cluster as int),
                base == cluster_sector(volume, cluster as int),
                total == data@.len(),
                total > 0,
                first_cluster >= 2,
                written <= total,
            decreases volume.sectors_per_cluster - index,
        {
            proof {
                lemma_cluster_sector_bound(volume, cluster as int, index as int);
            }
            let mut sector = [0u8; 512];
            let take = if total - written < 512 { total - written } else { 512 };
            if take > 0 {
                copy_bytes(&mut sector, 0, data, written, take);
                written = written + take;
            }
            match device.write_sector(base + index, &sector) {
                Ok(()) => {},
                Err(error) => return Err(Error::Block(error)),
            }
            index = index + 1;
        }
        if written == total {
            return Ok(());
        }
        cluster = match next_cluster(device, volume, cluster) {
            Ok(ClusterLink::Next(next)) => next,
            Ok(ClusterLink::End) => return Err(Error::TruncatedFile),
            Err(error) => return Err(error),
        };
    }
    Ok(())
}

/// Zeroes every sector of `cluster`.
fn zero_cluster<D: BlockDevice>(device: &mut D, volume: Volume, cluster: u32) -> (result: Result<(), Error>)
    requires
        old(device).valid(),
        volume_sane(volume),
    ensures
        intact(*old(device), *final(device)),
        !cluster_in_range(volume, cluster as int) ==> result is Err && *final(device) == *old(device),
        result is Ok ==> forall|j: int|
            0 <= j < old(device).sectors().len() ==> #[trigger] final(device).sectors()[j] == if cluster_sector(
                volume,
                cluster as int,
            ) <= j < cluster_sector(volume, cluster as int) + volume.sectors_per_cluster {
                Seq::new(512, |i: int| 0u8)
            } else {
                old(device).sectors()[j]
            },
{
    let base = match volume.cluster_lba(cluster) {
        Ok(lba) => lba,
        Err(error) => return Err(error),
    };
    let zero = [0u8; 512];
    assert(zero@ =~= Seq::new(512, |i: int| 0u8));
    let mut index: u64 = 0;
    while index < volume.sectors_per_cluster as u64
        invariant
            intact(*old(device), *device),
            volume_sane(volume),
            cluster_in_range(volume, cluster as int),
            base == cluster_sector(volume, cluster as int),
            index <= volume.sectors_per_cluster,
            zero@ == Seq::new(512, |i: int| 0u8),
            forall|j: int|
                0 <= j < old(device).sectors().len() ==> #[trigger] device.sectors()[j] == if base <= j < base + index {
                    Seq::new(512, |i: int| 0u8)
                } else {
                    old(device).sectors()[j]
                },
        decreases volume.sectors_per_cluster - index,
    {
        proof {
            lemma_cluster_sector_bound(volume, cluster as int, index as int);
        }
        match device.write_sector(base + index, &zero) {
            Ok(()) => {},
            Err(error) => return Err(Error::Block(error)),
        }
        index = index + 1;
    }
    Ok(())
}

/// A reserved slot lies inside one directory sector.
/// The 32-byte entry at `offset` of `sector` is a live short-name entry named `short`
/// and `entry` holds its fields.
pub open spec fn live_entry_at(sector: Seq<u8>, offset: int, short: Seq<u8>, entry: DirectoryEntry) -> bool {
    &&& sector.len() == 512
    &&& 0 <= offset && offset + 32 <= 512
    &&& sector[offset] != 0 && sector[offset] != 0xe5
    &&& sector[offset + 11] != LONG_NAME_ATTRIBUTE && sector[offset + 11] & VOLUME_ID_ATTRIBUTE == 0
    &&& sector.subrange(offset, offset + 11) == short
    &&& entry.short_name@ == short
    &&& entry.attributes == sector[offset + 11]
    &&& entry.first_cluster == le16(sector, offset + 20) * 0x1_0000 + le16(sector, offset + 26)
    &&& entry.size == le32(sector, offset + 28)
}

/// The slot at `offset` of `sector` is free: never used, or deleted.
pub open spec fn free_slot_at(sector: Seq<u8>, offset: int) -> bool {
    &&& sector.len() == 512
    &&& 0 <= offset && offset + 32 <= 512
    &&& (sector[offset] == 0 || sector[offset] == 0xe5)
}

pub open spec fn reservation_sound(slot: DirectorySlotReservation) -> bool {
    slot.offset + 32 <= 512 && slot.offset % 32 == 0
}

/// Links a fresh zeroed cluster after `last_cluster` of a full directory and reserves
/// its first slot.
fn extend_directory_chain<D: BlockDevice>(device: &mut D, volume: Volume, last_cluster: u32) -> (result: Result<DirectorySlotReservation, Error>)
    requires
        old(device).valid(),
        volume_sane(volume),
    ensures
        intact(*old(device), *final(device)),
        result is Ok ==> reservation_sound(result->Ok_0) && result->Ok_0.existing is None
            && result->Ok_0.extension is Some && result->Ok_0.extension->0.parent_cluster == last_cluster,
{
    let new_cluster = match allocate_cluster(device, volume) {
        Ok(cluster) => cluster,
        Err(error) => return Err(error),
    };
    match zero_cluster(device, volume, new_cluster) {
        Ok(()) => {},
        Err(error) => {
            let _ = free_cluster_chain(device, volume, new_cluster);
            return Err(error);
        },
    }
    match write_fat_entry(device, volume, last_cluster, new_cluster) {
        Ok(()) => {},
        Err(error) => {
            let _ = free_cluster_chain(device, volume, new_cluster);
            return Err(error);
        },
    }
    let lba = match volume.cluster_lba(new_cluster) {
        Ok(lba) => lba,
        Err(error) => return Err(error),
    };
    Ok(DirectorySlotReservation {
        lba,
        offset: 0,
        existing: None,
        extension: Some(DirectoryExtension { parent_cluster: last_cluster, cluster: new_cluster }),
    })
}

/// Unlinks and frees a cluster added by `extend_directory_chain`.
fn rollback_directory_extension<D: BlockDevice>(device: &mut D, volume: Volume, extension: DirectoryExtension) -> (result: Result<(), Error>)
    requires
        old(device).valid(),
    ensures
        intact(*old(device), *final(device)),
{
    match write_fat_entry(device, volume, extension.parent_cluster, FAT32_END_MIN) {
        Ok(()) => {},
        Err(error) => return Err(error),
    }
    free_cluster_chain(device, volume, extension.cluster)
}

/// Undoes what reserving `slot` added to the directory.
fn rollback_reserved_slot<D: BlockDevice>(device: &mut D, volume: Volume, slot: DirectorySlotReservation)
    requires
        old(device).valid(),
    ensures
        intact(*old(device), *final(device)),
        slot.extension is None ==> *final(device) == *old(device),
{
    match slot.extension {
        Some(extension) => {
            let _ = rollback_directory_extension(device, volume, extension);
        },
        None => {},
    }
}

// ---- directory slots ----

/// A remembered deleted slot lies inside its sector.
pub open spec fn slot_offset_sound(deleted: Option<(u64, usize)>) -> bool {
    match deleted {
        Some((_, offset)) => offset + 32 <= 512 && offset % 32 == 0,
        None => true,
    }
}

/// Finds where an entry named `short` goes in the directory at `dir_cluster`: the
/// existing entry of that name, else the first deleted slot, else the end-of-directory
/// slot, else a slot in a cluster newly linked to the directory.
fn find_directory_slot<D: BlockDevice>(device: &mut D, volume: Volume, dir_cluster: u32, short: &[u8; 11]) -> (result: Result<DirectorySlotReservation, Error>)
    requires
        old(device).valid(),
        volume_sane(volume),
    ensures
        intact(*old(device), *final(device)),
        result is Ok ==> reservation_sound(result->Ok_0),
        result is Ok && result->Ok_0.extension is None ==> final(device).sectors() == old(device).sectors(),
        result is Ok && result->Ok_0.existing is Some ==> result->Ok_0.existing->0.short_name@ == short@,
        result is Ok && result->Ok_0.existing is Some ==> result->Ok_0.lba < old(device).sectors().len()
            && live_entry_at(
            old(device).sectors()[result->Ok_0.lba as int],
            result->Ok_0.offset as int,
            short@,
            result->Ok_0.existing->0,
        ),
        result is Ok && result->Ok_0.existing is None && result->Ok_0.extension is None ==> result->Ok_0.lba
            < old(device).sectors().len() && free_slot_at(
            old(device).sectors()[result->Ok_0.lba as int],
            result->Ok_0.offset as int,
        ),
{
    let mut cluster = dir_cluster;
    let mut visited: Vec<u32> = Vec::new();
    let mut deleted: Option<(u64, usize)> = None;
    let mut sector = [0u8; 512];
    loop
        invariant
            device.valid(),
            device.sectors() == old(device).sectors(),
            device.read_only() == old(device).read_only(),
            volume_sane(volume),
            visited@.len() <= MAX_DIRECTORY_CLUSTERS,
            slot_offset_sound(deleted),
            deleted matches Some((l, o)) ==> l < old(device).sectors().len() && free_slot_at(
                old(device).sectors()[l as int],
                o as int,
            ),
        decreases MAX_DIRECTORY_CLUSTERS - visited@.len(),
    {
        match visit(&mut visited, cluster) {
            Ok(()) => {},
            Err(error) => return Err(error),
        }
        let base = match volume.cluster_lba(cluster) {
            Ok(lba) => lba,
            Err(error) => return Err(error),
        };
        let mut index: u64 = 0;
        while index < volume.sectors_per_cluster as u64
            invariant
                device.valid(),
                device.sectors() == old(device).sectors(),
                device.read_only() == old(device).read_only(),
                volume_sane(volume),
                cluster_in_range(volume, cluster as int),
                base == cluster_sector(volume, cluster as int),
                slot_offset_sound(deleted),
            deleted matches Some((l, o)) ==> l < old(device).sectors().len() && free_slot_at(
                old(device).sectors()[l as int],
                o as int,
            ),
            decreases volume.sectors_per_cluster - index,
        {
            proof {
                lemma_cluster_sector_bound(volume, cluster as int, index as int);
            }
            let lba = base + index;
            match device.read_sector(lba, &mut sector) {
                Ok(()) => {},
                Err(error) => return Err(Error::Block(error)),
            }
            assert(sector@ == old(device).sectors()[lba as int]);
            let mut slot: usize = 0;
            while slot < DIRECTORY_ENTRIES_PER_SECTOR
                invariant
                    slot <= 16,
                    device.valid(),
                    device.sectors() == old(device).sectors(),
                    device.read_only() == old(device).read_only(),
                    slot_offset_sound(deleted),
                    deleted matches Some((l, o)) ==> l < old(device).sectors().len() && free_slot_at(
                        old(device).sectors()[l as int],
                        o as int,
                    ),
                    lba < old(device).sectors().len(),
                    sector@ == old(device).sectors()[lba as int],
                decreases 16 - slot,
            {
                let offset = slot * DIRECTORY_ENTRY_SIZE;
                let first = sector[offset];
                if first == 0 {
                    let (lba, offset) = match deleted {
                        Some(found) => found,
                        None => (lba, offset),
                    };
                    return Ok(DirectorySlotReservation { lba, offset, existing: None, extension: None });
                }
                if first == 0xe5 {
                    if deleted.is_none() {
                        deleted = Some((lba, offset));
                    }
                } else {
                    let attributes = sector[offset + 11];
                    if attributes != LONG_NAME_ATTRIBUTE && attributes & VOLUME_ID_ATTRIBUTE == 0 {
                        let mut found = [0u8; 11];
                        copy_bytes(&mut found, 0, &sector, offset, 11);
                        assert(found@ == sector@.subrange(offset as int, offset + 11));
                        if names_equal(&found, short) {
                            let first_cluster = read_u16(&sector, offset + 20) as u32 * 0x1_0000
                                + read_u16(&sector, offset + 26) as u32;
                            return Ok(DirectorySlotReservation {
                                lba,
                                offset,
                                existing: Some(DirectoryEntry {
                                    short_name: found,
                                    first_cluster,
                                    size: read_u32(&sector, offset + 28),
                                    attributes,
                                }),
                                extension: None,
                            });
                        }
                    }
                }
                slot = slot + 1;
            }
            index = index + 1;
        }
        cluster = match next_cluster(device, volume, cluster) {
            Ok(ClusterLink::Next(next)) => next,
            Ok(ClusterLink::End) => {
                match deleted {
                    Some((lba, offset)) => {
                        return Ok(DirectorySlotReservation { lba, offset, existing: None, extension: None });
                    },
                    None => {},
                }
                return extend_directory_chain(device, volume, cluster);
            },
            Err(error) => return Err(error),
        };
    }
}

/// Finds the existing entry named `short` in the directory at `dir_cluster`.
fn find_existing_directory_slot<D: BlockDevice>(device: &mut D, volume: Volume, dir_cluster: u32, short: &[u8; 11]) -> (result: Result<DirectorySlot, Error>)
    requires
        old(device).valid(),
        volume_sane(volume),
    ensures
        final(device).valid(),
        final(device).sectors() == old(device).sectors(),
        final(device).read_only() == old(device).read_only(),
        result is Ok ==> result->Ok_0.offset + 32 <= 512 && result->Ok_0.offset % 32 == 0
            && result->Ok_0.entry.short_name@ == short@,
{
    let mut cluster = dir_cluster;
    let mut visited: Vec<u32> = Vec::new();
    let mut sector = [0u8; 512];
    loop
        invariant
            device.valid(),
            device.sectors() == old(device).sectors(),
            device.read_only() == old(device).read_only(),
            volume_sane(volume),
            visited@.len() <= MAX_DIRECTORY_CLUSTERS,
        decreases MAX_DIRECTORY_CLUSTERS - visited@.len(),
    {
        match visit(&mut visited, cluster) {
            Ok(()) => {},
            Err(error) => return Err(error),
        }
        let base = match volume.cluster_lba(cluster) {
            Ok(lba) => lba,
            Err(error) => return Err(error),
        };
        let mut index: u64 = 0;
        while index < volume.sectors_per_cluster as u64
            invariant
                device.valid(),
                device.sectors() == old(device).sectors(),
                device.read_only() == old(device).read_only(),
                volume_sane(volume),
                cluster_in_range(volume, cluster as int),
                base == cluster_sector(volume, cluster as int),
            decreases volume.sectors_per_cluster - index,
        {
            proof {
                lemma_cluster_sector_bound(volume, cluster as int, index as int);
            }
            let lba = base + index;
            match device.read_sector(lba, &mut sector) {
                Ok(()) => {},
                Err(error) => return Err(Error::Block(error)),
            }
            let mut slot: usize = 0;
            while slot < DIRECTORY_ENTRIES_PER_SECTOR
                invariant
                    slot <= 16,
                    device.valid(),
                    device.sectors() == old(device).sectors(),
                    device.read_only() == old(device).read_only(),
                decreases 16 - slot,
            {
                let offset = slot * DIRECTORY_ENTRY_SIZE;
                let first = sector[offset];
                if first == 0 {
                    return Err(Error::NotFound);
                }
                if first != 0xe5 {
                    let attributes = sector[offset + 11];
                    if attributes != LONG_NAME_ATTRIBUTE && attributes & VOLUME_ID_ATTRIBUTE == 0 {
                        let mut found = [0u8; 11];
                        copy_bytes(&mut found, 0, &sector, offset, 11);
                        if names_equal(&found, short) {
                            let entry = match directory_entry_from_sector(&sector, offset) {
                                Ok(entry) => entry,
                                Err(error) => return Err(error),
                            };
                            assert(entry.short_name@ =~= found@);
                            let mut raw = [0u8; 32];
                            copy_bytes(&mut raw, 0, &sector, offset, 32);
                            return Ok(DirectorySlot { lba, offset, entry, raw });
                        }
                    }
                }
                slot = slot + 1;
            }
            index = index + 1;
        }
        cluster = match next_cluster(device, volume, cluster) {
            Ok(ClusterLink::Next(next)) => next,
            Ok(ClusterLink::End) => return Err(Error::NotFound),
            Err(error) => return Err(error),
        };
    }
}

/// `sector` with `bytes` written over it at `offset`.
pub open spec fn patched(sector: Seq<u8>, offset: int, bytes: Seq<u8>) -> Seq<u8> {
    sector.subrange(0, offset) + bytes + sector.subrange(offset + bytes.len(), sector.len() as int)
}

/// `after` is `before` with the 32-byte directory entry at `offset` holding `short`,
/// `attributes`, the two halves of `first_cluster`, `size`, and zeros elsewhere.
pub open spec fn entry_written(
    after: Seq<u8>,
    before: Seq<u8>,
    offset: int,
    short: Seq<u8>,
    attributes: u8,
    first_cluster: u32,
    size: u32,
) -> bool {
    &&& after.len() == before.len()
    &&& forall|k: int| 0 <= k < before.len() && !(offset <= k < offset + 32) ==> #[trigger] after[k] == before[k]
    &&& after.subrange(offset, offset + 11) == short
    &&& after[offset + 11] == attributes
    &&& forall|k: int| (offset + 12 <= k < offset + 20 || offset + 22 <= k < offset + 26) ==> #[trigger] after[k] == 0
    &&& le16(after, offset + 20) == first_cluster / 0x1_0000
    &&& le16(after, offset + 26) == first_cluster % 0x1_0000
    &&& le32(after, offset + 28) == size
}

/// `device` once sector `lba` became `sector`, the others left as they were.
pub open spec fn sector_replaced(before: Seq<Seq<u8>>, after: Seq<Seq<u8>>, lba: int, sector: Seq<u8>) -> bool {
    0 <= lba < before.len() && after == before.update(lba, sector)
}

/// Marks the entry at `offset` of sector `lba` deleted.
fn mark_directory_entry_deleted<D: BlockDevice>(device: &mut D, lba: u64, offset: usize) -> (result: Result<(), Error>)
    requires
        old(device).valid(),
        offset < 512,
    ensures
        intact(*old(device), *final(device)),
        result is Ok ==> sector_replaced(
            old(device).sectors(),
            final(device).sectors(),
            lba as int,
            old(device).sectors()[lba as int].update(offset as int, 0xe5u8),
        ),
{
    let mut sector = [0u8; 512];
    match device.read_sector(lba, &mut sector) {
        Ok(()) => {},
        Err(error) => return Err(Error::Block(error)),
    }
    sector[offset] = 0xe5;
    match device.write_sector(lba, &sector) {
        Ok(()) => Ok(()),
        Err(error) => Err(Error::Block(error)),
    }
}

/// Replaces the name of the entry at `offset` of sector `lba`.
fn write_short_name<D: BlockDevice>(device: &mut D, lba: u64, offset: usize, short: &[u8; 11]) -> (result: Result<(), Error>)
    requires
        old(device).valid(),
        offset + 32 <= 512,
    ensures
        intact(*old(device), *final(device)),
        result is Ok ==> sector_replaced(
            old(device).sectors(),
            final(device).sectors(),
            lba as int,
            patched(old(device).sectors()[lba as int], offset as int, short@),
        ),
{
    let mut sector = [0u8; 512];
    match device.read_sector(lba, &mut sector) {
        Ok(()) => {},
        Err(error) => return Err(Error::Block(error)),
    }
    let ghost read = sector@;
    copy_bytes(&mut sector, offset, short, 0, 11);
    assert(short@.subrange(0, 11) =~= short@);
    assert(sector@ =~= patched(read, offset as int, short@));
    match device.write_sector(lba, &sector) {
        Ok(()) => Ok(()),
        Err(error) => Err(Error::Block(error)),
    }
}

/// Writes the raw entry `raw` at `offset` of sector `lba`.
fn write_raw_directory_slot<D: BlockDevice>(device: &mut D, lba: u64, offset: usize, raw: &[u8; 32]) -> (result: Result<(), Error>)
    requires
        old(device).valid(),
        offset + 32 <= 512,
    ensures
        intact(*old(device), *final(device)),
        result is Ok ==> sector_replaced(
            old(device).sectors(),
            final(device).sectors(),
            lba as int,
            patched(old(device).sectors()[lba as int], offset as int, raw@),
        ),
{
    let mut sector = [0u8; 512];
    match device.read_sector(lba, &mut sector) {
        Ok(()) => {},
        Err(error) => return Err(Error::Block(error)),
    }
    let ghost read = sector@;
    copy_bytes(&mut sector, offset, raw, 0, 32);
    assert(raw@.subrange(0, 32) =~= raw@);
    assert(sector@ =~= patched(read, offset as int, raw@));
    match device.write_sector(lba, &sector) {
        Ok(()) => Ok(()),
        Err(error) => Err(Error::Block(error)),
    }
}

/// Writes a fresh entry named `short` at `offset` of sector `lba`.
fn write_directory_entry<D: BlockDevice>(device: &mut D, lba: u64, offset: usize, short: &[u8; 11], attributes: u8, first_cluster: u32, size: u32) -> (result: Result<(), Error>)
    requires
        old(device).valid(),
        offset + 32 <= 512,
    ensures
        intact(*old(device), *final(device)),
        result is Ok ==> 0 <= lba < old(device).sectors().len() && final(device).sectors() == old(device).sectors().update(
            lba as int,
            final(device).sectors()[lba as int],
        ) && entry_written(
            final(device).sectors()[lba as int],
            old(device).sectors()[lba as int],
            offset as int,
            short@,
            attributes,
            first_cluster,
            size,
        ),
{
    let mut sector = [0u8; 512];
    match device.read_sector(lba, &mut sector) {
        Ok(()) => {},
        Err(error) => return Err(Error::Block(error)),
    }
    let ghost read = sector@;
    let zeros = [0u8; 32];
    copy_bytes(&mut sector, offset, &zeros, 0, 32);
    let ghost cleared = sector@;
    copy_bytes(&mut sector, offset, short, 0, 11);
    let ghost named = sector@;
    sector[offset + 11] = attributes;
    write_u16(&mut sector, offset + 20, (first_cluster / 0x1_0000) as u16);
    let ghost high = sector@;
    write_u16(&mut sector, offset + 26, (first_cluster % 0x1_0000) as u16);
    let ghost low = sector@;
    write_u32(&mut sector, offset + 28, size);
    proof {
        assert(forall|k: int| 0 <= k < 512 && !(offset <= k < offset + 32) ==> cleared[k] == read[k]);
        assert(forall|k: int| offset <= k < offset + 32 ==> cleared[k] == 0);
        assert(forall|k: int| 0 <= k < 512 && !(offset <= k < offset + 11) ==> named[k] == cleared[k]);
        assert(forall|k: int| 0 <= k < 11 ==> named[offset + k] == short@[k]);
        assert(sector@.subrange(offset as int, offset + 11) =~= short@);
        assert(le16(low, offset + 20) == le16(high, offset + 20));
        assert(le16(sector@, offset + 20) == le16(low, offset + 20));
        assert(le16(sector@, offset + 26) == le16(low, offset + 26));
    }
    match device.write_sector(lba, &sector) {
        Ok(()) => Ok(()),
        Err(error) => Err(Error::Block(error)),
    }
}

/// Whether the eleven bytes at `offset` of `sector` are `name`.
fn name_at(sector: &[u8; 512], offset: usize, name: &[u8; 11]) -> (equal: bool)
    requires
        offset + 11 <= 512,
    ensures
        equal == (sector@.subrange(offset as int, offset + 11) == name@),
{
    let mut found = [0u8; 11];
    copy_bytes(&mut found, 0, sector, offset, 11);
    assert(found@ =~= sector@.subrange(offset as int, offset + 11));
    names_equal(&found, name)
}

/// The name of `.`, space padded.
fn dot_name() -> (name: [u8; 11])
    ensures
        name@ == seq![0x2eu8, 0x20, 0x20, 0x20, 0x20, 0x20, 0x20, 0x20, 0x20, 0x20, 0x20],
{
    let name: [u8; 11] = [0x2e, 0x20, 0x20, 0x20, 0x20, 0x20, 0x20, 0x20, 0x20, 0x20, 0x20];
    assert(name@ =~= seq![0x2eu8, 0x20, 0x20, 0x20, 0x20, 0x20, 0x20, 0x20, 0x20, 0x20, 0x20]);
    name
}

/// The name of `..`, space padded.
fn dot_dot_name() -> (name: [u8; 11])
    ensures
        name@ == seq![0x2eu8, 0x2e, 0x20, 0x20, 0x20, 0x20, 0x20, 0x20, 0x20, 0x20, 0x20],
{
    let name: [u8; 11] = [0x2e, 0x2e, 0x20, 0x20, 0x20, 0x20, 0x20, 0x20, 0x20, 0x20, 0x20];
    assert(name@ =~= seq![0x2eu8, 0x2e, 0x20, 0x20, 0x20, 0x20, 0x20, 0x20, 0x20, 0x20, 0x20]);
    name
}

/// Whether the directory at `dir_cluster` holds nothing but `.` and `..`.
fn directory_is_empty<D: BlockDevice>(device: &mut D, volume: Volume, dir_cluster: u32) -> (result: Result<bool, Error>)
    requires
        old(device).valid(),
        volume_sane(volume),
    ensures
        final(device).valid(),
        final(device).sectors() == old(device).sectors(),
        final(device).read_only() == old(device).read_only(),
{
    let dot = dot_name();
    let dot_dot = dot_dot_name();
    let mut cluster = dir_cluster;
    let mut visited: Vec<u32> = Vec::new();
    let mut sector = [0u8; 512];
    loop
        invariant
            device.valid(),
            device.sectors() == old(device).sectors(),
            device.read_only() == old(device).read_only(),
            volume_sane(volume),
            visited@.len() <= MAX_DIRECTORY_CLUSTERS,
        decreases MAX_DIRECTORY_CLUSTERS - visited@.len(),
    {
        match visit(&mut visited, cluster) {
            Ok(()) => {},
            Err(error) => return Err(error),
        }
        let base = match volume.cluster_lba(cluster) {
            Ok(lba) => lba,
            Err(error) => return Err(error),
        };
        let mut index: u64 = 0;
        while index < volume.sectors_per_cluster as u64
            invariant
                device.valid(),
                device.sectors() == old(device).sectors(),
                device.read_only() == old(device).read_only(),
                volume_sane(volume),
                cluster_in_range(volume, cluster as int),
                base == cluster_sector(volume, cluster as int),
            decreases volume.sectors_per_cluster - index,
        {
            proof {
                lemma_cluster_sector_bound(volume, cluster as int, index as int);
            }
            match device.read_sector(base + index, &mut sector) {
                Ok(()) => {},
                Err(error) => return Err(Error::Block(error)),
            }
            let mut slot: usize = 0;
            while slot < DIRECTORY_ENTRIES_PER_SECTOR
                invariant
                    slot <= 16,
                    device.valid(),
                    device.sectors() == old(device).sectors(),
                    device.read_only() == old(device).read_only(),
                decreases 16 - slot,
            {
                let offset = slot * DIRECTORY_ENTRY_SIZE;
                let first = sector[offset];
                if first == 0 {
                    return Ok(true);
                }
                if first != 0xe5 {
                    let attributes = sector[offset + 11];
                    if attributes != LONG_NAME_ATTRIBUTE && attributes & VOLUME_ID_ATTRIBUTE == 0 {
                        if !name_at(&sector, offset, &dot) && !name_at(&sector, offset, &dot_dot) {
                            return Ok(false);
                        }
                    }
                }
                slot = slot + 1;
            }
            index = index + 1;
        }
        cluster = match next_cluster(device, volume, cluster) {
            Ok(ClusterLink::Next(next)) => next,
            Ok(ClusterLink::End) => return Ok(true),
            Err(error) => return Err(error),
        };
    }
}

/// Points the `..` entry of the directory at `dir_cluster` at `parent_cluster`.
fn update_dotdot<D: BlockDevice>(device: &mut D, volume: Volume, dir_cluster: u32, parent_cluster: u32) -> (result: Result<(), Error>)
    requires
        old(device).valid(),
        volume_sane(volume),
    ensures
        intact(*old(device), *final(device)),
{
    let base = match volume.cluster_lba(dir_cluster) {
        Ok(lba) => lba,
        Err(error) => return Err(error),
    };
    let mut sector = [0u8; 512];
    match device.read_sector(base, &mut sector) {
        Ok(()) => {},
        Err(error) => return Err(Error::Block(error)),
    }
    let dot_dot = dot_dot_name();
    let mut slot: usize = 0;
    while slot < DIRECTORY_ENTRIES_PER_SECTOR
        invariant
            slot <= 16,
            device.valid(),
            device.sectors() == old(device).sectors(),
            device.read_only() == old(device).read_only(),
        decreases 16 - slot,
    {
        let offset = slot * DIRECTORY_ENTRY_SIZE;
        let first = sector[offset];
        if first == 0 {
            break;
        }
        if first != 0xe5 && name_at(&sector, offset, &dot_dot) {
            write_u16(&mut sector, offset + 20, (parent_cluster / 0x1_0000) as u16);
            write_u16(&mut sector, offset + 26, (parent_cluster % 0x1_0000) as u16);
            return match device.write_sector(base, &sector) {
                Ok(()) => Ok(()),
                Err(error) => Err(Error::Block(error)),
            };
        }
        slot = slot + 1;
    }
    Err(Error::CorruptDirectory)
}

// ---- creating, deleting and renaming ----

/// The first index from `i` on that holds no slash.
pub open spec fn trim_start(bytes: Seq<u8>, i: int) -> int
    decreases bytes.len() - i,
{
    if 0 <= i < bytes.len() && bytes[i] == 0x2f {
        trim_start(bytes, i + 1)
    } else {
        i
    }
}

/// The end of `bytes[lo..j]` once trailing slashes are taken off.
pub open spec fn trim_end(bytes: Seq<u8>, lo: int, j: int) -> int
    decreases j - lo,
{
    if lo < j && 0 < j <= bytes.len() && bytes[j - 1] == 0x2f {
        trim_end(bytes, lo, j - 1)
    } else {
        j
    }
}

/// `bytes` without leading and trailing slashes.
pub open spec fn trimmed(bytes: Seq<u8>) -> Seq<u8> {
    let lo = trim_start(bytes, 0);
    bytes.subrange(lo, trim_end(bytes, lo, bytes.len() as int))
}

/// The part of `bytes` left after taking the slashes off both ends: its start and end.
fn trim_slashes(bytes: &[u8]) -> (range: (usize, usize))
    ensures
        range.0 == trim_start(bytes@, 0),
        range.1 == trim_end(bytes@, range.0 as int, bytes@.len() as int),
        range.0 <= range.1 <= bytes@.len(),
        forall|k: int| 0 <= k < range.0 ==> bytes@[k] == 0x2fu8,
        forall|k: int| range.1 <= k < bytes@.len() ==> bytes@[k] == 0x2fu8,
        range.0 < range.1 ==> bytes@[range.0 as int] != 0x2fu8 && bytes@[range.1 - 1] != 0x2fu8,
{
    let mut lo: usize = 0;
    while lo < bytes.len() && bytes[lo] == 0x2f
        invariant
            lo <= bytes@.len(),
            forall|k: int| 0 <= k < lo ==> bytes@[k] == 0x2fu8,
            trim_start(bytes@, 0) == trim_start(bytes@, lo as int),
        decreases bytes@.len() - lo,
    {
        lo = lo + 1;
    }
    let mut hi: usize = bytes.len();
    while hi > lo && bytes[hi - 1] == 0x2f
        invariant
            lo <= hi <= bytes@.len(),
            forall|k: int| hi <= k < bytes@.len() ==> bytes@[k] == 0x2fu8,
            trim_end(bytes@, lo as int, bytes@.len() as int) == trim_end(bytes@, lo as int, hi as int),
        decreases hi,
    {
        hi = hi - 1;
    }
    (lo, hi)
}

/// Whether `child`, taken without leading and trailing slashes, lies below `parent`
/// taken the same way.
fn path_is_descendant(parent: &[u8], child: &[u8]) -> (below: bool)
    ensures
        below ==> parent@.len() < child@.len(),
        below == ({
            let p = trimmed(parent@);
            let c = trimmed(child@);
            &&& p.len() > 0
            &&& c.len() > p.len()
            &&& c.subrange(0, p.len() as int) == p
            &&& c[p.len() as int] == 0x2fu8
            &&& parent@.len() < child@.len()
        }),
{
    let (plo, phi) = trim_slashes(parent);
    let (clo, chi) = trim_slashes(child);
    let parent_len = phi - plo;
    let child_len = chi - clo;
    if parent_len == 0 || child_len <= parent_len {
        return false;
    }
    let parent_total = parent.len();
    let child_total = child.len();
    let mut k: usize = 0;
    while k < parent_len
        invariant
            k <= parent_len,
            parent_total == parent@.len(),
            child_total == child@.len(),
            plo + parent_len <= parent@.len(),
            clo + child_len <= child@.len(),
            parent_len < child_len,
            parent_len == phi - plo,
            child_len == chi - clo,
            plo == trim_start(parent@, 0),
            phi == trim_end(parent@, plo as int, parent@.len() as int),
            clo == trim_start(child@, 0),
            chi == trim_end(child@, clo as int, child@.len() as int),
            forall|m: int| 0 <= m < k ==> #[trigger] parent@[plo + m] == child@[clo + m],
        decreases parent_len - k,
    {
        if parent[plo + k] != child[clo + k] {
            assert(trimmed(child@).subrange(0, parent_len as int)[k as int] != trimmed(parent@)[k as int]);
            return false;
        }
        k = k + 1;
    }
    assert(trimmed(parent@) == parent@.subrange(plo as int, phi as int));
    assert(trimmed(child@) == child@.subrange(clo as int, chi as int));
    assert forall|m: int| 0 <= m < parent_len implies #[trigger] trimmed(child@).subrange(0, parent_len as int)[m]
        == trimmed(parent@)[m] by {
        assert(parent@[plo + m] == child@[clo + m]);
    }
    assert(trimmed(child@).subrange(0, parent_len as int) =~= trimmed(parent@));
    child[clo + parent_len] == 0x2f && parent.len() < child.len()
}

/// Whether `bytes` holds nothing but slashes.
fn all_slashes(bytes: &[u8]) -> (slashes: bool)
    ensures
        slashes == forall|k: int| 0 <= k < bytes@.len() ==> bytes@[k] == 0x2fu8,
{
    let (lo, hi) = trim_slashes(bytes);
    lo == hi
}

/// Creates the directory `name` in the directory at `parent_cluster`, with its `.` and
/// `..` entries; an existing directory of that name is handed back as it is.
fn create_directory_in<D: BlockDevice>(device: &mut D, volume: Volume, parent_cluster: u32, name: &[u8]) -> (result: Result<u32, Error>)
    requires
        old(device).valid(),
        volume_sane(volume),
    ensures
        intact(*old(device), *final(device)),
        short_name_of(name@) is None ==> result == Err::<u32, Error>(Error::NameTooLong) && *final(device) == *old(device),
        result is Ok ==> result->Ok_0 >= 2,
{
    let short = match encode_short_name_bytes(name) {
        Some(short) => short,
        None => return Err(Error::NameTooLong),
    };
    let slot = match find_directory_slot(device, volume, parent_cluster, &short) {
        Ok(slot) => slot,
        Err(error) => return Err(error),
    };
    match slot.existing {
        Some(entry) => {
            if entry.attributes & DIRECTORY_ATTRIBUTE != 0 && entry.first_cluster >= 2 {
                return Ok(entry.first_cluster);
            }
            return Err(Error::WriteFailed);
        },
        None => {},
    }
    let cluster = match allocate_cluster(device, volume) {
        Ok(cluster) => cluster,
        Err(error) => {
            rollback_reserved_slot(device, volume, slot);
            return Err(error);
        },
    };
    match zero_cluster(device, volume, cluster) {
        Ok(()) => {},
        Err(error) => {
            let _ = free_cluster_chain(device, volume, cluster);
            rollback_reserved_slot(device, volume, slot);
            return Err(error);
        },
    }
    let base = match volume.cluster_lba(cluster) {
        Ok(base) => base,
        Err(error) => {
            let _ = free_cluster_chain(device, volume, cluster);
            rollback_reserved_slot(device, volume, slot);
            return Err(error);
        },
    };
    let mut first = [0u8; 512];
    let dot = dot_name();
    let dot_dot = dot_dot_name();
    copy_bytes(&mut first, 0, &dot, 0, 11);
    first[11] = DIRECTORY_ATTRIBUTE;
    write_u16(&mut first, 20, (cluster / 0x1_0000) as u16);
    write_u16(&mut first, 26, (cluster % 0x1_0000) as u16);
    copy_bytes(&mut first, 32, &dot_dot, 0, 11);
    first[43] = DIRECTORY_ATTRIBUTE;
    let dotdot = if parent_cluster == volume.root_cluster { volume.root_cluster } else { parent_cluster };
    write_u16(&mut first, 32 + 20, (dotdot / 0x1_0000) as u16);
    write_u16(&mut first, 32 + 26, (dotdot % 0x1_0000) as u16);
    match device.write_sector(base, &first) {
        Ok(()) => {},
        Err(error) => {
            let _ = free_cluster_chain(device, volume, cluster);
            rollback_reserved_slot(device, volume, slot);
            return Err(Error::Block(error));
        },
    }
    match write_directory_entry(device, slot.lba, slot.offset, &short, DIRECTORY_ATTRIBUTE, cluster, 0) {
        Ok(()) => {},
        Err(error) => {
            let _ = free_cluster_chain(device, volume, cluster);
            rollback_reserved_slot(device, volume, slot);
            return Err(error);
        },
    }
    Ok(cluster)
}

/// Creates or overwrites the file `name` in the directory at `dir_cluster` with `data`.
fn create_file_in_directory_bytes<D: BlockDevice>(device: &mut D, volume: Volume, dir_cluster: u32, name: &[u8], data: &[u8]) -> (result: Result<(), Error>)
    requires
        old(device).valid(),
        volume_sane(volume),
    ensures
        intact(*old(device), *final(device)),
        short_name_of(name@) is None ==> result == Err::<(), Error>(Error::NameTooLong) && *final(device) == *old(device),
        short_name_of(name@) is Some && data@.len() > u32::MAX ==> result == Err::<(), Error>(Error::NoSpace) && *final(device) == *old(device),
{
    let short = match encode_short_name_bytes(name) {
        Some(short) => short,
        None => return Err(Error::NameTooLong),
    };
    if data.len() as u64 > u32::MAX as u64 {
        return Err(Error::NoSpace);
    }
    let slot = match find_directory_slot(device, volume, dir_cluster, &short) {
        Ok(slot) => slot,
        Err(error) => return Err(error),
    };
    let existing_first = match slot.existing {
        Some(entry) => {
            if entry.attributes & DIRECTORY_ATTRIBUTE != 0 {
                return Err(Error::WriteFailed);
            }
            if entry.first_cluster >= 2 {
                match validate_cluster_chain(device, volume, entry.first_cluster) {
                    Ok(()) => {},
                    Err(error) => return Err(error),
                }
            }
            Some(entry.first_cluster)
        },
        None => None,
    };
    let bytes_per_cluster = volume.sectors_per_cluster as u64 * 512;
    let needed_clusters = if data.len() == 0 {
        0
    } else {
        ((data.len() as u64 + bytes_per_cluster - 1) / bytes_per_cluster) as usize
    };
    let first_cluster = match allocate_file_chain(device, volume, needed_clusters) {
        Ok(first) => first,
        Err(error) => {
            rollback_reserved_slot(device, volume, slot);
            return Err(error);
        },
    };
    match write_file_data_chain(device, volume, first_cluster, data) {
        Ok(()) => {},
        Err(error) => {
            if first_cluster >= 2 {
                let _ = free_cluster_chain(device, volume, first_cluster);
            }
            rollback_reserved_slot(device, volume, slot);
            return Err(error);
        },
    }
    match write_directory_entry(device, slot.lba, slot.offset, &short, 0x20, first_cluster, data.len() as u32) {
        Ok(()) => {},
        Err(error) => {
            if first_cluster >= 2 {
                let _ = free_cluster_chain(device, volume, first_cluster);
            }
            rollback_reserved_slot(device, volume, slot);
            return Err(error);
        },
    }
    match existing_first {
        Some(cluster) => {
            if cluster >= 2 {
                match free_cluster_chain(device, volume, cluster) {
                    Ok(()) => {},
                    Err(error) => return Err(error),
                }
            }
        },
        None => {},
    }
    Ok(())
}

/// Creates or overwrites the file `name` (an 8.3 name) in the directory at
/// `dir_cluster` with `data`.
///
/// The data is written to a fresh cluster chain before the directory entry is
/// published; the chain of an overwritten file is freed afterwards. A directory grows by
/// a linked cluster when all its slots are taken; on failure that cluster and the new
/// chain are released again.
pub fn create_file_in_directory<D: BlockDevice>(device: &mut D, volume: Volume, dir_cluster: u32, name: &str, data: &[u8]) -> (result: Result<(), Error>)
    requires
        old(device).valid(),
        volume_sane(volume),
    ensures
        intact(*old(device), *final(device)),
        short_name_of(name.spec_bytes()) is None ==> result == Err::<(), Error>(Error::NameTooLong) && *final(device) == *old(device),
        short_name_of(name.spec_bytes()) is Some && data@.len() > u32::MAX ==> result == Err::<(), Error>(Error::NoSpace),
{
    create_file_in_directory_bytes(device, volume, dir_cluster, name.as_bytes(), data)
}

/// Creates or overwrites the file `name` in the root directory with `data`.
pub fn create_root_file<D: BlockDevice>(device: &mut D, volume: Volume, name: &str, data: &[u8]) -> (result: Result<(), Error>)
    requires
        old(device).valid(),
        volume_sane(volume),
    ensures
        intact(*old(device), *final(device)),
        short_name_of(name.spec_bytes()) is None ==> result == Err::<(), Error>(Error::NameTooLong) && *final(device) == *old(device),
{
    create_file_in_directory(device, volume, volume.root_cluster, name, data)
}

/// The directory holding the last component of `path` and that component's bytes;
/// with `create_missing`, missing directories on the way are created. At most sixteen
/// components; `..` is refused.
fn resolve_parent_cluster<D: BlockDevice>(device: &mut D, volume: Volume, path: &[u8], create_missing: bool) -> (result: Result<(u32, [u8; 13], usize), Error>)
    requires
        old(device).valid(),
        volume_sane(volume),
    ensures
        intact(*old(device), *final(device)),
        !create_missing ==> final(device).sectors() == old(device).sectors(),
        result is Ok ==> {
            let (_, leaf, length) = result->Ok_0;
            length <= 12 && short_name_of(leaf@.subrange(0, length as int)) is Some
        },
        has_dot_dot(path@, 0) || named_components(path@, 0).len() > 16 || named_components(path@, 0).len() == 0
            ==> result == Err::<(u32, [u8; 13], usize), Error>(Error::NameTooLong) && *final(device) == *old(device),
{
    let parts = match path_components(path, 16) {
        Some(parts) => parts,
        None => return Err(Error::NameTooLong),
    };
    if parts.len() == 0 {
        return Err(Error::NameTooLong);
    }
    let (leaf_start, leaf_end) = parts[parts.len() - 1];
    let leaf = subslice(path, leaf_start, leaf_end);
    if encode_short_name_bytes(leaf).is_none() {
        return Err(Error::NameTooLong);
    }
    let mut leaf_buf = [0u8; 13];
    copy_bytes(&mut leaf_buf, 0, leaf, 0, leaf.len());
    assert(leaf_buf@.subrange(0, leaf@.len() as int) =~= leaf@);
    let mut cluster = volume.root_cluster;
    let mut i: usize = 0;
    let last = parts.len() - 1;
    while i < last
        invariant
            last == parts@.len() - 1,
            intact(*old(device), *device),
            !create_missing ==> device.sectors() == old(device).sectors(),
            volume_sane(volume),
            !has_dot_dot(path@, 0) && 0 < named_components(path@, 0).len() <= 16,
            i < parts@.len(),
            forall|j: int| 0 <= j < parts@.len() ==> {
                let (start, end) = #[trigger] parts@[j];
                start < end <= path@.len()
            },
        decreases parts@.len() - i,
    {
        let (start, end) = parts[i];
        let component = subslice(path, start, end);
        let short = match encode_short_name_bytes(component) {
            Some(short) => short,
            None => return Err(Error::NameTooLong),
        };
        cluster = match find_in_directory(device, volume, cluster, &short) {
            Ok(entry) => {
                if entry.attributes & DIRECTORY_ATTRIBUTE == 0 || entry.first_cluster < 2 {
                    return Err(Error::NotFound);
                }
                entry.first_cluster
            },
            Err(Error::NotFound) => {
                if create_missing {
                    match create_directory_in(device, volume, cluster, component) {
                        Ok(created) => created,
                        Err(error) => return Err(error),
                    }
                } else {
                    return Err(Error::NotFound);
                }
            },
            Err(error) => return Err(error),
        };
        i = i + 1;
    }
    Ok((cluster, leaf_buf, leaf.len()))
}

/// Every component of `t` from `at` on names a directory, walking down from the
/// directory at `cluster`: none is `..`, each is a valid 8.3 name, and each lookup
/// finds a directory entry with a data cluster. Empty and `.` components are skipped.
pub open spec fn dirs_exist(disk: Seq<Seq<u8>>, volume: Volume, t: Seq<u8>, at: int, cluster: u32) -> bool
    decreases t.len() - at,
{
    if at < 0 || at > t.len() {
        true
    } else {
        let end = component_end_at(t, at);
        proof {
            lemma_component_end_bounds(t, at);
        }
        let next: Option<u32> = if end == at || dot_range(t, at, end) {
            Some(cluster)
        } else if dot_dot_range(t, at, end) {
            None
        } else {
            match short_name_of(t.subrange(at, end)) {
                None => None,
                Some(short) => match lookup_in(disk, volume, short, cluster) {
                    Some(Ok((lba, offset))) => {
                        let first = le16(disk[lba], offset + 20) * 0x1_0000 + le16(disk[lba], offset + 26);
                        if disk[lba][offset + 11] & DIRECTORY_ATTRIBUTE != 0 && first >= 2 {
                            Some(first as u32)
                        } else {
                            None
                        }
                    },
                    _ => None,
                },
            }
        };
        match next {
            None => false,
            Some(c) => end >= t.len() || dirs_exist(disk, volume, t, end + 1, c),
        }
    }
}

/// Creates every missing directory of `path` from the root down.
pub fn mkdir_path<D: BlockDevice>(device: &mut D, volume: Volume, path: &str) -> (result: Result<(), Error>)
    requires
        old(device).valid(),
        volume_sane(volume),
    ensures
        intact(*old(device), *final(device)),
        trimmed(path.spec_bytes()).len() == 0 ==> result is Ok && *final(device) == *old(device),
        old(device).reliable() && dirs_exist(
            old(device).sectors(),
            volume,
            trimmed(path.spec_bytes()),
            0,
            volume.root_cluster,
        ) ==> result is Ok && final(device).sectors() == old(device).sectors(),
{
    mkdir_path_bytes(device, volume, path.as_bytes())
}

/// As `mkdir_path`, with the path given as bytes.
pub fn mkdir_path_bytes<D: BlockDevice>(device: &mut D, volume: Volume, path: &[u8]) -> (result: Result<(), Error>)
    requires
        old(device).valid(),
        volume_sane(volume),
    ensures
        intact(*old(device), *final(device)),
        trimmed(path@).len() == 0 ==> result is Ok && *final(device) == *old(device),
        old(device).reliable() && dirs_exist(old(device).sectors(), volume, trimmed(path@), 0, volume.root_cluster)
            ==> result is Ok && final(device).sectors() == old(device).sectors(),
{
    let ghost disk = old(device).sectors();
    let ghost good = old(device).reliable() && dirs_exist(disk, volume, self::trimmed(path@), 0, volume.root_cluster);
    let bytes = path;
    let (lo, hi) = trim_slashes(bytes);
    if lo == hi {
        return Ok(());
    }
    assert(self::trimmed(path@) == path@.subrange(lo as int, hi as int));
    let trimmed = subslice(bytes, lo, hi);
    let mut cluster = volume.root_cluster;
    let mut at: usize = 0;
    loop
        invariant_except_break
            good ==> dirs_exist(disk, volume, trimmed@, at as int, cluster),
        invariant
            intact(*old(device), *device),
            volume_sane(volume),
            at <= trimmed@.len(),
            lo < hi <= path@.len(),
            self::trimmed(path@).len() > 0,
            lo == trim_start(path@, 0),
            hi == trim_end(path@, lo as int, path@.len() as int),
            trimmed@ == self::trimmed(path@),
            disk == old(device).sectors(),
            good == (old(device).reliable() && dirs_exist(disk, volume, self::trimmed(path@), 0, volume.root_cluster)),
            good ==> device.sectors() == disk && device.reliable(),
        decreases trimmed@.len() - at,
    {
        let (start, end) = next_component(trimmed, at);
        proof {
            lemma_component_end_at(trimmed@, at as int, end as int);
        }
        if !(start == end || is_dot(trimmed, start, end)) {
            proof {
                assert(start == at && component_end_at(trimmed@, at as int) == end);
                assert(!(end == at || dot_range(trimmed@, at as int, end as int)));
            }
            if is_dot_dot(trimmed, start, end) {
                assert(!dirs_exist(disk, volume, trimmed@, at as int, cluster));
                return Err(Error::NameTooLong);
            }
            let component = subslice(trimmed, start, end);
            let short = match encode_short_name_bytes(component) {
                Some(short) => short,
                None => {
                    assert(!dirs_exist(disk, volume, trimmed@, at as int, cluster));
                    return Err(Error::NameTooLong);
                },
            };
            cluster = match find_in_directory(device, volume, cluster, &short) {
                Ok(entry) => {
                    if entry.attributes & DIRECTORY_ATTRIBUTE != 0 && entry.first_cluster >= 2 {
                        entry.first_cluster
                    } else {
                        return Err(Error::WriteFailed);
                    }
                },
                Err(Error::NotFound) => match create_directory_in(device, volume, cluster, component) {
                    Ok(created) => created,
                    Err(error) => return Err(error),
                },
                Err(error) => return Err(error),
            };
        }
        if end == trimmed.len() {
            break;
        }
        at = end + 1;
    }
    Ok(())
}

/// Creates or overwrites the file at `path` with `data`, creating missing parent
/// directories.
pub fn create_path_file<D: BlockDevice>(device: &mut D, volume: Volume, path: &str, data: &[u8]) -> (result: Result<(), Error>)
    requires
        old(device).valid(),
        volume_sane(volume),
    ensures
        intact(*old(device), *final(device)),
{
    create_path_file_bytes(device, volume, path.as_bytes(), data)
}

/// As `create_path_file`, with the path given as bytes.
pub fn create_path_file_bytes<D: BlockDevice>(device: &mut D, volume: Volume, path: &[u8], data: &[u8]) -> (result: Result<(), Error>)
    requires
        old(device).valid(),
        volume_sane(volume),
    ensures
        intact(*old(device), *final(device)),
        has_dot_dot(path@, 0) || named_components(path@, 0).len() > 16 || named_components(path@, 0).len() == 0
            ==> result == Err::<(), Error>(Error::NameTooLong) && *final(device) == *old(device),
{
    let (parent, leaf, leaf_len) = match resolve_parent_cluster(device, volume, path, true) {
        Ok(resolved) => resolved,
        Err(error) => return Err(error),
    };
    let (name, _) = leaf.split_at(leaf_len);
    create_file_in_directory_bytes(device, volume, parent, name, data)
}

/// Deletes the file or empty directory at `path`; read-only entries are refused.
pub fn delete_path<D: BlockDevice>(device: &mut D, volume: Volume, path: &str) -> (result: Result<(), Error>)
    requires
        old(device).valid(),
        volume_sane(volume),
    ensures
        intact(*old(device), *final(device)),
        (forall|k: int| 0 <= k < path.spec_bytes().len() ==> path.spec_bytes()[k] == 0x2fu8) ==> result
            == Err::<(), Error>(Error::InvalidPath) && *final(device) == *old(device),
{
    delete_path_bytes(device, volume, path.as_bytes())
}

/// As `delete_path`, with the path given as bytes.
pub fn delete_path_bytes<D: BlockDevice>(device: &mut D, volume: Volume, path: &[u8]) -> (result: Result<(), Error>)
    requires
        old(device).valid(),
        volume_sane(volume),
    ensures
        intact(*old(device), *final(device)),
        (forall|k: int| 0 <= k < path@.len() ==> path@[k] == 0x2fu8) ==> result
            == Err::<(), Error>(Error::InvalidPath) && *final(device) == *old(device),
{
    let bytes = path;
    if all_slashes(bytes) {
        return Err(Error::InvalidPath);
    }
    let (parent, leaf, leaf_len) = match resolve_parent_cluster(device, volume, bytes, false) {
        Ok(resolved) => resolved,
        Err(error) => return Err(error),
    };
    let (name, _) = leaf.split_at(leaf_len);
    let short = match encode_short_name_bytes(name) {
        Some(short) => short,
        None => return Err(Error::NameTooLong),
    };
    let slot = match find_existing_directory_slot(device, volume, parent, &short) {
        Ok(slot) => slot,
        Err(error) => return Err(error),
    };
    if slot.entry.attributes & READ_ONLY_ATTRIBUTE != 0 {
        return Err(Error::ReadOnly);
    }
    if slot.entry.attributes & DIRECTORY_ATTRIBUTE != 0 {
        match directory_is_empty(device, volume, slot.entry.first_cluster) {
            Ok(true) => {},
            Ok(false) => return Err(Error::DirectoryNotEmpty),
            Err(error) => return Err(error),
        }
        match validate_cluster_chain(device, volume, slot.entry.first_cluster) {
            Ok(()) => {},
            Err(error) => return Err(error),
        }
    } else if slot.entry.first_cluster >= 2 {
        match validate_cluster_chain(device, volume, slot.entry.first_cluster) {
            Ok(()) => {},
            Err(error) => return Err(error),
        }
    }
    match mark_directory_entry_deleted(device, slot.lba, slot.offset) {
        Ok(()) => {},
        Err(error) => return Err(error),
    }
    if slot.entry.first_cluster >= 2 {
        match free_cluster_chain(device, volume, slot.entry.first_cluster) {
            Ok(()) => {},
            Err(error) => return Err(error),
        }
    }
    Ok(())
}

/// Renames the entry at `source` to `target`, moving it between directories when their
/// parents differ; a directory cannot move below itself, a read-only entry is refused,
/// and an existing target is refused.
pub fn rename_path<D: BlockDevice>(device: &mut D, volume: Volume, source: &str, target: &str) -> (result: Result<(), Error>)
    requires
        old(device).valid(),
        volume_sane(volume),
    ensures
        intact(*old(device), *final(device)),
        ((forall|k: int| 0 <= k < source.spec_bytes().len() ==> source.spec_bytes()[k] == 0x2fu8) || (forall|k: int|
            0 <= k < target.spec_bytes().len() ==> target.spec_bytes()[k] == 0x2fu8)) ==> result == Err::<(), Error>(
            Error::InvalidPath,
        ) && *final(device) == *old(device),
{
    rename_path_bytes(device, volume, source.as_bytes(), target.as_bytes())
}

/// As `rename_path`, with the path given as bytes.
pub fn rename_path_bytes<D: BlockDevice>(device: &mut D, volume: Volume, source: &[u8], target: &[u8]) -> (result: Result<(), Error>)
    requires
        old(device).valid(),
        volume_sane(volume),
    ensures
        intact(*old(device), *final(device)),
        ((forall|k: int| 0 <= k < source@.len() ==> source@[k] == 0x2fu8) || (forall|k: int|
            0 <= k < target@.len() ==> target@[k] == 0x2fu8)) ==> result == Err::<(), Error>(
            Error::InvalidPath,
        ) && *final(device) == *old(device),
{
    let old_bytes = source;
    let new_bytes = target;
    if all_slashes(old_bytes) || all_slashes(new_bytes) {
        return Err(Error::InvalidPath);
    }
    let (old_lo, old_hi) = trim_slashes(old_bytes);
    let (new_lo, new_hi) = trim_slashes(new_bytes);
    let old_path = subslice(old_bytes, old_lo, old_hi);
    let new_path = subslice(new_bytes, new_lo, new_hi);
    let (old_parent, old_leaf, old_leaf_len) = match resolve_parent_cluster(device, volume, old_path, false) {
        Ok(resolved) => resolved,
        Err(error) => return Err(error),
    };
    let (old_name, _) = old_leaf.split_at(old_leaf_len);
    let old_short = match encode_short_name_bytes(old_name) {
        Some(short) => short,
        None => return Err(Error::NameTooLong),
    };
    let old_slot = match find_existing_directory_slot(device, volume, old_parent, &old_short) {
        Ok(slot) => slot,
        Err(error) => return Err(error),
    };
    if old_slot.entry.attributes & READ_ONLY_ATTRIBUTE != 0 {
        return Err(Error::ReadOnly);
    }
    let is_directory = old_slot.entry.attributes & DIRECTORY_ATTRIBUTE != 0;
    if is_directory && path_is_descendant(old_path, new_path) {
        return Err(Error::InvalidPath);
    }
    if is_directory && old_slot.entry.first_cluster < 2 {
        return Err(Error::CorruptDirectory);
    }
    let (new_parent, new_leaf, new_leaf_len) = match resolve_parent_cluster(device, volume, new_path, false) {
        Ok(resolved) => resolved,
        Err(error) => return Err(error),
    };
    let (new_name, _) = new_leaf.split_at(new_leaf_len);
    let new_short = match encode_short_name_bytes(new_name) {
        Some(short) => short,
        None => return Err(Error::NameTooLong),
    };
    if old_parent == new_parent && names_equal(&old_short, &new_short) {
        return Ok(());
    }
    match find_existing_directory_slot(device, volume, new_parent, &new_short) {
        Ok(_) => return Err(Error::AlreadyExists),
        Err(Error::NotFound) => {},
        Err(error) => return Err(error),
    }
    if old_parent == new_parent {
        return write_short_name(device, old_slot.lba, old_slot.offset, &new_short);
    }
    let new_slot = match find_directory_slot(device, volume, new_parent, &new_short) {
        Ok(slot) => slot,
        Err(error) => return Err(error),
    };
    if new_slot.existing.is_some() {
        return Err(Error::AlreadyExists);
    }
    let mut raw = old_slot.raw;
    copy_bytes(&mut raw, 0, &new_short, 0, 11);
    match write_raw_directory_slot(device, new_slot.lba, new_slot.offset, &raw) {
        Ok(()) => {},
        Err(error) => {
            rollback_reserved_slot(device, volume, new_slot);
            return Err(error);
        },
    }
    if is_directory {
        match update_dotdot(device, volume, old_slot.entry.first_cluster, new_parent) {
            Ok(()) => {},
            Err(error) => {
                let _ = mark_directory_entry_deleted(device, new_slot.lba, new_slot.offset);
                rollback_reserved_slot(device, volume, new_slot);
                return Err(error);
            },
        }
    }
    match mark_directory_entry_deleted(device, old_slot.lba, old_slot.offset) {
        Ok(()) => {},
        Err(error) => {
            let _ = mark_directory_entry_deleted(device, new_slot.lba, new_slot.offset);
            if is_directory {
                let _ = update_dotdot(device, volume, old_slot.entry.first_cluster, old_parent);
            }
            rollback_reserved_slot(device, volume, new_slot);
            return Err(error);
        },
    }
    Ok(())
}


// ---- self-test volumes ----

const TEST_TOTAL_SECTORS: u64 = 70_000;
const TEST_FAT_LBA: u64 = 32;
const TEST_ROOT_LBA: u64 = 1_232;
const TEST_FILE_LBA: u64 = 1_233;

fn kernel_bin_name() -> (name: [u8; 11]) {
    [0x4b, 0x45, 0x52, 0x4e, 0x45, 0x4c, 0x20, 0x20, 0x42, 0x49, 0x4e]
}

fn missing_txt_name() -> (name: [u8; 11]) {
    [0x4d, 0x49, 0x53, 0x53, 0x49, 0x4e, 0x47, 0x20, 0x54, 0x58, 0x54]
}

/// The boot sector of the self-test volumes: 512-byte sectors, one sector per
/// cluster, 32 reserved sectors, two FATs of 600 sectors, root at cluster 2.
fn test_boot_sector(valid_signature: bool) -> (sector: [u8; 512])
    ensures
        le16(sector@, 11) == 512,
        sector@[13] == 1,
        le16(sector@, 14) == 32,
        sector@[16] == 2,
        le32(sector@, 32) == 70_000,
        le32(sector@, 36) == 600,
        le32(sector@, 44) == 2,
        (sector@[510] == 0x55 && sector@[511] == 0xaa) == valid_signature,
{
    let mut sector = [0u8; 512];
    write_u16(&mut sector, 11, 512);
    sector[13] = 1;
    write_u16(&mut sector, 14, 32);
    sector[16] = 2;
    write_u32(&mut sector, 32, 70_000);
    write_u32(&mut sector, 36, 600);
    write_u32(&mut sector, 44, 2);
    if valid_signature {
        sector[510] = 0x55;
        sector[511] = 0xaa;
    }
    sector
}

/// A read-only volume holding `KERNEL.BIN` (600 bytes in clusters 3 and 4) in the
/// fourth sector of a root directory spread over clusters 2 and 5. With
/// `cyclic_chain` the file's chain loops back on itself and its size claims 1024.
pub fn test_disk(valid_signature: bool, cyclic_chain: bool) -> (disk: SparseDisk)
    ensures
        disk.valid(),
        disk.reliable(),
{
    let mut disk = SparseDisk::new(TEST_TOTAL_SECTORS, false, false);
    disk.store(0, test_boot_sector(valid_signature));
    let mut fat = [0u8; 512];
    write_u32(&mut fat, 8, 5);
    if cyclic_chain {
        write_u32(&mut fat, 12, 3);
    } else {
        write_u32(&mut fat, 12, 4);
        write_u32(&mut fat, 16, FAT32_END_MIN);
    }
    write_u32(&mut fat, 20, FAT32_END_MIN);
    disk.store(TEST_FAT_LBA, fat);
    let mut root = [0u8; 512];
    let mut index: usize = 0;
    while index < DIRECTORY_ENTRIES_PER_SECTOR
        decreases DIRECTORY_ENTRIES_PER_SECTOR - index,
    {
        root[index * DIRECTORY_ENTRY_SIZE] = 0xe5;
        index = index + 1;
    }
    disk.store(TEST_ROOT_LBA, root);
    let mut entry = [0u8; 512];
    let name = kernel_bin_name();
    copy_bytes(&mut entry, 0, &name, 0, 11);
    entry[11] = 0x20;
    write_u16(&mut entry, 26, 3);
    write_u32(&mut entry, 28, if cyclic_chain { 1024 } else { 600 });
    disk.store(TEST_ROOT_LBA + 3, entry);
    disk.store(TEST_FILE_LBA, [0x41u8; 512]);
    disk.store(TEST_FILE_LBA + 1, [0x42u8; 512]);
    disk
}

/// The self-test volume with a root directory whose chain points back to itself.
pub fn root_cycle_disk() -> (disk: SparseDisk)
    ensures
        disk.valid(),
        disk.reliable(),
{
    let mut disk = test_disk(true, false);
    let mut fat = [0u8; 512];
    write_u32(&mut fat, 8, 2);
    write_u32(&mut fat, 12, 4);
    write_u32(&mut fat, 16, FAT32_END_MIN);
    write_u32(&mut fat, 20, FAT32_END_MIN);
    disk.store(TEST_FAT_LBA, fat);
    disk
}

/// A volume whose file data spans 258 clusters chained from cluster 3; each data
/// byte is its position in the data area modulo 251. Sectors outside the boot
/// sector, the first FAT and the data cannot be read.
pub fn streaming_read_disk() -> (disk: SparseDisk)
    ensures
        disk.valid(),
{
    let mut disk = SparseDisk::new(TEST_TOTAL_SECTORS, false, true);
    disk.store(0, test_boot_sector(true));
    let mut lba: u64 = TEST_FAT_LBA;
    while lba < TEST_FAT_LBA + 600
        invariant
            disk.valid(),
            TEST_FAT_LBA <= lba <= TEST_FAT_LBA + 600,
        decreases TEST_FAT_LBA + 600 - lba,
    {
        let mut sector = [0u8; 512];
        let mut index: u64 = 0;
        while index < 128
            invariant
                TEST_FAT_LBA <= lba < TEST_FAT_LBA + 600,
                index <= 128,
            decreases 128 - index,
        {
            let cluster = ((lba - TEST_FAT_LBA) * 128 + index) as u32;
            let next = if 3 <= cluster && cluster < 260 {
                cluster + 1
            } else {
                FAT32_END_MIN
            };
            write_u32(&mut sector, (index * 4) as usize, next);
            index = index + 1;
        }
        disk.store(lba, sector);
        lba = lba + 1;
    }
    let mut lba: u64 = TEST_FILE_LBA;
    while lba < TEST_FILE_LBA + 258
        invariant
            disk.valid(),
            TEST_FILE_LBA <= lba <= TEST_FILE_LBA + 258,
        decreases TEST_FILE_LBA + 258 - lba,
    {
        let mut sector = [0u8; 512];
        let mut index: usize = 0;
        while index < 512
            invariant
                TEST_FILE_LBA <= lba < TEST_FILE_LBA + 258,
                index <= 512,
            decreases 512 - index,
        {
            let position = (lba - TEST_FILE_LBA) as usize * 512 + index;
            sector[index] = (position % 251) as u8;
            index = index + 1;
        }
        disk.store(lba, sector);
        lba = lba + 1;
    }
    disk
}

/// A writable, empty volume with FSInfo at sector 1 (backup at 7) counting every
/// cluster after the root as free. Only the boot and FSInfo sectors, both FAT's
/// first sectors, the root and the first 128 data sectors can be written.
pub fn mutable_fat_disk() -> (disk: SparseDisk)
    ensures
        disk.valid(),
        !disk.read_only(),
{
    let mut disk = SparseDisk::new(TEST_TOTAL_SECTORS, true, false);
    let mut boot = test_boot_sector(true);
    write_u16(&mut boot, 48, 1);
    write_u16(&mut boot, 50, 6);
    disk.store(0, boot);
    let mut fs_info = [0u8; 512];
    write_u32(&mut fs_info, 0, FSINFO_LEAD_SIGNATURE);
    write_u32(&mut fs_info, 484, FSINFO_STRUCT_SIGNATURE);
    write_u32(&mut fs_info, FSINFO_FREE_COUNT_OFFSET, 70_000 - 1_232 - 1);
    write_u32(&mut fs_info, FSINFO_NEXT_FREE_OFFSET, 3);
    write_u32(&mut fs_info, 508, FSINFO_TRAIL_SIGNATURE);
    disk.store(1, fs_info);
    disk.store(7, fs_info);
    let mut fat = [0u8; 512];
    write_u32(&mut fat, 8, FAT32_END_MIN);
    disk.store(TEST_FAT_LBA, fat);
    disk.store(TEST_FAT_LBA + 600, fat);
    disk.store(TEST_ROOT_LBA, [0u8; 512]);
    let mut lba: u64 = TEST_FILE_LBA;
    while lba < TEST_FILE_LBA + 128
        invariant
            disk.valid(),
            !disk.read_only(),
            TEST_FILE_LBA <= lba <= TEST_FILE_LBA + 128,
        decreases TEST_FILE_LBA + 128 - lba,
    {
        disk.store(lba, [0u8; 512]);
        lba = lba + 1;
    }
    disk
}

fn failed_with<T>(result: &Result<T, Error>, expected: Error) -> (matched: bool) {
    match result {
        Ok(_) => false,
        Err(error) => *error == expected,
    }
}

fn link_is(result: Result<ClusterLink, Error>, expected: ClusterLink) -> (matched: bool) {
    match result {
        Ok(link) => link == expected,
        Err(_) => false,
    }
}

fn links_onward(result: Result<ClusterLink, Error>) -> (matched: bool) {
    match result {
        Ok(ClusterLink::Next(_)) => true,
        _ => false,
    }
}

fn value_is(result: Result<u32, Error>, expected: u32) -> (matched: bool) {
    match result {
        Ok(value) => value == expected,
        Err(_) => false,
    }
}

fn count_is(result: Result<usize, Error>, expected: usize) -> (matched: bool) {
    match result {
        Ok(count) => count == expected,
        Err(_) => false,
    }
}

fn all_bytes(bytes: &[u8], start: usize, end: usize, value: u8) -> (same: bool)
    ensures
        same == (start <= end <= bytes@.len() && forall|k: int| start <= k < end ==> #[trigger] bytes@[k] == value),
{
    let n = bytes.len();
    if end > n || start > end {
        return false;
    }
    let mut i = start;
    while i < end
        invariant
            n == bytes@.len(),
            end <= n,
            start <= i <= end,
            forall|k: int| start <= k < i ==> #[trigger] bytes@[k] == value,
        decreases end - i,
    {
        if bytes[i] != value {
            return false;
        }
        i = i + 1;
    }
    true
}

fn read_path_bytes<D: BlockDevice>(device: &mut D, volume: Volume, path: &[u8], out: &mut [u8]) -> (result: Result<usize, Error>)
    requires
        old(device).valid(),
        volume_sane(volume),
    ensures
        final(device).valid(),
        final(device).sectors() == old(device).sectors(),
        final(device).read_only() == old(device).read_only(),
{
    let entry = resolve_path_bytes(device, volume, path)?;
    read_file(device, volume, entry, out)
}

fn free_count_of<D: BlockDevice>(device: &mut D, volume: Volume) -> (count: Option<u32>)
    requires
        old(device).valid(),
    ensures
        final(device).valid(),
        final(device).sectors() == old(device).sectors(),
        final(device).read_only() == old(device).read_only(),
{
    match read_fs_info(device, volume) {
        Ok(Some(info)) => Some(info.free_count),
        _ => None,
    }
}

/// `<prefix>NN.txt` for `index` below 100.
pub open spec fn spec_numbered_leaf(prefix: u8, index: int) -> Seq<u8> {
    seq![prefix, (0x30 + index / 10) as u8, (0x30 + index % 10) as u8, 0x2eu8, 0x74u8, 0x78u8, 0x74u8]
}

fn numbered_leaf(prefix: u8, index: usize) -> (leaf: Vec<u8>)
    requires
        index < 100,
    ensures
        leaf@ == spec_numbered_leaf(prefix, index as int),
{
    let mut leaf: Vec<u8> = Vec::new();
    leaf.push(prefix);
    leaf.push(0x30 + (index / 10) as u8);
    leaf.push(0x30 + (index % 10) as u8);
    leaf.push(0x2e);
    leaf.push(0x74);
    leaf.push(0x78);
    leaf.push(0x74);
    leaf
}

/// `<dir>/<prefix>NN.txt` for `index` below 100.
fn numbered_child_path(dir: &[u8], prefix: u8, index: usize) -> (path: Vec<u8>)
    requires
        index < 100,
    ensures
        path@ == dir@.push(0x2fu8) + spec_numbered_leaf(prefix, index as int),
{
    let leaf = numbered_leaf(prefix, index);
    let mut path: Vec<u8> = Vec::new();
    let n = dir.len();
    let mut i: usize = 0;
    while i < n
        invariant
            n == dir@.len(),
            i <= n,
            path@ == dir@.subrange(0, i as int),
        decreases n - i,
    {
        path.push(dir[i]);
        i = i + 1;
    }
    assert(dir@.subrange(0, n as int) =~= dir@);
    path.push(0x2f);
    let m = leaf.len();
    let mut j: usize = 0;
    while j < m
        invariant
            m == leaf@.len(),
            j <= m,
            path@ == dir@.push(0x2fu8) + leaf@.subrange(0, j as int),
        decreases m - j,
    {
        assert(leaf@.subrange(0, j + 1) =~= leaf@.subrange(0, j as int).push(leaf@[j as int]));
        path.push(leaf[j]);
        j = j + 1;
    }
    assert(leaf@.subrange(0, m as int) =~= leaf@);
    path
}

/// Mounting, lookup, listing, chain walking and reads on the read-only test
/// volume, with broken signatures and cyclic chains refused; then every other
/// check of this module.
pub fn self_test() -> (passed: bool) {
    let mut disk = test_disk(true, false);
    let volume = match mount(&mut disk) {
        Ok(volume) => volume,
        Err(_) => return false,
    };
    let kernel = kernel_bin_name();
    let missing = missing_txt_name();
    let entry = match find_root(&mut disk, volume, &kernel) {
        Ok(entry) => entry,
        Err(_) => return false,
    };
    let mut entries: [Option<DirectoryEntry>; 2] = [None, None];
    let listed = count_is(list_root(&mut disk, volume, &mut entries), 1) && match entries[0] {
        Some(listed) => names_equal(&listed.short_name, &entry.short_name),
        None => false,
    };
    let mut no_room: [Option<DirectoryEntry>; 0] = [];
    let listing_capacity_enforced = failed_with(
        &list_root(&mut disk, volume, &mut no_room),
        Error::DirectoryFull,
    );
    let root_lba_ok = match volume.cluster_lba(volume.root_cluster) {
        Ok(lba) => lba == TEST_ROOT_LBA,
        Err(_) => false,
    };
    let mut payload = [0u8; 600];
    let valid = listed && listing_capacity_enforced && volume.total_sectors == 70_000
        && volume.fat_count == 2 && volume.fat_size == 600 && root_lba_ok
        && link_is(next_cluster(&mut disk, volume, volume.root_cluster), ClusterLink::Next(5))
        && names_equal(&entry.short_name, &kernel) && entry.first_cluster == 3 && entry.size
        == 600 && entry.attributes == 0x20
        && link_is(next_cluster(&mut disk, volume, 3), ClusterLink::Next(4))
        && link_is(next_cluster(&mut disk, volume, 4), ClusterLink::End)
        && count_is(read_file(&mut disk, volume, entry, &mut payload), 600)
        && all_bytes(&payload, 0, 512, 0x41) && all_bytes(&payload, 512, 600, 0x42)
        && failed_with(&find_root(&mut disk, volume, &missing), Error::NotFound);

    let mut invalid = test_disk(false, false);
    let invalid_rejected = failed_with(&mount(&mut invalid), Error::InvalidBootSector);

    let mut cyclic = test_disk(true, true);
    let cyclic_volume = match mount(&mut cyclic) {
        Ok(volume) => volume,
        Err(_) => return false,
    };
    let cyclic_entry = match find_root(&mut cyclic, cyclic_volume, &kernel) {
        Ok(entry) => entry,
        Err(_) => return false,
    };
    let mut oversized = [0u8; 1024];
    let cycle_rejected = failed_with(
        &read_file(&mut cyclic, cyclic_volume, cyclic_entry, &mut oversized),
        Error::ChainLoop,
    );

    let mut root_cycle = root_cycle_disk();
    let root_cycle_rejected = match mount(&mut root_cycle) {
        Ok(volume) => failed_with(&find_root(&mut root_cycle, volume, &missing), Error::ChainLoop),
        Err(_) => false,
    };

    valid && invalid_rejected && cycle_rejected && root_cycle_rejected && range_self_test()
        && streaming_read_self_test() && mutation_self_test() && directory_growth_self_test()
        && overwrite_rollback_self_test() && directory_extension_rollback_self_test()
}

/// Reads at unaligned offsets cross sector boundaries, stop at the end of the file,
/// and read nothing at or beyond it.
pub fn range_self_test() -> (passed: bool) {
    let mut disk = test_disk(true, false);
    let volume = match mount(&mut disk) {
        Ok(volume) => volume,
        Err(_) => return false,
    };
    let kernel = kernel_bin_name();
    let entry = match find_root(&mut disk, volume, &kernel) {
        Ok(entry) => entry,
        Err(_) => return false,
    };
    let mut data = [0u8; 32];
    if !count_is(read_file_at(&mut disk, volume, entry, 500, &mut data), 32) || !all_bytes(
        &data,
        0,
        12,
        0x41,
    ) || !all_bytes(&data, 12, 32, 0x42) {
        return false;
    }
    crate::block::fill_bytes(&mut data, 0);
    count_is(read_file_at(&mut disk, volume, entry, 590, &mut data), 10) && all_bytes(
        &data,
        0,
        10,
        0x42,
    ) && all_bytes(&data, 10, 32, 0) && count_is(
        read_file_at(&mut disk, volume, entry, 600, &mut data),
        0,
    ) && count_is(read_file_at(&mut disk, volume, entry, usize::MAX, &mut data), 0)
}

/// A read deep inside a long chain returns the bytes at that position.
pub fn streaming_read_self_test() -> (passed: bool) {
    let mut disk = streaming_read_disk();
    let volume = match mount(&mut disk) {
        Ok(volume) => volume,
        Err(_) => return false,
    };
    let entry = DirectoryEntry {
        short_name: [0x53, 0x54, 0x52, 0x45, 0x41, 0x4d, 0x20, 0x20, 0x42, 0x49, 0x4e],
        first_cluster: 3,
        size: 260 * 512,
        attributes: 0x20,
    };
    let offset: usize = 140 * 512 + 11;
    let mut data = [0u8; 73];
    if !count_is(read_file_at(&mut disk, volume, entry, offset, &mut data), 73) {
        return false;
    }
    let mut index: usize = 0;
    while index < 73
        invariant
            index <= 73,
            data@.len() == 73,
            offset == 140 * 512 + 11,
        decreases 73 - index,
    {
        if data[index] != ((offset + index) % 251) as u8 {
            return false;
        }
        index = index + 1;
    }
    true
}

/// Files and directories are created, renamed within and across directories,
/// refused on collisions, and deleted with their clusters freed.
pub fn mutation_self_test() -> (passed: bool) {
    let mut disk = mutable_fat_disk();
    let volume = match mount(&mut disk) {
        Ok(volume) => volume,
        Err(_) => return false,
    };
    if create_path_file_bytes(&mut disk, volume, "a.txt".as_bytes(), "one".as_bytes()).is_err()
        || create_path_file_bytes(&mut disk, volume, "docs/a.txt".as_bytes(), "two".as_bytes()).is_err()
        || mkdir_path_bytes(&mut disk, volume, "other".as_bytes()).is_err() {
        return false;
    }
    let mut bytes = [0u8; 8];
    let file_rename = rename_path_bytes(&mut disk, volume, "a.txt".as_bytes(), "b.txt".as_bytes()).is_ok()
        && failed_with(&resolve_path_bytes(&mut disk, volume, "a.txt".as_bytes()), Error::NotFound)
        && count_is(read_path_bytes(&mut disk, volume, "b.txt".as_bytes(), &mut bytes), 3)
        && crate::ipc::bytes_equal(&bytes[0..3], "one".as_bytes());
    let collision_rejected = failed_with(
        &rename_path_bytes(&mut disk, volume, "docs/a.txt".as_bytes(), "b.txt".as_bytes()),
        Error::AlreadyExists,
    );
    let same_parent_dir_rename = rename_path_bytes(&mut disk, volume, "docs".as_bytes(), "archive".as_bytes()).is_ok()
        && failed_with(&resolve_path_bytes(&mut disk, volume, "docs/a.txt".as_bytes()), Error::NotFound)
        && count_is(read_path_bytes(&mut disk, volume, "archive/a.txt".as_bytes(), &mut bytes), 3)
        && crate::ipc::bytes_equal(&bytes[0..3], "two".as_bytes());
    let dir_move = rename_path_bytes(&mut disk, volume, "archive".as_bytes(), "other/docs".as_bytes()).is_ok()
        && failed_with(&resolve_path_bytes(&mut disk, volume, "archive/a.txt".as_bytes()), Error::NotFound)
        && count_is(read_path_bytes(&mut disk, volume, "other/docs/a.txt".as_bytes(), &mut bytes), 3)
        && crate::ipc::bytes_equal(&bytes[0..3], "two".as_bytes());
    let non_empty_rejected = failed_with(
        &delete_path_bytes(&mut disk, volume, "other/docs".as_bytes()),
        Error::DirectoryNotEmpty,
    );
    let file_deleted = delete_path_bytes(&mut disk, volume, "other/docs/a.txt".as_bytes()).is_ok()
        && failed_with(&resolve_path_bytes(&mut disk, volume, "other/docs/a.txt".as_bytes()), Error::NotFound);
    let file_cluster_freed = value_is(read_fat_entry(&mut disk, volume, 5), 0);
    let dir_deleted = delete_path_bytes(&mut disk, volume, "other/docs".as_bytes()).is_ok() && failed_with(
        &resolve_path_bytes(&mut disk, volume, "other/docs".as_bytes()),
        Error::NotFound,
    );
    let dir_cluster_freed = value_is(read_fat_entry(&mut disk, volume, 4), 0);
    file_rename && collision_rejected && same_parent_dir_rename && dir_move && non_empty_rejected
        && file_deleted && file_cluster_freed && dir_deleted && dir_cluster_freed
}

/// Full directories grow by a cluster, in the root, in subdirectories and as a
/// rename target, and the FSInfo free count follows every allocation.
pub fn directory_growth_self_test() -> (passed: bool) {
    let mut disk = mutable_fat_disk();
    let volume = match mount(&mut disk) {
        Ok(volume) => volume,
        Err(_) => return false,
    };
    let initial_free = match free_count_of(&mut disk, volume) {
        Some(count) => count,
        None => return false,
    };
    let mut index: usize = 0;
    while index < 18
        invariant
            disk.valid(),
            volume_sane(volume),
            index <= 18,
        decreases 18 - index,
    {
        let name = numbered_leaf(0x66, index);
        if create_path_file_bytes(&mut disk, volume, name.as_slice(), "x".as_bytes()).is_err() {
            return false;
        }
        index = index + 1;
    }
    let root_extended = links_onward(next_cluster(&mut disk, volume, volume.root_cluster));
    let mut byte = [0u8; 1];
    if !root_extended || !count_is(read_path_bytes(&mut disk, volume, "f17.txt".as_bytes(), &mut byte), 1)
        || byte[0] != 0x78 {
        return false;
    }
    if mkdir_path_bytes(&mut disk, volume, "big".as_bytes()).is_err() {
        return false;
    }
    let mut index: usize = 0;
    while index < 15
        invariant
            disk.valid(),
            volume_sane(volume),
            index <= 15,
        decreases 15 - index,
    {
        let path = numbered_child_path("big".as_bytes(), 0x67, index);
        if create_path_file_bytes(&mut disk, volume, path.as_slice(), "y".as_bytes()).is_err() {
            return false;
        }
        index = index + 1;
    }
    let big = match resolve_path_bytes(&mut disk, volume, "big".as_bytes()) {
        Ok(entry) => entry,
        Err(_) => return false,
    };
    let big_extended = links_onward(next_cluster(&mut disk, volume, big.first_cluster));
    if !big_extended || !count_is(read_path_bytes(&mut disk, volume, "big/g14.txt".as_bytes(), &mut byte), 1)
        || byte[0] != 0x79 {
        return false;
    }
    if mkdir_path_bytes(&mut disk, volume, "dst".as_bytes()).is_err() {
        return false;
    }
    let mut index: usize = 0;
    while index < 14
        invariant
            disk.valid(),
            volume_sane(volume),
            index <= 14,
        decreases 14 - index,
    {
        let path = numbered_child_path("dst".as_bytes(), 0x64, index);
        if create_path_file_bytes(&mut disk, volume, path.as_slice(), "q".as_bytes()).is_err() {
            return false;
        }
        index = index + 1;
    }
    if create_path_file_bytes(&mut disk, volume, "move.txt".as_bytes(), "z".as_bytes()).is_err()
        || rename_path_bytes(&mut disk, volume, "move.txt".as_bytes(), "dst/move.txt".as_bytes()).is_err()
        || !failed_with(&resolve_path_bytes(&mut disk, volume, "move.txt".as_bytes()), Error::NotFound)
        || !count_is(read_path_bytes(&mut disk, volume, "dst/move.txt".as_bytes(), &mut byte), 1)
        || byte[0] != 0x7a {
        return false;
    }
    let dst = match resolve_path_bytes(&mut disk, volume, "dst".as_bytes()) {
        Ok(entry) => entry,
        Err(_) => return false,
    };
    if !links_onward(next_cluster(&mut disk, volume, dst.first_cluster)) {
        return false;
    }
    let after_growth = match free_count_of(&mut disk, volume) {
        Some(count) => count,
        None => return false,
    };
    if after_growth != initial_free.saturating_sub(53) || after_growth == u32::MAX {
        return false;
    }
    delete_path_bytes(&mut disk, volume, "dst/move.txt".as_bytes()).is_ok() && match free_count_of(
        &mut disk,
        volume,
    ) {
        Some(count) => count == after_growth + 1,
        None => false,
    }
}

/// A failed data write while replacing a file leaves the old contents and frees
/// the cluster it had taken.
pub fn overwrite_rollback_self_test() -> (passed: bool) {
    let mut disk = mutable_fat_disk();
    let volume = match mount(&mut disk) {
        Ok(volume) => volume,
        Err(_) => return false,
    };
    if create_path_file_bytes(&mut disk, volume, "keep.txt".as_bytes(), "old".as_bytes()).is_err() {
        return false;
    }
    let fail_lba = match volume.cluster_lba(4) {
        Ok(lba) => lba,
        Err(_) => return false,
    };
    let mut failing = FailingWriteDisk { inner: disk, fail_lba, failed: false };
    if !failed_with(
        &create_path_file_bytes(&mut failing, volume, "keep.txt".as_bytes(), "new".as_bytes()),
        Error::Block(BlockError::DeviceFault),
    ) {
        return false;
    }
    let mut bytes = [0u8; 4];
    count_is(read_path_bytes(&mut failing.inner, volume, "keep.txt".as_bytes(), &mut bytes), 3)
        && crate::ipc::bytes_equal(&bytes[0..3], "old".as_bytes()) && value_is(
        read_fat_entry(&mut failing.inner, volume, 4),
        0,
    )
}

/// A failed write of a directory's new cluster unlinks that cluster again and
/// leaves no entry behind.
pub fn directory_extension_rollback_self_test() -> (passed: bool) {
    let mut disk = mutable_fat_disk();
    let volume = match mount(&mut disk) {
        Ok(volume) => volume,
        Err(_) => return false,
    };
    let mut index: usize = 0;
    while index < 16
        invariant
            disk.valid(),
            volume_sane(volume),
            index <= 16,
        decreases 16 - index,
    {
        let name = numbered_leaf(0x72, index);
        if create_path_file_bytes(&mut disk, volume, name.as_slice(), "".as_bytes()).is_err() {
            return false;
        }
        index = index + 1;
    }
    if !link_is(next_cluster(&mut disk, volume, volume.root_cluster), ClusterLink::End) {
        return false;
    }
    let fail_lba = match volume.cluster_lba(4) {
        Ok(lba) => lba,
        Err(_) => return false,
    };
    let mut failing = FailingWriteDisk { inner: disk, fail_lba, failed: false };
    if !failed_with(
        &create_path_file_bytes(&mut failing, volume, "boom.txt".as_bytes(), "new".as_bytes()),
        Error::Block(BlockError::DeviceFault),
    ) {
        return false;
    }
    failed_with(&resolve_path_bytes(&mut failing.inner, volume, "boom.txt".as_bytes()), Error::NotFound)
        && link_is(next_cluster(&mut failing.inner, volume, volume.root_cluster), ClusterLink::End)
        && value_is(read_fat_entry(&mut failing.inner, volume, 3), 0) && value_is(
        read_fat_entry(&mut failing.inner, volume, 4),
        0,
    )
}

} // verus!
