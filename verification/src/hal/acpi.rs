//! ACPI: the root pointer, the root table and the tables it lists, and the interrupt
//! controllers the MADT describes.
use vstd::prelude::*;

verus! {

pub const RSDP_V1_LENGTH: usize = 20;
pub const RSDP_V2_LENGTH: usize = 36;
pub const SDT_HEADER_LENGTH: usize = 36;
pub const MAX_TABLE_LENGTH: usize = 65536;
pub const MAX_TABLES: usize = 256;
pub const MADT_HEADER_LENGTH: usize = 44;
pub const MAX_MADT_ENTRIES: usize = 256;
pub const MAX_MADT_ENTRY_LENGTH: usize = 255;

#[derive(Clone, Copy, PartialEq, Eq, Structural, Debug)]
pub enum Error {
    Missing,
    OutOfRange,
    InvalidSignature,
    InvalidChecksum,
    InvalidLength,
    AddressOverflow,
}

/// What the tables say of the machine.
#[derive(Clone, Copy, PartialEq, Eq, Structural, Debug, Default)]
pub struct Summary {
    pub revision: u8,
    pub tables: u16,
    pub apic: bool,
    pub local_apic_address: u64,
    pub enabled_processors: u16,
    pub io_apics: u16,
    pub interrupt_overrides: u16,
    pub madt_entries: u16,
    pub fadt: bool,
    pub hpet: bool,
    pub mcfg: bool,
    pub truncated: bool,
}

/// A range of physical memory the firmware tables may lie in.
#[derive(Clone, Copy, PartialEq, Eq, Structural, Debug)]
pub struct Region {
    pub start: u64,
    pub end: u64,
}

/// Physical memory as the kernel maps it: one byte at a virtual address.
pub trait PhysicalMemory {
    fn read_byte(&mut self, virtual_address: u64) -> u8;
}

/// The sum of `bytes`, modulo 256.
pub open spec fn byte_sum(bytes: Seq<u8>) -> int
    decreases bytes.len(),
{
    if bytes.len() == 0 {
        0
    } else {
        (byte_sum(bytes.drop_last()) + bytes.last()) % 256
    }
}

/// Whether the bytes sum to zero, as every ACPI structure must.
pub fn checksum(bytes: &[u8]) -> (result: Result<(), Error>)
    ensures
        result is Ok <==> byte_sum(bytes@) == 0,
        result is Err ==> result == Err::<(), Error>(Error::InvalidChecksum),
{
    let mut sum: u8 = 0;
    let mut i: usize = 0;
    while i < bytes.len()
        invariant
            i <= bytes@.len(),
            sum == byte_sum(bytes@.subrange(0, i as int)),
        decreases bytes@.len() - i,
    {
        proof {
            assert(bytes@.subrange(0, i as int + 1).drop_last() =~= bytes@.subrange(0, i as int));
        }
        sum = sum.wrapping_add(bytes[i]);
        i = i + 1;
    }
    proof {
        assert(bytes@.subrange(0, bytes@.len() as int) =~= bytes@);
    }
    if sum == 0 {
        Ok(())
    } else {
        Err(Error::InvalidChecksum)
    }
}

/// The little-endian `u32` at `offset`.
pub open spec fn le32_at(bytes: Seq<u8>, offset: int) -> int {
    bytes[offset] + bytes[offset + 1] * 256 + bytes[offset + 2] * 65536 + bytes[offset + 3] * 16777216
}

/// The little-endian `u64` at `offset`.
pub open spec fn le64_at(bytes: Seq<u8>, offset: int) -> int {
    le32_at(bytes, offset) + le32_at(bytes, offset + 4) * 4294967296
}

pub fn read_u32(bytes: &[u8], offset: usize) -> (value: u32)
    requires
        offset + 4 <= bytes@.len(),
    ensures
        value == le32_at(bytes@, offset as int),
{
    let b0 = bytes[offset] as u64;
    let b1 = bytes[offset + 1] as u64;
    let b2 = bytes[offset + 2] as u64;
    let b3 = bytes[offset + 3] as u64;
    let value = b0 + b1 * 256 + b2 * 65536 + b3 * 16777216;
    value as u32
}

pub fn read_u64(bytes: &[u8], offset: usize) -> (value: u64)
    requires
        offset + 8 <= bytes@.len(),
    ensures
        value == le64_at(bytes@, offset as int),
{
    let length = bytes.len();
    assert(offset + 4 <= length);
    let low = read_u32(bytes, offset) as u64;
    let high = read_u32(bytes, offset + 4) as u64;
    low + high * 4294967296
}

/// "RSD PTR " as bytes.
pub open spec fn rsdp_signature() -> Seq<u8> {
    seq![0x52u8, 0x53, 0x44, 0x20, 0x50, 0x54, 0x52, 0x20]
}

/// Checks the signature and the checksum of the first 20 bytes of a root pointer.
pub fn validate_rsdp_v1(bytes: &[u8]) -> (result: Result<(), Error>)
    ensures
        (bytes@.len() < RSDP_V1_LENGTH || bytes@.subrange(0, 8) != rsdp_signature()) ==> result == Err::<(), Error>(
            Error::InvalidSignature,
        ),
        (bytes@.len() >= RSDP_V1_LENGTH && bytes@.subrange(0, 8) == rsdp_signature()) ==> (result is Ok <==> byte_sum(
            bytes@.subrange(0, 20),
        ) == 0),
        result is Err ==> result == Err::<(), Error>(Error::InvalidSignature) || result == Err::<(), Error>(
            Error::InvalidChecksum,
        ),
{
    if bytes.len() < RSDP_V1_LENGTH {
        return Err(Error::InvalidSignature);
    }
    let signature: [u8; 8] = [0x52, 0x53, 0x44, 0x20, 0x50, 0x54, 0x52, 0x20];
    let mut i: usize = 0;
    while i < 8
        invariant
            i <= 8,
            bytes@.len() >= RSDP_V1_LENGTH,
            signature@ == rsdp_signature(),
            forall|k: int| 0 <= k < i ==> bytes@[k] == signature@[k],
        decreases 8 - i,
    {
        if bytes[i] != signature[i] {
            proof {
                assert(bytes@.subrange(0, 8)[i as int] != rsdp_signature()[i as int]);
            }
            return Err(Error::InvalidSignature);
        }
        i = i + 1;
    }
    proof {
        assert(signature@ =~= rsdp_signature());
        assert(bytes@.subrange(0, 8) =~= rsdp_signature());
    }
    let (head, _) = bytes.split_at(RSDP_V1_LENGTH);
    checksum(head)
}

/// Checks the length field and the checksum of a 36-byte root pointer.
pub fn validate_rsdp_v2(bytes: &[u8; 36]) -> (result: Result<(), Error>)
    ensures
        le32_at(bytes@, 20) != RSDP_V2_LENGTH ==> result == Err::<(), Error>(Error::InvalidLength),
        le32_at(bytes@, 20) == RSDP_V2_LENGTH ==> (result is Ok <==> byte_sum(bytes@) == 0),
{
    if read_u32(bytes, 20) as usize != RSDP_V2_LENGTH {
        return Err(Error::InvalidLength);
    }
    checksum(bytes)
}

/// The processors, I/O APICs and overrides one MADT entry adds to `summary`.
pub open spec fn madt_effect(entry: Seq<u8>, summary: Summary) -> Result<Summary, Error> {
    if entry.len() < 2 || entry[1] != entry.len() {
        Err(Error::InvalidLength)
    } else if entry[0] == 0 {
        if entry.len() < 8 {
            Err(Error::InvalidLength)
        } else if le32_at(entry, 4) % 4 != 0 {
            Ok(Summary { enabled_processors: summary.enabled_processors.saturating_add(1), ..summary })
        } else {
            Ok(summary)
        }
    } else if entry[0] == 1 {
        if entry.len() < 12 {
            Err(Error::InvalidLength)
        } else {
            Ok(Summary { io_apics: summary.io_apics.saturating_add(1), ..summary })
        }
    } else if entry[0] == 2 {
        if entry.len() < 10 {
            Err(Error::InvalidLength)
        } else {
            Ok(Summary { interrupt_overrides: summary.interrupt_overrides.saturating_add(1), ..summary })
        }
    } else if entry[0] == 5 {
        if entry.len() < 12 {
            Err(Error::InvalidLength)
        } else {
            Ok(Summary { local_apic_address: le64_at(entry, 4) as u64, ..summary })
        }
    } else if entry[0] == 9 {
        if entry.len() < 16 {
            Err(Error::InvalidLength)
        } else if le32_at(entry, 8) % 4 != 0 {
            Ok(Summary { enabled_processors: summary.enabled_processors.saturating_add(1), ..summary })
        } else {
            Ok(summary)
        }
    } else {
        Ok(summary)
    }
}

fn enabled(flags: u32) -> (set: bool)
    ensures
        set == (flags % 4 != 0),
{
    assert(flags & 3 == flags % 4) by (bit_vector);
    flags & 3 != 0
}

/// Adds what one MADT entry describes: an enabled local APIC or x2APIC is a
/// processor, an I/O APIC and an interrupt override are counted, and an address
/// override replaces the local APIC address.
pub fn update_madt_summary(entry: &[u8], summary: &mut Summary) -> (result: Result<(), Error>)
    ensures
        match madt_effect(entry@, *old(summary)) {
            Ok(next) => result is Ok && *final(summary) == next,
            Err(error) => result == Err::<(), Error>(error) && *final(summary) == *old(summary),
        },
{
    let length = entry.len();
    if length < 2 || entry[1] as usize != length {
        return Err(Error::InvalidLength);
    }
    let kind = entry[0];
    if kind == 0 {
        if length < 8 {
            return Err(Error::InvalidLength);
        }
        if enabled(read_u32(entry, 4)) {
            summary.enabled_processors = summary.enabled_processors.saturating_add(1);
        }
    } else if kind == 1 {
        if length < 12 {
            return Err(Error::InvalidLength);
        }
        summary.io_apics = summary.io_apics.saturating_add(1);
    } else if kind == 2 {
        if length < 10 {
            return Err(Error::InvalidLength);
        }
        summary.interrupt_overrides = summary.interrupt_overrides.saturating_add(1);
    } else if kind == 5 {
        if length < 12 {
            return Err(Error::InvalidLength);
        }
        summary.local_apic_address = read_u64(entry, 4);
    } else if kind == 9 {
        if length < 16 {
            return Err(Error::InvalidLength);
        }
        if enabled(read_u32(entry, 8)) {
            summary.enabled_processors = summary.enabled_processors.saturating_add(1);
        }
    }
    Ok(())
}

/// Whether `length` bytes from `address` lie in one of `regions`: refused when
/// empty or past the end of the address space.
pub open spec fn range_ok(address: u64, length: usize, regions: Seq<Region>) -> Result<(), Error> {
    if address + length > u64::MAX {
        Err(Error::AddressOverflow)
    } else if length == 0 || !(exists|i: int|
        0 <= i < regions.len() && address >= (#[trigger] regions[i]).start && address + length <= regions[i].end) {
        Err(Error::OutOfRange)
    } else {
        Ok(())
    }
}

pub fn validate_range(address: u64, length: usize, regions: &[Region]) -> (result: Result<(), Error>)
    ensures
        result == range_ok(address, length, regions@),
{
    if length as u64 > u64::MAX - address {
        return Err(Error::AddressOverflow);
    }
    let end = address + length as u64;
    if length == 0 {
        return Err(Error::OutOfRange);
    }
    let mut i: usize = 0;
    while i < regions.len()
        invariant
            i <= regions@.len(),
            end == address + length,
            length != 0,
            address + length <= u64::MAX,
            forall|k: int| 0 <= k < i ==> !(address >= (#[trigger] regions@[k]).start && end <= regions@[k].end),
        decreases regions@.len() - i,
    {
        if address >= regions[i].start && end <= regions[i].end {
            return Ok(());
        }
        i = i + 1;
    }
    Err(Error::OutOfRange)
}

/// Reads `output.len()` bytes of physical memory from `address`, which must lie in
/// one of `regions`, through the mapping at `physical_offset`.
fn read_physical<M: PhysicalMemory>(memory: &mut M, physical_offset: u64, address: u64, output: &mut [u8], regions: &[Region]) -> (result: Result<(), Error>)
    ensures
        final(output)@.len() == old(output)@.len(),
        range_ok(address, old(output)@.len() as usize, regions@) is Err ==> result == range_ok(
            address,
            old(output)@.len() as usize,
            regions@,
        ),
        result is Ok <==> range_ok(address, old(output)@.len() as usize, regions@) is Ok && address + physical_offset
            <= u64::MAX,
        range_ok(address, old(output)@.len() as usize, regions@) is Ok && address + physical_offset > u64::MAX
            ==> result == Err::<(), Error>(Error::AddressOverflow),
{
    let length = output.len();
    match validate_range(address, length, regions) {
        Ok(()) => {},
        Err(error) => return Err(error),
    }
    if address > u64::MAX - physical_offset {
        return Err(Error::AddressOverflow);
    }
    let virtual_address = physical_offset + address;
    let mut i: usize = 0;
    while i < length
        invariant
            i <= length,
            length == output@.len(),
        decreases length - i,
    {
        output[i] = memory.read_byte(virtual_address.wrapping_add(i as u64));
        i = i + 1;
    }
    Ok(())
}

/// The signature and length of a table header.
struct SdtHeader {
    signature: [u8; 4],
    length: usize,
}

fn read_sdt_header<M: PhysicalMemory>(memory: &mut M, physical_offset: u64, address: u64, regions: &[Region]) -> (result: Result<SdtHeader, Error>)
    ensures
        result matches Ok(header) ==> SDT_HEADER_LENGTH <= header.length <= MAX_TABLE_LENGTH,
        range_ok(address, 36, regions@) is Err ==> result is Err && Err::<(), Error>(result->Err_0) == range_ok(
            address,
            36,
            regions@,
        ),
        range_ok(address, 36, regions@) is Ok && address + physical_offset > u64::MAX ==> result is Err
            && result->Err_0 == Error::AddressOverflow,
        range_ok(address, 36, regions@) is Ok && address + physical_offset <= u64::MAX ==> result is Ok || (result is Err
            && result->Err_0 == Error::InvalidLength),
{
    let mut header = [0u8; 36];
    match read_physical(memory, physical_offset, address, &mut header, regions) {
        Ok(()) => {},
        Err(error) => return Err(error),
    }
    let length = read_u32(&header, 4) as usize;
    if length < SDT_HEADER_LENGTH || length > MAX_TABLE_LENGTH {
        return Err(Error::InvalidLength);
    }
    let signature: [u8; 4] = [header[0], header[1], header[2], header[3]];
    Ok(SdtHeader { signature, length })
}

/// Checks that the `length` bytes of the table at `address` sum to zero.
fn validate_sdt_checksum<M: PhysicalMemory>(memory: &mut M, physical_offset: u64, address: u64, length: usize, regions: &[Region]) -> (result: Result<(), Error>)
    ensures
        range_ok(address, length, regions@) is Err ==> result == range_ok(address, length, regions@),
{
    match validate_range(address, length, regions) {
        Ok(()) => {},
        Err(error) => return Err(error),
    }
    if address > u64::MAX - physical_offset {
        return Err(Error::AddressOverflow);
    }
    let virtual_address = physical_offset + address;
    let mut sum: u8 = 0;
    let mut i: usize = 0;
    while i < length
        invariant
            i <= length,
        decreases length - i,
    {
        sum = sum.wrapping_add(memory.read_byte(virtual_address.wrapping_add(i as u64)));
        i = i + 1;
    }
    if sum == 0 {
        Ok(())
    } else {
        Err(Error::InvalidChecksum)
    }
}

/// Walks the entries of the MADT at `address`, `length` bytes long: the local APIC
/// address from its fixed part, then each entry through `update_madt_summary`, at
/// most `MAX_MADT_ENTRIES` of them.
fn parse_madt<M: PhysicalMemory>(memory: &mut M, physical_offset: u64, address: u64, length: usize, regions: &[Region], summary: &mut Summary) -> (result: Result<(), Error>)
    ensures
        length < MADT_HEADER_LENGTH ==> result == Err::<(), Error>(Error::InvalidLength),
        final(summary).tables == old(summary).tables,
        final(summary).revision == old(summary).revision,
        old(summary).truncated ==> final(summary).truncated,
{
    if length < MADT_HEADER_LENGTH {
        return Err(Error::InvalidLength);
    }
    if address > u64::MAX - SDT_HEADER_LENGTH as u64 {
        return Err(Error::AddressOverflow);
    }
    let mut fixed = [0u8; 8];
    match read_physical(memory, physical_offset, address + SDT_HEADER_LENGTH as u64, &mut fixed, regions) {
        Ok(()) => {},
        Err(error) => return Err(error),
    }
    summary.local_apic_address = read_u32(&fixed, 0) as u64;
    let mut offset = MADT_HEADER_LENGTH;
    let mut entries: usize = 0;
    while offset < length
        invariant
            entries <= MAX_MADT_ENTRIES,
            offset <= length,
            length >= MADT_HEADER_LENGTH,
            summary.tables == old(summary).tables,
            summary.revision == old(summary).revision,
            old(summary).truncated ==> summary.truncated,
        decreases length - offset,
    {
        if entries == MAX_MADT_ENTRIES {
            summary.truncated = true;
            break;
        }
        if offset as u64 > u64::MAX - address {
            return Err(Error::AddressOverflow);
        }
        let entry_address = address + offset as u64;
        let mut header = [0u8; 2];
        match read_physical(memory, physical_offset, entry_address, &mut header, regions) {
            Ok(()) => {},
            Err(error) => return Err(error),
        }
        let entry_length = header[1] as usize;
        if entry_length < 2 || entry_length > length - offset {
            return Err(Error::InvalidLength);
        }
        let mut entry: Vec<u8> = Vec::new();
        let mut k: usize = 0;
        while k < entry_length
            invariant
                k <= entry_length,
                entry@.len() == k,
            decreases entry_length - k,
        {
            entry.push(0);
            k = k + 1;
        }
        match read_physical(memory, physical_offset, entry_address, entry.as_mut_slice(), regions) {
            Ok(()) => {},
            Err(error) => return Err(error),
        }
        match update_madt_summary(entry.as_slice(), summary) {
            Ok(()) => {},
            Err(error) => return Err(error),
        }
        entries = entries + 1;
        offset = offset + entry_length;
    }
    summary.madt_entries = entries as u16;
    Ok(())
}

fn signature_is(signature: &[u8; 4], expected: &[u8; 4]) -> (same: bool)
    ensures
        same == (signature@ == expected@),
{
    let same = signature[0] == expected[0] && signature[1] == expected[1] && signature[2] == expected[2]
        && signature[3] == expected[3];
    proof {
        if same {
            assert(signature@ =~= expected@);
        } else if signature@ == expected@ {
            assert(signature@[0] == expected@[0] && signature@[1] == expected@[1] && signature@[2] == expected@[2]
                && signature@[3] == expected@[3]);
        }
    }
    same
}

/// Reads the ACPI tables: validates the root pointer at `rsdp_address`, takes the
/// XSDT (revision 2 with one) or the RSDT, checks every table it lists (at most
/// `MAX_TABLES`), notes the FADT, HPET and MCFG, and parses the MADT.
pub fn discover<M: PhysicalMemory>(memory: &mut M, physical_offset: u64, rsdp_address: Option<u64>, regions: &[Region]) -> (result: Result<Summary, Error>)
    ensures
        rsdp_address is None ==> result == Err::<Summary, Error>(Error::Missing),
        rsdp_address is Some && range_ok(rsdp_address->0, 20, regions@) is Err ==> result is Err && Err::<(), Error>(
            result->Err_0,
        ) == range_ok(rsdp_address->0, 20, regions@),
        rsdp_address is Some && range_ok(rsdp_address->0, 20, regions@) is Ok && rsdp_address->0 + physical_offset
            > u64::MAX ==> result == Err::<Summary, Error>(Error::AddressOverflow),
        result is Ok ==> result->Ok_0.tables <= MAX_TABLES,
{
    let rsdp_at = match rsdp_address {
        Some(address) => address,
        None => return Err(Error::Missing),
    };
    let mut rsdp = [0u8; 36];
    {
        let mut first = [0u8; 20];
        match read_physical(memory, physical_offset, rsdp_at, &mut first, regions) {
            Ok(()) => {},
            Err(error) => return Err(error),
        }
        match validate_rsdp_v1(&first) {
            Ok(()) => {},
            Err(error) => return Err(error),
        }
        let mut i: usize = 0;
        while i < 20
            invariant
                i <= 20,
            decreases 20 - i,
        {
            rsdp[i] = first[i];
            i = i + 1;
        }
    }
    let revision = rsdp[15];
    let xsdt: [u8; 4] = [0x58, 0x53, 0x44, 0x54];
    let rsdt: [u8; 4] = [0x52, 0x53, 0x44, 0x54];
    let (root_address, entry_size, expected) = if revision >= 2 {
        match read_physical(memory, physical_offset, rsdp_at, &mut rsdp, regions) {
            Ok(()) => {},
            Err(error) => return Err(error),
        }
        match validate_rsdp_v2(&rsdp) {
            Ok(()) => {},
            Err(error) => return Err(error),
        }
        let extended = read_u64(&rsdp, 24);
        if extended != 0 {
            (extended, 8usize, xsdt)
        } else {
            (read_u32(&rsdp, 16) as u64, 4usize, rsdt)
        }
    } else {
        (read_u32(&rsdp, 16) as u64, 4usize, rsdt)
    };
    if root_address == 0 {
        return Err(Error::OutOfRange);
    }
    let root = match read_sdt_header(memory, physical_offset, root_address, regions) {
        Ok(header) => header,
        Err(error) => return Err(error),
    };
    if !signature_is(&root.signature, &expected) {
        return Err(Error::InvalidSignature);
    }
    match validate_sdt_checksum(memory, physical_offset, root_address, root.length, regions) {
        Ok(()) => {},
        Err(error) => return Err(error),
    }
    let payload = root.length - SDT_HEADER_LENGTH;
    if payload % entry_size != 0 {
        return Err(Error::InvalidLength);
    }
    let total_tables = payload / entry_size;
    let scanned = if total_tables < MAX_TABLES {
        total_tables
    } else {
        MAX_TABLES
    };
    let mut summary = Summary {
        revision,
        tables: 0,
        apic: false,
        local_apic_address: 0,
        enabled_processors: 0,
        io_apics: 0,
        interrupt_overrides: 0,
        madt_entries: 0,
        fadt: false,
        hpet: false,
        mcfg: false,
        truncated: total_tables > MAX_TABLES,
    };
    let apic: [u8; 4] = [0x41, 0x50, 0x49, 0x43];
    let facp: [u8; 4] = [0x46, 0x41, 0x43, 0x50];
    let hpet: [u8; 4] = [0x48, 0x50, 0x45, 0x54];
    let mcfg: [u8; 4] = [0x4d, 0x43, 0x46, 0x47];
    let mut index: usize = 0;
    while index < scanned
        invariant
            index <= scanned <= MAX_TABLES,
            entry_size == 4 || entry_size == 8,
            summary.tables == index,
            range_ok(rsdp_at, 20, regions@) is Ok && rsdp_at + physical_offset <= u64::MAX,
            rsdp_address == Some(rsdp_at),
        decreases scanned - index,
    {
        let step = SDT_HEADER_LENGTH + index * entry_size;
        if step as u64 > u64::MAX - root_address {
            return Err(Error::AddressOverflow);
        }
        let entry_address = root_address + step as u64;
        let mut bytes = [0u8; 8];
        let table_address = if entry_size == 8 {
            match read_physical(memory, physical_offset, entry_address, &mut bytes, regions) {
                Ok(()) => {},
                Err(error) => return Err(error),
            }
            read_u64(&bytes, 0)
        } else {
            let mut narrow = [0u8; 4];
            match read_physical(memory, physical_offset, entry_address, &mut narrow, regions) {
                Ok(()) => {},
                Err(error) => return Err(error),
            }
            read_u32(&narrow, 0) as u64
        };
        let table = match read_sdt_header(memory, physical_offset, table_address, regions) {
            Ok(header) => header,
            Err(error) => return Err(error),
        };
        match validate_sdt_checksum(memory, physical_offset, table_address, table.length, regions) {
            Ok(()) => {},
            Err(error) => return Err(error),
        }
        summary.tables = summary.tables.saturating_add(1);
        if signature_is(&table.signature, &apic) {
            match parse_madt(memory, physical_offset, table_address, table.length, regions, &mut summary) {
                Ok(()) => {},
                Err(error) => return Err(error),
            }
            summary.apic = true;
        } else if signature_is(&table.signature, &facp) {
            summary.fadt = true;
        } else if signature_is(&table.signature, &hpet) {
            summary.hpet = true;
        } else if signature_is(&table.signature, &mcfg) {
            summary.mcfg = true;
        }
        index = index + 1;
    }
    Ok(summary)
}

/// Writes `value` little-endian into the four bytes at `at`, leaving the others.
fn fill_le32(bytes: &mut [u8; 36], at: usize, value: u32)
    requires
        at + 4 <= 36,
    ensures
        le32_at(final(bytes)@, at as int) == value,
        forall|k: int| 0 <= k < 36 && !(at <= k < at + 4) ==> #[trigger] final(bytes)@[k] == old(bytes)@[k],
{
    bytes[at] = (value % 256) as u8;
    bytes[at + 1] = ((value / 256) % 256) as u8;
    bytes[at + 2] = ((value / 65536) % 256) as u8;
    bytes[at + 3] = (value / 16777216) as u8;
}

fn sum_of(bytes: &[u8], count: usize) -> (sum: u8)
    requires
        count <= bytes@.len(),
{
    let mut sum: u8 = 0;
    let mut i: usize = 0;
    while i < count
        invariant
            i <= count <= bytes@.len(),
        decreases count - i,
    {
        sum = sum.wrapping_add(bytes[i]);
        i = i + 1;
    }
    sum
}

/// Builds a revision 2 root pointer and checks that it is accepted and that a flipped
/// byte is caught; feeds a processor, an I/O APIC, an override and an address
/// override to the MADT summary; and refuses a malformed entry.
pub fn self_test() -> (passed: bool)
{
    let mut rsdp = [0u8; 36];
    let signature: [u8; 8] = [0x52, 0x53, 0x44, 0x20, 0x50, 0x54, 0x52, 0x20];
    let mut i: usize = 0;
    while i < 8
        invariant
            i <= 8,
        decreases 8 - i,
    {
        rsdp[i] = signature[i];
        i = i + 1;
    }
    rsdp[15] = 2;
    fill_le32(&mut rsdp, 20, 36);
    fill_le32(&mut rsdp, 24, 0x1234_5000);
    fill_le32(&mut rsdp, 28, 0);
    rsdp[8] = 0u8.wrapping_sub(sum_of(&rsdp, 20));
    rsdp[32] = 0u8.wrapping_sub(sum_of(&rsdp, 36));
    let (first, _) = rsdp.split_at(20);
    let valid = validate_rsdp_v1(first).is_ok() && validate_rsdp_v2(&rsdp).is_ok();
    rsdp[9] = rsdp[9] ^ 1;
    let (first, _) = rsdp.split_at(20);
    let checksum_rejected = matches!(validate_rsdp_v1(first), Err(Error::InvalidChecksum));
    let mut topology = Summary {
        revision: 0,
        tables: 0,
        apic: false,
        local_apic_address: 0xfee0_0000,
        enabled_processors: 0,
        io_apics: 0,
        interrupt_overrides: 0,
        madt_entries: 0,
        fadt: false,
        hpet: false,
        mcfg: false,
        truncated: false,
    };
    let local_apic: [u8; 8] = [0, 8, 0, 1, 1, 0, 0, 0];
    let io_apic: [u8; 12] = [1, 12, 2, 0, 0, 0, 0, 0, 0, 0, 0, 0];
    let interrupt_override: [u8; 10] = [2, 10, 0, 1, 1, 0, 0, 0, 0, 0];
    let address_override: [u8; 12] = [5, 12, 0, 0, 0x00, 0x10, 0xe0, 0xfe, 0, 0, 0, 0];
    let topology_valid = update_madt_summary(&local_apic, &mut topology).is_ok() && update_madt_summary(
        &io_apic,
        &mut topology,
    ).is_ok() && update_madt_summary(&interrupt_override, &mut topology).is_ok() && update_madt_summary(
        &address_override,
        &mut topology,
    ).is_ok() && topology.enabled_processors == 1 && topology.io_apics == 1 && topology.interrupt_overrides == 1
        && topology.local_apic_address == 0xfee0_1000;
    let malformed: [u8; 7] = [0, 7, 0, 0, 0, 0, 0];
    let malformed_rejected = matches!(update_madt_summary(&malformed, &mut topology), Err(Error::InvalidLength));
    valid && checksum_rejected && topology_valid && malformed_rejected
}

} // verus!
