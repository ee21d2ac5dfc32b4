//! Validation of 64-bit x86 ELF executables and extraction of their loadable segments.
use vstd::prelude::*;

verus! {

/// Loadable segments an image may have.
pub const MAX_LOAD_SEGMENTS: usize = 8;

/// Size of the ELF file header.
pub const ELF_HEADER_SIZE: usize = 64;

/// Size of one program header.
pub const PROGRAM_HEADER_SIZE: usize = 56;

/// Program header type of a loadable segment.
pub const PT_LOAD: u32 = 1;

/// Segment flag: executable.
pub const PF_EXECUTE: u32 = 1;

/// Segment flag: writable.
pub const PF_WRITE: u32 = 2;

/// Machine number of x86-64.
pub const ELF_MACHINE_X86_64: u16 = 0x3e;

/// First address above user space.
pub const USER_ADDRESS_LIMIT: u64 = 0x0000_8000_0000_0000;

/// One segment to map.
#[derive(Clone, Copy, PartialEq, Eq, Structural, Debug)]
pub struct LoadSegment {
    pub file_offset: usize,
    pub file_size: usize,
    pub virtual_address: u64,
    pub memory_size: usize,
    pub mapping_start: u64,
    pub mapping_size: usize,
    pub writable: bool,
    pub executable: bool,
}

/// A validated executable.
pub struct Image {
    pub entry: u64,
    segments: Vec<LoadSegment>,
}

/// Why an image was refused.
#[derive(Clone, Copy, PartialEq, Eq, Structural, Debug)]
pub enum Error {
    Truncated,
    InvalidHeader,
    Unsupported,
    InvalidSegment,
    OverlappingSegments,
    InvalidEntry,
    TooManySegments,
}

/// Little-endian 16-bit value at `at`.
pub open spec fn le16(bytes: Seq<u8>, at: int) -> int {
    bytes[at] + bytes[at + 1] * 0x100
}

/// Little-endian 32-bit value at `at`.
pub open spec fn le32(bytes: Seq<u8>, at: int) -> int {
    le16(bytes, at) + le16(bytes, at + 2) * 0x1_0000
}

/// Little-endian 64-bit value at `at`.
pub open spec fn le64(bytes: Seq<u8>, at: int) -> int {
    le32(bytes, at) + le32(bytes, at + 4) * 0x1_0000_0000
}

/// `value` rounded down to a page boundary.
pub open spec fn page_floor(value: int) -> int {
    value - value % 4096
}

/// `value` rounded up to a page boundary.
pub open spec fn page_ceil(value: int) -> int {
    page_floor(value + 4095)
}

/// The file header names a little-endian 64-bit x86 executable with the usual header size.
pub open spec fn header_valid(bytes: Seq<u8>) -> bool {
    &&& bytes[0] == 0x7f && bytes[1] == 0x45 && bytes[2] == 0x4c && bytes[3] == 0x46
    &&& bytes[4] == 2 && bytes[5] == 1 && bytes[6] == 1
    &&& le16(bytes, 16) == 2
    &&& le16(bytes, 18) == ELF_MACHINE_X86_64
    &&& le32(bytes, 20) == 1
    &&& le16(bytes, 52) == ELF_HEADER_SIZE
}

/// The segment described by the program header at `at`.
pub open spec fn segment_at(bytes: Seq<u8>, at: int) -> LoadSegment {
    let flags = le32(bytes, at + 4);
    let virtual_address = le64(bytes, at + 16);
    let memory_size = le64(bytes, at + 40);
    let start = page_floor(virtual_address);
    LoadSegment {
        file_offset: le64(bytes, at + 8) as usize,
        file_size: le64(bytes, at + 32) as usize,
        virtual_address: virtual_address as u64,
        memory_size: memory_size as usize,
        mapping_start: start as u64,
        mapping_size: (page_ceil(virtual_address + memory_size) - start) as usize,
        writable: (flags as u32) & PF_WRITE != 0,
        executable: (flags as u32) & PF_EXECUTE != 0,
    }
}

/// The loadable segments among the first `count` program headers of a table at
/// `table` with entries `size` bytes apart.
pub open spec fn loadable_segments(bytes: Seq<u8>, table: int, size: int, count: int) -> Seq<LoadSegment>
    decreases count,
{
    if count <= 0 {
        Seq::empty()
    } else {
        let earlier = loadable_segments(bytes, table, size, count - 1);
        let at = table + size * (count - 1);
        if le32(bytes, at) == PT_LOAD {
            earlier.push(segment_at(bytes, at))
        } else {
            earlier
        }
    }
}

/// A segment's own constraints.
pub open spec fn segment_valid(segment: LoadSegment, file_len: int) -> bool {
    &&& segment.memory_size > 0
    &&& segment.file_size <= segment.memory_size
    &&& !(segment.writable && segment.executable)
    &&& segment.file_offset + segment.file_size <= file_len
    &&& segment.virtual_address + segment.memory_size < USER_ADDRESS_LIMIT
    &&& segment.mapping_start + segment.mapping_size <= USER_ADDRESS_LIMIT
}

/// The page ranges of two segments meet.
pub open spec fn mappings_overlap(a: LoadSegment, b: LoadSegment) -> bool {
    a.mapping_start < b.mapping_start + b.mapping_size && b.mapping_start < a.mapping_start
        + a.mapping_size
}

/// `entry` lies inside an executable segment of `segments`.
pub open spec fn entry_executable(segments: Seq<LoadSegment>, entry: u64) -> bool {
    exists|i: int|
        0 <= i < segments.len() && (#[trigger] segments[i]).executable && segments[i].virtual_address
            <= entry < segments[i].virtual_address + segments[i].memory_size
}

impl Image {
    /// The entry point.
    pub closed spec fn entry_point(&self) -> u64 {
        self.entry
    }

    /// The loadable segments, in program header order.
    pub closed spec fn loads(&self) -> Seq<LoadSegment> {
        self.segments@
    }

    /// The loadable segments, in program header order.
    pub fn segments(&self) -> (segments: Vec<LoadSegment>)
        ensures
            segments@ == self.loads(),
    {
        self.segments.clone()
    }

    /// Number of loadable segments.
    pub fn segment_count(&self) -> (count: usize)
        ensures
            count == self.loads().len(),
    {
        self.segments.len()
    }
}

fn read_u16(bytes: &[u8], offset: usize) -> (value: Result<u16, Error>)
    ensures
        offset + 2 <= bytes@.len() ==> value == Ok::<u16, Error>(le16(bytes@, offset as int) as u16)
            && le16(bytes@, offset as int) < 0x1_0000,
        offset + 2 > bytes@.len() ==> value == Err::<u16, Error>(Error::Truncated),
{
    if offset > bytes.len() || bytes.len() - offset < 2 {
        return Err(Error::Truncated);
    }
    Ok(bytes[offset] as u16 + bytes[offset + 1] as u16 * 0x100)
}

fn read_u32(bytes: &[u8], offset: usize) -> (value: Result<u32, Error>)
    ensures
        offset + 4 <= bytes@.len() ==> value == Ok::<u32, Error>(le32(bytes@, offset as int) as u32)
            && le32(bytes@, offset as int) < 0x1_0000_0000,
        offset + 4 > bytes@.len() ==> value == Err::<u32, Error>(Error::Truncated),
{
    if offset > bytes.len() || bytes.len() - offset < 4 {
        return Err(Error::Truncated);
    }
    let low = bytes[offset] as u32 + bytes[offset + 1] as u32 * 0x100;
    let high = bytes[offset + 2] as u32 + bytes[offset + 3] as u32 * 0x100;
    Ok(low + high * 0x1_0000)
}

fn read_u64(bytes: &[u8], offset: usize) -> (value: Result<u64, Error>)
    ensures
        offset + 8 <= bytes@.len() ==> value == Ok::<u64, Error>(le64(bytes@, offset as int) as u64)
            && le64(bytes@, offset as int) < 0x1_0000_0000_0000_0000,
        offset + 8 > bytes@.len() ==> value == Err::<u64, Error>(Error::Truncated),
{
    if offset > bytes.len() || bytes.len() - offset < 8 {
        return Err(Error::Truncated);
    }
    let low = match read_u32(bytes, offset) {
        Ok(low) => low,
        Err(error) => return Err(error),
    };
    let high = match read_u32(bytes, offset + 4) {
        Ok(high) => high,
        Err(error) => return Err(error),
    };
    Ok(low as u64 + high as u64 * 0x1_0000_0000)
}

/// `value` rounded down to a page boundary.
pub fn align_down(value: u64) -> (aligned: u64)
    ensures
        aligned == page_floor(value as int),
{
    value - value % 4096
}

/// `value` rounded up to a page boundary, unless that overflows.
pub fn align_up(value: u64) -> (aligned: Option<u64>)
    ensures
        value + 4095 <= u64::MAX ==> aligned == Some(page_ceil(value as int) as u64),
        value + 4095 > u64::MAX ==> aligned is None,
{
    match value.checked_add(4095) {
        Some(raised) => Some(align_down(raised)),
        None => None,
    }
}

/// Whether `value` is a power of two.
pub open spec fn power_of_two(value: u64) -> bool {
    value != 0 && value & ((value - 1) as u64) == 0
}

fn is_power_of_two(value: u64) -> (result: bool)
    ensures
        result == power_of_two(value),
{
    value != 0 && value & (value - 1) == 0
}

/// `page_ceil` of an address below the user limit stays within it.
proof fn lemma_page_ceil_bound(value: int)
    requires
        0 <= value < USER_ADDRESS_LIMIT,
    ensures
        value <= page_ceil(value) <= USER_ADDRESS_LIMIT,
        page_floor(value) <= value,
        0 <= page_floor(value),
{
    assert(value <= page_ceil(value)) by (nonlinear_arith)
        requires 0 <= value;
    assert(page_ceil(value) <= USER_ADDRESS_LIMIT) by (nonlinear_arith)
        requires 0 <= value < 0x0000_8000_0000_0000int;
}

/// Whether the program header at `at` describes a segment the loader accepts: sizes
/// and offset that fit in memory, something to map and no more file bytes than
/// memory, not both writable and executable, a power-of-two alignment that the
/// address and file offset agree on, file bytes inside the file, and pages below
/// the user limit whose span fits in memory.
pub open spec fn segment_accepted(bytes: Seq<u8>, at: int) -> bool {
    let flags = le32(bytes, at + 4) as u32;
    let file_offset = le64(bytes, at + 8);
    let virtual_address = le64(bytes, at + 16);
    let file_size = le64(bytes, at + 32);
    let memory_size = le64(bytes, at + 40);
    let alignment = le64(bytes, at + 48);
    &&& file_offset <= usize::MAX && file_size <= usize::MAX && memory_size <= usize::MAX
    &&& memory_size > 0 && file_size <= memory_size
    &&& !(flags & PF_WRITE != 0 && flags & PF_EXECUTE != 0)
    &&& alignment != 0 && power_of_two(alignment as u64)
    &&& virtual_address % alignment == file_offset % alignment
    &&& file_offset + file_size <= bytes.len()
    &&& virtual_address + memory_size < USER_ADDRESS_LIMIT
    &&& page_ceil(virtual_address + memory_size) - page_floor(virtual_address) <= usize::MAX
}

/// Decodes and checks the loadable program header at `offset`.
fn decode_segment(bytes: &[u8], offset: usize) -> (result: Result<LoadSegment, Error>)
    requires
        offset + PROGRAM_HEADER_SIZE <= bytes@.len(),
    ensures
        result is Ok ==> result->Ok_0 == segment_at(bytes@, offset as int) && segment_valid(
            result->Ok_0,
            bytes@.len() as int,
        ),
        result is Ok <==> segment_accepted(bytes@, offset as int),
        result is Err ==> result == Err::<LoadSegment, Error>(Error::InvalidSegment) || result == Err::<
            LoadSegment,
            Error,
        >(Error::Truncated),
{
    let length = bytes.len();
    assert(length == bytes@.len());
    let flags = match read_u32(bytes, offset + 4) { Ok(v) => v, Err(e) => return Err(e) };
    let file_offset_raw = match read_u64(bytes, offset + 8) { Ok(v) => v, Err(e) => return Err(e) };
    let virtual_address = match read_u64(bytes, offset + 16) { Ok(v) => v, Err(e) => return Err(e) };
    let file_size_raw = match read_u64(bytes, offset + 32) { Ok(v) => v, Err(e) => return Err(e) };
    let memory_size_raw = match read_u64(bytes, offset + 40) { Ok(v) => v, Err(e) => return Err(e) };
    let alignment = match read_u64(bytes, offset + 48) { Ok(v) => v, Err(e) => return Err(e) };
    if file_offset_raw > usize::MAX as u64 || file_size_raw > usize::MAX as u64 || memory_size_raw
        > usize::MAX as u64 {
        return Err(Error::InvalidSegment);
    }
    let file_offset = file_offset_raw as usize;
    let file_size = file_size_raw as usize;
    let memory_size = memory_size_raw as usize;
    let writable = flags & PF_WRITE != 0;
    let executable = flags & PF_EXECUTE != 0;
    if memory_size == 0 || file_size > memory_size || (writable && executable) || alignment == 0
        || !is_power_of_two(alignment) || virtual_address % alignment != file_offset as u64
        % alignment {
        return Err(Error::InvalidSegment);
    }
    match file_offset.checked_add(file_size) {
        Some(end) => {
            if end > bytes.len() {
                return Err(Error::Truncated);
            }
        },
        None => return Err(Error::Truncated),
    }
    let memory_end = match virtual_address.checked_add(memory_size as u64) {
        Some(end) => {
            if end >= USER_ADDRESS_LIMIT {
                return Err(Error::InvalidSegment);
            }
            end
        },
        None => return Err(Error::InvalidSegment),
    };
    proof {
        lemma_page_ceil_bound(memory_end as int);
        lemma_page_ceil_bound(virtual_address as int);
    }
    let mapping_start = align_down(virtual_address);
    let mapping_end = match align_up(memory_end) {
        Some(end) => end,
        None => return Err(Error::InvalidSegment),
    };
    if mapping_end - mapping_start > usize::MAX as u64 {
        return Err(Error::InvalidSegment);
    }
    let mapping_size = (mapping_end - mapping_start) as usize;
    Ok(LoadSegment {
        file_offset,
        file_size,
        virtual_address,
        memory_size,
        mapping_start,
        mapping_size,
        writable,
        executable,
    })
}

/// Whether `segment` maps a page that one of `segments` maps too.
fn overlaps_any(segments: &Vec<LoadSegment>, segment: LoadSegment) -> (overlap: bool)
    requires
        segment_valid(segment, 0x1_0000_0000_0000_0000),
        forall|i: int| 0 <= i < segments@.len() ==> (#[trigger] segments@[i]).mapping_start
            + segments@[i].mapping_size <= USER_ADDRESS_LIMIT,
    ensures
        overlap == exists|i: int| 0 <= i < segments@.len() && mappings_overlap(#[trigger] segments@[i], segment),
{
    let end = segment.mapping_start + segment.mapping_size as u64;
    let mut k: usize = 0;
    while k < segments.len()
        invariant
            k <= segments@.len(),
            end == segment.mapping_start + segment.mapping_size,
            forall|i: int| 0 <= i < segments@.len() ==> (#[trigger] segments@[i]).mapping_start
                + segments@[i].mapping_size <= USER_ADDRESS_LIMIT,
            forall|i: int| 0 <= i < k ==> !mappings_overlap(#[trigger] segments@[i], segment),
        decreases segments@.len() - k,
    {
        let existing = segments[k];
        let existing_end = existing.mapping_start + existing.mapping_size as u64;
        if segment.mapping_start < existing_end && existing.mapping_start < end {
            assert(mappings_overlap(segments@[k as int], segment));
            return true;
        }
        k = k + 1;
    }
    false
}

/// `address` lies in the page range `segment` maps.
pub open spec fn maps_address(segment: LoadSegment, address: int) -> bool {
    segment.mapping_start <= address < segment.mapping_start + segment.mapping_size
}

/// Two segments with non-empty page ranges overlap exactly when some address lies in both
/// ranges.
pub proof fn law_overlap_is_shared_address(a: LoadSegment, b: LoadSegment)
    requires
        a.mapping_size > 0,
        b.mapping_size > 0,
    ensures
        mappings_overlap(a, b) <==> exists|address: int| #[trigger] maps_address(a, address)
            && maps_address(b, address),
{
    if mappings_overlap(a, b) {
        let address: int = if a.mapping_start < b.mapping_start {
            b.mapping_start as int
        } else {
            a.mapping_start as int
        };
        assert(maps_address(a, address) && maps_address(b, address));
    }
}

/// Segments whose page ranges only touch, one ending where the other starts, do not
/// overlap.
pub proof fn law_adjacent_segments_do_not_overlap(a: LoadSegment, b: LoadSegment)
    requires
        a.mapping_start + a.mapping_size == b.mapping_start,
    ensures
        !mappings_overlap(a, b),
        !mappings_overlap(b, a),
{
}

/// No two of `segments` map a common page.
pub open spec fn pairwise_disjoint(segments: Seq<LoadSegment>) -> bool {
    forall|i: int, j: int| 0 <= i < j < segments.len() ==> !mappings_overlap(
        #[trigger] segments[i],
        #[trigger] segments[j],
    )
}

/// Appending a segment that overlaps none of the others keeps the segments disjoint and
/// extends the executable coverage of the entry point by that segment.
proof fn lemma_push_segment(before: Seq<LoadSegment>, segment: LoadSegment, entry: u64)
    requires
        pairwise_disjoint(before),
        !exists|i: int| 0 <= i < before.len() && mappings_overlap(#[trigger] before[i], segment),
    ensures
        pairwise_disjoint(before.push(segment)),
        entry_executable(before.push(segment), entry) == (entry_executable(before, entry) || (
        segment.executable && segment.virtual_address <= entry < segment.virtual_address
            + segment.memory_size)),
{
    let after = before.push(segment);
    assert(after[before.len() as int] == segment);
    assert forall|i: int, j: int| 0 <= i < j < after.len() implies !mappings_overlap(
        #[trigger] after[i],
        #[trigger] after[j],
    ) by {
        assert(after[i] == before[i]);
        if j < before.len() {
            assert(after[j] == before[j]);
        }
    }
    if entry_executable(before, entry) {
        let i = choose|i: int|
            0 <= i < before.len() && (#[trigger] before[i]).executable && before[i].virtual_address
                <= entry < before[i].virtual_address + before[i].memory_size;
        assert(after[i] == before[i]);
    }
    if entry_executable(after, entry) {
        let i = choose|i: int|
            0 <= i < after.len() && (#[trigger] after[i]).executable && after[i].virtual_address
                <= entry < after[i].virtual_address + after[i].memory_size;
        if i < before.len() {
            assert(before[i] == after[i]);
        }
    }
}

/// Every loadable program header among the first `n` at `table`, `size` bytes
/// apart, describes a segment the loader accepts.
pub open spec fn headers_accepted(bytes: Seq<u8>, table: int, size: int, n: int) -> bool {
    forall|k: int|
        0 <= k < n && le32(bytes, table + size * k) == PT_LOAD ==> #[trigger] segment_accepted(bytes, table + size * k)
}

/// Everything the loader checks of an image but its entry point: a valid header, a
/// program header table that fits the file, accepted loadable segments, at most
/// `MAX_LOAD_SEGMENTS` of them, no two sharing a page.
pub open spec fn layout_accepted(bytes: Seq<u8>) -> bool {
    let table = le64(bytes, 32);
    let size = le16(bytes, 54);
    let count = le16(bytes, 56);
    let loads = loadable_segments(bytes, table, size, count);
    &&& bytes.len() >= ELF_HEADER_SIZE
    &&& header_valid(bytes)
    &&& table <= usize::MAX
    &&& size >= PROGRAM_HEADER_SIZE
    &&& count > 0
    &&& table + size * count <= bytes.len()
    &&& headers_accepted(bytes, table, size, count)
    &&& loads.len() <= MAX_LOAD_SEGMENTS
    &&& pairwise_disjoint(loads)
}

/// An image the loader takes: its layout is accepted, it has a loadable segment, and
/// an executable one covers the entry point.
pub open spec fn image_accepted(bytes: Seq<u8>) -> bool {
    let loads = loadable_segments(bytes, le64(bytes, 32), le16(bytes, 54), le16(bytes, 56));
    &&& layout_accepted(bytes)
    &&& loads.len() > 0
    &&& entry_executable(loads, le64(bytes, 24) as u64)
}

/// The loadable segments of fewer headers are a prefix of those of more.
proof fn lemma_loadable_prefix(bytes: Seq<u8>, table: int, size: int, n: int, m: int)
    requires
        0 <= n <= m,
    ensures
        loadable_segments(bytes, table, size, n).len() <= loadable_segments(bytes, table, size, m).len(),
        loadable_segments(bytes, table, size, m).subrange(0, loadable_segments(bytes, table, size, n).len() as int)
            == loadable_segments(bytes, table, size, n),
    decreases m - n,
{
    if n < m {
        lemma_loadable_prefix(bytes, table, size, n, m - 1);
        let shorter = loadable_segments(bytes, table, size, m - 1);
        let longer = loadable_segments(bytes, table, size, m);
        let small = loadable_segments(bytes, table, size, n);
        assert(longer.subrange(0, small.len() as int) =~= shorter.subrange(0, small.len() as int));
    } else {
        assert(loadable_segments(bytes, table, size, m).subrange(0, loadable_segments(bytes, table, size, n).len() as int)
            =~= loadable_segments(bytes, table, size, n));
    }
}

/// Checks an ELF executable and collects its loadable segments.
///
/// On success the image's entry point is the one in the header, its segments are exactly
/// the loadable program headers in order, each within the file and user space, no two
/// mapping overlapping pages, and the entry point lies in an executable segment.
pub fn parse(bytes: &[u8]) -> (result: Result<Image, Error>)
    ensures
        bytes@.len() < ELF_HEADER_SIZE ==> result == Err::<Image, Error>(Error::Truncated),
        bytes@.len() >= ELF_HEADER_SIZE && !header_valid(bytes@) ==> result is Err && result->Err_0
            == Error::InvalidHeader,
        result is Ok ==> {
            let image = result->Ok_0;
            let table = le64(bytes@, 32);
            let size = le16(bytes@, 54);
            let count = le16(bytes@, 56);
            &&& bytes@.len() >= ELF_HEADER_SIZE
            &&& header_valid(bytes@)
            &&& image.entry_point() == le64(bytes@, 24)
            &&& size >= PROGRAM_HEADER_SIZE
            &&& count > 0
            &&& table + size * count <= bytes@.len()
            &&& image.loads() == loadable_segments(bytes@, table, size, count)
            &&& 0 < image.loads().len() <= MAX_LOAD_SEGMENTS
            &&& forall|i: int| 0 <= i < image.loads().len() ==> segment_valid(#[trigger] image.loads()[i], bytes@.len() as int)
            &&& forall|i: int, j: int| 0 <= i < j < image.loads().len() ==> !mappings_overlap(
                #[trigger] image.loads()[i],
                #[trigger] image.loads()[j],
            )
            &&& entry_executable(image.loads(), image.entry_point())
        },
        result is Ok <==> image_accepted(bytes@),
        layout_accepted(bytes@) && !image_accepted(bytes@) ==> result == Err::<Image, Error>(Error::InvalidEntry),
{
    if bytes.len() < ELF_HEADER_SIZE {
        return Err(Error::Truncated);
    }
    let kind = match read_u16(bytes, 16) { Ok(v) => v, Err(e) => return Err(e) };
    let machine = match read_u16(bytes, 18) { Ok(v) => v, Err(e) => return Err(e) };
    let version = match read_u32(bytes, 20) { Ok(v) => v, Err(e) => return Err(e) };
    let header_size = match read_u16(bytes, 52) { Ok(v) => v, Err(e) => return Err(e) };
    if bytes[0] != 0x7f || bytes[1] != 0x45 || bytes[2] != 0x4c || bytes[3] != 0x46 || bytes[4] != 2
        || bytes[5] != 1 || bytes[6] != 1 || kind != 2 || machine != ELF_MACHINE_X86_64 || version
        != 1 || header_size as usize != ELF_HEADER_SIZE {
        return Err(Error::InvalidHeader);
    }
    let entry = match read_u64(bytes, 24) { Ok(v) => v, Err(e) => return Err(e) };
    let table_raw = match read_u64(bytes, 32) { Ok(v) => v, Err(e) => return Err(e) };
    if table_raw > usize::MAX as u64 {
        return Err(Error::Unsupported);
    }
    let program_offset = table_raw as usize;
    let program_entry_size = match read_u16(bytes, 54) { Ok(v) => v as usize, Err(e) => return Err(e) };
    let program_count = match read_u16(bytes, 56) { Ok(v) => v as usize, Err(e) => return Err(e) };
    if program_entry_size < PROGRAM_HEADER_SIZE || program_count == 0 {
        return Err(Error::Unsupported);
    }
    let table_size = match program_entry_size.checked_mul(program_count) {
        Some(size) => size,
        None => return Err(Error::Truncated),
    };
    match program_offset.checked_add(table_size) {
        Some(end) => {
            if end > bytes.len() {
                return Err(Error::Truncated);
            }
        },
        None => return Err(Error::Truncated),
    }
    let length = bytes.len();
    let mut segments: Vec<LoadSegment> = Vec::new();
    let mut entry_is_executable = false;
    let mut index: usize = 0;
    while index < program_count
        invariant
            length == bytes@.len(),
            bytes@.len() >= ELF_HEADER_SIZE,
            header_valid(bytes@),
            entry == le64(bytes@, 24),
            index <= program_count,
            program_entry_size >= PROGRAM_HEADER_SIZE,
            program_offset == le64(bytes@, 32),
            program_entry_size == le16(bytes@, 54),
            program_count == le16(bytes@, 56),
            program_offset + program_entry_size * program_count <= bytes@.len(),
            segments@ == loadable_segments(bytes@, program_offset as int, program_entry_size as int, index as int),
            segments@.len() <= MAX_LOAD_SEGMENTS,
            forall|i: int| 0 <= i < segments@.len() ==> segment_valid(#[trigger] segments@[i], bytes@.len() as int),
            pairwise_disjoint(segments@),
            entry_is_executable == entry_executable(segments@, entry),
            headers_accepted(bytes@, program_offset as int, program_entry_size as int, index as int),
            le64(bytes@, 32) <= usize::MAX,
        decreases program_count - index,
    {
        proof {
            assert(program_entry_size * (index + 1) <= program_entry_size * program_count) by (nonlinear_arith)
                requires index < program_count;
            assert(program_entry_size * (index + 1) == program_entry_size * index + program_entry_size) by (nonlinear_arith);
        }
        let offset = program_offset + program_entry_size * index;
        let kind = match read_u32(bytes, offset) { Ok(v) => v, Err(e) => return Err(e) };
        let ghost table = program_offset as int;
        let ghost size = program_entry_size as int;
        let ghost count = program_count as int;
        proof {
            lemma_loadable_prefix(bytes@, table, size, index + 1, count);
        }
        if kind != PT_LOAD {
            proof {
                assert forall|k: int|
                    0 <= k < index + 1 && le32(bytes@, table + size * k) == PT_LOAD implies #[trigger] segment_accepted(
                    bytes@,
                    table + size * k,
                ) by {
                    if k == index {
                        assert(table + size * k == offset);
                    }
                }
            }
            index = index + 1;
            continue;
        }
        if segments.len() == MAX_LOAD_SEGMENTS {
            return Err(Error::TooManySegments);
        }
        let segment = match decode_segment(bytes, offset) {
            Ok(segment) => segment,
            Err(error) => {
                proof {
                    assert(!headers_accepted(bytes@, table, size, count)) by {
                        assert(table + size * index == offset);
                        assert(!segment_accepted(bytes@, table + size * index));
                    }
                }
                return Err(error);
            },
        };
        if overlaps_any(&segments, segment) {
            proof {
                let loads = loadable_segments(bytes@, table, size, count);
                let i = choose|i: int| 0 <= i < segments@.len() && mappings_overlap(#[trigger] segments@[i], segment);
                let next = loadable_segments(bytes@, table, size, index + 1);
                assert(table + size * index == offset);
                assert(next == segments@.push(segment));
                assert(loads.subrange(0, next.len() as int) == next);
                assert(loads.subrange(0, next.len() as int)[i] == loads[i]);
                assert(loads[i] == segments@[i]);
                assert(loads.subrange(0, next.len() as int)[segments@.len() as int] == loads[segments@.len() as int]);
                assert(loads[segments@.len() as int] == segment);
                assert(!pairwise_disjoint(loads));
            }
            return Err(Error::OverlappingSegments);
        }
        let ghost before = segments@;
        let covers = segment.executable && entry >= segment.virtual_address && entry
            < segment.virtual_address + segment.memory_size as u64;
        if covers {
            entry_is_executable = true;
        }
        proof {
            lemma_push_segment(before, segment, entry);
        }
        segments.push(segment);
        proof {
            assert forall|k: int|
                0 <= k < index + 1 && le32(bytes@, table + size * k) == PT_LOAD implies #[trigger] segment_accepted(
                bytes@,
                table + size * k,
            ) by {
                if k == index {
                    assert(table + size * k == offset);
                }
            }
        }
        index = index + 1;
    }
    if segments.len() == 0 || !entry_is_executable {
        return Err(Error::InvalidEntry);
    }
    Ok(Image { entry, segments })
}

} // verus!
