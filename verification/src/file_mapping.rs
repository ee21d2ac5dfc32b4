//! Bounds for read-only private file mappings.
use vstd::prelude::*;

verus! {

/// Largest mapping, in bytes.
pub const MAX_SIZE: usize = 65536;

/// Size of one page.
pub const PAGE_SIZE: usize = 4096;

/// Whether a mapping of `length` bytes at `offset` into a file of `file_size` bytes
/// is accepted.
pub open spec fn mapping_accepted(file_size: int, offset: int, length: int) -> bool {
    &&& length != 0
    &&& length <= MAX_SIZE
    &&& offset % PAGE_SIZE as int == 0
    &&& offset + length <= file_size
}

/// `length` rounded up to a whole number of pages.
pub open spec fn page_round_up(length: int) -> int {
    ((length + PAGE_SIZE - 1) / PAGE_SIZE as int) * PAGE_SIZE
}

/// Bytes a mapping of `length` bytes at `offset` occupies, in whole pages, or `None`
/// when the request is refused.
pub fn mapped_size(file_size: usize, offset: usize, length: usize) -> (size: Option<usize>)
    ensures
        size is Some <==> mapping_accepted(file_size as int, offset as int, length as int),
        size is Some ==> size->0 == page_round_up(length as int),
{
    if length == 0 || length > MAX_SIZE || offset % PAGE_SIZE != 0 {
        return None;
    }
    match offset.checked_add(length) {
        None => None,
        Some(end) => {
            if end > file_size {
                None
            } else {
                let rounded = (length + 4095) / 4096 * 4096;
                Some(rounded)
            }
        },
    }
}

} // verus!
