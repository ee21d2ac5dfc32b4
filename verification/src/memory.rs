//! The physical frame allocator: usable memory regions handed out one 4 KiB frame
//! at a time, region by region.
use vstd::prelude::*;

verus! {

/// Size of a physical frame.
pub const FRAME_SIZE: u64 = 4096;

/// Usable regions the allocator can hold.
pub const MAX_USABLE_REGIONS: usize = 128;

/// A region of the boot memory map.
#[derive(Clone, Copy, PartialEq, Eq, Structural, Debug)]
pub struct Region {
    pub start: u64,
    pub end: u64,
    pub usable: bool,
}

/// The frames of one usable region: those from `start` to `next` are handed out.
#[derive(Clone, Copy, PartialEq, Eq, Structural, Debug)]
pub struct FrameRange {
    pub start: u64,
    pub next: u64,
    pub end: u64,
}

/// Occupancy of the allocator.
#[derive(Clone, Copy, PartialEq, Eq, Structural, Debug)]
pub struct Stats {
    pub usable_regions: usize,
    pub total_frames: u64,
    pub allocated_frames: u64,
    pub remaining_frames: u64,
}

/// Why the allocator could not be set up.
#[derive(Clone, Copy, PartialEq, Eq, Structural, Debug)]
pub enum InitError {
    AlreadyInitialized,
    TooManyUsableRegions,
    AddressOverflow,
    NoUsableFrames,
}

/// Frames in the ranges, handed out or not.
pub open spec fn capacity(ranges: Seq<FrameRange>) -> int
    decreases ranges.len(),
{
    if ranges.len() == 0 {
        0
    } else {
        capacity(ranges.drop_last()) + (ranges.last().end - ranges.last().start) / (FRAME_SIZE as int)
    }
}

/// Frames handed out of the ranges.
pub open spec fn used(ranges: Seq<FrameRange>) -> int
    decreases ranges.len(),
{
    if ranges.len() == 0 {
        0
    } else {
        used(ranges.drop_last()) + (ranges.last().next - ranges.last().start) / (FRAME_SIZE as int)
    }
}

/// A range is frame aligned and its cursor between its ends.
pub open spec fn range_ok(range: FrameRange) -> bool {
    &&& range.start % FRAME_SIZE == 0
    &&& range.next % FRAME_SIZE == 0
    &&& range.end % FRAME_SIZE == 0
    &&& range.start <= range.next <= range.end
}

/// The allocator: the usable ranges, the one it takes frames from, and counters.
pub struct FrameAllocator {
    ranges: Vec<FrameRange>,
    current_range: usize,
    total_frames: u64,
    allocated_frames: u64,
    initialized: bool,
}

impl FrameAllocator {
    pub closed spec fn spec_ranges(&self) -> Seq<FrameRange> {
        self.ranges@
    }

    pub closed spec fn spec_initialized(&self) -> bool {
        self.initialized
    }

    pub closed spec fn spec_current(&self) -> usize {
        self.current_range
    }

    pub closed spec fn spec_allocated(&self) -> u64 {
        self.allocated_frames
    }

    pub closed spec fn spec_total(&self) -> u64 {
        self.total_frames
    }

    /// Ranges aligned and in order of use: those before the current one are used up,
    /// those after it untouched; the counters count their frames.
    pub closed spec fn wf(&self) -> bool {
        &&& self.ranges@.len() <= MAX_USABLE_REGIONS
        &&& self.current_range <= self.ranges@.len()
        &&& forall|i: int| 0 <= i < self.ranges@.len() ==> range_ok(#[trigger] self.ranges@[i])
        &&& forall|i: int| 0 <= i < self.current_range ==> (#[trigger] self.ranges@[i]).next == self.ranges@[i].end
        &&& forall|i: int|
            self.current_range < i < self.ranges@.len() ==> (#[trigger] self.ranges@[i]).next == self.ranges@[i].start
        &&& self.total_frames == capacity(self.ranges@)
        &&& self.allocated_frames == used(self.ranges@)
        &&& !self.initialized ==> self.current_range == 0 && forall|i: int|
            0 <= i < self.ranges@.len() ==> (#[trigger] self.ranges@[i]).next == self.ranges@[i].start
    }

    /// The frame at `address` was handed out.
    pub open spec fn issued(&self, address: u64) -> bool {
        exists|i: int|
            0 <= i < self.spec_ranges().len() && #[trigger] self.spec_ranges()[i].start <= address < self.spec_ranges()[i].next
    }

    /// The frame at `address` lies in a usable range.
    pub open spec fn spec_contains(&self, address: u64) -> bool {
        exists|i: int|
            0 <= i < self.spec_ranges().len() && #[trigger] self.spec_ranges()[i].start <= address < self.spec_ranges()[i].end
    }

    /// No two usable ranges share a frame.
    pub open spec fn disjoint(&self) -> bool {
        forall|i: int, j: int|
            #![trigger self.spec_ranges()[i], self.spec_ranges()[j]]
            0 <= i < j < self.spec_ranges().len() ==> self.spec_ranges()[i].end <= self.spec_ranges()[j].start
                || self.spec_ranges()[j].end <= self.spec_ranges()[i].start
    }

    pub fn empty() -> (allocator: Self)
        ensures
            allocator.wf(),
            !allocator.spec_initialized(),
            allocator.spec_ranges() == Seq::<FrameRange>::empty(),
    {
        FrameAllocator { ranges: Vec::new(), current_range: 0, total_frames: 0, allocated_frames: 0, initialized: false }
    }
}


/// `value` rounded down to a frame boundary.
pub open spec fn frame_floor(value: int) -> int {
    value - value % (FRAME_SIZE as int)
}

/// The ranges `initial` grows to over the first `n` regions, or the error that
/// stops it: each usable region, shrunk to whole frames, is added unless nothing is
/// left of it; a start too close to the end of the address space to round up is an
/// overflow, and more ranges than fit are refused.
pub open spec fn scan(initial: Seq<FrameRange>, regions: Seq<Region>, n: int) -> Result<Seq<FrameRange>, InitError>
    decreases n,
{
    if n <= 0 {
        Ok(initial)
    } else {
        match scan(initial, regions, n - 1) {
            Err(e) => Err(e),
            Ok(ranges) => {
                let region = regions[n - 1];
                if !region.usable {
                    Ok(ranges)
                } else if region.start + (FRAME_SIZE - 1) > u64::MAX {
                    Err(InitError::AddressOverflow)
                } else {
                    let start = frame_floor(region.start + (FRAME_SIZE - 1));
                    let end = frame_floor(region.end as int);
                    if start >= end {
                        Ok(ranges)
                    } else if ranges.len() == MAX_USABLE_REGIONS {
                        Err(InitError::TooManyUsableRegions)
                    } else {
                        Ok(ranges.push(FrameRange { start: start as u64, next: start as u64, end: end as u64 }))
                    }
                }
            },
        }
    }
}

proof fn lemma_capacity_push(ranges: Seq<FrameRange>, range: FrameRange)
    ensures
        capacity(ranges.push(range)) == capacity(ranges) + (range.end - range.start) / (FRAME_SIZE as int),
        used(ranges.push(range)) == used(ranges) + (range.next - range.start) / (FRAME_SIZE as int),
{
    assert(ranges.push(range).drop_last() =~= ranges);
}

proof fn lemma_capacity_bound(ranges: Seq<FrameRange>)
    requires
        forall|i: int| 0 <= i < ranges.len() ==> range_ok(#[trigger] ranges[i]),
    ensures
        0 <= used(ranges) <= capacity(ranges) <= ranges.len() * 0x10_0000_0000_0000,
    decreases ranges.len(),
{
    if ranges.len() > 0 {
        let rest = ranges.drop_last();
        assert forall|i: int| 0 <= i < rest.len() implies range_ok(#[trigger] rest[i]) by {
            assert(rest[i] == ranges[i]);
        }
        lemma_capacity_bound(rest);
        let last = ranges.last();
        assert(range_ok(ranges[ranges.len() - 1]));
        assert((last.next - last.start) / 4096 <= (last.end - last.start) / 4096) by (nonlinear_arith)
            requires last.start <= last.next <= last.end;
        assert((last.end - last.start) / 4096 <= 0x10_0000_0000_0000) by (nonlinear_arith)
            requires 0 <= last.start <= last.end <= u64::MAX;
        assert(0 <= (last.next - last.start) / 4096) by (nonlinear_arith)
            requires last.start <= last.next;
    }
}

/// Updating range `k` changes the used count by the change of its cursor.
proof fn lemma_used_update(ranges: Seq<FrameRange>, k: int, range: FrameRange)
    requires
        0 <= k < ranges.len(),
        range.start == ranges[k].start,
        range.end == ranges[k].end,
    ensures
        used(ranges.update(k, range)) == used(ranges) - (ranges[k].next - ranges[k].start) / (FRAME_SIZE as int) + (
        range.next - range.start) / (FRAME_SIZE as int),
        capacity(ranges.update(k, range)) == capacity(ranges),
    decreases ranges.len(),
{
    let updated = ranges.update(k, range);
    if k == ranges.len() - 1 {
        assert(updated.drop_last() =~= ranges.drop_last());
    } else {
        assert(updated.drop_last() =~= ranges.drop_last().update(k, range));
        lemma_used_update(ranges.drop_last(), k, range);
    }
}

/// Once the scan fails it keeps failing the same way.
proof fn lemma_scan_error_stays(initial: Seq<FrameRange>, regions: Seq<Region>, m: int, n: int)
    requires
        0 <= m <= n,
        scan(initial, regions, m) is Err,
    ensures
        scan(initial, regions, n) == scan(initial, regions, m),
    decreases n - m,
{
    if m < n {
        lemma_scan_error_stays(initial, regions, m, n - 1);
    }
}

impl FrameAllocator {
    /// Takes the usable regions of the memory map, each shrunk to whole frames.
    pub fn initialize(&mut self, regions: &[Region]) -> (result: Result<(), InitError>)
        requires
            old(self).wf(),
        ensures
            final(self).wf(),
            old(self).spec_initialized() ==> result == Err::<(), InitError>(InitError::AlreadyInitialized) && *final(
                self) == *old(self),
            !old(self).spec_initialized() ==> match scan(old(self).spec_ranges(), regions@, regions@.len() as int) {
                Err(e) => result == Err::<(), InitError>(e) && !final(self).spec_initialized(),
                Ok(ranges) => {
                    &&& final(self).spec_ranges() == ranges
                    &&& if capacity(ranges) == 0 {
                        result == Err::<(), InitError>(InitError::NoUsableFrames) && !final(self).spec_initialized()
                    } else {
                        result is Ok && final(self).spec_initialized()
                    }
                },
            },
    {
        if self.initialized {
            return Err(InitError::AlreadyInitialized);
        }
        let n = regions.len();
        let mut i: usize = 0;
        while i < n
            invariant
                self.wf(),
                !self.initialized,
                !old(self).initialized,
                n == regions@.len(),
                i <= n,
                scan(old(self).ranges@, regions@, i as int) == Ok::<Seq<FrameRange>, InitError>(self.ranges@),
            decreases n - i,
        {
            let region = regions[i];
            if region.usable {
                let raised = match region.start.checked_add(FRAME_SIZE - 1) {
                    Some(raised) => raised,
                    None => {
                        proof {
                            lemma_scan_error_stays(old(self).ranges@, regions@, i as int + 1, n as int);
                        }
                        return Err(InitError::AddressOverflow);
                    },
                };
                let start = raised - raised % FRAME_SIZE;
                let end = region.end - region.end % FRAME_SIZE;
                if start < end {
                    if self.ranges.len() == MAX_USABLE_REGIONS {
                        proof {
                            lemma_scan_error_stays(old(self).ranges@, regions@, i as int + 1, n as int);
                        }
                        return Err(InitError::TooManyUsableRegions);
                    }
                    let frames = (end - start) / FRAME_SIZE;
                    let range = FrameRange { start, next: start, end };
                    proof {
                        lemma_capacity_push(self.ranges@, range);
                        lemma_capacity_bound(self.ranges@);
                        assert(frames <= 0x10_0000_0000_0000) by (nonlinear_arith)
                            requires frames == (end - start) / 4096, start < end;
                        assert(range_ok(range)) by {
                            assert(start % 4096 == 0) by (nonlinear_arith)
                                requires start == raised - raised % 4096;
                            assert(end % 4096 == 0) by (nonlinear_arith)
                                requires end == region.end - region.end % 4096;
                        }
                    }
                    self.total_frames = self.total_frames + frames;
                    self.ranges.push(range);
                }
            }
            i = i + 1;
        }
        if self.total_frames == 0 {
            return Err(InitError::NoUsableFrames);
        }
        self.initialized = true;
        Ok(())
    }

    /// The next free frame: the first one left in the current range, moving to the
    /// next range when it is used up. None before initialisation or when every frame
    /// is handed out.
    pub fn allocate_frame(&mut self) -> (frame: Option<u64>)
        requires
            old(self).wf(),
        ensures
            final(self).wf(),
            final(self).spec_initialized() == old(self).spec_initialized(),
            final(self).spec_total() == old(self).spec_total(),
            final(self).spec_ranges().len() == old(self).spec_ranges().len(),
            forall|i: int|
                0 <= i < old(self).spec_ranges().len() ==> (#[trigger] final(self).spec_ranges()[i]).start == old(
                    self).spec_ranges()[i].start && final(self).spec_ranges()[i].end == old(self).spec_ranges()[i].end,
            match frame {
                Some(address) => {
                    &&& old(self).spec_initialized()
                    &&& address % FRAME_SIZE == 0
                    &&& old(self).spec_contains(address)
                    &&& old(self).disjoint() ==> !old(self).issued(address)
                    &&& forall|x: u64| #[trigger] final(self).issued(x) <==> (old(self).issued(x) || (address <= x
                        < address + FRAME_SIZE))
                    &&& final(self).spec_allocated() == old(self).spec_allocated() + 1
                },
                None => {
                    &&& final(self).spec_ranges() == old(self).spec_ranges()
                    &&& old(self).spec_initialized() ==> forall|i: int|
                        0 <= i < old(self).spec_ranges().len() ==> (#[trigger] old(self).spec_ranges()[i]).next
                            == old(self).spec_ranges()[i].end
                },
            },
    {
        if !self.initialized {
            return None;
        }
        while self.current_range < self.ranges.len()
            invariant
                self.wf(),
                self.initialized,
                old(self).initialized,
                self.ranges@ == old(self).ranges@,
                self.allocated_frames == old(self).allocated_frames,
                self.total_frames == old(self).total_frames,
            decreases self.ranges@.len() - self.current_range,
        {
            let index = self.current_range;
            let range = self.ranges[index];
            if range.next < range.end {
                let address = range.next;
                let updated = FrameRange { next: range.next + FRAME_SIZE, ..range };
                let ghost before = self.ranges@;
                proof {
                    assert(range_ok(before[index as int]));
                    assert(range.next + FRAME_SIZE <= range.end) by (nonlinear_arith)
                        requires range.next % 4096 == 0, range.end % 4096 == 0, range.next < range.end;
                    lemma_used_update(before, index as int, updated);
                    assert((updated.next - updated.start) / 4096 == (range.next - range.start) / 4096 + 1) by (nonlinear_arith)
                        requires updated.next == range.next + 4096, updated.start == range.start, range.start <= range.next;
                    lemma_capacity_bound(before);
                    lemma_capacity_bound(before.update(index as int, updated));
                }
                self.ranges.set(index, updated);
                self.allocated_frames = self.allocated_frames + 1;
                proof {
                    assert(before[index as int].start <= address < before[index as int].end);
                    assert(old(self).spec_ranges()[index as int].start <= address < old(self).spec_ranges()[index as int].end);
                    assert forall|x: u64| #[trigger] self.issued(x) <==> (old(self).issued(x) || (address <= x < address
                        + FRAME_SIZE)) by {
                        if self.issued(x) {
                            let i = choose|i: int|
                                0 <= i < self.spec_ranges().len() && #[trigger] self.spec_ranges()[i].start <= x
                                    < self.spec_ranges()[i].next;
                            if i != index {
                                assert(self.spec_ranges()[i] == before[i]);
                            } else if x < address {
                                assert(before[i].start <= x < before[i].next);
                            }
                        }
                        if old(self).issued(x) {
                            let i = choose|i: int|
                                0 <= i < before.len() && #[trigger] before[i].start <= x < before[i].next;
                            assert(self.spec_ranges()[i].start <= x < self.spec_ranges()[i].next);
                        }
                        if address <= x < address + FRAME_SIZE {
                            assert(self.spec_ranges()[index as int].start <= x < self.spec_ranges()[index as int].next);
                        }
                    }
                    if old(self).disjoint() && old(self).issued(address) {
                        let i = choose|i: int|
                            0 <= i < before.len() && #[trigger] before[i].start <= address < before[i].next;
                        if i < index {
                            assert(before[i].end <= before[index as int].start || before[index as int].end <= before[i].start);
                        } else if index < i {
                            assert(before[index as int].end <= before[i].start || before[i].end <= before[index as int].start);
                        }
                    }
                }
                return Some(address);
            }
            proof {
                assert(range_ok(self.ranges@[index as int]));
            }
            self.current_range = self.current_range + 1;
        }
        None
    }

    /// Whether the frame at `address` lies in a usable range.
    pub fn contains(&self, address: u64) -> (inside: bool)
        ensures
            inside == self.spec_contains(address),
    {
        let n = self.ranges.len();
        let mut i: usize = 0;
        while i < n
            invariant
                n == self.ranges@.len(),
                i <= n,
                forall|k: int| 0 <= k < i ==> !(#[trigger] self.spec_ranges()[k].start <= address < self.spec_ranges()[k].end),
            decreases n - i,
        {
            let range = self.ranges[i];
            if address >= range.start && address < range.end {
                assert(self.spec_ranges()[i as int].start <= address < self.spec_ranges()[i as int].end);
                return true;
            }
            i = i + 1;
        }
        false
    }

    pub fn stats(&self) -> (stats: Stats)
        requires
            self.wf(),
        ensures
            stats == (Stats {
                usable_regions: self.spec_ranges().len() as usize,
                total_frames: capacity(self.spec_ranges()) as u64,
                allocated_frames: used(self.spec_ranges()) as u64,
                remaining_frames: (capacity(self.spec_ranges()) - used(self.spec_ranges())) as u64,
            }),
    {
        proof {
            lemma_capacity_bound(self.ranges@);
        }
        Stats {
            usable_regions: self.ranges.len(),
            total_frames: self.total_frames,
            allocated_frames: self.allocated_frames,
            remaining_frames: self.total_frames - self.allocated_frames,
        }
    }
}


proof fn lemma_full_used(ranges: Seq<FrameRange>)
    requires
        forall|i: int| 0 <= i < ranges.len() ==> (#[trigger] ranges[i]).next == ranges[i].end,
    ensures
        used(ranges) == capacity(ranges),
    decreases ranges.len(),
{
    if ranges.len() > 0 {
        let rest = ranges.drop_last();
        assert forall|i: int| 0 <= i < rest.len() implies (#[trigger] rest[i]).next == rest[i].end by {
            assert(rest[i] == ranges[i]);
        }
        lemma_full_used(rest);
        assert(ranges[ranges.len() - 1].next == ranges[ranges.len() - 1].end);
    }
}

/// Frames not yet handed out.
pub open spec fn remaining(allocator: FrameAllocator) -> int {
    capacity(allocator.spec_ranges()) - used(allocator.spec_ranges())
}

/// `after` is `before` once it handed out the frame at `address`.
pub open spec fn handed_out(before: FrameAllocator, address: u64, after: FrameAllocator) -> bool {
    &&& after.spec_ranges().len() == before.spec_ranges().len()
    &&& forall|i: int|
        0 <= i < before.spec_ranges().len() ==> (#[trigger] after.spec_ranges()[i]).start == before.spec_ranges()[i].start
            && after.spec_ranges()[i].end == before.spec_ranges()[i].end
    &&& before.spec_contains(address)
    &&& before.disjoint() ==> !before.issued(address)
    &&& forall|x: u64| #[trigger] after.issued(x) <==> (before.issued(x) || (address <= x < address + FRAME_SIZE))
}

/// Over any run of allocations from disjoint usable ranges, no frame is handed out
/// twice: two frames handed out one after the other differ.
pub proof fn law_frames_handed_out_once(a0: FrameAllocator, f1: u64, a1: FrameAllocator, f2: u64, a2: FrameAllocator)
    requires
        a0.disjoint(),
        handed_out(a0, f1, a1),
        handed_out(a1, f2, a2),
    ensures
        f1 != f2,
        a2.disjoint(),
{
    assert(a1.issued(f1));
    assert forall|i: int, j: int|
        #![trigger a1.spec_ranges()[i], a1.spec_ranges()[j]]
        0 <= i < j < a1.spec_ranges().len() implies a1.spec_ranges()[i].end <= a1.spec_ranges()[j].start
            || a1.spec_ranges()[j].end <= a1.spec_ranges()[i].start by {
        assert(a0.spec_ranges()[i].end <= a0.spec_ranges()[j].start || a0.spec_ranges()[j].end <= a0.spec_ranges()[i].start);
    }
    assert forall|i: int, j: int|
        #![trigger a2.spec_ranges()[i], a2.spec_ranges()[j]]
        0 <= i < j < a2.spec_ranges().len() implies a2.spec_ranges()[i].end <= a2.spec_ranges()[j].start
            || a2.spec_ranges()[j].end <= a2.spec_ranges()[i].start by {
        assert(a1.spec_ranges()[i].end <= a1.spec_ranges()[j].start || a1.spec_ranges()[j].end <= a1.spec_ranges()[i].start);
    }
}

/// Sets up `allocator` from the memory map.
pub fn init(allocator: &mut FrameAllocator, regions: &[Region]) -> (result: Result<(), InitError>)
    requires
        old(allocator).wf(),
    ensures
        final(allocator).wf(),
        old(allocator).spec_initialized() ==> result == Err::<(), InitError>(InitError::AlreadyInitialized),
        !old(allocator).spec_initialized() ==> match scan(old(allocator).spec_ranges(), regions@, regions@.len() as int) {
            Err(e) => result == Err::<(), InitError>(e),
            Ok(ranges) => final(allocator).spec_ranges() == ranges && (result is Ok <==> capacity(ranges) != 0),
        },
{
    allocator.initialize(regions)
}

/// Occupancy of `allocator`.
pub fn stats(allocator: &FrameAllocator) -> (stats: Stats)
    requires
        allocator.wf(),
    ensures
        stats.total_frames == capacity(allocator.spec_ranges()),
        stats.allocated_frames == used(allocator.spec_ranges()),
        stats.remaining_frames == remaining(*allocator),
        stats.usable_regions == allocator.spec_ranges().len(),
{
    proof {
        lemma_capacity_bound(allocator.ranges@);
    }
    allocator.stats()
}

/// Three frames handed out in a row are distinct and inside usable memory; this
/// holds whenever at least three frames are left of disjoint usable ranges.
pub fn self_test(allocator: &mut FrameAllocator) -> (passed: bool)
    requires
        old(allocator).wf(),
    ensures
        final(allocator).wf(),
        old(allocator).spec_initialized() && old(allocator).disjoint() && remaining(*old(allocator)) >= 3 ==> passed,
        !old(allocator).spec_initialized() ==> !passed,
        passed ==> final(allocator).spec_allocated() == old(allocator).spec_allocated() + 3,
        final(allocator).spec_ranges().len() == old(allocator).spec_ranges().len(),
{
    let ghost a0 = *allocator;
    let ghost good = a0.spec_initialized() && a0.disjoint() && remaining(a0) >= 3;
    proof {
        lemma_remaining_means_frame(a0);
    }
    let first = allocator.allocate_frame();
    let ghost a1 = *allocator;
    proof {
        lemma_remaining_means_frame(a1);
    }
    let second = allocator.allocate_frame();
    let ghost a2 = *allocator;
    proof {
        lemma_remaining_means_frame(a2);
    }
    let third = allocator.allocate_frame();
    let ghost a3 = *allocator;
    let (first, second, third) = match (first, second, third) {
        (Some(a), Some(b), Some(c)) => (a, b, c),
        _ => return false,
    };
    proof {
        if good {
            assert(handed_out(a0, first, a1));
            assert(handed_out(a1, second, a2));
            assert(handed_out(a2, third, a3));
            law_frames_handed_out_once(a0, first, a1, second, a2);
            law_frames_handed_out_once(a1, second, a2, third, a3);
            assert(a1.issued(first));
            assert(a2.issued(first));
            assert(!a2.issued(third));
            lemma_contains_kept(a0, a3, first);
            lemma_contains_kept(a1, a3, second);
            lemma_contains_kept(a2, a3, third);
        }
    }
    first != second && second != third && first != third && allocator.contains(first) && allocator.contains(second)
        && allocator.contains(third)
}

/// An initialised allocator with frames left hands one out.
proof fn lemma_remaining_means_frame(a: FrameAllocator)
    requires
        a.wf(),
    ensures
        a.spec_initialized() && remaining(a) > 0 ==> exists|i: int|
            0 <= i < a.spec_ranges().len() && (#[trigger] a.spec_ranges()[i]).next != a.spec_ranges()[i].end,
        remaining(a) == a.spec_total() - a.spec_allocated(),
{
    if a.spec_initialized() && remaining(a) > 0 {
        if forall|i: int| 0 <= i < a.spec_ranges().len() ==> (#[trigger] a.spec_ranges()[i]).next == a.spec_ranges()[i].end {
            lemma_full_used(a.spec_ranges());
        }
    }
}

/// Where the ranges keep their bounds, what one allocator contains the other does.
proof fn lemma_contains_kept(a: FrameAllocator, b: FrameAllocator, address: u64)
    requires
        a.spec_contains(address),
        a.spec_ranges().len() == b.spec_ranges().len(),
        forall|i: int|
            0 <= i < a.spec_ranges().len() ==> (#[trigger] b.spec_ranges()[i]).start == a.spec_ranges()[i].start
                && b.spec_ranges()[i].end == a.spec_ranges()[i].end,
    ensures
        b.spec_contains(address),
{
    let i = choose|i: int|
        0 <= i < a.spec_ranges().len() && #[trigger] a.spec_ranges()[i].start <= address < a.spec_ranges()[i].end;
    assert(b.spec_ranges()[i].start <= address < b.spec_ranges()[i].end);
}

} // verus!
