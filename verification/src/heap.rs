//! Bookkeeping of the kernel heap: a bump region with a best-fit list of freed
//! blocks and a table of live allocations.
use vstd::prelude::*;

verus! {

/// Virtual address of the heap region.
pub const START: u64 = 0x4444_5000_0000;

/// Size of the heap region in bytes.
pub const SIZE: usize = 256 * 1024;

/// Live allocations the heap can track.
pub const MAX_ALLOCATIONS: usize = 512;

/// Freed blocks the heap remembers for reuse.
pub const MAX_FREE_BLOCKS: usize = 128;

/// `alignment` is a power of two.
pub open spec fn power_of_two(alignment: usize) -> bool {
    alignment != 0 && alignment & ((alignment - 1) as usize) == 0
}

proof fn lemma_round_down(x: usize, a: usize)
    requires
        a != 0,
    ensures
        (x - x % a) % (a as int) == 0,
        x % a <= x,
        x % a < a,
{
    vstd::arithmetic::div_mod::lemma_fundamental_div_mod(x as int, a as int);
    vstd::arithmetic::div_mod::lemma_mod_multiples_basic(x as int / a as int, a as int);
    vstd::arithmetic::mul::lemma_mul_is_commutative(x as int / a as int, a as int);
}

/// `value` rounded up to a multiple of `alignment`, which must be a power of two;
/// `None` where it is not, or where the result does not fit.
pub fn align_up(value: usize, alignment: usize) -> (aligned: Option<usize>)
    ensures
        !power_of_two(alignment) ==> aligned is None,
        power_of_two(alignment) && value + alignment - 1 > usize::MAX ==> aligned is None,
        power_of_two(alignment) && value + alignment - 1 <= usize::MAX ==> {
            &&& aligned is Some
            &&& aligned->0 == round_up(value as int, alignment as int)
            &&& aligned->0 % alignment == 0
            &&& value <= aligned->0 < value + alignment
        },
{
    if alignment == 0 || alignment & (alignment - 1) != 0 {
        return None;
    }
    match value.checked_add(alignment - 1) {
        Some(raised) => {
            proof {
                lemma_round_down(raised, alignment);
            }
            Some(raised - raised % alignment)
        },
        None => None,
    }
}


/// `value` rounded up to a multiple of `alignment`.
pub open spec fn round_up(value: int, alignment: int) -> int {
    (value + alignment - 1) - (value + alignment - 1) % alignment
}

proof fn lemma_align_up_value(value: usize, alignment: usize)
    requires
        power_of_two(alignment),
        value + alignment - 1 <= usize::MAX,
    ensures
        round_up(value as int, alignment as int) % (alignment as int) == 0,
        value <= round_up(value as int, alignment as int) < value + alignment,
{
    lemma_round_down((value + alignment - 1) as usize, alignment);
}

/// A freed block kept for reuse.
#[derive(Clone, Copy)]
pub struct FreeBlock {
    pub ptr: usize,
    pub size: usize,
}

/// An allocation handed out and not yet freed.
#[derive(Clone, Copy)]
pub struct LiveAllocation {
    pub ptr: usize,
    pub size: usize,
}

/// Why the heap could not be set up.
#[derive(Clone, Copy, PartialEq, Eq, Structural, Debug)]
pub enum InitError {
    Paging,
    AlreadyInitialized,
    AddressOverflow,
}

/// Occupancy of the heap.
#[derive(Clone, Copy)]
pub struct Stats {
    pub start: u64,
    pub size: usize,
    pub allocated_bytes: usize,
    pub free_bytes: usize,
    pub allocations: usize,
}

/// The byte ranges `[p1, p1 + s1)` and `[p2, p2 + s2)` share a byte.
pub open spec fn overlap(p1: int, s1: int, p2: int, s2: int) -> bool {
    p1 < p2 + s2 && p2 < p1 + s1
}

/// Number of live allocations in a table.
pub open spec fn live_count(live: Seq<Option<LiveAllocation>>) -> nat
    decreases live.len(),
{
    if live.len() == 0 {
        0
    } else {
        live_count(live.drop_last()) + if live.last() is Some { 1nat } else { 0nat }
    }
}

/// Bytes held by the live allocations of a table.
pub open spec fn live_bytes(live: Seq<Option<LiveAllocation>>) -> nat
    decreases live.len(),
{
    if live.len() == 0 {
        0
    } else {
        live_bytes(live.drop_last()) + match live.last() {
            Some(a) => a.size as nat,
            None => 0nat,
        }
    }
}

/// Bytes held by the first `count` entries of a free list.
pub open spec fn free_bytes(free: Seq<Option<FreeBlock>>, count: int) -> nat
    decreases count,
{
    if count <= 0 {
        0
    } else {
        free_bytes(free, count - 1) + match free[count - 1] {
            Some(b) => b.size as nat,
            None => 0nat,
        }
    }
}

proof fn lemma_live_update(live: Seq<Option<LiveAllocation>>, i: int, x: Option<LiveAllocation>)
    requires
        0 <= i < live.len(),
    ensures
        live_count(live.update(i, x)) + (if live[i] is Some { 1int } else { 0int }) == live_count(live)
            + (if x is Some { 1int } else { 0int }),
        live_bytes(live.update(i, x)) + (match live[i] {
            Some(a) => a.size as int,
            None => 0int,
        }) == live_bytes(live) + (match x {
            Some(a) => a.size as int,
            None => 0int,
        }),
    decreases live.len(),
{
    let u = live.update(i, x);
    if i == live.len() - 1 {
        assert(u.drop_last() =~= live.drop_last());
    } else {
        assert(u.drop_last() =~= live.drop_last().update(i, x));
        lemma_live_update(live.drop_last(), i, x);
    }
}

proof fn lemma_live_bounds(live: Seq<Option<LiveAllocation>>)
    requires
        forall|k: int| 0 <= k < live.len() && (#[trigger] live[k]) is Some ==> live[k]->0.size <= SIZE,
    ensures
        live_count(live) <= live.len(),
        live_bytes(live) <= live_count(live) * SIZE,
    decreases live.len(),
{
    if live.len() > 0 {
        let rest = live.drop_last();
        assert forall|k: int| 0 <= k < rest.len() && (#[trigger] rest[k]) is Some implies rest[k]->0.size <= SIZE by {
            assert(rest[k] == live[k]);
        }
        lemma_live_bounds(rest);
    }
}

proof fn lemma_free_bound(free: Seq<Option<FreeBlock>>, count: int)
    requires
        0 <= count <= free.len(),
        forall|k: int| 0 <= k < count && (#[trigger] free[k]) is Some ==> free[k]->0.size <= SIZE,
    ensures
        free_bytes(free, count) <= count * SIZE,
    decreases count,
{
    if count > 0 {
        lemma_free_bound(free, count - 1);
    }
}

/// Whether a free block can hold `size` bytes at `alignment`.
pub open spec fn fits(block: FreeBlock, size: usize, alignment: usize) -> bool {
    &&& block.ptr + alignment - 1 <= usize::MAX
    &&& round_up(block.ptr as int, alignment as int) - block.ptr + size <= block.size
}

/// `index` is the block best fit picks: the smallest block that fits, the first of
/// equal ones.
pub open spec fn best_fit(free: Seq<Option<FreeBlock>>, count: int, size: usize, alignment: usize, index: int) -> bool {
    &&& 0 <= index < count
    &&& free[index] is Some
    &&& fits(free[index]->0, size, alignment)
    &&& forall|k: int|
        0 <= k < count && (#[trigger] free[k]) is Some && fits(free[k]->0, size, alignment) ==> free[k]->0.size
            >= free[index]->0.size
    &&& forall|k: int|
        0 <= k < index && (#[trigger] free[k]) is Some && fits(free[k]->0, size, alignment) ==> free[k]->0.size
            > free[index]->0.size
}

/// Whether some entry of the live table is unused.
pub open spec fn has_vacancy(live: Seq<Option<LiveAllocation>>) -> bool {
    exists|k: int| 0 <= k < live.len() && (#[trigger] live[k]) is None
}

/// The heap region, the bump pointer, the freed blocks and the live allocations.
pub struct HeapState {
    start: usize,
    end: usize,
    next: usize,
    total_allocations: usize,
    total_allocated_bytes: usize,
    live_allocations: [Option<LiveAllocation>; 512],
    free_list: [Option<FreeBlock>; 128],
    free_count: usize,
}

impl HeapState {
    pub closed spec fn spec_start(&self) -> usize {
        self.start
    }

    pub closed spec fn spec_end(&self) -> usize {
        self.end
    }

    pub closed spec fn spec_next(&self) -> usize {
        self.next
    }

    /// The live allocation table.
    pub closed spec fn live(&self) -> Seq<Option<LiveAllocation>> {
        self.live_allocations@
    }

    /// The free list.
    pub closed spec fn free(&self) -> Seq<Option<FreeBlock>> {
        self.free_list@
    }

    pub closed spec fn spec_free_count(&self) -> usize {
        self.free_count
    }

    /// Everything handed out or kept for reuse lies between the start of the region
    /// and the bump pointer, and no two such ranges share a byte.
    pub closed spec fn wf(&self) -> bool {
        let live = self.live_allocations@;
        let free = self.free_list@;
        &&& self.free_count <= MAX_FREE_BLOCKS
        &&& forall|j: int| self.free_count <= j < MAX_FREE_BLOCKS ==> (#[trigger] free[j]) is None
        &&& self.total_allocations == live_count(live)
        &&& self.total_allocated_bytes == live_bytes(live)
        &&& self.start == 0 ==> {
            &&& self.free_count == 0
            &&& forall|k: int| 0 <= k < MAX_ALLOCATIONS ==> (#[trigger] live[k]) is None
        }
        &&& self.start != 0 ==> {
            &&& self.start == START
            &&& self.start <= self.next <= self.end
            &&& self.end == self.start + SIZE
        }
        &&& forall|k: int|
            0 <= k < MAX_ALLOCATIONS && (#[trigger] live[k]) is Some ==> self.start <= live[k]->0.ptr && live[k]->0.ptr
                + live[k]->0.size <= self.next
        &&& forall|j: int|
            0 <= j < MAX_FREE_BLOCKS && (#[trigger] free[j]) is Some ==> {
                &&& self.start <= free[j]->0.ptr
                &&& free[j]->0.ptr + free[j]->0.size <= self.next
                &&& free[j]->0.size > 0
            }
        &&& forall|a: int, b: int|
            #![trigger live[a], live[b]]
            0 <= a < b < MAX_ALLOCATIONS && live[a] is Some && live[b] is Some ==> !overlap(
                live[a]->0.ptr as int,
                live[a]->0.size as int,
                live[b]->0.ptr as int,
                live[b]->0.size as int,
            )
        &&& forall|a: int, b: int|
            #![trigger free[a], free[b]]
            0 <= a < b < MAX_FREE_BLOCKS && free[a] is Some && free[b] is Some ==> !overlap(
                free[a]->0.ptr as int,
                free[a]->0.size as int,
                free[b]->0.ptr as int,
                free[b]->0.size as int,
            )
        &&& forall|a: int, b: int|
            #![trigger live[a], free[b]]
            0 <= a < MAX_ALLOCATIONS && 0 <= b < MAX_FREE_BLOCKS && live[a] is Some && free[b] is Some ==> !overlap(
                live[a]->0.ptr as int,
                live[a]->0.size as int,
                free[b]->0.ptr as int,
                free[b]->0.size as int,
            )
    }

    /// A heap with no region yet.
    pub fn empty() -> (heap: Self)
        ensures
            heap.wf(),
            heap.spec_start() == 0,
            forall|k: int| 0 <= k < MAX_ALLOCATIONS ==> (#[trigger] heap.live()[k]) is None,
    {
        let heap = HeapState {
            start: 0,
            end: 0,
            next: 0,
            total_allocations: 0,
            total_allocated_bytes: 0,
            live_allocations: [None; 512],
            free_list: [None; 128],
            free_count: 0,
        };
        proof {
            assert forall|n: int| 0 <= n <= MAX_ALLOCATIONS implies live_count(heap.live_allocations@.subrange(0, n)) == 0
                && live_bytes(heap.live_allocations@.subrange(0, n)) == 0 by {
                lemma_empty_prefix(heap.live_allocations@, n);
            }
            assert(heap.live_allocations@.subrange(0, MAX_ALLOCATIONS as int) =~= heap.live_allocations@);
        }
        heap
    }
}

proof fn lemma_empty_prefix(live: Seq<Option<LiveAllocation>>, n: int)
    requires
        0 <= n <= live.len(),
        forall|k: int| 0 <= k < live.len() ==> (#[trigger] live[k]) is None,
    ensures
        live_count(live.subrange(0, n)) == 0,
        live_bytes(live.subrange(0, n)) == 0,
    decreases n,
{
    if n > 0 {
        assert(live.subrange(0, n).drop_last() =~= live.subrange(0, n - 1));
        lemma_empty_prefix(live, n - 1);
    }
}


impl HeapState {
    /// Sets up the region at `START`; `map_range` maps its pages and reports
    /// whether that worked.
    pub fn init<F: FnOnce() -> bool>(&mut self, map_range: F) -> (result: Result<(), InitError>)
        requires
            old(self).wf(),
            map_range.requires(()),
        ensures
            final(self).wf(),
            old(self).spec_start() != 0 ==> result == Err::<(), InitError>(InitError::AlreadyInitialized),
            result is Err ==> *final(self) == *old(self),
            result is Ok ==> {
                &&& old(self).spec_start() == 0
                &&& final(self).spec_start() == START
                &&& final(self).spec_next() == START
                &&& final(self).spec_end() == START + SIZE
                &&& final(self).live() == old(self).live()
                &&& final(self).free() == old(self).free()
            },
            old(self).spec_start() == 0 && START + SIZE <= usize::MAX ==> (result is Ok || result
                == Err::<(), InitError>(InitError::Paging)),
            START + SIZE > usize::MAX ==> result is Err,
    {
        if self.start != 0 {
            return Err(InitError::AlreadyInitialized);
        }
        if !map_range() {
            return Err(InitError::Paging);
        }
        if START > usize::MAX as u64 {
            return Err(InitError::AddressOverflow);
        }
        let start = START as usize;
        let end = match start.checked_add(SIZE) {
            Some(end) => end,
            None => return Err(InitError::AddressOverflow),
        };
        self.start = start;
        self.end = end;
        self.next = start;
        Ok(())
    }

    /// The first unused entry of the live table.
    fn vacant_slot(&self) -> (slot: Option<usize>)
        ensures
            match slot {
                Some(i) => i < MAX_ALLOCATIONS && self.live()[i as int] is None,
                None => !has_vacancy(self.live()),
            },
    {
        let mut i: usize = 0;
        while i < MAX_ALLOCATIONS
            invariant
                i <= MAX_ALLOCATIONS,
                forall|k: int| 0 <= k < i ==> (#[trigger] self.live_allocations@[k]) is Some,
            decreases MAX_ALLOCATIONS - i,
        {
            if self.live_allocations[i].is_none() {
                return Some(i);
            }
            i = i + 1;
        }
        None
    }

    /// Remembers `block` for reuse, unless it is empty or the free list is full.
    fn insert_free_block(&mut self, block: FreeBlock)
        requires
            old(self).wf(),
            old(self).spec_start() != 0,
            old(self).spec_start() <= block.ptr,
            block.ptr + block.size <= old(self).spec_next(),
            forall|k: int|
                0 <= k < MAX_ALLOCATIONS && (#[trigger] old(self).live()[k]) is Some ==> !overlap(
                    old(self).live()[k]->0.ptr as int,
                    old(self).live()[k]->0.size as int,
                    block.ptr as int,
                    block.size as int,
                ),
            forall|j: int|
                0 <= j < MAX_FREE_BLOCKS && (#[trigger] old(self).free()[j]) is Some ==> !overlap(
                    old(self).free()[j]->0.ptr as int,
                    old(self).free()[j]->0.size as int,
                    block.ptr as int,
                    block.size as int,
                ),
        ensures
            final(self).wf(),
            final(self).live() == old(self).live(),
            final(self).spec_start() == old(self).spec_start(),
            final(self).spec_end() == old(self).spec_end(),
            final(self).spec_next() == old(self).spec_next(),
            block.size == 0 || old(self).spec_free_count() == MAX_FREE_BLOCKS ==> {
                &&& final(self).free() == old(self).free()
                &&& final(self).spec_free_count() == old(self).spec_free_count()
            },
            block.size > 0 && old(self).spec_free_count() < MAX_FREE_BLOCKS ==> {
                &&& final(self).free() == old(self).free().update(old(self).spec_free_count() as int, Some(block))
                &&& final(self).spec_free_count() == old(self).spec_free_count() + 1
            },
    {
        if block.size == 0 {
            return;
        }
        if self.free_count < MAX_FREE_BLOCKS {
            let ghost before = self.free_list@;
            let ghost count = self.free_count as int;
            self.free_list[self.free_count] = Some(block);
            self.free_count = self.free_count + 1;
            proof {
                let free = self.free_list@;
                let live = self.live_allocations@;
                assert forall|a: int, b: int|
                    #![trigger free[a], free[b]]
                    0 <= a < b < MAX_FREE_BLOCKS && free[a] is Some && free[b] is Some implies !overlap(
                        free[a]->0.ptr as int,
                        free[a]->0.size as int,
                        free[b]->0.ptr as int,
                        free[b]->0.size as int,
                    ) by {
                    if b == count {
                        assert(before[a] is Some);
                        assert(old(self).free()[a] == before[a]);
                    } else if a == count {
                        assert(before[b] is None);
                    } else {
                        assert(before[a] is Some && before[b] is Some);
                    }
                }
                assert forall|a: int, b: int|
                    #![trigger live[a], free[b]]
                    0 <= a < MAX_ALLOCATIONS && 0 <= b < MAX_FREE_BLOCKS && live[a] is Some && free[b] is Some implies !overlap(
                        live[a]->0.ptr as int,
                        live[a]->0.size as int,
                        free[b]->0.ptr as int,
                        free[b]->0.size as int,
                    ) by {
                    if b != count {
                        assert(before[b] is Some);
                    } else {
                        assert(old(self).live()[a] == live[a]);
                    }
                }
                assert forall|j: int| 0 <= j < MAX_FREE_BLOCKS && (#[trigger] free[j]) is Some implies {
                    &&& self.start <= free[j]->0.ptr
                    &&& free[j]->0.ptr + free[j]->0.size <= self.next
                    &&& free[j]->0.size > 0
                } by {
                    if j != count {
                        assert(before[j] is Some);
                    }
                }
            }
        }
    }
}


/// The range `[ptr, ptr + size)` shares no byte with any live allocation or any
/// free block of the tables.
pub open spec fn unclaimed(live: Seq<Option<LiveAllocation>>, free: Seq<Option<FreeBlock>>, ptr: int, size: int) -> bool {
    &&& forall|k: int|
        0 <= k < live.len() && (#[trigger] live[k]) is Some ==> !overlap(live[k]->0.ptr as int, live[k]->0.size as int, ptr, size)
    &&& forall|j: int|
        0 <= j < free.len() && (#[trigger] free[j]) is Some ==> !overlap(free[j]->0.ptr as int, free[j]->0.size as int, ptr, size)
}

impl HeapState {
    /// Takes `size` bytes at `alignment` from the best-fitting free block, keeping
    /// what is left after them as a new free block.
    fn find_free(&mut self, size: usize, alignment: usize) -> (found: Option<usize>)
        requires
            old(self).wf(),
            old(self).spec_start() != 0,
            power_of_two(alignment),
            size + alignment - 1 <= isize::MAX,
        ensures
            final(self).wf(),
            final(self).live() == old(self).live(),
            final(self).spec_start() == old(self).spec_start(),
            final(self).spec_end() == old(self).spec_end(),
            final(self).spec_next() == old(self).spec_next(),
            found is Some <==> exists|i: int| best_fit(old(self).free(), old(self).spec_free_count() as int, size, alignment, i),
            found is None ==> *final(self) == *old(self),
            forall|i: int| #[trigger] best_fit(old(self).free(), old(self).spec_free_count() as int, size, alignment, i) ==> {
                &&& found == Some(round_up(old(self).free()[i]->0.ptr as int, alignment as int) as usize)
            },
            found is Some ==> {
                let ptr = found->0;
                &&& ptr % alignment == 0
                &&& final(self).spec_start() <= ptr
                &&& ptr + size <= final(self).spec_next()
                &&& unclaimed(final(self).live(), final(self).free(), ptr as int, size as int)
            },
    {
        let count = self.free_count;
        let mut best: Option<usize> = None;
        let mut best_size: usize = usize::MAX;
        let mut i: usize = 0;
        while i < count
            invariant
                self.wf(),
                self.spec_start() != 0,
                *self == *old(self),
                count == self.free_count,
                power_of_two(alignment),
                size + alignment - 1 <= isize::MAX,
                i <= count,
                best is None ==> best_size == usize::MAX && forall|k: int|
                    0 <= k < i && (#[trigger] self.free_list@[k]) is Some ==> !fits(self.free_list@[k]->0, size, alignment),
                best is Some ==> {
                    let b = best->0 as int;
                    &&& b < i
                    &&& self.free_list@[b] is Some
                    &&& fits(self.free_list@[b]->0, size, alignment)
                    &&& self.free_list@[b]->0.size == best_size
                    &&& forall|k: int|
                        0 <= k < i && (#[trigger] self.free_list@[k]) is Some && fits(self.free_list@[k]->0, size, alignment)
                            ==> self.free_list@[k]->0.size >= best_size
                    &&& forall|k: int|
                        0 <= k < b && (#[trigger] self.free_list@[k]) is Some && fits(self.free_list@[k]->0, size, alignment)
                            ==> self.free_list@[k]->0.size > best_size
                },
            decreases count - i,
        {
            if let Some(block) = self.free_list[i] {
                assert(self.free_list@[i as int] is Some);
                assert(block.ptr + alignment - 1 <= usize::MAX);
                let aligned = match align_up(block.ptr, alignment) {
                    Some(aligned) => aligned,
                    None => return None,
                };
                proof {
                    lemma_align_up_value(block.ptr, alignment);
                }
                let waste = aligned - block.ptr;
                if waste + size <= block.size && block.size < best_size {
                    best_size = block.size;
                    best = Some(i);
                }
            }
            i = i + 1;
        }
        let index = match best {
            Some(index) => index,
            None => {
                proof {
                    assert forall|j: int| !best_fit(old(self).free(), old(self).spec_free_count() as int, size, alignment, j) by {
                        if 0 <= j < count && self.free_list@[j] is Some {
                            assert(!fits(self.free_list@[j]->0, size, alignment));
                        }
                    }
                }
                return None;
            },
        };
        proof {
            assert(best_fit(old(self).free(), old(self).spec_free_count() as int, size, alignment, index as int));
            assert forall|j: int| #[trigger] best_fit(old(self).free(), old(self).spec_free_count() as int, size, alignment, j) implies j == index by {
                if j < index {
                    assert(self.free_list@[j]->0.size > best_size);
                } else if index < j {
                    assert(self.free_list@[j]->0.size >= best_size);
                }
            }
        }
        let block = self.free_list[index].unwrap();
        let ghost before = *self;
        self.free_list[index] = None;
        proof {
            lemma_align_up_value(block.ptr, alignment);
            let free = self.free_list@;
            let live = self.live_allocations@;
            assert forall|a: int, b: int|
                #![trigger free[a], free[b]]
                0 <= a < b < MAX_FREE_BLOCKS && free[a] is Some && free[b] is Some implies !overlap(
                    free[a]->0.ptr as int,
                    free[a]->0.size as int,
                    free[b]->0.ptr as int,
                    free[b]->0.size as int,
                ) by {
                assert(before.free_list@[a] is Some && before.free_list@[b] is Some);
            }
            assert forall|a: int, b: int|
                #![trigger live[a], free[b]]
                0 <= a < MAX_ALLOCATIONS && 0 <= b < MAX_FREE_BLOCKS && live[a] is Some && free[b] is Some implies !overlap(
                    live[a]->0.ptr as int,
                    live[a]->0.size as int,
                    free[b]->0.ptr as int,
                    free[b]->0.size as int,
                ) by {
                assert(before.free_list@[b] is Some);
            }
            assert forall|j: int| 0 <= j < MAX_FREE_BLOCKS && (#[trigger] free[j]) is Some implies {
                &&& self.start <= free[j]->0.ptr
                &&& free[j]->0.ptr + free[j]->0.size <= self.next
                &&& free[j]->0.size > 0
            } by {
                assert(before.free_list@[j] is Some);
            }
            assert forall|j: int| self.free_count <= j < MAX_FREE_BLOCKS implies (#[trigger] free[j]) is None by {
                assert(before.free_list@[j] is None);
            }
            // Everything else is apart from the block just taken.
            assert forall|k: int| 0 <= k < MAX_ALLOCATIONS && (#[trigger] live[k]) is Some implies !overlap(
                live[k]->0.ptr as int,
                live[k]->0.size as int,
                block.ptr as int,
                block.size as int,
            ) by {
                assert(before.free_list@[index as int] is Some);
            }
            assert forall|j: int| 0 <= j < MAX_FREE_BLOCKS && (#[trigger] free[j]) is Some implies !overlap(
                free[j]->0.ptr as int,
                free[j]->0.size as int,
                block.ptr as int,
                block.size as int,
            ) by {
                assert(before.free_list@[j] is Some);
                assert(j != index);
                if j < index {
                    assert(before.free_list@[index as int] is Some);
                } else {
                    assert(before.free_list@[index as int] is Some);
                }
            }
        }
        let aligned = align_up(block.ptr, alignment).unwrap();
        let waste = aligned - block.ptr;
        let remaining = block.size - (waste + size);
        let ghost taken = *self;
        if remaining > 0 {
            let rest = FreeBlock { ptr: aligned + size, size: remaining };
            self.insert_free_block(rest);
            proof {
                let free = self.free_list@;
                assert forall|j: int| 0 <= j < MAX_FREE_BLOCKS && (#[trigger] free[j]) is Some implies !overlap(
                    free[j]->0.ptr as int,
                    free[j]->0.size as int,
                    aligned as int,
                    size as int,
                ) by {
                    if j != taken.free_count {
                        assert(taken.free_list@[j] is Some);
                    }
                }
            }
        }
        proof {
            let free = self.free_list@;
            let live = self.live_allocations@;
            assert forall|j: int| 0 <= j < free.len() && (#[trigger] free[j]) is Some implies !overlap(
                free[j]->0.ptr as int,
                free[j]->0.size as int,
                aligned as int,
                size as int,
            ) by {
                if remaining == 0 || taken.free_count == MAX_FREE_BLOCKS || j != taken.free_count {
                    assert(taken.free_list@[j] is Some);
                }
            }
            assert forall|k: int| 0 <= k < live.len() && (#[trigger] live[k]) is Some implies !overlap(
                live[k]->0.ptr as int,
                live[k]->0.size as int,
                aligned as int,
                size as int,
            ) by {
                assert(taken.live_allocations@[k] is Some);
            }
        }
        Some(aligned)
    }
}


impl HeapState {
    /// Hands out `size` bytes at `alignment`: from the best-fitting freed block if one
    /// fits, else from the bump pointer. Zero means no memory: the heap is not set
    /// up, the live table is full, or the region is exhausted.
    pub fn allocate(&mut self, size: usize, alignment: usize) -> (ptr: usize)
        requires
            old(self).wf(),
            power_of_two(alignment),
            size + alignment - 1 <= isize::MAX,
        ensures
            final(self).wf(),
            final(self).spec_start() == old(self).spec_start(),
            final(self).spec_end() == old(self).spec_end(),
            old(self).spec_start() == 0 ==> ptr == 0 && *final(self) == *old(self),
            old(self).spec_start() != 0 ==> {
                let live = old(self).live();
                let free = old(self).free();
                let count = old(self).spec_free_count() as int;
                if exists|i: int| best_fit(free, count, size, alignment, i) {
                    &&& forall|i: int| #[trigger] best_fit(free, count, size, alignment, i) ==> ptr == (if has_vacancy(live) {
                        round_up(free[i]->0.ptr as int, alignment as int)
                    } else {
                        0
                    })
                } else {
                    let bumped = round_up(old(self).spec_next() as int, alignment as int);
                    ptr == (if has_vacancy(live) && old(self).spec_next() + alignment - 1 <= usize::MAX && bumped
                        + size <= old(self).spec_end() {
                        bumped
                    } else {
                        0
                    })
                }
            },
            ptr != 0 ==> {
                &&& ptr % alignment == 0
                &&& final(self).spec_start() <= ptr
                &&& ptr + size <= final(self).spec_end()
                &&& exists|slot: int|
                    0 <= slot < MAX_ALLOCATIONS && old(self).live()[slot] is None && final(self).live() == old(
                        self,
                    ).live().update(slot, Some(LiveAllocation { ptr, size }))
            },
            ptr == 0 ==> final(self).live() == old(self).live(),
    {
        if self.start == 0 {
            return 0;
        }
        if let Some(found) = self.find_free(size, alignment) {
            let slot = match self.vacant_slot() {
                Some(slot) => slot,
                None => return 0,
            };
            let ghost before = *self;
            self.live_allocations[slot] = Some(LiveAllocation { ptr: found, size });
            proof {
                self.lemma_claimed(before, slot as int, found, size, before.next as int);
            }
            self.total_allocations = self.total_allocations + 1;
            self.total_allocated_bytes = self.total_allocated_bytes + size;
            return found;
        }
        let aligned = match align_up(self.next, alignment) {
            Some(value) => value,
            None => return 0,
        };
        let end = match aligned.checked_add(size) {
            Some(value) => value,
            None => return 0,
        };
        if end > self.end {
            return 0;
        }
        let slot = match self.vacant_slot() {
            Some(slot) => slot,
            None => return 0,
        };
        let ghost before = *self;
        self.live_allocations[slot] = Some(LiveAllocation { ptr: aligned, size });
        self.next = end;
        proof {
            let live = before.live_allocations@;
            let free = before.free_list@;
            assert forall|k: int| 0 <= k < live.len() && (#[trigger] live[k]) is Some implies !overlap(
                live[k]->0.ptr as int,
                live[k]->0.size as int,
                aligned as int,
                size as int,
            ) by {}
            assert forall|j: int| 0 <= j < free.len() && (#[trigger] free[j]) is Some implies !overlap(
                free[j]->0.ptr as int,
                free[j]->0.size as int,
                aligned as int,
                size as int,
            ) by {}
            let grown = HeapState { next: before.next, ..*self };
            grown.lemma_claimed(before, slot as int, aligned, size, end as int);
            assert forall|k: int|
                0 <= k < MAX_ALLOCATIONS && (#[trigger] self.live_allocations@[k]) is Some implies self.start
                    <= self.live_allocations@[k]->0.ptr && self.live_allocations@[k]->0.ptr
                    + self.live_allocations@[k]->0.size <= self.next by {
                if k != slot {
                    assert(live[k] is Some);
                }
            }
            assert forall|j: int|
                0 <= j < MAX_FREE_BLOCKS && (#[trigger] self.free_list@[j]) is Some implies {
                    &&& self.start <= self.free_list@[j]->0.ptr
                    &&& self.free_list@[j]->0.ptr + self.free_list@[j]->0.size <= self.next
                    &&& self.free_list@[j]->0.size > 0
                } by {
                assert(free[j] is Some);
            }
        }
        self.total_allocations = self.total_allocations + 1;
        self.total_allocated_bytes = self.total_allocated_bytes + size;
        aligned
    }

    /// After `before`'s vacant `slot` takes the unclaimed range at `ptr`, the live table
    /// stays apart, counted and within bounds, and there is room to count it.
    proof fn lemma_claimed(self, before: Self, slot: int, ptr: usize, size: usize, limit: int)
        requires
            before.wf(),
            before.start != 0,
            0 <= slot < MAX_ALLOCATIONS,
            before.live_allocations@[slot] is None,
            self == (HeapState { live_allocations: self.live_allocations, ..before }),
            self.live_allocations@ == before.live_allocations@.update(slot, Some(LiveAllocation { ptr, size })),
            before.start <= ptr,
            ptr + size <= limit,
            before.next <= limit,
            limit <= before.end,
            unclaimed(before.live_allocations@, before.free_list@, ptr as int, size as int),
        ensures
            live_count(self.live_allocations@) == before.total_allocations + 1,
            live_bytes(self.live_allocations@) == before.total_allocated_bytes + size,
            before.total_allocations + 1 <= MAX_ALLOCATIONS,
            before.total_allocated_bytes + size <= usize::MAX,
            forall|a: int, b: int|
                #![trigger self.live_allocations@[a], self.live_allocations@[b]]
                0 <= a < b < MAX_ALLOCATIONS && self.live_allocations@[a] is Some && self.live_allocations@[b] is Some
                    ==> !overlap(
                    self.live_allocations@[a]->0.ptr as int,
                    self.live_allocations@[a]->0.size as int,
                    self.live_allocations@[b]->0.ptr as int,
                    self.live_allocations@[b]->0.size as int,
                ),
            forall|a: int, b: int|
                #![trigger self.live_allocations@[a], self.free_list@[b]]
                0 <= a < MAX_ALLOCATIONS && 0 <= b < MAX_FREE_BLOCKS && self.live_allocations@[a] is Some
                    && self.free_list@[b] is Some ==> !overlap(
                    self.live_allocations@[a]->0.ptr as int,
                    self.live_allocations@[a]->0.size as int,
                    self.free_list@[b]->0.ptr as int,
                    self.free_list@[b]->0.size as int,
                ),
            forall|k: int|
                0 <= k < MAX_ALLOCATIONS && (#[trigger] self.live_allocations@[k]) is Some ==> before.start
                    <= self.live_allocations@[k]->0.ptr && self.live_allocations@[k]->0.ptr
                    + self.live_allocations@[k]->0.size <= limit,
    {
        let old_live = before.live_allocations@;
        let live = self.live_allocations@;
        lemma_live_update(old_live, slot, Some(LiveAllocation { ptr, size }));
        lemma_live_bounds(old_live);
        lemma_live_bounds(live);
        assert forall|a: int, b: int|
            #![trigger live[a], live[b]]
            0 <= a < b < MAX_ALLOCATIONS && live[a] is Some && live[b] is Some implies !overlap(
                live[a]->0.ptr as int,
                live[a]->0.size as int,
                live[b]->0.ptr as int,
                live[b]->0.size as int,
            ) by {
            if a == slot {
                assert(old_live[b] is Some);
            } else if b == slot {
                assert(old_live[a] is Some);
            } else {
                assert(old_live[a] is Some && old_live[b] is Some);
            }
        }
        assert forall|a: int, b: int|
            #![trigger live[a], self.free_list@[b]]
            0 <= a < MAX_ALLOCATIONS && 0 <= b < MAX_FREE_BLOCKS && live[a] is Some && self.free_list@[b] is Some
                implies !overlap(
                live[a]->0.ptr as int,
                live[a]->0.size as int,
                self.free_list@[b]->0.ptr as int,
                self.free_list@[b]->0.size as int,
            ) by {
            if a != slot {
                assert(old_live[a] is Some);
            } else {
                assert(before.free_list@[b] is Some);
            }
        }
        assert forall|k: int| 0 <= k < MAX_ALLOCATIONS && (#[trigger] live[k]) is Some implies before.start
            <= live[k]->0.ptr && live[k]->0.ptr + live[k]->0.size <= limit by {
            if k != slot {
                assert(old_live[k] is Some);
            }
        }
        assert(live_count(live) <= MAX_ALLOCATIONS);
    }
}


/// `slot` is the first live allocation at `ptr`.
pub open spec fn first_at(live: Seq<Option<LiveAllocation>>, ptr: usize, slot: int) -> bool {
    &&& 0 <= slot < live.len()
    &&& live[slot] matches Some(a) && a.ptr == ptr
    &&& forall|k: int| 0 <= k < slot ==> !(#[trigger] live[k] matches Some(a) && a.ptr == ptr)
}

impl HeapState {
    /// Returns the allocation at `ptr` to the free list; an address that was not
    /// handed out is ignored.
    pub fn deallocate(&mut self, ptr: usize)
        requires
            old(self).wf(),
        ensures
            final(self).wf(),
            final(self).spec_start() == old(self).spec_start(),
            final(self).spec_end() == old(self).spec_end(),
            final(self).spec_next() == old(self).spec_next(),
            !(exists|slot: int| first_at(old(self).live(), ptr, slot)) ==> *final(self) == *old(self),
            forall|slot: int| #[trigger] first_at(old(self).live(), ptr, slot) ==> {
                let freed = old(self).live()[slot]->0;
                let count = old(self).spec_free_count() as int;
                &&& final(self).live() == old(self).live().update(slot, None)
                &&& final(self).free() == (if freed.size > 0 && count < MAX_FREE_BLOCKS {
                    old(self).free().update(count, Some(FreeBlock { ptr: freed.ptr, size: freed.size }))
                } else {
                    old(self).free()
                })
            },
    {
        let mut i: usize = 0;
        let mut found: Option<usize> = None;
        while i < MAX_ALLOCATIONS
            invariant_except_break
                i <= MAX_ALLOCATIONS,
                found is None,
                forall|k: int| 0 <= k < i ==> !(#[trigger] self.live_allocations@[k] matches Some(a) && a.ptr == ptr),
            ensures
                match found {
                    Some(slot) => first_at(self.live_allocations@, ptr, slot as int),
                    None => forall|k: int|
                        0 <= k < MAX_ALLOCATIONS ==> !(#[trigger] self.live_allocations@[k] matches Some(a) && a.ptr == ptr),
                },
            decreases MAX_ALLOCATIONS - i,
        {
            if let Some(allocation) = self.live_allocations[i] {
                if allocation.ptr == ptr {
                    found = Some(i);
                    break;
                }
            }
            i = i + 1;
        }
        let slot = match found {
            Some(slot) => slot,
            None => {
                proof {
                    assert forall|slot: int| !first_at(old(self).live(), ptr, slot) by {
                        if 0 <= slot < MAX_ALLOCATIONS {
                            assert(!(self.live_allocations@[slot] matches Some(a) && a.ptr == ptr));
                        }
                    }
                }
                return;
            },
        };
        proof {
            assert forall|other: int| #[trigger] first_at(old(self).live(), ptr, other) implies other == slot by {
                if other < slot {
                    assert(self.live_allocations@[other] matches Some(a) && a.ptr == ptr);
                } else if slot < other {
                    assert(self.live_allocations@[slot as int] matches Some(a) && a.ptr == ptr);
                }
            }
        }
        let allocation = self.live_allocations[slot].unwrap();
        let ghost before = *self;
        self.live_allocations[slot] = None;
        proof {
            let old_live = before.live_allocations@;
            let live = self.live_allocations@;
            lemma_live_update(old_live, slot as int, None);
            assert forall|a: int, b: int|
                #![trigger live[a], live[b]]
                0 <= a < b < MAX_ALLOCATIONS && live[a] is Some && live[b] is Some implies !overlap(
                    live[a]->0.ptr as int,
                    live[a]->0.size as int,
                    live[b]->0.ptr as int,
                    live[b]->0.size as int,
                ) by {
                assert(old_live[a] is Some && old_live[b] is Some);
            }
            assert forall|a: int, b: int|
                #![trigger live[a], self.free_list@[b]]
                0 <= a < MAX_ALLOCATIONS && 0 <= b < MAX_FREE_BLOCKS && live[a] is Some && self.free_list@[b] is Some
                    implies !overlap(
                    live[a]->0.ptr as int,
                    live[a]->0.size as int,
                    self.free_list@[b]->0.ptr as int,
                    self.free_list@[b]->0.size as int,
                ) by {
                assert(old_live[a] is Some);
            }
            assert forall|k: int| 0 <= k < MAX_ALLOCATIONS && (#[trigger] live[k]) is Some implies self.start
                <= live[k]->0.ptr && live[k]->0.ptr + live[k]->0.size <= self.next by {
                assert(old_live[k] is Some);
            }
            assert forall|k: int| 0 <= k < MAX_ALLOCATIONS && (#[trigger] live[k]) is Some implies !overlap(
                live[k]->0.ptr as int,
                live[k]->0.size as int,
                allocation.ptr as int,
                allocation.size as int,
            ) by {
                assert(old_live[k] is Some);
                if k < slot {
                    assert(old_live[slot as int] is Some);
                } else {
                    assert(old_live[slot as int] is Some);
                }
            }
            assert forall|j: int| 0 <= j < MAX_FREE_BLOCKS && (#[trigger] self.free_list@[j]) is Some implies !overlap(
                self.free_list@[j]->0.ptr as int,
                self.free_list@[j]->0.size as int,
                allocation.ptr as int,
                allocation.size as int,
            ) by {
                assert(old_live[slot as int] is Some);
            }
            if self.start == 0 {
                assert(old_live[slot as int] is None);
            }
            assert(old_live[slot as int] is Some);
        }
        self.total_allocations = self.total_allocations - 1;
        self.total_allocated_bytes = self.total_allocated_bytes - allocation.size;
        self.insert_free_block(FreeBlock { ptr: allocation.ptr, size: allocation.size });
    }

    /// Occupancy counters.
    pub fn stats(&self) -> (stats: Stats)
        requires
            self.wf(),
        ensures
            stats.start == START,
            stats.size == SIZE,
            stats.allocated_bytes == live_bytes(self.live()),
            stats.allocations == live_count(self.live()),
            stats.free_bytes == free_bytes(self.free(), self.spec_free_count() as int),
    {
        let mut free: usize = 0;
        let mut i: usize = 0;
        while i < self.free_count
            invariant
                self.wf(),
                i <= self.free_count,
                free == free_bytes(self.free_list@, i as int),
                free <= i * 0x40000,
            decreases self.free_count - i,
        {
            if let Some(block) = self.free_list[i] {
                assert(self.free_list@[i as int] is Some);
                assert(self.start != 0);
                assert(block.size <= SIZE);
                free = free + block.size;
            }
            i = i + 1;
        }
        Stats {
            start: START,
            size: SIZE,
            allocated_bytes: self.total_allocated_bytes,
            free_bytes: free,
            allocations: self.total_allocations,
        }
    }
}

/// Sets up `heap` over its region; `map_range` maps the region's pages.
pub fn init<F: FnOnce() -> bool>(heap: &mut HeapState, map_range: F) -> (result: Result<(), InitError>)
    requires
        old(heap).wf(),
        map_range.requires(()),
    ensures
        final(heap).wf(),
        old(heap).spec_start() != 0 ==> result == Err::<(), InitError>(InitError::AlreadyInitialized),
        result is Err ==> *final(heap) == *old(heap),
        result is Ok ==> {
            &&& old(heap).spec_start() == 0
            &&& final(heap).spec_start() == START
            &&& final(heap).spec_next() == START
            &&& final(heap).spec_end() == START + SIZE
            &&& final(heap).live() == old(heap).live()
            &&& final(heap).free() == old(heap).free()
        },
{
    heap.init(map_range)
}

/// Occupancy counters of `heap`.
pub fn stats(heap: &HeapState) -> (stats: Stats)
    requires
        heap.wf(),
    ensures
        stats.start == START,
        stats.size == SIZE,
        stats.allocated_bytes == live_bytes(heap.live()),
        stats.allocations == live_count(heap.live()),
        stats.free_bytes == free_bytes(heap.free(), heap.spec_free_count() as int),
{
    heap.stats()
}


/// No two live allocations of a heap share a byte, none shares a byte with a block
/// kept for reuse, and every one lies inside the heap's region.
pub proof fn law_allocations_disjoint(heap: HeapState)
    requires
        heap.wf(),
    ensures
        forall|a: int, b: int|
            #![trigger heap.live()[a], heap.live()[b]]
            0 <= a < MAX_ALLOCATIONS && 0 <= b < MAX_ALLOCATIONS && a != b && heap.live()[a] is Some
                && heap.live()[b] is Some ==> !overlap(
                heap.live()[a]->0.ptr as int,
                heap.live()[a]->0.size as int,
                heap.live()[b]->0.ptr as int,
                heap.live()[b]->0.size as int,
            ),
        forall|a: int, b: int|
            #![trigger heap.live()[a], heap.free()[b]]
            0 <= a < MAX_ALLOCATIONS && 0 <= b < MAX_FREE_BLOCKS && heap.live()[a] is Some
                && heap.free()[b] is Some ==> !overlap(
                heap.live()[a]->0.ptr as int,
                heap.live()[a]->0.size as int,
                heap.free()[b]->0.ptr as int,
                heap.free()[b]->0.size as int,
            ),
        forall|k: int|
            0 <= k < MAX_ALLOCATIONS && (#[trigger] heap.live()[k]) is Some ==> heap.spec_start() <= heap.live()[k]->0.ptr
                && heap.live()[k]->0.ptr + heap.live()[k]->0.size <= heap.spec_end(),
{
    let live = heap.live();
    assert forall|a: int, b: int|
        #![trigger live[a], live[b]]
        0 <= a < MAX_ALLOCATIONS && 0 <= b < MAX_ALLOCATIONS && a != b && live[a] is Some && live[b] is Some implies !overlap(
            live[a]->0.ptr as int,
            live[a]->0.size as int,
            live[b]->0.ptr as int,
            live[b]->0.size as int,
        ) by {
        if b < a {
            assert(!overlap(
                live[b]->0.ptr as int,
                live[b]->0.size as int,
                live[a]->0.ptr as int,
                live[a]->0.size as int,
            ));
        }
    }
}

} // verus!
