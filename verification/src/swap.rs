//! Swapped-out pages: a table of slots kept in memory or on a disk region, named by
//! handles that carry a generation so that a stale handle is never honoured.
use vstd::prelude::*;

use crate::block::{copy_bytes, BlockDevice, Error as BlockError, SECTOR_SIZE};

verus! {

/// Bytes in one page.
pub const PAGE_SIZE: usize = 4096;

/// Sectors one page occupies on disk.
pub const SECTORS_PER_PAGE: usize = 8;

/// Slots the table holds.
pub const MAX_SWAP_SLOTS: usize = 64;

/// Names a stored page.
#[derive(Clone, Copy, PartialEq, Eq, Structural, Debug)]
pub struct Handle {
    index: u16,
    generation: u16,
}

impl Handle {
    pub closed spec fn slot(self) -> int {
        self.index as int
    }

    pub closed spec fn stamp(self) -> u16 {
        self.generation
    }

    fn index(self) -> (index: usize)
        ensures
            index == self.slot(),
    {
        self.index as usize
    }
}

/// Where a slot's page lives.
#[derive(Clone, Copy, PartialEq, Eq, Structural, Debug)]
pub enum Backing {
    Ram,
    Disk,
}

/// One slot of the table.
pub struct Slot {
    data: [u8; 4096],
    refcount: u16,
    generation: u16,
    occupied: bool,
    backing: Backing,
}

impl Slot {
    /// The slot holds a referenced page, kept in `backing` when one is given.
    pub closed spec fn counts_as(self, backing: Option<Backing>) -> bool {
        self.occupied && self.refcount > 0 && (backing is None || self.backing == backing->0)
    }

    fn empty(generation: u16) -> (slot: Self)
        ensures
            !slot.occupied,
            slot.refcount == 0,
            slot.generation == generation,
            slot.backing == Backing::Ram,
    {
        Slot { data: [0u8; 4096], refcount: 0, generation, occupied: false, backing: Backing::Ram }
    }
}

/// The disk region backing the table.
#[derive(Clone, Copy, PartialEq, Eq, Structural, Debug)]
pub struct DiskBacking {
    pub start_lba: u64,
    pub slots: usize,
}

/// Table-wide counts.
#[derive(Clone, Copy, PartialEq, Eq, Structural, Debug)]
pub struct Stats {
    pub used: usize,
    pub ram_used: usize,
    pub disk_used: usize,
    pub disk_slots: usize,
}

/// The generation after `generation`, skipping 0.
pub open spec fn following_generation(generation: u16) -> u16 {
    if generation == u16::MAX {
        1
    } else {
        (generation + 1) as u16
    }
}

/// Sector `k` of `page`.
pub open spec fn page_sector(page: Seq<u8>, k: int) -> Seq<u8> {
    page.subrange(k * 512, k * 512 + 512)
}

/// `sectors` hold `page` from `lba` on.
pub open spec fn page_on_disk(sectors: Seq<Seq<u8>>, lba: int, page: Seq<u8>) -> bool {
    &&& lba + SECTORS_PER_PAGE <= sectors.len()
    &&& forall|k: int| 0 <= k < SECTORS_PER_PAGE ==> #[trigger] sectors[lba + k] == page_sector(page, k)
}

/// Number of slots of `slots` in use, of `backing` when one is given.
pub open spec fn count_used(slots: Seq<Slot>, backing: Option<Backing>) -> nat
    decreases slots.len(),
{
    if slots.len() == 0 {
        0
    } else {
        count_used(slots.drop_last(), backing) + if slots.last().counts_as(backing) {
            1nat
        } else {
            0nat
        }
    }
}

/// The swap table.
pub struct State {
    slots: Vec<Slot>,
    disk: Option<DiskBacking>,
}

impl State {
    pub closed spec fn wf(&self) -> bool {
        &&& self.slots@.len() == MAX_SWAP_SLOTS
        &&& forall|i: int| 0 <= i < MAX_SWAP_SLOTS ==> (#[trigger] self.slots@[i]).refcount > 0
            ==> self.slots@[i].occupied
        &&& match self.disk {
            Some(disk) => 0 < disk.slots <= MAX_SWAP_SLOTS,
            None => true,
        }
    }

    /// The slots, in order.
    pub closed spec fn table(&self) -> Seq<Slot> {
        self.slots@
    }

    /// The configured disk region.
    pub closed spec fn backing_region(&self) -> Option<DiskBacking> {
        self.disk
    }

    /// Slot `i` is in use.
    pub closed spec fn in_use(&self, i: int) -> bool {
        self.slots@[i].occupied
    }

    /// References held on slot `i`.
    pub closed spec fn refs(&self, i: int) -> u16 {
        self.slots@[i].refcount
    }

    /// Generation of slot `i`.
    pub closed spec fn generation_of(&self, i: int) -> u16 {
        self.slots@[i].generation
    }

    /// Where slot `i` keeps its page.
    pub closed spec fn backing_of(&self, i: int) -> Backing {
        self.slots@[i].backing
    }

    /// The page slot `i` keeps in memory.
    pub closed spec fn memory_page(&self, i: int) -> Seq<u8> {
        self.slots@[i].data@
    }

    /// `handle` names a page that is stored and referenced.
    pub open spec fn live(&self, handle: Handle) -> bool {
        &&& 0 <= handle.slot() < MAX_SWAP_SLOTS
        &&& self.in_use(handle.slot())
        &&& self.refs(handle.slot()) > 0
        &&& self.generation_of(handle.slot()) == handle.stamp()
    }

    /// First sector of slot `i` on the disk region, when it has one.
    pub open spec fn slot_lba(&self, i: int) -> Option<int> {
        match self.backing_region() {
            Some(disk) => if 0 <= i < disk.slots && disk.start_lba + i * 8 <= u64::MAX {
                Some(disk.start_lba + i * 8)
            } else {
                None
            },
            None => None,
        }
    }

    /// Pages in use.
    pub open spec fn used_count(&self) -> nat {
        count_used(self.table(), None)
    }

    /// Slot `i` as it was in `before`.
    pub open spec fn slot_unchanged(&self, before: &State, i: int) -> bool {
        &&& self.in_use(i) == before.in_use(i)
        &&& self.refs(i) == before.refs(i)
        &&& self.generation_of(i) == before.generation_of(i)
        &&& self.backing_of(i) == before.backing_of(i)
        &&& self.memory_page(i) == before.memory_page(i)
    }

    /// Every slot but `i` as it was in `before`, and the same region.
    pub open spec fn others_unchanged(&self, before: &State, i: int) -> bool {
        &&& self.backing_region() == before.backing_region()
        &&& forall|j: int| 0 <= j < MAX_SWAP_SLOTS && j != i ==> #[trigger] self.slot_unchanged(before, j)
    }

    pub fn new() -> (state: Self)
        ensures
            state.wf(),
            state.backing_region() is None,
            forall|i: int| 0 <= i < MAX_SWAP_SLOTS ==> !#[trigger] state.in_use(i) && state.refs(i) == 0
                && state.generation_of(i) == 0,
    {
        let mut slots: Vec<Slot> = Vec::new();
        let mut i: usize = 0;
        while i < MAX_SWAP_SLOTS
            invariant
                i <= MAX_SWAP_SLOTS,
                slots@.len() == i,
                forall|k: int| 0 <= k < i ==> !(#[trigger] slots@[k]).occupied && slots@[k].refcount == 0
                    && slots@[k].generation == 0,
            decreases MAX_SWAP_SLOTS - i,
        {
            slots.push(Slot::empty(0));
            i = i + 1;
        }
        State { slots, disk: None }
    }

    /// Number of pages in use, of `backing` when one is given.
    fn count(&self, backing: Option<Backing>) -> (count: usize)
        requires
            self.wf(),
        ensures
            count == count_used(self.table(), backing),
            count <= MAX_SWAP_SLOTS,
    {
        let mut count: usize = 0;
        let mut i: usize = 0;
        while i < self.slots.len()
            invariant
                self.wf(),
                i <= MAX_SWAP_SLOTS,
                count <= i,
                count == count_used(self.slots@.take(i as int), backing),
            decreases MAX_SWAP_SLOTS - i,
        {
            assert(self.slots@.take(i as int + 1).drop_last() =~= self.slots@.take(i as int));
            let slot = &self.slots[i];
            if slot.occupied && slot.refcount > 0 {
                match backing {
                    Some(wanted) => {
                        if slot.backing == wanted {
                            count = count + 1;
                        }
                    },
                    None => {
                        count = count + 1;
                    },
                }
            }
            i = i + 1;
        }
        assert(self.slots@.take(i as int) =~= self.slots@);
        count
    }

    /// Number of pages in use.
    pub fn used(&self) -> (used: usize)
        requires
            self.wf(),
        ensures
            used == self.used_count(),
    {
        self.count(None)
    }

    /// Puts the table on `sectors` sectors of disk starting at `start_lba`; refused
    /// while pages are stored or when the region holds no page.
    pub fn configure_disk(&mut self, start_lba: u64, sectors: u64) -> (slots: Option<usize>)
        requires
            old(self).wf(),
        ensures
            final(self).wf(),
            final(self).table() == old(self).table(),
            slots is None <==> old(self).used_count() != 0 || sectors < SECTORS_PER_PAGE,
            slots is None ==> final(self).backing_region() == old(self).backing_region(),
            slots is Some ==> {
                &&& slots->0 == if sectors / 8 < MAX_SWAP_SLOTS {
                    (sectors / 8) as int
                } else {
                    MAX_SWAP_SLOTS as int
                }
                &&& final(self).backing_region() == Some(DiskBacking { start_lba, slots: slots->0 })
            },
    {
        if self.used() != 0 || sectors < SECTORS_PER_PAGE as u64 {
            return None;
        }
        let pages = sectors / SECTORS_PER_PAGE as u64;
        let slots: usize = if pages < MAX_SWAP_SLOTS as u64 {
            pages as usize
        } else {
            MAX_SWAP_SLOTS
        };
        self.disk = Some(DiskBacking { start_lba, slots });
        Some(slots)
    }

    /// The first slot not in use.
    fn free_slot(&self) -> (index: Option<usize>)
        requires
            self.wf(),
        ensures
            match index {
                Some(i) => i < MAX_SWAP_SLOTS && !self.in_use(i as int) && forall|j: int|
                    0 <= j < i ==> #[trigger] self.in_use(j),
                None => forall|j: int| 0 <= j < MAX_SWAP_SLOTS ==> #[trigger] self.in_use(j),
            },
    {
        let mut i: usize = 0;
        while i < self.slots.len()
            invariant
                self.wf(),
                i <= MAX_SWAP_SLOTS,
                forall|j: int| 0 <= j < i ==> #[trigger] self.in_use(j),
            decreases MAX_SWAP_SLOTS - i,
        {
            if !self.slots[i].occupied {
                return Some(i);
            }
            i = i + 1;
        }
        None
    }

    /// First sector of slot `index` on the disk region.
    fn disk_lba(&self, index: usize) -> (lba: Option<u64>)
        requires
            self.wf(),
        ensures
            match lba {
                Some(lba) => self.slot_lba(index as int) == Some(lba as int),
                None => self.slot_lba(index as int) is None,
            },
    {
        match self.disk {
            None => None,
            Some(disk) => {
                if index >= disk.slots {
                    return None;
                }
                let offset = (index as u64) * (SECTORS_PER_PAGE as u64);
                disk.start_lba.checked_add(offset)
            },
        }
    }

    fn next_generation(&self, index: usize) -> (generation: u16)
        requires
            self.wf(),
            index < MAX_SWAP_SLOTS,
        ensures
            generation == following_generation(self.generation_of(index as int)),
    {
        let current = self.slots[index].generation;
        if current == u16::MAX {
            1
        } else {
            current + 1
        }
    }

    /// Puts a fresh slot at `index`, keeping every other slot.
    fn put(&mut self, index: usize, slot: Slot)
        requires
            old(self).wf(),
            index < MAX_SWAP_SLOTS,
            slot.refcount > 0 ==> slot.occupied,
        ensures
            final(self).wf(),
            final(self).table() == old(self).table().update(index as int, slot),
            final(self).others_unchanged(old(self), index as int),
    {
        self.slots.set(index, slot);
    }

    /// Stores `bytes` in slot `index` with one reference and a new generation.
    fn occupy(&mut self, index: usize, backing: Backing, bytes: &[u8; 4096]) -> (handle: Handle)
        requires
            old(self).wf(),
            index < MAX_SWAP_SLOTS,
        ensures
            final(self).wf(),
            handle.slot() == index,
            handle.stamp() == following_generation(old(self).generation_of(index as int)),
            final(self).live(handle),
            final(self).refs(index as int) == 1,
            final(self).backing_of(index as int) == backing,
            final(self).memory_page(index as int) == bytes@,
            final(self).others_unchanged(old(self), index as int),
    {
        let generation = self.next_generation(index);
        let slot = Slot { data: *bytes, refcount: 1, generation, occupied: true, backing };
        self.put(index, slot);
        Handle { index: index as u16, generation }
    }

    /// Claims a free slot with a disk sector range, without a reference yet.
    fn reserve_disk(&mut self) -> (reserved: Option<(usize, u16, u64)>)
        requires
            old(self).wf(),
        ensures
            final(self).wf(),
            reserved is None ==> *final(self) == *old(self),
            reserved is None <==> (forall|j: int| 0 <= j < MAX_SWAP_SLOTS ==> #[trigger] old(self).in_use(j)) || (exists|
                i: int|
                0 <= i < MAX_SWAP_SLOTS && !old(self).in_use(i) && (forall|j: int| 0 <= j < i ==> #[trigger] old(self).in_use(j))
                    && old(self).slot_lba(i) is None),
            reserved is Some ==> {
                let (index, generation, lba) = reserved->0;
                &&& index < MAX_SWAP_SLOTS
                &&& !old(self).in_use(index as int)
                &&& forall|j: int| 0 <= j < index ==> #[trigger] old(self).in_use(j)
                &&& old(self).slot_lba(index as int) == Some(lba as int)
                &&& generation == following_generation(old(self).generation_of(index as int))
                &&& final(self).in_use(index as int)
                &&& final(self).refs(index as int) == 0
                &&& final(self).generation_of(index as int) == generation
                &&& final(self).backing_of(index as int) == Backing::Disk
                &&& final(self).others_unchanged(old(self), index as int)
            },
    {
        let index = match self.free_slot() {
            Some(index) => index,
            None => return None,
        };
        let lba = match self.disk_lba(index) {
            Some(lba) => lba,
            None => return None,
        };
        let generation = self.next_generation(index);
        let slot = Slot { data: [0u8; 4096], refcount: 0, generation, occupied: true, backing: Backing::Disk };
        self.put(index, slot);
        Some((index, generation, lba))
    }

    /// Gives the reserved slot `index` its first reference.
    fn publish_reserved_disk(&mut self, index: usize, generation: u16) -> (handle: Option<Handle>)
        requires
            old(self).wf(),
        ensures
            final(self).wf(),
            handle is Some <==> index < MAX_SWAP_SLOTS && old(self).in_use(index as int) && old(
                self,
            ).refs(index as int) == 0 && old(self).generation_of(index as int) == generation,
            handle is None ==> *final(self) == *old(self),
            handle is Some ==> {
                &&& handle->0.slot() == index
                &&& handle->0.stamp() == generation
                &&& final(self).live(handle->0)
                &&& final(self).refs(index as int) == 1
                &&& final(self).backing_of(index as int) == Backing::Disk
                &&& final(self).memory_page(index as int) == old(self).memory_page(index as int)
                &&& final(self).others_unchanged(old(self), index as int)
            },
    {
        if index >= self.slots.len() {
            return None;
        }
        let slot = &self.slots[index];
        if !slot.occupied || slot.refcount != 0 || slot.generation != generation {
            return None;
        }
        let published = Slot { data: slot.data, refcount: 1, generation, occupied: true, backing: Backing::Disk };
        self.put(index, published);
        Some(Handle { index: index as u16, generation })
    }

    /// Frees the reserved slot `index` again, keeping its generation.
    fn cancel_reserved(&mut self, index: usize, generation: u16)
        requires
            old(self).wf(),
        ensures
            final(self).wf(),
            index < MAX_SWAP_SLOTS && old(self).in_use(index as int) && old(self).refs(index as int)
                == 0 && old(self).generation_of(index as int) == generation ==> {
                &&& !final(self).in_use(index as int)
                &&& final(self).refs(index as int) == 0
                &&& final(self).generation_of(index as int) == generation
                &&& final(self).others_unchanged(old(self), index as int)
            },
            !(index < MAX_SWAP_SLOTS && old(self).in_use(index as int) && old(self).refs(index as int)
                == 0 && old(self).generation_of(index as int) == generation) ==> *final(self) == *old(
                self,
            ),
    {
        if index >= self.slots.len() {
            return;
        }
        let slot = &self.slots[index];
        if slot.occupied && slot.refcount == 0 && slot.generation == generation {
            self.put(index, Slot::empty(generation));
        }
    }

    /// Stores `bytes` in memory in the first free slot.
    pub fn allocate_ram(&mut self, bytes: &[u8; 4096]) -> (handle: Option<Handle>)
        requires
            old(self).wf(),
        ensures
            final(self).wf(),
            handle is None <==> forall|j: int| 0 <= j < MAX_SWAP_SLOTS ==> #[trigger] old(self).in_use(j),
            handle is None ==> *final(self) == *old(self),
            handle is Some ==> {
                let i = handle->0.slot();
                &&& !old(self).in_use(i)
                &&& forall|j: int| 0 <= j < i ==> #[trigger] old(self).in_use(j)
                &&& handle->0.stamp() == following_generation(old(self).generation_of(i))
                &&& final(self).live(handle->0)
                &&& final(self).refs(i) == 1
                &&& final(self).backing_of(i) == Backing::Ram
                &&& final(self).memory_page(i) == bytes@
                &&& final(self).others_unchanged(old(self), i)
            },
    {
        match self.free_slot() {
            Some(index) => Some(self.occupy(index, Backing::Ram, bytes)),
            None => None,
        }
    }

    /// Stores `bytes` on the disk region through `device`: claims a slot, writes and
    /// flushes the page, and only then hands out a handle. When a step fails the slot
    /// is freed again.
    pub fn allocate_disk<D: BlockDevice>(&mut self, device: &mut D, bytes: &[u8; 4096]) -> (handle: Option<Handle>)
        requires
            old(self).wf(),
            old(device).valid(),
        ensures
            final(self).wf(),
            final(device).valid(),
            final(device).read_only() == old(device).read_only(),
            final(device).sectors().len() == old(device).sectors().len(),
            handle is None ==> forall|h: Handle| final(self).live(h) == old(self).live(h),
            handle is None ==> forall|j: int| 0 <= j < MAX_SWAP_SLOTS ==> #[trigger] final(self).in_use(j)
                == old(self).in_use(j),
            handle is Some ==> {
                let i = handle->0.slot();
                &&& !old(self).in_use(i)
                &&& forall|j: int| 0 <= j < i ==> #[trigger] old(self).in_use(j)
                &&& handle->0.stamp() == following_generation(old(self).generation_of(i))
                &&& final(self).live(handle->0)
                &&& final(self).refs(i) == 1
                &&& final(self).backing_of(i) == Backing::Disk
                &&& final(self).others_unchanged(old(self), i)
                &&& old(self).slot_lba(i) is Some
                &&& page_on_disk(final(device).sectors(), old(self).slot_lba(i)->0, bytes@)
            },
    {
        let (index, generation, lba) = match self.reserve_disk() {
            Some(reserved) => reserved,
            None => return None,
        };
        let ghost reserved = *self;
        let wrote = write_page_to_device(device, lba, bytes);
        let flushed = match wrote {
            Ok(()) => device.flush(),
            Err(error) => Err(error),
        };
        if flushed.is_err() {
            self.cancel_reserved(index, generation);
            proof {
                assert forall|h: Handle| self.live(h) == old(self).live(h) by {
                    if 0 <= h.slot() < MAX_SWAP_SLOTS && h.slot() != index {
                        assert(self.slot_unchanged(&reserved, h.slot()));
                        assert(reserved.slot_unchanged(old(self), h.slot()));
                    }
                }
                assert forall|j: int| 0 <= j < MAX_SWAP_SLOTS implies #[trigger] self.in_use(j) == old(
                    self,
                ).in_use(j) by {
                    if j != index {
                        assert(self.slot_unchanged(&reserved, j));
                        assert(reserved.slot_unchanged(old(self), j));
                    }
                }
            }
            return None;
        }
        let handle = self.publish_reserved_disk(index, generation);
        proof {
            assert forall|j: int| 0 <= j < MAX_SWAP_SLOTS && j != index implies #[trigger] self.slot_unchanged(
                old(self),
                j,
            ) by {
                assert(self.slot_unchanged(&reserved, j));
                assert(reserved.slot_unchanged(old(self), j));
            }
        }
        handle
    }

    /// Whether `handle` names a live page; the checked form of `live`.
    fn check(&self, handle: Handle) -> (live: bool)
        requires
            self.wf(),
        ensures
            live == self.live(handle),
    {
        let index = handle.index();
        if index >= self.slots.len() {
            return false;
        }
        let slot = &self.slots[index];
        slot.occupied && slot.refcount > 0 && slot.generation == handle.generation
    }

    /// Copies the in-memory page of `handle` into `bytes`.
    pub fn read_ram(&self, handle: Handle, bytes: &mut [u8; 4096]) -> (read: bool)
        requires
            self.wf(),
        ensures
            read <==> self.live(handle) && self.backing_of(handle.slot()) == Backing::Ram,
            read ==> final(bytes)@ == self.memory_page(handle.slot()),
            !read ==> *final(bytes) == *old(bytes),
    {
        if !self.check(handle) {
            return false;
        }
        let index = handle.index();
        if self.slots[index].backing != Backing::Ram {
            return false;
        }
        *bytes = self.slots[index].data;
        true
    }

    /// First sector of the disk page of `handle`.
    pub fn disk_read_lba(&self, handle: Handle) -> (lba: Option<u64>)
        requires
            self.wf(),
        ensures
            lba is Some <==> self.live(handle) && self.backing_of(handle.slot()) == Backing::Disk
                && self.slot_lba(handle.slot()) is Some,
            lba is Some ==> self.slot_lba(handle.slot()) == Some(lba->0 as int),
    {
        if !self.check(handle) {
            return None;
        }
        let index = handle.index();
        if self.slots[index].backing != Backing::Disk {
            return None;
        }
        self.disk_lba(index)
    }

    /// Reads the disk page of `handle` through `device` into `bytes`.
    pub fn read_disk<D: BlockDevice>(&self, device: &mut D, handle: Handle, bytes: &mut [u8; 4096]) -> (read: bool)
        requires
            self.wf(),
            old(device).valid(),
        ensures
            final(device).valid(),
            final(device).sectors() == old(device).sectors(),
            final(device).read_only() == old(device).read_only(),
            read ==> self.live(handle) && self.backing_of(handle.slot()) == Backing::Disk,
            read ==> page_on_disk(old(device).sectors(), self.slot_lba(handle.slot())->0, final(bytes)@),
            !(self.live(handle) && self.backing_of(handle.slot()) == Backing::Disk) ==> !read,
    {
        let lba = match self.disk_read_lba(handle) {
            Some(lba) => lba,
            None => return false,
        };
        read_page_from_device(device, lba, bytes).is_ok()
    }

    /// Adds a reference to the page of `handle`.
    pub fn share(&mut self, handle: Handle) -> (shared: bool)
        requires
            old(self).wf(),
        ensures
            final(self).wf(),
            shared <==> old(self).live(handle) && old(self).refs(handle.slot()) < u16::MAX,
            !shared ==> *final(self) == *old(self),
            shared ==> {
                &&& final(self).refs(handle.slot()) == old(self).refs(handle.slot()) + 1
                &&& final(self).live(handle)
                &&& final(self).backing_of(handle.slot()) == old(self).backing_of(handle.slot())
                &&& final(self).memory_page(handle.slot()) == old(self).memory_page(handle.slot())
                &&& final(self).others_unchanged(old(self), handle.slot())
            },
    {
        if !self.check(handle) {
            return false;
        }
        let index = handle.index();
        let slot = &self.slots[index];
        if slot.refcount == u16::MAX {
            return false;
        }
        let shared = Slot {
            data: slot.data,
            refcount: slot.refcount + 1,
            generation: slot.generation,
            occupied: true,
            backing: slot.backing,
        };
        self.put(index, shared);
        true
    }

    /// Drops a reference to the page of `handle`; the last one frees the slot.
    pub fn release(&mut self, handle: Handle) -> (released: bool)
        requires
            old(self).wf(),
        ensures
            final(self).wf(),
            released <==> old(self).live(handle),
            !released ==> *final(self) == *old(self),
            released ==> {
                let i = handle.slot();
                &&& final(self).others_unchanged(old(self), i)
                &&& final(self).generation_of(i) == old(self).generation_of(i)
                &&& final(self).refs(i) == old(self).refs(i) - 1
                &&& (old(self).refs(i) == 1 ==> !final(self).in_use(i) && !final(self).live(handle))
                &&& (old(self).refs(i) > 1 ==> final(self).live(handle) && final(self).backing_of(i)
                    == old(self).backing_of(i) && final(self).memory_page(i) == old(self).memory_page(i))
            },
    {
        if !self.check(handle) {
            return false;
        }
        let index = handle.index();
        let slot = &self.slots[index];
        if slot.refcount == 1 {
            let generation = slot.generation;
            self.put(index, Slot::empty(generation));
        } else {
            let kept = Slot {
                data: slot.data,
                refcount: slot.refcount - 1,
                generation: slot.generation,
                occupied: true,
                backing: slot.backing,
            };
            self.put(index, kept);
        }
        true
    }

    /// Counts of the pages in use and the size of the disk region.
    pub fn stats(&self) -> (stats: Stats)
        requires
            self.wf(),
        ensures
            stats.used == count_used(self.table(), None),
            stats.ram_used == count_used(self.table(), Some(Backing::Ram)),
            stats.disk_used == count_used(self.table(), Some(Backing::Disk)),
            stats.disk_slots == match self.backing_region() {
                Some(disk) => disk.slots,
                None => 0,
            },
    {
        Stats {
            used: self.count(None),
            ram_used: self.count(Some(Backing::Ram)),
            disk_used: self.count(Some(Backing::Disk)),
            disk_slots: match self.disk {
                Some(disk) => disk.slots,
                None => 0,
            },
        }
    }
}

/// Sector `k` of `bytes` as its own buffer.
fn sector_of_page(bytes: &[u8; 4096], k: usize) -> (sector: [u8; 512])
    requires
        k < SECTORS_PER_PAGE,
    ensures
        sector@ == page_sector(bytes@, k as int),
{
    let mut sector = [0u8; 512];
    copy_bytes(&mut sector, 0, bytes, k * 512, 512);
    assert(sector@ =~= page_sector(bytes@, k as int));
    sector
}

/// Writes the page `bytes` to the eight sectors from `start_lba` on.
pub fn write_page_to_device<D: BlockDevice>(device: &mut D, start_lba: u64, bytes: &[u8; 4096]) -> (result: Result<(), BlockError>)
    requires
        old(device).valid(),
    ensures
        final(device).valid(),
        final(device).read_only() == old(device).read_only(),
        final(device).sectors().len() == old(device).sectors().len(),
        result is Ok ==> page_on_disk(final(device).sectors(), start_lba as int, bytes@),
        result is Ok ==> forall|j: int| 0 <= j < old(device).sectors().len() && !(start_lba <= j < start_lba + 8)
            ==> #[trigger] final(device).sectors()[j] == old(device).sectors()[j],
{
    let mut k: usize = 0;
    while k < SECTORS_PER_PAGE
        invariant
            k <= SECTORS_PER_PAGE,
            device.valid(),
            device.read_only() == old(device).read_only(),
            device.sectors().len() == old(device).sectors().len(),
            k > 0 ==> start_lba + k <= device.sectors().len(),
            forall|m: int| 0 <= m < k ==> #[trigger] device.sectors()[start_lba + m] == page_sector(bytes@, m),
            forall|j: int| 0 <= j < old(device).sectors().len() && !(start_lba <= j < start_lba + k)
                ==> #[trigger] device.sectors()[j] == old(device).sectors()[j],
        decreases SECTORS_PER_PAGE - k,
    {
        let lba = match start_lba.checked_add(k as u64) {
            Some(lba) => lba,
            None => return Err(BlockError::OutOfBounds),
        };
        let sector = sector_of_page(bytes, k);
        match device.write_sector(lba, &sector) {
            Ok(()) => {},
            Err(error) => return Err(error),
        }
        k = k + 1;
    }
    Ok(())
}

/// Reads the eight sectors from `start_lba` on into `bytes`.
pub fn read_page_from_device<D: BlockDevice>(device: &mut D, start_lba: u64, bytes: &mut [u8; 4096]) -> (result: Result<(), BlockError>)
    requires
        old(device).valid(),
    ensures
        final(device).valid(),
        final(device).sectors() == old(device).sectors(),
        final(device).read_only() == old(device).read_only(),
        result is Ok ==> page_on_disk(old(device).sectors(), start_lba as int, final(bytes)@),
{
    let mut k: usize = 0;
    while k < SECTORS_PER_PAGE
        invariant
            k <= SECTORS_PER_PAGE,
            device.valid(),
            device.read_only() == old(device).read_only(),
            device.sectors() == old(device).sectors(),
            bytes@.len() == PAGE_SIZE,
            k > 0 ==> start_lba + k <= device.sectors().len(),
            forall|m: int| 0 <= m < k ==> #[trigger] device.sectors()[start_lba + m] == page_sector(bytes@, m),
        decreases SECTORS_PER_PAGE - k,
    {
        let lba = match start_lba.checked_add(k as u64) {
            Some(lba) => lba,
            None => return Err(BlockError::OutOfBounds),
        };
        let mut sector = [0u8; 512];
        match device.read_sector(lba, &mut sector) {
            Ok(()) => {},
            Err(error) => return Err(error),
        }
        let ghost before = bytes@;
        copy_bytes(bytes, k * 512, &sector, 0, 512);
        proof {
            assert(page_sector(bytes@, k as int) =~= sector@);
            assert forall|m: int| 0 <= m < k + 1 implies #[trigger] device.sectors()[start_lba + m] == page_sector(bytes@, m) by {
                if m < k {
                    assert(page_sector(bytes@, m) =~= page_sector(before, m));
                }
            }
        }
        k = k + 1;
    }
    Ok(())
}


/// A page is fixed by its eight sectors.
pub proof fn lemma_page_from_sectors(sectors: Seq<Seq<u8>>, lba: int, a: Seq<u8>, b: Seq<u8>)
    requires
        a.len() == PAGE_SIZE,
        b.len() == PAGE_SIZE,
        page_on_disk(sectors, lba, a),
        page_on_disk(sectors, lba, b),
    ensures
        a == b,
{
    assert forall|j: int| 0 <= j < PAGE_SIZE implies a[j] == b[j] by {
        let k = j / 512;
        assert(0 <= k < 8);
        assert(k * 512 <= j < k * 512 + 512);
        assert(sectors[lba + k] == page_sector(a, k));
        assert(sectors[lba + k] == page_sector(b, k));
        assert(page_sector(a, k)[j - k * 512] == a[j]);
        assert(page_sector(b, k)[j - k * 512] == b[j]);
    }
    assert(a =~= b);
}

/// A page stored on disk reads back unchanged, as long as its sectors were not
/// rewritten in between.
pub proof fn law_disk_round_trip(sectors: Seq<Seq<u8>>, lba: int, stored: Seq<u8>, read: Seq<u8>)
    requires
        stored.len() == PAGE_SIZE,
        read.len() == PAGE_SIZE,
        page_on_disk(sectors, lba, stored),
        page_on_disk(sectors, lba, read),
    ensures
        read == stored,
{
    lemma_page_from_sectors(sectors, lba, stored, read);
}

/// A handle outlives neither its slot nor a reuse of it: after the last reference is
/// released, the handle is dead, and the handle that reuses the slot differs from it.
pub proof fn law_stale_handle_rejected(released: State, reused: State, stale: Handle, fresh: Handle)
    requires
        released.wf(),
        0 <= stale.slot() < MAX_SWAP_SLOTS,
        !released.in_use(stale.slot()),
        released.generation_of(stale.slot()) == stale.stamp(),
        fresh.slot() == stale.slot(),
        fresh.stamp() == following_generation(released.generation_of(fresh.slot())),
        reused.live(fresh),
    ensures
        !released.live(stale),
        fresh != stale,
        !reused.live(stale),
{
}

/// Puts the swap table on `sectors` sectors of disk from `start_lba` on.
pub fn configure_ata_backing(state: &mut State, start_lba: u64, sectors: u64) -> (slots: Option<usize>)
    requires
        old(state).wf(),
    ensures
        final(state).wf(),
        slots is None <==> old(state).used_count() != 0 || sectors < SECTORS_PER_PAGE,
        slots is Some ==> final(state).backing_region() == Some(
            DiskBacking { start_lba, slots: slots->0 },
        ),
{
    state.configure_disk(start_lba, sectors)
}

/// Stores `bytes`: on disk through `device` when `present` and the disk region has
/// room, else in memory.
pub fn allocate_page<D: BlockDevice>(state: &mut State, device: &mut D, present: bool, bytes: &[u8; 4096]) -> (handle: Option<Handle>)
    requires
        old(state).wf(),
        old(device).valid(),
    ensures
        final(state).wf(),
        final(device).valid(),
        handle is Some ==> final(state).live(handle->0),
        handle is Some && final(state).backing_of(handle->0.slot()) == Backing::Ram
            ==> final(state).memory_page(handle->0.slot()) == bytes@,
        handle is Some && final(state).backing_of(handle->0.slot()) == Backing::Disk ==> {
            &&& final(state).slot_lba(handle->0.slot()) is Some
            &&& page_on_disk(final(device).sectors(), final(state).slot_lba(handle->0.slot())->0, bytes@)
        },
        handle is None ==> forall|j: int| 0 <= j < MAX_SWAP_SLOTS ==> #[trigger] final(state).in_use(j),
{
    if present {
        match state.allocate_disk(device, bytes) {
            Some(handle) => return Some(handle),
            None => {},
        }
    }
    state.allocate_ram(bytes)
}

/// Copies the page of `handle` into `bytes`, from memory or through `device`.
pub fn read_page<D: BlockDevice>(state: &State, device: &mut D, present: bool, handle: Handle, bytes: &mut [u8; 4096]) -> (read: bool)
    requires
        state.wf(),
        old(device).valid(),
    ensures
        final(device).valid(),
        final(device).sectors() == old(device).sectors(),
        read ==> state.live(handle),
        read && state.backing_of(handle.slot()) == Backing::Ram ==> final(bytes)@ == state.memory_page(
            handle.slot(),
        ),
        read && state.backing_of(handle.slot()) == Backing::Disk ==> page_on_disk(
            old(device).sectors(),
            state.slot_lba(handle.slot())->0,
            final(bytes)@,
        ),
        state.live(handle) && state.backing_of(handle.slot()) == Backing::Ram ==> read,
{
    if state.read_ram(handle, bytes) {
        return true;
    }
    if !present {
        return false;
    }
    state.read_disk(device, handle, bytes)
}

/// Adds a reference to the page of `handle`.
pub fn share_page(state: &mut State, handle: Handle) -> (shared: bool)
    requires
        old(state).wf(),
    ensures
        final(state).wf(),
        shared <==> old(state).live(handle) && old(state).refs(handle.slot()) < u16::MAX,
        shared ==> final(state).refs(handle.slot()) == old(state).refs(handle.slot()) + 1,
{
    state.share(handle)
}

/// Drops a reference to the page of `handle`.
pub fn release_page(state: &mut State, handle: Handle) -> (released: bool)
    requires
        old(state).wf(),
    ensures
        final(state).wf(),
        released <==> old(state).live(handle),
        released ==> final(state).refs(handle.slot()) == old(state).refs(handle.slot()) - 1,
{
    state.release(handle)
}

/// Counts of the pages in `state`.
pub fn stats(state: &State) -> (stats: Stats)
    requires
        state.wf(),
    ensures
        stats.used == count_used(state.table(), None),
        stats.ram_used == count_used(state.table(), Some(Backing::Ram)),
        stats.disk_used == count_used(state.table(), Some(Backing::Disk)),
{
    state.stats()
}

/// Whether two pages are equal.
fn pages_equal(a: &[u8; 4096], b: &[u8; 4096]) -> (equal: bool)
    ensures
        equal == (a@ == b@),
{
    crate::ipc::bytes_equal(a, b)
}

/// Exercises disk-backed and memory-backed storage, sharing, release and reuse on a
/// small disk, then a refusal on a read-only disk.
pub fn self_test() -> (passed: bool)
{
    let mut first = [0u8; 4096];
    let mut second = [0u8; 4096];
    let mut index: usize = 0;
    while index < PAGE_SIZE
        invariant
            index <= PAGE_SIZE,
        decreases PAGE_SIZE - index,
    {
        let low = (index % 256) as u8;
        first[index] = low.wrapping_mul(3).wrapping_add(7);
        second[index] = 255u8.wrapping_sub(low);
        index = index + 1;
    }
    let mut disk = crate::block::RamDisk::<32>::new();
    let mut state = State::new();
    match state.configure_disk(8, (SECTORS_PER_PAGE * 2) as u64) {
        Some(2) => {},
        _ => return false,
    }
    let first_handle = match state.allocate_disk(&mut disk, &first) {
        Some(handle) => handle,
        None => return false,
    };
    let second_handle = match state.allocate_disk(&mut disk, &second) {
        Some(handle) => handle,
        None => return false,
    };
    if state.allocate_disk(&mut disk, &first).is_some() {
        return false;
    }
    let mut out = [0u8; 4096];
    if !state.read_disk(&mut disk, first_handle, &mut out) || !pages_equal(&out, &first) {
        return false;
    }
    if !state.share(first_handle) || !state.release(first_handle) {
        return false;
    }
    out = [0u8; 4096];
    if !state.read_disk(&mut disk, first_handle, &mut out) || !pages_equal(&out, &first) {
        return false;
    }
    if !state.release(first_handle) || state.read_disk(&mut disk, first_handle, &mut out) {
        return false;
    }
    let reused = match state.allocate_disk(&mut disk, &second) {
        Some(handle) => handle,
        None => return false,
    };
    if reused == first_handle || state.read_disk(&mut disk, first_handle, &mut out) {
        return false;
    }
    if !state.release(second_handle) || !state.release(reused) || state.used() != 0 {
        return false;
    }
    let mut ram_state = State::new();
    let ram_handle = match ram_state.allocate_ram(&first) {
        Some(handle) => handle,
        None => return false,
    };
    out = [0u8; 4096];
    if !ram_state.read_ram(ram_handle, &mut out) || !pages_equal(&out, &first) || !ram_state.release(
        ram_handle,
    ) {
        return false;
    }
    disk.set_read_only(true);
    state.allocate_disk(&mut disk, &first).is_none() && state.used() == 0
}

} // verus!
