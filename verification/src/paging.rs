//! Reference counts of physical frames shared between address spaces, and the
//! errors of the paging layer.
use vstd::prelude::*;

verus! {

/// Frames whose sharing the table can track.
pub const MAX_COW_FRAMES: usize = 1024;

/// Why paging could not be set up.
#[derive(Clone, Copy, PartialEq, Eq, Structural, Debug)]
pub enum InitError {
    MissingPhysicalMemoryMapping,
    AlreadyInitialized,
    AddressOverflow,
}

/// Why a range could not be mapped, shared or unmapped.
#[derive(Clone, Copy, PartialEq, Eq, Structural, Debug)]
pub enum MapRangeError {
    NotInitialized,
    InvalidRange,
    AlreadyMapped,
    OutOfFrames,
    MappingFailed,
    NotMapped,
}

/// Why a copy to or from user memory failed.
#[derive(Clone, Copy, PartialEq, Eq, Structural, Debug)]
pub enum UserMemoryError {
    AddressOverflow,
    NotMapped,
    PermissionDenied,
}

/// One tracked frame and how many mappings refer to it.
#[derive(Clone, Copy)]
pub struct CowEntry {
    pub frame: u64,
    pub refcount: u32,
    pub occupied: bool,
}

/// Reference counts of shared frames. A frame the table does not track has a single
/// owner.
pub struct CowTable {
    entries: [CowEntry; 1024],
}

impl CowTable {
    pub closed spec fn slots(&self) -> Seq<CowEntry> {
        self.entries@
    }

    /// No frame is tracked twice, and a tracked frame has at least one reference.
    pub closed spec fn wf(&self) -> bool {
        &&& forall|i: int, j: int|
            #![trigger self.entries@[i], self.entries@[j]]
            0 <= i < j < MAX_COW_FRAMES && self.entries@[i].occupied && self.entries@[j].occupied
                ==> self.entries@[i].frame != self.entries@[j].frame
        &&& forall|i: int| 0 <= i < MAX_COW_FRAMES && (#[trigger] self.entries@[i]).occupied ==> self.entries@[i].refcount >= 1
    }

    /// The table tracks `frame`.
    pub open spec fn tracks(&self, frame: u64) -> bool {
        exists|i: int| 0 <= i < MAX_COW_FRAMES && (#[trigger] self.slots()[i]).occupied && self.slots()[i].frame == frame
    }

    /// How many mappings refer to `frame`.
    pub open spec fn references(&self, frame: u64) -> u32 {
        if self.tracks(frame) {
            self.slots()[choose|i: int|
                0 <= i < MAX_COW_FRAMES && (#[trigger] self.slots()[i]).occupied && self.slots()[i].frame
                    == frame].refcount
        } else {
            1
        }
    }

    /// Every slot of the table is taken.
    pub open spec fn full(&self) -> bool {
        forall|i: int| 0 <= i < MAX_COW_FRAMES ==> (#[trigger] self.slots()[i]).occupied
    }

    pub fn empty() -> (table: Self)
        ensures
            table.wf(),
            forall|frame: u64| !table.tracks(frame),
    {
        CowTable { entries: [CowEntry { frame: 0, refcount: 0, occupied: false }; 1024] }
    }

    fn find_slot(&self, frame: u64) -> (slot: Option<usize>)
        requires
            self.wf(),
        ensures
            match slot {
                Some(i) => i < MAX_COW_FRAMES && self.slots()[i as int].occupied && self.slots()[i as int].frame == frame
                    && self.references(frame) == self.slots()[i as int].refcount,
                None => !self.tracks(frame),
            },
    {
        let mut i: usize = 0;
        while i < MAX_COW_FRAMES
            invariant
                self.wf(),
                i <= MAX_COW_FRAMES,
                forall|k: int| 0 <= k < i ==> !((#[trigger] self.entries@[k]).occupied && self.entries@[k].frame == frame),
            decreases MAX_COW_FRAMES - i,
        {
            if self.entries[i].occupied && self.entries[i].frame == frame {
                proof {
                    self.lemma_slot_of(frame, i as int);
                }
                return Some(i);
            }
            i = i + 1;
        }
        None
    }

    /// A tracked frame's references are those of its slot.
    proof fn lemma_slot_of(&self, frame: u64, i: int)
        requires
            self.wf(),
            0 <= i < MAX_COW_FRAMES,
            self.slots()[i].occupied,
            self.slots()[i].frame == frame,
        ensures
            self.tracks(frame),
            self.references(frame) == self.slots()[i].refcount,
    {
        assert(self.slots()[i].occupied && self.slots()[i].frame == frame);
        let j = choose|j: int| 0 <= j < MAX_COW_FRAMES && (#[trigger] self.slots()[j]).occupied && self.slots()[j].frame == frame;
        if j < i {
            assert(self.entries@[j].frame != self.entries@[i].frame);
        } else if i < j {
            assert(self.entries@[i].frame != self.entries@[j].frame);
        }
    }

    /// Tracking and references of every frame but `frame` are the same in `other`,
    /// whose slots differ from this table's only at `slot`, which held `frame` or
    /// nothing.
    proof fn lemma_others_kept(&self, other: &Self, slot: int, frame: u64)
        requires
            self.wf(),
            other.wf(),
            0 <= slot < MAX_COW_FRAMES,
            forall|k: int| 0 <= k < MAX_COW_FRAMES && k != slot ==> other.slots()[k] == self.slots()[k],
            self.slots()[slot].occupied ==> self.slots()[slot].frame == frame,
            other.slots()[slot].occupied ==> other.slots()[slot].frame == frame,
        ensures
            forall|g: u64| g != frame ==> #[trigger] other.tracks(g) == self.tracks(g),
            forall|g: u64| g != frame ==> #[trigger] other.references(g) == self.references(g),
    {
        assert forall|g: u64| g != frame implies (#[trigger] other.tracks(g) == self.tracks(g) && other.references(g)
            == self.references(g)) by {
            if self.tracks(g) {
                let i = choose|i: int| 0 <= i < MAX_COW_FRAMES && (#[trigger] self.slots()[i]).occupied && self.slots()[i].frame == g;
                self.lemma_slot_of(g, i);
                assert(other.slots()[i] == self.slots()[i]);
                other.lemma_slot_of(g, i);
            } else if other.tracks(g) {
                let i = choose|i: int| 0 <= i < MAX_COW_FRAMES && (#[trigger] other.slots()[i]).occupied && other.slots()[i].frame == g;
                assert(self.slots()[i] == other.slots()[i]);
            }
        }
    }
}

/// What a successful `share` of `frame` leaves: one more reference, a new frame
/// starting at two, and every other frame as it was.
pub open spec fn shared(before: CowTable, frame: u64, after: CowTable) -> bool {
    &&& after.tracks(frame)
    &&& after.references(frame) == if before.tracks(frame) {
        before.references(frame) + 1
    } else {
        2
    }
    &&& forall|g: u64| g != frame ==> #[trigger] after.tracks(g) == before.tracks(g)
    &&& forall|g: u64| g != frame ==> #[trigger] after.references(g) == before.references(g)
}

/// What `release` of `frame` leaves, with `freed` its answer: an untracked frame is
/// freed and nothing changes; a tracked one loses a reference and is freed, and
/// forgotten, when none is left.
pub open spec fn released(before: CowTable, frame: u64, after: CowTable, freed: bool) -> bool {
    &&& !before.tracks(frame) ==> freed && after.slots() == before.slots()
    &&& before.tracks(frame) ==> {
        &&& freed == (before.references(frame) == 1)
        &&& freed ==> !after.tracks(frame)
        &&& !freed ==> after.tracks(frame) && after.references(frame) == before.references(frame) - 1
    }
    &&& forall|g: u64| g != frame ==> #[trigger] after.tracks(g) == before.tracks(g)
    &&& forall|g: u64| g != frame ==> #[trigger] after.references(g) == before.references(g)
}

impl CowTable {
    /// Records one more mapping of `frame`: a frame seen for the first time counts
    /// its old and its new mapping.
    pub fn share(&mut self, frame: u64) -> (result: Result<(), MapRangeError>)
        requires
            old(self).wf(),
        ensures
            final(self).wf(),
            result is Ok ==> shared(*old(self), frame, *final(self)),
            result is Err ==> result == Err::<(), MapRangeError>(MapRangeError::OutOfFrames) && final(self).slots()
                == old(self).slots(),
            result is Err <==> (if old(self).tracks(frame) {
                old(self).references(frame) == u32::MAX
            } else {
                old(self).full()
            }),
    {
        if let Some(slot) = self.find_slot(frame) {
            let count = match self.entries[slot].refcount.checked_add(1) {
                Some(count) => count,
                None => return Err(MapRangeError::OutOfFrames),
            };
            let ghost before = *self;
            self.entries[slot].refcount = count;
            proof {
                before.lemma_others_kept(self, slot as int, frame);
                self.lemma_slot_of(frame, slot as int);
                assert(shared(before, frame, *self));
            }
            return Ok(());
        }
        let mut i: usize = 0;
        while i < MAX_COW_FRAMES
            invariant
                self.wf(),
                *self == *old(self),
                !old(self).tracks(frame),
                i <= MAX_COW_FRAMES,
                forall|k: int| 0 <= k < i ==> (#[trigger] self.entries@[k]).occupied,
            decreases MAX_COW_FRAMES - i,
        {
            if !self.entries[i].occupied {
                let ghost before = *self;
                assert(!before.slots()[i as int].occupied);
                self.entries[i] = CowEntry { frame, refcount: 2, occupied: true };
                proof {
                    assert forall|a: int, b: int|
                        #![trigger self.entries@[a], self.entries@[b]]
                        0 <= a < b < MAX_COW_FRAMES && self.entries@[a].occupied && self.entries@[b].occupied
                            implies self.entries@[a].frame != self.entries@[b].frame by {
                        if a == i {
                            assert(!(before.slots()[b].occupied && before.slots()[b].frame == frame));
                        } else if b == i {
                            assert(!(before.slots()[a].occupied && before.slots()[a].frame == frame));
                        } else {
                            assert(before.entries@[a] == self.entries@[a] && before.entries@[b] == self.entries@[b]);
                        }
                    }
                    before.lemma_others_kept(self, i as int, frame);
                    self.lemma_slot_of(frame, i as int);
                    assert(shared(before, frame, *self));
                }
                return Ok(());
            }
            i = i + 1;
        }
        assert forall|k: int| 0 <= k < MAX_COW_FRAMES implies (#[trigger] old(self).slots()[k]).occupied by {
            assert(self.entries@[k].occupied);
        }
        Err(MapRangeError::OutOfFrames)
    }

    /// Drops one mapping of `frame`; true when nothing refers to the frame any more
    /// and it may be freed.
    pub fn release(&mut self, frame: u64) -> (freed: bool)
        requires
            old(self).wf(),
        ensures
            final(self).wf(),
            released(*old(self), frame, *final(self), freed),
    {
        let slot = match self.find_slot(frame) {
            Some(slot) => slot,
            None => return true,
        };
        let ghost before = *self;
        let count = self.entries[slot].refcount.saturating_sub(1);
        if count == 0 {
            self.entries[slot] = CowEntry { frame: 0, refcount: 0, occupied: false };
            proof {
                before.lemma_others_kept(self, slot as int, frame);
                assert forall|i: int| 0 <= i < MAX_COW_FRAMES implies !((#[trigger] self.slots()[i]).occupied
                    && self.slots()[i].frame == frame) by {
                    if i != slot && self.slots()[i].occupied && self.slots()[i].frame == frame {
                        if i < slot {
                            assert(before.entries@[i].frame != before.entries@[slot as int].frame);
                        } else {
                            assert(before.entries@[slot as int].frame != before.entries@[i].frame);
                        }
                    }
                }
            }
            assert(released(before, frame, *self, true));
            return true;
        }
        self.entries[slot].refcount = count;
        proof {
            before.lemma_others_kept(self, slot as int, frame);
            self.lemma_slot_of(frame, slot as int);
            assert(released(before, frame, *self, false));
        }
        false
    }

    /// How many mappings refer to `frame`.
    pub fn refcount(&self, frame: u64) -> (count: u32)
        requires
            self.wf(),
        ensures
            count == self.references(frame),
    {
        match self.find_slot(frame) {
            Some(slot) => self.entries[slot].refcount,
            None => 1,
        }
    }

    /// Forgets `frame`, whose last sharer now owns it alone.
    pub fn forget(&mut self, frame: u64)
        requires
            old(self).wf(),
        ensures
            final(self).wf(),
            !final(self).tracks(frame),
            forall|g: u64| g != frame ==> #[trigger] final(self).tracks(g) == old(self).tracks(g),
            forall|g: u64| g != frame ==> #[trigger] final(self).references(g) == old(self).references(g),
    {
        if let Some(slot) = self.find_slot(frame) {
            let ghost before = *self;
            self.entries[slot] = CowEntry { frame: 0, refcount: 0, occupied: false };
            proof {
                before.lemma_others_kept(self, slot as int, frame);
                assert forall|i: int| 0 <= i < MAX_COW_FRAMES implies !((#[trigger] self.slots()[i]).occupied
                    && self.slots()[i].frame == frame) by {
                    if i != slot && self.slots()[i].occupied && self.slots()[i].frame == frame {
                        if i < slot {
                            assert(before.entries@[i].frame != before.entries@[slot as int].frame);
                        } else {
                            assert(before.entries@[slot as int].frame != before.entries@[i].frame);
                        }
                    }
                }
            }
        }
    }
}

/// How many mappings, the frame cache's own among them, refer to a file frame.
pub fn file_frame_references(table: &CowTable, frame: u64) -> (count: u32)
    requires
        table.wf(),
    ensures
        count == table.references(frame),
{
    table.refcount(frame)
}

/// Sharing a frame and then releasing it again leaves every frame's reference
/// count as it was, and the release does not free the frame.
pub proof fn law_share_then_release(t0: CowTable, t1: CowTable, t2: CowTable, frame: u64, freed: bool)
    requires
        t0.wf(),
        shared(t0, frame, t1),
        released(t1, frame, t2, freed),
    ensures
        !freed,
        forall|g: u64| #[trigger] t2.references(g) == t0.references(g),
{
    if t0.tracks(frame) {
        let i = choose|i: int| 0 <= i < MAX_COW_FRAMES && (#[trigger] t0.slots()[i]).occupied && t0.slots()[i].frame == frame;
        t0.lemma_slot_of(frame, i);
    }
    assert forall|g: u64| #[trigger] t2.references(g) == t0.references(g) by {
        if g != frame {
            assert(t2.references(g) == t1.references(g));
        }
    }
}


/// Page table entry flags.
pub const PRESENT: u64 = 0x1;
pub const WRITABLE: u64 = 0x2;
pub const USER_ACCESSIBLE: u64 = 0x4;
pub const NO_EXECUTE: u64 = 0x8000_0000_0000_0000;

/// Size of a page.
pub const PAGE_SIZE: u64 = 4096;

/// The flags of a user page: present and user accessible, writable if asked,
/// and not executable unless asked.
pub open spec fn spec_user_flags(writable: bool, executable: bool) -> u64 {
    (PRESENT | USER_ACCESSIBLE) | (if writable { WRITABLE } else { 0 }) | (if executable { 0 } else { NO_EXECUTE })
}

pub fn user_flags(writable: bool, executable: bool) -> (flags: u64)
    ensures
        flags == spec_user_flags(writable, executable),
{
    let mut flags = PRESENT | USER_ACCESSIBLE;
    if writable {
        flags = flags | WRITABLE;
    } else {
        flags = flags | 0;
    }
    if !executable {
        flags = flags | NO_EXECUTE;
    } else {
        flags = flags | 0;
    }
    flags
}

/// `size` bytes at `start` make whole pages: both page aligned, the size not zero,
/// and the range not past the end of the address space.
pub open spec fn range_valid(start: u64, size: usize) -> bool {
    !(size == 0 || start % PAGE_SIZE != 0 || size % 4096 != 0 || start + size - 1 > u64::MAX)
}

/// The first and last page of `size` bytes at `start`.
pub fn page_range(start: u64, size: usize) -> (pages: Result<(u64, u64), MapRangeError>)
    ensures
        !range_valid(start, size) ==> pages == Err::<(u64, u64), MapRangeError>(MapRangeError::InvalidRange),
        range_valid(start, size) ==> pages == Ok::<(u64, u64), MapRangeError>((start, (start + size - PAGE_SIZE) as u64)),
{
    if size == 0 || start % PAGE_SIZE != 0 || size % 4096 != 0 {
        return Err(MapRangeError::InvalidRange);
    }
    if size as u128 > u64::MAX as u128 {
        return Err(MapRangeError::InvalidRange);
    }
    let length = size as u64;
    let last = match start.checked_add(length - 1) {
        Some(last) => last,
        None => return Err(MapRangeError::InvalidRange),
    };
    Ok((start, last - last % PAGE_SIZE))
}

/// Where a page is mapped: its frame, the offset into the frame, and the entry's
/// flags.
#[derive(Clone, Copy, PartialEq, Eq, Structural, Debug)]
pub struct Translation {
    pub frame: u64,
    pub offset: u64,
    pub flags: u64,
}

/// What `translate` reports for `page` when the page tables hold `mappings`.
pub open spec fn translation_of(mappings: Map<u64, (u64, u64)>, page: u64) -> Option<Translation> {
    if mappings.contains_key(page) {
        Some(Translation { frame: mappings[page].0, offset: 0, flags: mappings[page].1 })
    } else {
        None
    }
}

/// Some page of `mappings` is mapped to `frame`.
pub open spec fn maps_frame(mappings: Map<u64, (u64, u64)>, frame: u64) -> bool {
    exists|page: u64| mappings.contains_key(page) && #[trigger] mappings[page].0 == frame
}

/// The page tables of one address space, and the frames behind them.
///
/// Their contents are modelled by `mappings()`: each mapped page with its frame and
/// the flags of its entry. Looking a page up changes nothing; a successful change
/// does exactly what it names and a failed one changes nothing; a frame handed out
/// is mapped at no page.
pub trait PageMapper {
    /// The mapped pages, each with its frame and entry flags.
    spec fn mappings(&self) -> Map<u64, (u64, u64)>;

    /// The mapper's own consistency condition, kept by every operation.
    spec fn valid(&self) -> bool;

    fn translate(&mut self, page: u64) -> (translation: Option<Translation>)
        requires
            old(self).valid(),
        ensures
            final(self).valid(),
            final(self).mappings() == old(self).mappings(),
            translation == translation_of(old(self).mappings(), page),
    ;

    fn update_flags(&mut self, page: u64, flags: u64) -> (updated: bool)
        requires
            old(self).valid(),
        ensures
            final(self).valid(),
            updated ==> old(self).mappings().contains_key(page) && final(self).mappings() == old(
                self,
            ).mappings().insert(page, (old(self).mappings()[page].0, flags)),
            !updated ==> final(self).mappings() == old(self).mappings(),
    ;

    fn allocate_frame(&mut self) -> (frame: Option<u64>)
        requires
            old(self).valid(),
        ensures
            final(self).valid(),
            final(self).mappings() == old(self).mappings(),
            frame is Some ==> !maps_frame(old(self).mappings(), frame->0),
    ;

    fn deallocate_frame(&mut self, frame: u64)
        requires
            old(self).valid(),
        ensures
            final(self).valid(),
            final(self).mappings() == old(self).mappings(),
    ;

    /// Copies a whole frame; false when the frames cannot be reached.
    fn copy_frame(&mut self, from: u64, to: u64) -> (copied: bool)
        requires
            old(self).valid(),
        ensures
            final(self).valid(),
            final(self).mappings() == old(self).mappings(),
    ;

    /// Removes the mapping of `page`; the frame it mapped.
    fn unmap(&mut self, page: u64) -> (frame: Option<u64>)
        requires
            old(self).valid(),
        ensures
            final(self).valid(),
            old(self).mappings().contains_key(page) ==> frame == Some(old(self).mappings()[page].0)
                && final(self).mappings() == old(self).mappings().remove(page),
            !old(self).mappings().contains_key(page) ==> frame is None && final(self).mappings() == old(
                self,
            ).mappings(),
    ;

    fn map_to(&mut self, page: u64, frame: u64, flags: u64) -> (mapped: bool)
        requires
            old(self).valid(),
        ensures
            final(self).valid(),
            mapped ==> final(self).mappings() == old(self).mappings().insert(page, (frame, flags)),
            !mapped ==> final(self).mappings() == old(self).mappings(),
    ;
}

/// Page tables kept in memory: the pages mapped, and frames handed out in order
/// from a counter. Only frames already handed out can be mapped.
pub struct TableMapper {
    pages: std::collections::HashMap<u64, (u64, u64)>,
    next_frame: u64,
    /// Frames given back, in order.
    pub freed: Vec<u64>,
    /// Frames copied so far.
    pub copies: u64,
}

impl TableMapper {
    /// The mapped pages.
    pub closed spec fn table(&self) -> Map<u64, (u64, u64)> {
        self.pages@
    }

    /// Every mapped frame was handed out already.
    pub closed spec fn frames_handed_out(&self) -> bool {
        forall|page: u64| #[trigger] self.pages@.contains_key(page) ==> self.pages@[page].0 < self.next_frame
    }

    /// No page mapped; frames are handed out from `first_frame` on.
    pub fn new(first_frame: u64) -> (mapper: Self)
        ensures
            mapper.mappings() == Map::<u64, (u64, u64)>::empty(),
            mapper.valid(),
    {
        TableMapper { pages: std::collections::HashMap::new(), next_frame: first_frame, freed: Vec::new(), copies: 0 }
    }

    /// The frame and flags of `page`, if it is mapped.
    pub fn lookup(&self, page: u64) -> (found: Option<(u64, u64)>)
        ensures
            found == (if self.mappings().contains_key(page) {
                Some(self.mappings()[page])
            } else {
                None
            }),
    {
        broadcast use vstd::std_specs::hash::group_hash_axioms;
        match self.pages.get(&page) {
            Some(entry) => Some(*entry),
            None => None,
        }
    }
}

impl PageMapper for TableMapper {
    open spec fn mappings(&self) -> Map<u64, (u64, u64)> {
        self.table()
    }

    open spec fn valid(&self) -> bool {
        self.frames_handed_out()
    }

    fn translate(&mut self, page: u64) -> (translation: Option<Translation>) {
        match self.lookup(page) {
            Some((frame, flags)) => Some(Translation { frame, offset: 0, flags }),
            None => None,
        }
    }

    fn update_flags(&mut self, page: u64, flags: u64) -> (updated: bool) {
        broadcast use vstd::std_specs::hash::group_hash_axioms;
        match self.lookup(page) {
            Some((frame, _)) => {
                self.pages.insert(page, (frame, flags));
                true
            },
            None => false,
        }
    }

    fn allocate_frame(&mut self) -> (frame: Option<u64>) {
        if self.next_frame > u64::MAX - PAGE_SIZE {
            return None;
        }
        let frame = self.next_frame;
        self.next_frame = self.next_frame + PAGE_SIZE;
        Some(frame)
    }

    fn deallocate_frame(&mut self, frame: u64) {
        self.freed.push(frame);
    }

    fn copy_frame(&mut self, from: u64, to: u64) -> (copied: bool) {
        self.copies = self.copies.saturating_add(1);
        true
    }

    fn unmap(&mut self, page: u64) -> (frame: Option<u64>) {
        broadcast use vstd::std_specs::hash::group_hash_axioms;
        match self.pages.remove(&page) {
            Some((frame, _)) => Some(frame),
            None => None,
        }
    }

    fn map_to(&mut self, page: u64, frame: u64, flags: u64) -> (mapped: bool) {
        broadcast use vstd::std_specs::hash::group_hash_axioms;
        if frame >= self.next_frame {
            return false;
        }
        self.pages.insert(page, (frame, flags));
        true
    }
}

/// The flags a page gets once its copy-on-write sharing is broken: present, user
/// accessible and writable, keeping no-execute.
pub open spec fn spec_broken_flags(flags: u64) -> u64 {
    (PRESENT | USER_ACCESSIBLE | WRITABLE) | (if flags & NO_EXECUTE != 0 { NO_EXECUTE } else { 0 })
}

/// The page holding `address`.
pub fn fault_page(address: u64) -> (page: u64)
    ensures
        page == address - address % PAGE_SIZE,
        page % PAGE_SIZE == 0,
{
    address - address % PAGE_SIZE
}

/// What a write fault on a page calls for.
#[derive(Clone, Copy, PartialEq, Eq, Structural, Debug)]
pub enum CowAction {
    /// No copy-on-write fault: leave the page alone.
    Refuse,
    /// The frame has one user: make the mapping writable in place, with `flags`.
    MakeWritable { frame: u64, flags: u64 },
    /// The frame is shared: copy it to a new frame mapped with `flags`.
    Copy { frame: u64, flags: u64 },
}

/// The action for a fault on a page with `translation`, whose frame has
/// `references` sharers: only a present, page-aligned, read-only mapping is a
/// copy-on-write fault.
pub open spec fn spec_cow_action(translation: Option<Translation>, references: u32) -> CowAction {
    match translation {
        None => CowAction::Refuse,
        Some(t) => if t.offset != 0 || t.flags & PRESENT == 0 || t.frame % PAGE_SIZE != 0 || t.flags & WRITABLE != 0 {
            CowAction::Refuse
        } else if references <= 1 {
            CowAction::MakeWritable { frame: t.frame, flags: spec_broken_flags(t.flags) }
        } else {
            CowAction::Copy { frame: t.frame, flags: spec_broken_flags(t.flags) }
        },
    }
}

/// Decides a write fault from the page's translation and its frame's sharers.
pub fn cow_action(translation: Option<Translation>, references: u32) -> (action: CowAction)
    ensures
        action == spec_cow_action(translation, references),
{
    let t = match translation {
        Some(t) => t,
        None => return CowAction::Refuse,
    };
    if t.offset != 0 || t.flags & PRESENT == 0 || t.frame % PAGE_SIZE != 0 || t.flags & WRITABLE != 0 {
        return CowAction::Refuse;
    }
    let flags = (PRESENT | USER_ACCESSIBLE | WRITABLE) | (if t.flags & NO_EXECUTE != 0 { NO_EXECUTE } else { 0 });
    if references <= 1 {
        CowAction::MakeWritable { frame: t.frame, flags }
    } else {
        CowAction::Copy { frame: t.frame, flags }
    }
}

/// The page holding `address`.
pub open spec fn fault_page_of(address: u64) -> u64 {
    (address - address % PAGE_SIZE) as u64
}

/// What a write fault at `address` calls for, given the frame sharers in `cow` and
/// the page tables `mappings`.
pub open spec fn fault_decision(cow: CowTable, mappings: Map<u64, (u64, u64)>, address: u64) -> CowAction {
    let translation = translation_of(mappings, fault_page_of(address));
    spec_cow_action(
        translation,
        match translation {
            Some(t) => cow.references(t.frame),
            None => 1,
        },
    )
}

/// `after` is `before` with `page` mapped, with `flags`, to a frame that is not
/// `shared` and that `before` maps nowhere.
pub open spec fn private_copy_mapped(
    before: Map<u64, (u64, u64)>,
    after: Map<u64, (u64, u64)>,
    page: u64,
    shared: u64,
    flags: u64,
) -> bool {
    exists|copy: u64|
        #![trigger before.insert(page, (copy, flags))]
        copy != shared && !maps_frame(before, copy) && after == before.insert(page, (copy, flags))
}

/// Resolves a user write fault at `fault_address` on a read-only page: a frame with
/// a single user becomes writable in place; a shared frame is copied to a new
/// writable frame and loses one reference. False when the fault is no such case
/// or the page tables could not be changed; the reference counts are then as they
/// were.
pub fn try_break_cow<M: PageMapper>(cow: &mut CowTable, mapper: &mut M, fault_address: u64) -> (handled: bool)
    requires
        old(cow).wf(),
        old(mapper).valid(),
    ensures
        final(cow).wf(),
        final(mapper).valid(),
        fault_decision(*old(cow), old(mapper).mappings(), fault_address) is Refuse ==> !handled && final(mapper).mappings() == old(mapper).mappings() && *final(cow) == *old(cow),
        handled && fault_decision(*old(cow), old(mapper).mappings(), fault_address) is MakeWritable ==> final(mapper).mappings() == old(mapper).mappings().insert(
            fault_page_of(fault_address),
            (
                fault_decision(*old(cow), old(mapper).mappings(), fault_address)->MakeWritable_frame,
                fault_decision(*old(cow), old(mapper).mappings(), fault_address)->MakeWritable_flags,
            ),
        ),
        handled && fault_decision(*old(cow), old(mapper).mappings(), fault_address) is Copy ==> private_copy_mapped(
            old(mapper).mappings(),
            final(mapper).mappings(),
            fault_page_of(fault_address),
            fault_decision(*old(cow), old(mapper).mappings(), fault_address)->Copy_frame,
            fault_decision(*old(cow), old(mapper).mappings(), fault_address)->Copy_flags,
        ),
        !handled ==> final(mapper).mappings() == old(mapper).mappings() || final(mapper).mappings() == old(mapper).mappings().remove(fault_page_of(fault_address)),
        !handled ==> final(cow).slots() == old(cow).slots(),
        handled ==> exists|t: Translation|
            #![trigger spec_cow_action(Some(t), old(cow).references(t.frame))]
            match spec_cow_action(Some(t), old(cow).references(t.frame)) {
                CowAction::Refuse => false,
                CowAction::MakeWritable { frame, flags } => {
                    &&& !final(cow).tracks(frame)
                    &&& forall|g: u64| g != frame ==> #[trigger] final(cow).tracks(g) == old(cow).tracks(g)
                    &&& forall|g: u64| g != frame ==> #[trigger] final(cow).references(g) == old(cow).references(g)
                },
                CowAction::Copy { frame, flags } => exists|freed: bool| released(*old(cow), frame, *final(cow), freed),
            },
        handled ==> exists|frame: u64|
            if old(cow).references(frame) <= 1 {
                &&& !final(cow).tracks(frame)
                &&& forall|g: u64| g != frame ==> #[trigger] final(cow).tracks(g) == old(cow).tracks(g)
                &&& forall|g: u64| g != frame ==> #[trigger] final(cow).references(g) == old(cow).references(g)
            } else {
                exists|freed: bool| released(*old(cow), frame, *final(cow), freed)
            },
{
    let page = fault_page(fault_address);
    let translation = mapper.translate(page);
    let refs = match translation {
        Some(t) => cow.refcount(t.frame),
        None => 1,
    };
    match cow_action(translation, refs) {
        CowAction::Refuse => false,
        CowAction::MakeWritable { frame, flags } => {
            if !mapper.update_flags(page, flags) {
                return false;
            }
            cow.forget(frame);
            true
        },
        CowAction::Copy { frame, flags } => {
            let old_flags = match translation {
                Some(t) => t.flags,
                None => 0,
            };
            let new_frame = match mapper.allocate_frame() {
                Some(new_frame) => new_frame,
                None => return false,
            };
            if !mapper.copy_frame(frame, new_frame) {
                mapper.deallocate_frame(new_frame);
                return false;
            }
            if mapper.unmap(page).is_none() {
                mapper.deallocate_frame(new_frame);
                return false;
            }
            if !mapper.map_to(page, new_frame, flags) {
                // Put the old mapping back as well as we can.
                let _ = mapper.map_to(page, frame, old_flags);
                proof {
                    assert(old(mapper).mappings().remove(page).insert(page, (frame, old_flags)) =~= old(mapper).mappings());
                }
                mapper.deallocate_frame(new_frame);
                return false;
            }
            proof {
                assert(old(mapper).mappings().contains_key(page) && old(mapper).mappings()[page].0 == frame);
                assert(old(mapper).mappings().remove(page).insert(page, (new_frame, flags)) =~= old(mapper).mappings().insert(page, (new_frame, flags)));
            }
            let freed = cow.release(frame);
            if freed {
                mapper.deallocate_frame(frame);
            }
            proof {
                assert(maps_frame(old(mapper).mappings(), frame));
                assert(new_frame != frame);
                assert(mapper.mappings() == old(mapper).mappings().insert(page, (new_frame, flags)));
                assert(page == fault_page_of(fault_address));
            }
            true
        },
    }
}


/// `after` maps the same pages as `before`, each to the same frame.
pub open spec fn keeps_frames(before: Map<u64, (u64, u64)>, after: Map<u64, (u64, u64)>) -> bool {
    forall|p: u64|
        #[trigger] after.contains_key(p) == before.contains_key(p) && (before.contains_key(p) ==> after[p].0
            == before[p].0)
}

/// Page `k` of a range starting at `start`.
pub open spec fn nth_page(start: u64, k: int) -> u64 {
    (start + k * PAGE_SIZE) as u64
}

/// `mappings` is `original` with the pages `k` of the range at `start`, for `from
/// <= k < to`, added, and nothing else changed.
pub open spec fn adds_pages(
    original: Map<u64, (u64, u64)>,
    mappings: Map<u64, (u64, u64)>,
    start: u64,
    from: int,
    to: int,
) -> bool {
    &&& forall|p: u64| #[trigger] original.contains_key(p) ==> mappings.contains_key(p) && mappings[p] == original[p]
    &&& forall|p: u64|
        #[trigger] mappings.contains_key(p) && !original.contains_key(p) ==> exists|k: int|
            from <= k < to && p == nth_page(start, k)
    &&& forall|k: int|
        from <= k < to ==> !original.contains_key(#[trigger] nth_page(start, k)) && mappings.contains_key(
            nth_page(start, k),
        )
}

/// Takes back the first `mapped` pages shared into `destination` from `start` on:
/// each unmapped frame loses a reference and is freed when none is left. The
/// destination's page tables are as they were before the sharing.
fn rollback_shared<M: PageMapper>(
    destination: &mut M,
    cow: &mut CowTable,
    start: u64,
    mapped: u64,
    Ghost(original): Ghost<Map<u64, (u64, u64)>>,
)
    requires
        old(cow).wf(),
        old(destination).valid(),
        start + mapped * PAGE_SIZE <= u64::MAX + 1,
        adds_pages(original, old(destination).mappings(), start, 0, mapped as int),
    ensures
        final(cow).wf(),
        final(destination).valid(),
        final(destination).mappings() == original,
        forall|g: u64| #[trigger] final(cow).references(g) <= old(cow).references(g),
        forall|g: u64| #[trigger] final(cow).tracks(g) ==> old(cow).tracks(g),
        mapped == 0 ==> *final(cow) == *old(cow),
{
    let mut page = start;
    let mut i: u64 = 0;
    while i < mapped
        invariant
            cow.wf(),
            destination.valid(),
            i <= mapped,
            forall|g: u64| #[trigger] cow.references(g) <= old(cow).references(g),
            forall|g: u64| #[trigger] cow.tracks(g) ==> old(cow).tracks(g),
            i == 0 ==> *cow == *old(cow),
            i < mapped ==> page == start + i * PAGE_SIZE,
            start + mapped * PAGE_SIZE <= u64::MAX + 1,
            adds_pages(original, destination.mappings(), start, i as int, mapped as int),
        decreases mapped - i,
    {
        let ghost before_map = destination.mappings();
        assert(page == nth_page(start, i as int));
        if let Some(frame) = destination.unmap(page) {
            let ghost before = *cow;
            let freed = cow.release(frame);
            proof {
                assert forall|g: u64| #[trigger] cow.references(g) <= before.references(g) by {
                    if g == frame && !before.tracks(frame) {
                        assert(cow.slots() == before.slots());
                        assert(cow.references(g) == before.references(g));
                    }
                }
            }
            if freed {
                destination.deallocate_frame(frame);
            }
        }
        proof {
            assert forall|p: u64| #[trigger] destination.mappings().contains_key(p) && !original.contains_key(p)
                implies exists|k: int| i + 1 <= k < mapped && p == nth_page(start, k) by {
                assert(before_map.contains_key(p));
                let k = choose|k: int| i <= k < mapped && p == nth_page(start, k);
                assert(k != i);
            }
            assert forall|k: int| i + 1 <= k < mapped implies !original.contains_key(#[trigger] nth_page(start, k))
                && destination.mappings().contains_key(nth_page(start, k)) by {
                assert(nth_page(start, k) != nth_page(start, i as int));
            }
        }
        if i + 1 < mapped {
            proof {
                assert(start + (i + 1) * PAGE_SIZE < start + mapped * PAGE_SIZE) by (nonlinear_arith)
                    requires i + 1 < mapped;
                assert(start + (i + 1) * PAGE_SIZE == start + i * PAGE_SIZE + PAGE_SIZE) by (nonlinear_arith);
            }
            page = page + PAGE_SIZE;
        }
        i = i + 1;
    }
    assert(destination.mappings() =~= original);
}

/// Maps the pages of `size` bytes at `start` of the address space `source` into
/// `destination`, the same frames shared between them: read-only in both when the
/// range is writable, so that a write breaks the sharing. Each page's frame gains a
/// reference. A page that is not mapped in the source, not a user page, or already
/// mapped in the destination stops the sharing and the pages shared so far are
/// taken back: the destination's page tables are then as they were.
pub fn share_user_range_in<M: PageMapper>(
    cow: &mut CowTable,
    source_space: u64,
    source: &mut M,
    destination_space: u64,
    destination: &mut M,
    start: u64,
    size: usize,
    writable: bool,
    executable: bool,
) -> (result: Result<(), MapRangeError>)
    requires
        old(cow).wf(),
        old(source).valid(),
        old(destination).valid(),
    ensures
        final(cow).wf(),
        final(source).valid(),
        final(destination).valid(),
        source_space == destination_space ==> result == Err::<(), MapRangeError>(MapRangeError::InvalidRange)
            && final(cow).slots() == old(cow).slots(),
        source_space != destination_space && !range_valid(start, size) ==> result == Err::<(), MapRangeError>(
            MapRangeError::InvalidRange) && final(cow).slots() == old(cow).slots(),
        result is Err ==> result != Err::<(), MapRangeError>(MapRangeError::NotInitialized),
        result is Err ==> final(destination).mappings() == old(destination).mappings(),
        result is Ok ==> source_space != destination_space && range_valid(start, size),
        result is Ok ==> forall|g: u64| #[trigger] final(cow).references(g) >= old(cow).references(g),
        result is Ok ==> forall|g: u64| #[trigger] old(cow).tracks(g) ==> final(cow).tracks(g),
        result is Ok ==> adds_pages(
            old(destination).mappings(),
            final(destination).mappings(),
            start,
            0,
            (size as int) / (PAGE_SIZE as int),
        ),
        result is Ok ==> forall|k: int|
            0 <= k < (size as int) / (PAGE_SIZE as int) ==> {
                let page = #[trigger] nth_page(start, k);
                let frame = old(source).mappings()[page].0;
                &&& old(source).mappings().contains_key(page)
                &&& final(destination).mappings()[page] == (frame, spec_user_flags(false, executable))
                &&& final(cow).tracks(frame)
                &&& final(cow).references(frame) > old(cow).references(frame)
            },
        keeps_frames(old(source).mappings(), final(source).mappings()),
{
    if source_space == destination_space {
        return Err(MapRangeError::InvalidRange);
    }
    let (first, last) = match page_range(start, size) {
        Ok(pages) => pages,
        Err(error) => return Err(error),
    };
    let ghost original = destination.mappings();
    let ghost from = source.mappings();
    let flags = user_flags(false, executable);
    let mut mapped: u64 = 0;
    let mut page = first;
    loop
        invariant
            cow.wf(),
            source.valid(),
            destination.valid(),
            source_space != destination_space,
            range_valid(start, size),
            first == start,
            last == start + size - PAGE_SIZE,
            first <= page <= last,
            page == first + mapped * PAGE_SIZE,
            (last - first) % (PAGE_SIZE as int) == 0,
            last <= u64::MAX - PAGE_SIZE + 1,
            flags == spec_user_flags(false, executable),
            original == old(destination).mappings(),
            from == old(source).mappings(),
            forall|g: u64| #[trigger] cow.references(g) >= old(cow).references(g),
            forall|g: u64| #[trigger] old(cow).tracks(g) ==> cow.tracks(g),
            adds_pages(original, destination.mappings(), start, 0, mapped as int),
            forall|k: int|
                0 <= k < mapped ==> {
                    let shared = #[trigger] nth_page(start, k);
                    let frame = from[shared].0;
                    &&& from.contains_key(shared)
                    &&& destination.mappings()[shared] == (frame, flags)
                    &&& cow.tracks(frame)
                    &&& cow.references(frame) > old(cow).references(frame)
                },
            keeps_frames(from, source.mappings()),
        decreases last - page,
    {
        assert(page == nth_page(start, mapped as int));
        let ghost source_before = source.mappings();
        let translation = match source.translate(page) {
            Some(t) => t,
            None => {
                rollback_shared(destination, cow, first, mapped, Ghost(original));
                return Err(MapRangeError::NotMapped);
            },
        };
        assert(source.mappings() =~= source_before);
        if translation.offset != 0 || translation.flags & USER_ACCESSIBLE == 0 || translation.frame % PAGE_SIZE != 0 {
            rollback_shared(destination, cow, first, mapped, Ghost(original));
            return Err(MapRangeError::MappingFailed);
        }
        if destination.translate(page).is_some() {
            rollback_shared(destination, cow, first, mapped, Ghost(original));
            return Err(MapRangeError::AlreadyMapped);
        }
        proof {
            assert(!original.contains_key(page));
        }
        // Count the reference before the mapping exists, so that a rollback never
        // drops one that was not taken.
        let ghost before_cow = *cow;
        if cow.share(translation.frame).is_err() {
            rollback_shared(destination, cow, first, mapped, Ghost(original));
            return Err(MapRangeError::OutOfFrames);
        }
        let ghost before_map = destination.mappings();
        if !destination.map_to(page, translation.frame, flags) {
            let _ = cow.release(translation.frame);
            rollback_shared(destination, cow, first, mapped, Ghost(original));
            return Err(MapRangeError::MappingFailed);
        }
        proof {
            assert forall|p: u64| #[trigger] destination.mappings().contains_key(p) && !original.contains_key(p)
                implies exists|k: int| 0 <= k < mapped + 1 && p == nth_page(start, k) by {
                if p != page {
                    assert(before_map.contains_key(p));
                }
            }
            assert forall|k: int| 0 <= k < mapped + 1 implies !original.contains_key(#[trigger] nth_page(start, k))
                && destination.mappings().contains_key(nth_page(start, k)) by {
                if k < mapped {
                    assert(before_map.contains_key(nth_page(start, k)));
                }
            }
            assert forall|k: int| 0 <= k < mapped + 1 implies {
                let shared = #[trigger] nth_page(start, k);
                let frame = from[shared].0;
                &&& from.contains_key(shared)
                &&& destination.mappings()[shared] == (frame, flags)
                &&& cow.tracks(frame)
                &&& cow.references(frame) > old(cow).references(frame)
            } by {
                if k < mapped {
                    assert(nth_page(start, k) != page);
                    assert(before_cow.references(from[nth_page(start, k)].0) > old(cow).references(
                        from[nth_page(start, k)].0,
                    ));
                }
            }
        }
        if writable && translation.flags & WRITABLE != 0 {
            let read_only = user_flags(false, executable);
            if !source.update_flags(page, read_only) {
                rollback_shared(destination, cow, first, mapped + 1, Ghost(original));
                return Err(MapRangeError::MappingFailed);
            }
            proof {
                assert forall|p: u64| #[trigger] source.mappings().contains_key(p) == from.contains_key(p) && (
                from.contains_key(p) ==> source.mappings()[p].0 == from[p].0) by {
                    if p != page {
                        assert(source.mappings().contains_key(p) == source_before.contains_key(p));
                    }
                }
                assert(keeps_frames(from, source.mappings()));
            }
        }
        mapped = mapped + 1;
        if page == last {
            proof {
                assert(mapped == (size as int) / (PAGE_SIZE as int));
            }
            return Ok(());
        }
        page = page + PAGE_SIZE;
    }
}

/// Maps fresh frames at the pages of `size` bytes at `start`, user pages with the
/// given rights. A page already mapped, a frame that cannot be had or a mapping that
/// fails stops the work: the pages mapped so far are unmapped and their frames given
/// back, and the page tables are as they were.
pub fn map_user_range_in<M: PageMapper>(
    mapper: &mut M,
    start: u64,
    size: usize,
    writable: bool,
    executable: bool,
) -> (result: Result<(), MapRangeError>)
    requires
        old(mapper).valid(),
    ensures
        final(mapper).valid(),
        !range_valid(start, size) ==> result == Err::<(), MapRangeError>(MapRangeError::InvalidRange),
        result is Ok ==> range_valid(start, size),
        result is Err ==> result == Err::<(), MapRangeError>(MapRangeError::InvalidRange) || result == Err::<
            (),
            MapRangeError,
        >(MapRangeError::AlreadyMapped) || result == Err::<(), MapRangeError>(MapRangeError::OutOfFrames)
            || result == Err::<(), MapRangeError>(MapRangeError::MappingFailed),
        result is Err ==> final(mapper).mappings() == old(mapper).mappings(),
        result is Ok ==> adds_pages(
            old(mapper).mappings(),
            final(mapper).mappings(),
            start,
            0,
            (size as int) / (PAGE_SIZE as int),
        ),
        result is Ok ==> forall|k: int|
            0 <= k < (size as int) / (PAGE_SIZE as int) ==> {
                let page = #[trigger] nth_page(start, k);
                &&& final(mapper).mappings()[page].1 == spec_user_flags(writable, executable)
                &&& !maps_frame(old(mapper).mappings(), final(mapper).mappings()[page].0)
            },
{
    let (first, last) = match page_range(start, size) {
        Ok(pages) => pages,
        Err(error) => return Err(error),
    };
    let ghost original = mapper.mappings();
    let flags = user_flags(writable, executable);
    let mut mapped: u64 = 0;
    let mut page = first;
    loop
        invariant
            mapper.valid(),
            range_valid(start, size),
            first == start,
            last == start + size - PAGE_SIZE,
            first <= page <= last,
            page == first + mapped * PAGE_SIZE,
            (last - first) % (PAGE_SIZE as int) == 0,
            last <= u64::MAX - PAGE_SIZE + 1,
            flags == spec_user_flags(writable, executable),
            original == old(mapper).mappings(),
            adds_pages(original, mapper.mappings(), start, 0, mapped as int),
            forall|k: int|
                0 <= k < mapped ==> {
                    let added = #[trigger] nth_page(start, k);
                    &&& mapper.mappings()[added].1 == flags
                    &&& !maps_frame(original, mapper.mappings()[added].0)
                },
        decreases last - page,
    {
        assert(page == nth_page(start, mapped as int));
        let ghost before_map = mapper.mappings();
        let failure = if mapper.translate(page).is_some() {
            Some(MapRangeError::AlreadyMapped)
        } else {
            match mapper.allocate_frame() {
                Some(frame) => {
                    proof {
                        assert(!original.contains_key(page));
                        if maps_frame(original, frame) {
                            let p = choose|p: u64| original.contains_key(p) && #[trigger] original[p].0 == frame;
                            assert(before_map.contains_key(p) && before_map[p].0 == frame);
                        }
                    }
                    if mapper.map_to(page, frame, flags) {
                        None
                    } else {
                        mapper.deallocate_frame(frame);
                        Some(MapRangeError::MappingFailed)
                    }
                },
                None => Some(MapRangeError::OutOfFrames),
            }
        };
        if let Some(error) = failure {
            unmap_fresh(mapper, first, mapped, Ghost(original));
            return Err(error);
        }
        proof {
            assert forall|p: u64| #[trigger] mapper.mappings().contains_key(p) && !original.contains_key(p)
                implies exists|k: int| 0 <= k < mapped + 1 && p == nth_page(start, k) by {
                if p != page {
                    assert(before_map.contains_key(p));
                }
            }
            assert forall|k: int| 0 <= k < mapped + 1 implies !original.contains_key(#[trigger] nth_page(start, k))
                && mapper.mappings().contains_key(nth_page(start, k)) by {
                if k < mapped {
                    assert(before_map.contains_key(nth_page(start, k)));
                }
            }
            assert forall|k: int| 0 <= k < mapped + 1 implies {
                let added = #[trigger] nth_page(start, k);
                &&& mapper.mappings()[added].1 == flags
                &&& !maps_frame(original, mapper.mappings()[added].0)
            } by {
                if k < mapped {
                    assert(nth_page(start, k) != page);
                }
            }
        }
        mapped = mapped + 1;
        if page == last {
            proof {
                assert(mapped == (size as int) / (PAGE_SIZE as int));
            }
            return Ok(());
        }
        page = page + PAGE_SIZE;
    }
}

/// Unmaps the first `mapped` pages from `start` and gives their frames back; the
/// page tables are then as they were before those pages were added.
fn unmap_fresh<M: PageMapper>(mapper: &mut M, start: u64, mapped: u64, Ghost(original): Ghost<Map<u64, (u64, u64)>>)
    requires
        old(mapper).valid(),
        start + mapped * PAGE_SIZE <= u64::MAX + 1,
        adds_pages(original, old(mapper).mappings(), start, 0, mapped as int),
    ensures
        final(mapper).valid(),
        final(mapper).mappings() == original,
{
    let mut page = start;
    let mut i: u64 = 0;
    while i < mapped
        invariant
            mapper.valid(),
            i <= mapped,
            i < mapped ==> page == start + i * PAGE_SIZE,
            start + mapped * PAGE_SIZE <= u64::MAX + 1,
            adds_pages(original, mapper.mappings(), start, i as int, mapped as int),
        decreases mapped - i,
    {
        let ghost before_map = mapper.mappings();
        assert(page == nth_page(start, i as int));
        if let Some(frame) = mapper.unmap(page) {
            mapper.deallocate_frame(frame);
        }
        proof {
            assert forall|p: u64| #[trigger] mapper.mappings().contains_key(p) && !original.contains_key(p)
                implies exists|k: int| i + 1 <= k < mapped && p == nth_page(start, k) by {
                assert(before_map.contains_key(p));
                let k = choose|k: int| i <= k < mapped && p == nth_page(start, k);
                assert(k != i);
            }
            assert forall|k: int| i + 1 <= k < mapped implies !original.contains_key(#[trigger] nth_page(start, k))
                && mapper.mappings().contains_key(nth_page(start, k)) by {
                assert(nth_page(start, k) != nth_page(start, i as int));
            }
        }
        if i + 1 < mapped {
            proof {
                assert(start + (i + 1) * PAGE_SIZE < start + mapped * PAGE_SIZE) by (nonlinear_arith)
                    requires i + 1 < mapped;
                assert(start + (i + 1) * PAGE_SIZE == start + i * PAGE_SIZE + PAGE_SIZE) by (nonlinear_arith);
            }
            page = page + PAGE_SIZE;
        }
        i = i + 1;
    }
    assert(mapper.mappings() =~= original);
}

/// `after` differs from `before` only at pages `k < count` of the range at `start`.
pub open spec fn changed_only_in_range(
    before: Map<u64, (u64, u64)>,
    after: Map<u64, (u64, u64)>,
    start: u64,
    count: int,
) -> bool {
    forall|p: u64|
        #[trigger] after.contains_key(p) != before.contains_key(p) || (before.contains_key(p) && after[p]
            != before[p]) ==> exists|k: int| 0 <= k < count && p == nth_page(start, k)
}

/// Gives the pages of `size` bytes at `start` new rights; a page that is not mapped
/// stops the work with `NotMapped`, the pages before it keeping their new rights.
/// No page changes frame, and only pages of the range change at all.
pub fn protect_user_range_in<M: PageMapper>(
    mapper: &mut M,
    start: u64,
    size: usize,
    writable: bool,
    executable: bool,
) -> (result: Result<(), MapRangeError>)
    requires
        old(mapper).valid(),
    ensures
        final(mapper).valid(),
        !range_valid(start, size) ==> result == Err::<(), MapRangeError>(MapRangeError::InvalidRange),
        range_valid(start, size) ==> result is Ok || result == Err::<(), MapRangeError>(MapRangeError::NotMapped),
        keeps_frames(old(mapper).mappings(), final(mapper).mappings()),
        changed_only_in_range(
            old(mapper).mappings(),
            final(mapper).mappings(),
            start,
            (size as int) / (PAGE_SIZE as int),
        ),
        result is Ok ==> forall|k: int|
            0 <= k < (size as int) / (PAGE_SIZE as int) ==> old(mapper).mappings().contains_key(
                #[trigger] nth_page(start, k),
            ) && final(mapper).mappings()[nth_page(start, k)].1 == spec_user_flags(writable, executable),
{
    let (first, last) = match page_range(start, size) {
        Ok(pages) => pages,
        Err(error) => {
            proof {
                assert(mapper.mappings() =~= old(mapper).mappings());
            }
            return Err(error);
        },
    };
    let ghost original = mapper.mappings();
    let flags = user_flags(writable, executable);
    let mut done: u64 = 0;
    let mut page = first;
    proof {
        assert((size as int) / (PAGE_SIZE as int) == (last - first) / (PAGE_SIZE as int) + 1);
    }
    loop
        invariant
            mapper.valid(),
            range_valid(start, size),
            first == start,
            last == start + size - PAGE_SIZE,
            first <= page <= last,
            page == first + done * PAGE_SIZE,
            (last - first) % (PAGE_SIZE as int) == 0,
            (size as int) / (PAGE_SIZE as int) == (last - first) / (PAGE_SIZE as int) + 1,
            last <= u64::MAX - PAGE_SIZE + 1,
            flags == spec_user_flags(writable, executable),
            original == old(mapper).mappings(),
            keeps_frames(original, mapper.mappings()),
            changed_only_in_range(original, mapper.mappings(), start, done as int),
            forall|k: int|
                0 <= k < done ==> original.contains_key(#[trigger] nth_page(start, k))
                    && mapper.mappings()[nth_page(start, k)].1 == flags,
        decreases last - page,
    {
        assert(page == nth_page(start, done as int));
        let ghost before_map = mapper.mappings();
        if !mapper.update_flags(page, flags) {
            proof {
                assert(changed_only_in_range(original, mapper.mappings(), start, (size as int) / (PAGE_SIZE as int)));
            }
            return Err(MapRangeError::NotMapped);
        }
        proof {
            assert forall|p: u64| #[trigger] mapper.mappings().contains_key(p) == original.contains_key(p) && (
            original.contains_key(p) ==> mapper.mappings()[p].0 == original[p].0) by {
                assert(before_map.contains_key(p) == original.contains_key(p));
            }
            assert forall|p: u64|
                #[trigger] mapper.mappings().contains_key(p) != original.contains_key(p) || (original.contains_key(p)
                    && mapper.mappings()[p] != original[p]) implies exists|k: int|
                0 <= k < done + 1 && p == nth_page(start, k) by {
                if p != page {
                    assert(before_map.contains_key(p) == mapper.mappings().contains_key(p));
                }
            }
            assert forall|k: int| 0 <= k < done + 1 implies original.contains_key(#[trigger] nth_page(start, k))
                && mapper.mappings()[nth_page(start, k)].1 == flags by {
                if k < done {
                    assert(nth_page(start, k) != page);
                }
            }
        }
        done = done + 1;
        if page == last {
            return Ok(());
        }
        page = page + PAGE_SIZE;
    }
}

/// Unmaps the pages of `size` bytes at `start`, dropping one reference of each
/// frame and giving back the frames no mapping refers to any more. A page that is
/// not mapped stops the work with `NotMapped`, the pages before it staying unmapped.
/// No frame gains a reference, no frame starts to be tracked, and no page outside
/// the range changes.
pub fn unmap_user_range_in<M: PageMapper>(cow: &mut CowTable, mapper: &mut M, start: u64, size: usize) -> (result: Result<(), MapRangeError>)
    requires
        old(cow).wf(),
        old(mapper).valid(),
    ensures
        final(cow).wf(),
        final(mapper).valid(),
        !range_valid(start, size) ==> result == Err::<(), MapRangeError>(MapRangeError::InvalidRange) && *final(cow)
            == *old(cow) && final(mapper).mappings() == old(mapper).mappings(),
        range_valid(start, size) ==> result is Ok || result == Err::<(), MapRangeError>(MapRangeError::NotMapped),
        forall|g: u64| #[trigger] final(cow).references(g) <= old(cow).references(g),
        forall|g: u64| #[trigger] final(cow).tracks(g) ==> old(cow).tracks(g),
        forall|p: u64|
            #[trigger] final(mapper).mappings().contains_key(p) ==> old(mapper).mappings().contains_key(p)
                && final(mapper).mappings()[p] == old(mapper).mappings()[p],
        changed_only_in_range(
            old(mapper).mappings(),
            final(mapper).mappings(),
            start,
            (size as int) / (PAGE_SIZE as int),
        ),
        result is Ok ==> forall|k: int|
            0 <= k < (size as int) / (PAGE_SIZE as int) ==> old(mapper).mappings().contains_key(
                #[trigger] nth_page(start, k),
            ) && !final(mapper).mappings().contains_key(nth_page(start, k)),
{
    let (first, last) = match page_range(start, size) {
        Ok(pages) => pages,
        Err(error) => return Err(error),
    };
    let ghost original = mapper.mappings();
    let mut done: u64 = 0;
    let mut page = first;
    proof {
        assert((size as int) / (PAGE_SIZE as int) == (last - first) / (PAGE_SIZE as int) + 1);
    }
    loop
        invariant
            cow.wf(),
            mapper.valid(),
            range_valid(start, size),
            first == start,
            last == start + size - PAGE_SIZE,
            first <= page <= last,
            page == first + done * PAGE_SIZE,
            (last - first) % (PAGE_SIZE as int) == 0,
            (size as int) / (PAGE_SIZE as int) == (last - first) / (PAGE_SIZE as int) + 1,
            last <= u64::MAX - PAGE_SIZE + 1,
            original == old(mapper).mappings(),
            forall|g: u64| #[trigger] cow.references(g) <= old(cow).references(g),
            forall|g: u64| #[trigger] cow.tracks(g) ==> old(cow).tracks(g),
            forall|p: u64|
                #[trigger] mapper.mappings().contains_key(p) ==> original.contains_key(p) && mapper.mappings()[p]
                    == original[p],
            changed_only_in_range(original, mapper.mappings(), start, done as int),
            forall|k: int|
                0 <= k < done ==> original.contains_key(#[trigger] nth_page(start, k))
                    && !mapper.mappings().contains_key(nth_page(start, k)),
        decreases last - page,
    {
        assert(page == nth_page(start, done as int));
        let ghost before_map = mapper.mappings();
        let frame = match mapper.unmap(page) {
            Some(frame) => frame,
            None => {
                proof {
                    assert(changed_only_in_range(original, mapper.mappings(), start, (size as int) / (PAGE_SIZE as int)));
                }
                return Err(MapRangeError::NotMapped);
            },
        };
        let ghost before = *cow;
        let freed = cow.release(frame);
        proof {
            assert forall|g: u64| #[trigger] cow.references(g) <= before.references(g) by {
                if g == frame && !before.tracks(frame) {
                    assert(cow.slots() == before.slots());
                    assert(cow.references(g) == before.references(g));
                }
            }
        }
        if freed {
            mapper.deallocate_frame(frame);
        }
        proof {
            assert(original.contains_key(page)) by {
                if !original.contains_key(page) {
                    assert(!before_map.contains_key(page));
                }
            }
            assert forall|p: u64|
                #[trigger] mapper.mappings().contains_key(p) != original.contains_key(p) || (original.contains_key(p)
                    && mapper.mappings()[p] != original[p]) implies exists|k: int|
                0 <= k < done + 1 && p == nth_page(start, k) by {
                if p != page {
                    assert(before_map.contains_key(p) == mapper.mappings().contains_key(p));
                }
            }
            assert forall|k: int| 0 <= k < done + 1 implies original.contains_key(#[trigger] nth_page(start, k))
                && !mapper.mappings().contains_key(nth_page(start, k)) by {
                if k < done {
                    assert(nth_page(start, k) != page);
                }
            }
        }
        done = done + 1;
        if page == last {
            return Ok(());
        }
        page = page + PAGE_SIZE;
    }
}

} // verus!
