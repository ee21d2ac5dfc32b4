//! Physical pages of mapped files, kept so that mappings of the same file page
//! share one frame; the cache's own reference counts among the frame's users.
use vstd::prelude::*;

use crate::block::copy_bytes;
use crate::fat32::subslice;

verus! {

/// Pages the cache keeps.
pub const CAPACITY: usize = 64;

/// Size of a page in bytes.
pub const PAGE_SIZE: usize = 4096;

/// What a cached page holds: which file, at which generation and version, which
/// bytes, whether writes to the file show through, and for private pages taken
/// while a shared one exists, a snapshot number that keeps them apart.
#[derive(Clone, Copy, PartialEq, Eq, Structural, Debug)]
pub struct Key {
    pub node: usize,
    pub generation: u64,
    pub version: u64,
    pub offset: usize,
    pub count: usize,
    pub shared: bool,
    pub snapshot: u64,
}

/// A cached page: its key, its frame and how many lookups ago it was last used.
#[derive(Clone, Copy, PartialEq, Eq, Structural, Debug)]
pub struct Entry {
    pub key: Key,
    pub frame: u64,
    pub age: u64,
}

/// Where the cache gets file data and frames from, and how it maps them.
///
/// Its model is `mapped_log()`: the mappings made through `map_frame`, in order.
/// Only a successful `map_frame` adds one; no other call changes the log.
pub trait FrameStore {
    /// The mappings made so far: address space, address, frame, writable.
    spec fn mapped_log(&self) -> Seq<(u64, u64, u64, bool)>;

    /// The node, generation and version of an open file.
    fn file_identity(&mut self, file: u64) -> (identity: Result<(usize, u64, u64), ()>)
        ensures
            final(self).mapped_log() == old(self).mapped_log(),
    ;

    /// Reads file bytes at `offset` of the given generation, with no lock held.
    fn read_mapping_at(&mut self, file: u64, generation: u64, offset: usize, bytes: &mut [u8]) -> (read: Result<
        usize,
        (),
    >)
        ensures
            final(self).mapped_log() == old(self).mapped_log(),
    ;

    /// How many users, the cache among them, hold `frame`.
    fn frame_references(&mut self, frame: u64) -> (references: u32)
        ensures
            final(self).mapped_log() == old(self).mapped_log(),
    ;

    /// Drops one reference to `frame`; false when that failed.
    fn release_frame(&mut self, frame: u64) -> (released: bool)
        ensures
            final(self).mapped_log() == old(self).mapped_log(),
    ;

    /// A new frame holding `bytes`.
    fn allocate_frame(&mut self, bytes: &[u8; 4096]) -> (frame: Option<u64>)
        ensures
            final(self).mapped_log() == old(self).mapped_log(),
    ;

    /// Maps `frame` at `address` of the address space `space`.
    fn map_frame(&mut self, space: u64, address: u64, frame: u64, writable: bool) -> (mapped: bool)
        ensures
            mapped ==> final(self).mapped_log() == old(self).mapped_log().push((space, address, frame, writable)),
            !mapped ==> final(self).mapped_log() == old(self).mapped_log(),
    ;

    /// Copies bytes of `frame` from `offset` into `bytes`.
    fn read_frame(&mut self, frame: u64, offset: usize, bytes: &mut [u8])
        ensures
            final(self).mapped_log() == old(self).mapped_log(),
    ;

    /// Copies `bytes` into `frame` at `offset`.
    fn write_frame(&mut self, frame: u64, offset: usize, bytes: &[u8])
        ensures
            final(self).mapped_log() == old(self).mapped_log(),
    ;
}

/// A store holding one file in memory; frames are handed out in order from a
/// counter, their contents are not kept (reading one gives `fill` bytes), and every
/// mapping, file read and frame write is recorded.
pub struct MemoryStore {
    /// File reads so far.
    pub reads: u64,
    /// The byte a frame read gives.
    pub fill: u8,
    /// Frame writes, in order: frame, offset, bytes.
    pub writes: Vec<(u64, usize, Vec<u8>)>,
    /// The file's node, generation and version.
    pub identity: (usize, u64, u64),
    /// The file's bytes.
    pub data: Vec<u8>,
    /// What `frame_references` answers for every frame.
    pub references: u32,
    next_frame: u64,
    log: Vec<(u64, u64, u64, bool)>,
    /// Frames released, in order.
    pub released: Vec<u64>,
}

impl MemoryStore {
    /// A store for a file with `identity` and contents `data`, handing out frames from
    /// `first_frame` on.
    pub fn new(identity: (usize, u64, u64), data: Vec<u8>, first_frame: u64) -> (store: Self)
        ensures
            store.mapped_log() == Seq::<(u64, u64, u64, bool)>::empty(),
    {
        MemoryStore {
            reads: 0,
            fill: 0,
            writes: Vec::new(),
            identity,
            data,
            references: 1,
            next_frame: first_frame,
            log: Vec::new(),
            released: Vec::new(),
        }
    }

    /// The recorded mappings.
    pub closed spec fn recorded(&self) -> Seq<(u64, u64, u64, bool)> {
        self.log@
    }

    /// The mapping recorded `index`-th.
    pub fn mapping(&self, index: usize) -> (entry: Option<(u64, u64, u64, bool)>)
        ensures
            entry == (if index < self.mapped_log().len() {
                Some(self.mapped_log()[index as int])
            } else {
                None
            }),
    {
        if index < self.log.len() {
            Some(self.log[index])
        } else {
            None
        }
    }
}

impl FrameStore for MemoryStore {
    open spec fn mapped_log(&self) -> Seq<(u64, u64, u64, bool)> {
        self.recorded()
    }

    fn file_identity(&mut self, file: u64) -> (identity: Result<(usize, u64, u64), ()>) {
        Ok(self.identity)
    }

    fn read_mapping_at(&mut self, file: u64, generation: u64, offset: usize, bytes: &mut [u8]) -> (read: Result<
        usize,
        (),
    >) {
        self.reads = self.reads.saturating_add(1);
        if generation != self.identity.1 {
            return Err(());
        }
        let mut i: usize = 0;
        while i < bytes.len()
            invariant
                i <= bytes@.len(),
            decreases bytes@.len() - i,
        {
            if offset > usize::MAX - i || offset + i >= self.data.len() {
                break;
            }
            bytes[i] = self.data[offset + i];
            i = i + 1;
        }
        Ok(i)
    }

    fn frame_references(&mut self, frame: u64) -> (references: u32) {
        self.references
    }

    fn release_frame(&mut self, frame: u64) -> (released: bool) {
        self.released.push(frame);
        true
    }

    fn allocate_frame(&mut self, bytes: &[u8; 4096]) -> (frame: Option<u64>) {
        if self.next_frame > u64::MAX - 4096 {
            return None;
        }
        let frame = self.next_frame;
        self.next_frame = self.next_frame + 4096;
        Some(frame)
    }

    fn map_frame(&mut self, space: u64, address: u64, frame: u64, writable: bool) -> (mapped: bool) {
        self.log.push((space, address, frame, writable));
        true
    }

    fn read_frame(&mut self, frame: u64, offset: usize, bytes: &mut [u8]) {
        crate::block::fill_bytes(bytes, self.fill);
    }

    fn write_frame(&mut self, frame: u64, offset: usize, bytes: &[u8]) {
        let mut copy: Vec<u8> = Vec::new();
        let mut i: usize = 0;
        while i < bytes.len()
            invariant
                i <= bytes@.len(),
            decreases bytes@.len() - i,
        {
            copy.push(bytes[i]);
            i = i + 1;
        }
        self.writes.push((frame, offset, copy));
    }
}

/// Two keys name the same cached page; a shared page is the same whatever count of
/// bytes it was asked for with.
pub open spec fn spec_same_page(a: Key, b: Key) -> bool {
    &&& a.node == b.node
    &&& a.generation == b.generation
    &&& a.version == b.version
    &&& a.offset == b.offset
    &&& a.shared == b.shared
    &&& a.snapshot == b.snapshot
    &&& (a.shared || a.count == b.count)
}

pub fn same_page(a: Key, b: Key) -> (same: bool)
    ensures
        same == spec_same_page(a, b),
{
    a.node == b.node && a.generation == b.generation && a.version == b.version && a.offset == b.offset
        && a.shared == b.shared && a.snapshot == b.snapshot && (a.shared || a.count == b.count)
}

/// The entry is a shared page of `node` at `generation`.
pub open spec fn shared_page_of(entry: Entry, node: usize, generation: u64) -> bool {
    entry.key.shared && entry.key.node == node && entry.key.generation == generation
}

/// The part of `[offset, offset + len)` that a page holding `count` bytes from
/// `page_offset` covers, if any.
pub open spec fn spec_covered(page_offset: int, count: int, offset: int, len: int) -> Option<(int, int)> {
    let start = if offset >= page_offset { offset } else { page_offset };
    let end = if offset + len <= page_offset + count { offset + len } else { page_offset + count };
    if start < end { Some((start, end)) } else { None }
}

/// As `spec_covered`, where the sums fit.
pub fn covered(page_offset: usize, count: usize, offset: usize, len: usize) -> (range: Option<(usize, usize)>)
    requires
        page_offset + count <= usize::MAX,
        offset + len <= usize::MAX,
    ensures
        match spec_covered(page_offset as int, count as int, offset as int, len as int) {
            Some((s, e)) => range == Some((s as usize, e as usize)),
            None => range is None,
        },
{
    let start = if offset >= page_offset { offset } else { page_offset };
    let end = if offset + len <= page_offset + count { offset + len } else { page_offset + count };
    if start < end { Some((start, end)) } else { None }
}

/// The byte count a shared page holds after `len` bytes were written at `offset`:
/// a write reaching into the page extends it up to the write's end, at most a page.
pub open spec fn extended_count(key: Key, offset: int, len: int) -> int {
    if offset < key.offset + PAGE_SIZE && offset + len > key.offset {
        let reach = offset + len - key.offset;
        let capped = if reach < PAGE_SIZE { reach } else { PAGE_SIZE as int };
        if capped > key.count { capped } else { key.count as int }
    } else {
        key.count as int
    }
}

/// The byte count a shared page holds once its file is replaced by `len` bytes.
pub open spec fn replaced_count(key: Key, len: int) -> int {
    let rest = if len > key.offset { len - key.offset } else { 0 };
    if rest < PAGE_SIZE { rest } else { PAGE_SIZE as int }
}

/// The cached pages and the counter that numbers private snapshots.
pub struct FrameCache {
    slots: [Option<Entry>; 64],
    snapshots: u64,
}

impl FrameCache {
    pub closed spec fn entries(&self) -> Seq<Option<Entry>> {
        self.slots@
    }

    /// Every cached page fits in a page at an offset whose end is representable.
    pub closed spec fn wf(&self) -> bool {
        forall|i: int|
            0 <= i < CAPACITY && (#[trigger] self.slots@[i]) is Some ==> {
                &&& self.slots@[i]->0.key.count <= PAGE_SIZE
                &&& self.slots@[i]->0.key.offset + PAGE_SIZE <= usize::MAX
            }
    }

    pub fn new() -> (cache: Self)
        ensures
            cache.wf(),
            forall|i: int| 0 <= i < CAPACITY ==> (#[trigger] cache.entries()[i]) is None,
    {
        FrameCache { slots: [None; 64], snapshots: 1 }
    }

    /// Drops every cached page that only the cache still holds and whose frame
    /// could be released; the number dropped.
    pub fn reclaim_unused<S: FrameStore>(&mut self, store: &mut S) -> (released: usize)
        requires
            old(self).wf(),
        ensures
            final(self).wf(),
            forall|i: int|
                0 <= i < CAPACITY ==> #[trigger] final(self).entries()[i] == old(self).entries()[i] || (old(
                    self,
                ).entries()[i] is Some && final(self).entries()[i] is None),
            released == dropped_count(old(self).entries(), final(self).entries(), CAPACITY as int),
    {
        let mut released: usize = 0;
        let mut i: usize = 0;
        while i < CAPACITY
            invariant
                self.wf(),
                i <= CAPACITY,
                released <= i,
                forall|k: int|
                    0 <= k < CAPACITY ==> #[trigger] self.slots@[k] == old(self).slots@[k] || (old(self).slots@[k] is Some
                        && self.slots@[k] is None),
                forall|k: int| i <= k < CAPACITY ==> #[trigger] self.slots@[k] == old(self).slots@[k],
                released == dropped_count(old(self).slots@, self.slots@, i as int),
            decreases CAPACITY - i,
        {
            let ghost before = self.slots@;
            if let Some(entry) = self.slots[i] {
                if store.frame_references(entry.frame) == 1 && store.release_frame(entry.frame) {
                    self.slots[i] = None;
                    released = released + 1;
                }
            }
            proof {
                lemma_dropped_step(old(self).slots@, before, self.slots@, i as int);
            }
            i = i + 1;
        }
        released
    }
}

/// How many of the first `n` slots held a page in `before` and none in `after`.
pub open spec fn dropped_count(before: Seq<Option<Entry>>, after: Seq<Option<Entry>>, n: int) -> nat
    decreases n,
{
    if n <= 0 {
        0
    } else {
        dropped_count(before, after, n - 1) + if before[n - 1] is Some && after[n - 1] is None {
            1nat
        } else {
            0nat
        }
    }
}

proof fn lemma_dropped_prefix(before: Seq<Option<Entry>>, a: Seq<Option<Entry>>, b: Seq<Option<Entry>>, n: int)
    requires
        forall|k: int| 0 <= k < n ==> a[k] == b[k],
    ensures
        dropped_count(before, a, n) == dropped_count(before, b, n),
    decreases n,
{
    if n > 0 {
        lemma_dropped_prefix(before, a, b, n - 1);
    }
}

proof fn lemma_dropped_step(old_slots: Seq<Option<Entry>>, mid: Seq<Option<Entry>>, now: Seq<Option<Entry>>, i: int)
    requires
        0 <= i,
        forall|k: int| 0 <= k < i ==> mid[k] == now[k],
    ensures
        dropped_count(old_slots, now, i) == dropped_count(old_slots, mid, i),
        dropped_count(old_slots, now, i + 1) == dropped_count(old_slots, now, i) + if old_slots[i] is Some && now[i] is None {
            1nat
        } else {
            0nat
        },
{
    lemma_dropped_prefix(old_slots, mid, now, i);
}


/// `entry` caches the page asked for at `offset` of `generation`, fresh.
pub open spec fn holds_request(entry: Entry, generation: u64, offset: usize, count: usize, shared: bool) -> bool {
    &&& entry.key.generation == generation
    &&& entry.key.offset == offset
    &&& entry.key.shared == shared
    &&& (shared || entry.key.count == count)
    &&& entry.age == 0
}

impl FrameCache {
    /// The first cached page with the same key as `key`.
    fn find_page(&self, key: Key) -> (index: Option<usize>)
        ensures
            match index {
                Some(i) => i < CAPACITY && self.slots@[i as int] is Some && spec_same_page(
                    self.slots@[i as int]->0.key,
                    key,
                ),
                None => forall|k: int|
                    0 <= k < CAPACITY && (#[trigger] self.slots@[k]) is Some ==> !spec_same_page(self.slots@[k]->0.key, key),
            },
    {
        let mut i: usize = 0;
        while i < CAPACITY
            invariant
                i <= CAPACITY,
                forall|k: int|
                    0 <= k < i && (#[trigger] self.slots@[k]) is Some ==> !spec_same_page(self.slots@[k]->0.key, key),
            decreases CAPACITY - i,
        {
            if let Some(entry) = self.slots[i] {
                if same_page(entry.key, key) {
                    return Some(i);
                }
            }
            i = i + 1;
        }
        None
    }

    /// Whether a shared page of `node` at `generation` is cached.
    fn has_shared_page(&self, node: usize, generation: u64) -> (found: bool)
        ensures
            found == exists|k: int|
                0 <= k < CAPACITY && (#[trigger] self.slots@[k]) is Some && shared_page_of(self.slots@[k]->0, node, generation),
    {
        let mut i: usize = 0;
        while i < CAPACITY
            invariant
                i <= CAPACITY,
                forall|k: int|
                    0 <= k < i && (#[trigger] self.slots@[k]) is Some ==> !shared_page_of(self.slots@[k]->0, node, generation),
            decreases CAPACITY - i,
        {
            if let Some(entry) = self.slots[i] {
                if entry.key.shared && entry.key.node == node && entry.key.generation == generation {
                    return true;
                }
            }
            i = i + 1;
        }
        false
    }

    /// Ages every cached page by one lookup.
    fn age_all(&mut self)
        requires
            old(self).wf(),
        ensures
            final(self).wf(),
            forall|i: int|
                0 <= i < CAPACITY ==> match #[trigger] old(self).slots@[i] {
                    Some(e) => final(self).slots@[i] == Some(Entry { age: e.age.saturating_add(1), ..e }),
                    None => final(self).slots@[i] is None,
                },
    {
        let mut i: usize = 0;
        while i < CAPACITY
            invariant
                old(self).wf(),
                self.wf(),
                i <= CAPACITY,
                forall|k: int|
                    0 <= k < i ==> match #[trigger] old(self).slots@[k] {
                        Some(e) => self.slots@[k] == Some(Entry { age: e.age.saturating_add(1), ..e }),
                        None => self.slots@[k] is None,
                    },
                forall|k: int| i <= k < CAPACITY ==> #[trigger] self.slots@[k] == old(self).slots@[k],
            decreases CAPACITY - i,
        {
            if let Some(entry) = self.slots[i] {
                self.slots[i] = Some(Entry { age: entry.age.saturating_add(1), ..entry });
            }
            i = i + 1;
        }
    }

    /// The slot a new page goes to: the first empty one, else the oldest page only
    /// the cache holds (the last of equally old ones).
    fn victim<S: FrameStore>(&self, store: &mut S) -> (index: Option<usize>)
        ensures
            match index {
                Some(i) => i < CAPACITY,
                None => forall|k: int| 0 <= k < CAPACITY ==> (#[trigger] self.slots@[k]) is Some,
            },
            (exists|k: int| 0 <= k < CAPACITY && (#[trigger] self.slots@[k]) is None) ==> (index matches Some(i)
                && self.slots@[i as int] is None && forall|k: int| 0 <= k < i ==> (#[trigger] self.slots@[k]) is Some),
            final(store).mapped_log() == old(store).mapped_log(),
    {
        let mut i: usize = 0;
        while i < CAPACITY
            invariant
                i <= CAPACITY,
                forall|k: int| 0 <= k < i ==> (#[trigger] self.slots@[k]) is Some,
            decreases CAPACITY - i,
        {
            if self.slots[i].is_none() {
                return Some(i);
            }
            i = i + 1;
        }
        let mut best: Option<usize> = None;
        let mut best_age: u64 = 0;
        let mut j: usize = 0;
        while j < CAPACITY
            invariant
                j <= CAPACITY,
                store.mapped_log() == old(store).mapped_log(),
                forall|k: int| 0 <= k < CAPACITY ==> (#[trigger] self.slots@[k]) is Some,
                match best {
                    Some(b) => b < CAPACITY,
                    None => true,
                },
            decreases CAPACITY - j,
        {
            if let Some(entry) = self.slots[j] {
                if store.frame_references(entry.frame) == 1 {
                    let better = match best {
                        Some(_) => entry.age >= best_age,
                        None => true,
                    };
                    if better {
                        best = Some(j);
                        best_age = entry.age;
                    }
                }
            }
            j = j + 1;
        }
        best
    }

    /// Maps the page of `file` at `offset` (of `count` bytes) at `address` of
    /// `space`, through the cached frame when one holds that page and otherwise
    /// through a new frame loaded from the file; false when the file changed
    /// generation, could not be read in full, or no frame could be had.
    pub fn map<S: FrameStore>(
        &mut self,
        store: &mut S,
        space: u64,
        address: u64,
        file: u64,
        generation: u64,
        offset: usize,
        count: usize,
        shared: bool,
    ) -> (mapped: bool)
        requires
            old(self).wf(),
            count <= PAGE_SIZE,
            offset + PAGE_SIZE <= usize::MAX,
        ensures
            final(self).wf(),
            !mapped ==> final(store).mapped_log() == old(store).mapped_log(),
            mapped ==> exists|i: int|
                0 <= i < CAPACITY && (#[trigger] final(self).entries()[i]) is Some && holds_request(
                    final(self).entries()[i]->0,
                    generation,
                    offset,
                    count,
                    shared,
                ) && final(store).mapped_log() == old(store).mapped_log().push(
                    (space, address, final(self).entries()[i]->0.frame, shared),
                ),
            mapped ==> exists|i: int|
                0 <= i < CAPACITY && (#[trigger] final(self).entries()[i]) is Some && holds_request(
                    final(self).entries()[i]->0,
                    generation,
                    offset,
                    count,
                    shared,
                ),
            forall|i: int|
                0 <= i < CAPACITY && (#[trigger] final(self).entries()[i]) is Some ==> {
                    ||| (old(self).entries()[i] is Some && final(self).entries()[i]->0.key == old(self).entries()[i]->0.key
                        && final(self).entries()[i]->0.frame == old(self).entries()[i]->0.frame)
                    ||| holds_request(final(self).entries()[i]->0, generation, offset, count, shared)
                },
    {
        let identity = store.file_identity(file);
        self.map_with_identity(store, space, address, identity, file, generation, offset, count, shared)
    }

    /// As `map`, given what the store answered for the file's identity (node,
    /// generation, version): nothing is mapped and nothing changes when the file
    /// could not be identified or was replaced since the mapping was asked for.
    pub fn map_with_identity<S: FrameStore>(
        &mut self,
        store: &mut S,
        space: u64,
        address: u64,
        identity: Result<(usize, u64, u64), ()>,
        file: u64,
        generation: u64,
        offset: usize,
        count: usize,
        shared: bool,
    ) -> (mapped: bool)
        requires
            old(self).wf(),
            count <= PAGE_SIZE,
            offset + PAGE_SIZE <= usize::MAX,
        ensures
            final(self).wf(),
            identity is Err || identity->Ok_0.1 != generation ==> !mapped && *final(self) == *old(self),
            !mapped ==> final(store).mapped_log() == old(store).mapped_log(),
            mapped ==> exists|i: int|
                0 <= i < CAPACITY && (#[trigger] final(self).entries()[i]) is Some && holds_request(
                    final(self).entries()[i]->0,
                    generation,
                    offset,
                    count,
                    shared,
                ) && final(store).mapped_log() == old(store).mapped_log().push(
                    (space, address, final(self).entries()[i]->0.frame, shared),
                ),
            mapped ==> exists|i: int|
                0 <= i < CAPACITY && (#[trigger] final(self).entries()[i]) is Some && holds_request(
                    final(self).entries()[i]->0,
                    generation,
                    offset,
                    count,
                    shared,
                ),
            forall|i: int|
                0 <= i < CAPACITY && (#[trigger] final(self).entries()[i]) is Some ==> {
                    ||| (old(self).entries()[i] is Some && final(self).entries()[i]->0.key == old(self).entries()[i]->0.key
                        && final(self).entries()[i]->0.frame == old(self).entries()[i]->0.frame)
                    ||| holds_request(final(self).entries()[i]->0, generation, offset, count, shared)
                },
    {
        let (node, actual_generation, version) = match identity {
            Ok(identity) => identity,
            Err(_) => return false,
        };
        if generation != actual_generation {
            return false;
        }
        let changing = !shared && self.has_shared_page(node, generation);
        let snapshot = if changing {
            let taken = self.snapshots;
            self.snapshots = self.snapshots.wrapping_add(1);
            taken
        } else {
            0
        };
        let key = Key {
            node,
            generation,
            version: if shared { 0 } else { version },
            offset,
            count,
            shared,
            snapshot,
        };
        self.age_all();
        if let Some(index) = self.find_page(key) {
            let entry = self.slots[index].unwrap();
            self.slots[index] = Some(Entry { age: 0, ..entry });
            proof {
                assert(holds_request(self.slots@[index as int]->0, generation, offset, count, shared));
            }
            return store.map_frame(space, address, entry.frame, shared);
        }
        // No lock is held while the file is read.
        let mut loaded: Vec<u8> = vec![0u8; count];
        let read = store.read_mapping_at(file, generation, offset, loaded.as_mut_slice());
        match read {
            Ok(n) => {
                if n != count {
                    return false;
                }
            },
            Err(_) => return false,
        }
        if loaded.len() != count {
            return false;
        }
        let mut bytes = [0u8; 4096];
        copy_bytes(&mut bytes, 0, loaded.as_slice(), 0, count);
        // Look again before publishing: another loader may have won.
        if let Some(index) = self.find_page(key) {
            let entry = self.slots[index].unwrap();
            self.slots[index] = Some(Entry { age: 0, ..entry });
            proof {
                assert(holds_request(self.slots@[index as int]->0, generation, offset, count, shared));
            }
            return store.map_frame(space, address, entry.frame, shared);
        }
        let index = match self.victim(store) {
            Some(index) => index,
            None => return false,
        };
        if let Some(old_entry) = self.slots[index] {
            self.slots[index] = None;
            if !store.release_frame(old_entry.frame) {
                return false;
            }
        }
        let frame = match store.allocate_frame(&bytes) {
            Some(frame) => frame,
            None => {
                // Under pressure: let go of the pages only the cache holds, and retry.
                let mut i: usize = 0;
                while i < CAPACITY
                    invariant
                        self.wf(),
                        store.mapped_log() == old(store).mapped_log(),
                        i <= CAPACITY,
                        index < CAPACITY,
                        self.slots@[index as int] is None,
                        forall|k: int|
                            0 <= k < CAPACITY && (#[trigger] self.slots@[k]) is Some ==> {
                                ||| (old(self).slots@[k] is Some && self.slots@[k]->0.key == old(self).slots@[k]->0.key
                                    && self.slots@[k]->0.frame == old(self).slots@[k]->0.frame)
                                ||| holds_request(self.slots@[k]->0, generation, offset, count, shared)
                            },
                    decreases CAPACITY - i,
                {
                    if let Some(entry) = self.slots[i] {
                        if store.frame_references(entry.frame) == 1 {
                            self.slots[i] = None;
                            let _ = store.release_frame(entry.frame);
                        }
                    }
                    i = i + 1;
                }
                match store.allocate_frame(&bytes) {
                    Some(frame) => frame,
                    None => return false,
                }
            },
        };
        if !store.map_frame(space, address, frame, shared) {
            let _ = store.release_frame(frame);
            return false;
        }
        self.slots[index] = Some(Entry { key, frame, age: 0 });
        proof {
            assert(holds_request(self.slots@[index as int]->0, generation, offset, count, shared));
        }
        true
    }

    /// Copies into `bytes`, which hold the file from `offset` on, whatever shared
    /// cached pages of `node` at `generation` hold of that range.
    pub fn overlay<S: FrameStore>(&self, store: &mut S, node: usize, generation: u64, offset: usize, bytes: &mut [u8])
        requires
            self.wf(),
            offset + old(bytes)@.len() <= usize::MAX,
        ensures
            final(bytes)@.len() == old(bytes)@.len(),
            forall|k: int|
                0 <= k < old(bytes)@.len() && !(exists|i: int|
                    #![trigger self.entries()[i]]
                    0 <= i < CAPACITY && self.entries()[i] is Some && shared_page_of(self.entries()[i]->0, node, generation)
                        && self.entries()[i]->0.key.offset <= offset + k < self.entries()[i]->0.key.offset
                        + self.entries()[i]->0.key.count) ==> #[trigger] final(bytes)@[k] == old(bytes)@[k],
    {
        let len = bytes.len();
        let mut i: usize = 0;
        while i < CAPACITY
            invariant
                self.wf(),
                i <= CAPACITY,
                len == old(bytes)@.len(),
                bytes@.len() == len,
                offset + len <= usize::MAX,
                forall|k: int|
                    0 <= k < len && !(exists|j: int|
                        #![trigger self.slots@[j]]
                        0 <= j < i && self.slots@[j] is Some && shared_page_of(self.slots@[j]->0, node, generation)
                            && self.slots@[j]->0.key.offset <= offset + k < self.slots@[j]->0.key.offset
                            + self.slots@[j]->0.key.count) ==> #[trigger] bytes@[k] == old(bytes)@[k],
            decreases CAPACITY - i,
        {
            let ghost before = bytes@;
            if let Some(entry) = self.slots[i] {
                if entry.key.shared && entry.key.node == node && entry.key.generation == generation {
                    assert(self.slots@[i as int] is Some);
                    if let Some((start, end)) = covered(entry.key.offset, entry.key.count, offset, len) {
                        let width = end - start;
                        let mut part: Vec<u8> = vec![0u8; width];
                        store.read_frame(entry.frame, start - entry.key.offset, part.as_mut_slice());
                        if part.len() == end - start {
                            copy_bytes(bytes, start - offset, part.as_slice(), 0, end - start);
                        }
                    }
                }
            }
            proof {
                assert forall|k: int|
                    0 <= k < len && !(exists|j: int|
                        #![trigger self.slots@[j]]
                        0 <= j < i + 1 && self.slots@[j] is Some && shared_page_of(self.slots@[j]->0, node, generation)
                            && self.slots@[j]->0.key.offset <= offset + k < self.slots@[j]->0.key.offset
                            + self.slots@[j]->0.key.count) implies #[trigger] bytes@[k] == old(bytes)@[k] by {
                    assert(bytes@[k] == before[k]);
                }
            }
            i = i + 1;
        }
        proof {
            assert forall|k: int|
                0 <= k < len && !(exists|j: int|
                    #![trigger self.entries()[j]]
                    0 <= j < CAPACITY && self.entries()[j] is Some && shared_page_of(self.entries()[j]->0, node, generation)
                        && self.entries()[j]->0.key.offset <= offset + k < self.entries()[j]->0.key.offset
                        + self.entries()[j]->0.key.count) implies #[trigger] bytes@[k] == old(bytes)@[k] by {
                if exists|j: int|
                    #![trigger self.slots@[j]]
                    0 <= j < CAPACITY && self.slots@[j] is Some && shared_page_of(self.slots@[j]->0, node, generation)
                        && self.slots@[j]->0.key.offset <= offset + k < self.slots@[j]->0.key.offset
                        + self.slots@[j]->0.key.count {
                    let j = choose|j: int|
                        #![trigger self.slots@[j]]
                        0 <= j < CAPACITY && self.slots@[j] is Some && shared_page_of(self.slots@[j]->0, node, generation)
                            && self.slots@[j]->0.key.offset <= offset + k < self.slots@[j]->0.key.offset
                            + self.slots@[j]->0.key.count;
                    assert(self.entries()[j] == self.slots@[j]);
                }
            }
        }
    }

    /// Writes `bytes`, written to the file at `offset`, through to the shared cached
    /// pages of `node` at `generation`, extending their byte counts.
    pub fn update<S: FrameStore>(&mut self, store: &mut S, node: usize, generation: u64, offset: usize, bytes: &[u8])
        requires
            old(self).wf(),
            offset + bytes@.len() <= usize::MAX,
        ensures
            final(self).wf(),
            forall|i: int|
                0 <= i < CAPACITY ==> #[trigger] final(self).entries()[i] == match old(self).entries()[i] {
                    Some(e) => if shared_page_of(e, node, generation) {
                        Some(Entry { key: Key { count: extended_count(e.key, offset as int, bytes@.len() as int) as usize, ..e.key }, ..e })
                    } else {
                        Some(e)
                    },
                    None => None,
                },
    {
        let len = bytes.len();
        let mut i: usize = 0;
        while i < CAPACITY
            invariant
                self.wf(),
                i <= CAPACITY,
                len == bytes@.len(),
                offset + len <= usize::MAX,
                forall|k: int|
                    0 <= k < i ==> #[trigger] self.slots@[k] == match old(self).slots@[k] {
                        Some(e) => if shared_page_of(e, node, generation) {
                            Some(Entry { key: Key { count: extended_count(e.key, offset as int, len as int) as usize, ..e.key }, ..e })
                        } else {
                            Some(e)
                        },
                        None => None,
                    },
                forall|k: int| i <= k < CAPACITY ==> #[trigger] self.slots@[k] == old(self).slots@[k],
            decreases CAPACITY - i,
        {
            if let Some(entry) = self.slots[i] {
                if entry.key.shared && entry.key.node == node && entry.key.generation == generation {
                    assert(self.slots@[i as int] is Some);
                    let mut updated = entry;
                    if offset < entry.key.offset + PAGE_SIZE && offset + len > entry.key.offset {
                        let reach = offset + len - entry.key.offset;
                        let capped = if reach < PAGE_SIZE { reach } else { PAGE_SIZE };
                        if capped > entry.key.count {
                            updated = Entry { key: Key { count: capped, ..entry.key }, ..entry };
                        }
                    }
                    self.slots[i] = Some(updated);
                    if let Some((start, end)) = covered(updated.key.offset, updated.key.count, offset, len) {
                        store.write_frame(updated.frame, start - updated.key.offset, subslice(bytes, start - offset, end - offset));
                    }
                }
            }
            i = i + 1;
        }
    }

    /// Rewrites the shared cached pages of `node` at `generation` from the file's new
    /// contents `bytes`, zero-filled past its end.
    pub fn replace<S: FrameStore>(&mut self, store: &mut S, node: usize, generation: u64, bytes: &[u8])
        requires
            old(self).wf(),
        ensures
            final(self).wf(),
            forall|i: int|
                0 <= i < CAPACITY ==> #[trigger] final(self).entries()[i] == match old(self).entries()[i] {
                    Some(e) => if shared_page_of(e, node, generation) {
                        Some(Entry { key: Key { count: replaced_count(e.key, bytes@.len() as int) as usize, ..e.key }, ..e })
                    } else {
                        Some(e)
                    },
                    None => None,
                },
    {
        let len = bytes.len();
        let mut i: usize = 0;
        while i < CAPACITY
            invariant
                self.wf(),
                i <= CAPACITY,
                len == bytes@.len(),
                forall|k: int|
                    0 <= k < i ==> #[trigger] self.slots@[k] == match old(self).slots@[k] {
                        Some(e) => if shared_page_of(e, node, generation) {
                            Some(Entry { key: Key { count: replaced_count(e.key, len as int) as usize, ..e.key }, ..e })
                        } else {
                            Some(e)
                        },
                        None => None,
                    },
                forall|k: int| i <= k < CAPACITY ==> #[trigger] self.slots@[k] == old(self).slots@[k],
            decreases CAPACITY - i,
        {
            if let Some(entry) = self.slots[i] {
                if entry.key.shared && entry.key.node == node && entry.key.generation == generation {
                    let rest = if len > entry.key.offset { len - entry.key.offset } else { 0 };
                    let count = if rest < PAGE_SIZE { rest } else { PAGE_SIZE };
                    let mut page = [0u8; 4096];
                    if count > 0 {
                        copy_bytes(&mut page, 0, bytes, entry.key.offset, count);
                    }
                    self.slots[i] = Some(Entry { key: Key { count, ..entry.key }, ..entry });
                    store.write_frame(entry.frame, 0, &page);
                }
            }
            i = i + 1;
        }
    }
}

} // verus!
