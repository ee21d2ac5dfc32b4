//! Small write-back sector cache used between filesystems and block devices.
//!
//! Least-recently-used entries are replaced after a successful writeback of
//! dirty data. Callers flush explicitly: only a flush reports I/O failures of
//! deferred writes.
use vstd::prelude::*;

use crate::block::{copy_bytes, sector_from_slice, BlockDevice, Error, SECTOR_SIZE};

verus! {

/// Counters and occupancy of a cache.
#[derive(Clone, Copy)]
pub struct Stats {
    pub hits: u64,
    pub misses: u64,
    pub writebacks: u64,
    pub evictions: u64,
    pub capacity: usize,
    pub resident: usize,
    pub dirty: usize,
}

/// One cached sector.
#[derive(Clone, Copy)]
pub struct CacheEntry {
    pub lba: u64,
    pub data: [u8; 512],
    pub valid: bool,
    pub dirty: bool,
    pub age: u64,
}

impl CacheEntry {
    pub fn empty() -> (entry: Self)
        ensures
            !entry.valid,
            !entry.dirty,
            entry.lba == 0,
            entry.age == 0,
    {
        CacheEntry { lba: 0, data: [0u8; 512], valid: false, dirty: false, age: 0 }
    }
}

/// Entry `i` caches sector `lba`.
pub open spec fn holds(entries: Seq<CacheEntry>, i: int, lba: int) -> bool {
    0 <= i < entries.len() && entries[i].valid && entries[i].lba == lba
}

/// What a read of sector `lba` sees: the cached copy if there is one, else the device.
pub open spec fn cached_sector(entries: Seq<CacheEntry>, base: Seq<Seq<u8>>, lba: int) -> Seq<u8> {
    if exists|i: int| #[trigger] holds(entries, i, lba) {
        entries[choose|i: int| #[trigger] holds(entries, i, lba)].data@
    } else {
        base[lba]
    }
}

/// The device contents as seen through the cache.
pub open spec fn overlay(entries: Seq<CacheEntry>, base: Seq<Seq<u8>>) -> Seq<Seq<u8>> {
    Seq::new(base.len(), |lba: int| cached_sector(entries, base, lba))
}

/// Valid entries name distinct in-range sectors, and clean ones agree with the device.
pub open spec fn entries_consistent(entries: Seq<CacheEntry>, base: Seq<Seq<u8>>) -> bool {
    &&& forall|i: int, j: int|
        0 <= i < entries.len() && 0 <= j < entries.len() && i != j && entries[i].valid
            && entries[j].valid ==> #[trigger] entries[i].lba != #[trigger] entries[j].lba
    &&& forall|i: int|
        0 <= i < entries.len() && #[trigger] entries[i].valid ==> entries[i].lba < base.len()
    &&& forall|i: int|
        0 <= i < entries.len() && #[trigger] entries[i].valid && !entries[i].dirty
            ==> entries[i].data@ == base[entries[i].lba as int]
}

/// Number of valid entries.
pub open spec fn resident_count(entries: Seq<CacheEntry>) -> nat
    decreases entries.len(),
{
    if entries.len() == 0 {
        0
    } else {
        resident_count(entries.drop_last()) + if entries.last().valid {
            1nat
        } else {
            0nat
        }
    }
}

/// `count`, or the largest counter value where it does not fit.
pub open spec fn capped(count: int) -> u64 {
    if count > u64::MAX {
        u64::MAX
    } else {
        count as u64
    }
}

/// Number of valid entries that hold data not yet written to the device.
pub open spec fn dirty_count(entries: Seq<CacheEntry>) -> nat
    decreases entries.len(),
{
    if entries.len() == 0 {
        0
    } else {
        dirty_count(entries.drop_last()) + if entries.last().valid && entries.last().dirty {
            1nat
        } else {
            0nat
        }
    }
}


/// Index of the first free slot at or after `from`, if any.
pub open spec fn first_free_from(entries: Seq<CacheEntry>, from: int) -> Option<int>
    decreases entries.len() - from,
{
    if from >= entries.len() || from < 0 {
        None
    } else if !entries[from].valid {
        Some(from)
    } else {
        first_free_from(entries, from + 1)
    }
}

/// Among the first `n` slots, the last one of greatest age.
pub open spec fn oldest_among(entries: Seq<CacheEntry>, n: int) -> int
    decreases n,
{
    if n <= 1 {
        0
    } else {
        let previous = oldest_among(entries, n - 1);
        if entries[n - 1].age >= entries[previous].age {
            n - 1
        } else {
            previous
        }
    }
}

/// The slot a miss replaces: the first free one, else the least recently used.
pub open spec fn victim_of(entries: Seq<CacheEntry>) -> int {
    match first_free_from(entries, 0) {
        Some(i) => i,
        None => oldest_among(entries, entries.len() as int),
    }
}

proof fn lemma_cached_at_holder(entries: Seq<CacheEntry>, base: Seq<Seq<u8>>, i: int)
    requires
        entries_consistent(entries, base),
        0 <= i < entries.len(),
        entries[i].valid,
    ensures
        cached_sector(entries, base, entries[i].lba as int) == entries[i].data@,
{
    let lba = entries[i].lba as int;
    assert(holds(entries, i, lba));
    let k = choose|k: int| #[trigger] holds(entries, k, lba);
    assert(holds(entries, k, lba));
    if k != i {
        assert(entries[k].lba != entries[i].lba);
    }
}

proof fn lemma_cached_without_holder(entries: Seq<CacheEntry>, base: Seq<Seq<u8>>, lba: int)
    requires
        forall|i: int| 0 <= i < entries.len() && entries[i].valid ==> entries[i].lba != lba,
    ensures
        cached_sector(entries, base, lba) == base[lba],
{
    if exists|i: int| #[trigger] holds(entries, i, lba) {
        let i = choose|i: int| #[trigger] holds(entries, i, lba);
        assert(holds(entries, i, lba));
    }
}

/// The view is the same for two entry sequences that agree on every valid entry's
/// sector and data, over devices that agree everywhere.
proof fn lemma_overlay_same(
    e1: Seq<CacheEntry>,
    b1: Seq<Seq<u8>>,
    e2: Seq<CacheEntry>,
    b2: Seq<Seq<u8>>,
)
    requires
        entries_consistent(e1, b1),
        entries_consistent(e2, b2),
        b1.len() == b2.len(),
        forall|lba: int|
            0 <= lba < b1.len() ==> #[trigger] cached_sector(e1, b1, lba) == cached_sector(
                e2,
                b2,
                lba,
            ),
    ensures
        overlay(e1, b1) == overlay(e2, b2),
{
    assert(overlay(e1, b1) =~= overlay(e2, b2));
}

/// A write-back cache of `N` sectors in front of the device `D`.
pub struct CachedDevice<D: BlockDevice, const N: usize> {
    inner: D,
    entries: Vec<CacheEntry>,
    writebacks: u64,
    evictions: u64,
    hits: u64,
    misses: u64,
}

impl<D: BlockDevice, const N: usize> CachedDevice<D, N> {
    /// The wrapped device.
    pub closed spec fn device(&self) -> D {
        self.inner
    }

    /// The cache slots.
    pub closed spec fn slots(&self) -> Seq<CacheEntry> {
        self.entries@
    }

    pub closed spec fn spec_hits(&self) -> u64 {
        self.hits
    }

    pub closed spec fn spec_misses(&self) -> u64 {
        self.misses
    }

    pub closed spec fn spec_writebacks(&self) -> u64 {
        self.writebacks
    }

    pub closed spec fn spec_evictions(&self) -> u64 {
        self.evictions
    }

    /// The cache's consistency condition.
    pub closed spec fn wf(&self) -> bool {
        &&& self.entries@.len() == N
        &&& self.inner.valid()
        &&& entries_consistent(self.entries@, self.inner.sectors())
    }

    /// The device contents as seen through the cache.
    pub closed spec fn view_sectors(&self) -> Seq<Seq<u8>> {
        overlay(self.entries@, self.inner.sectors())
    }

    pub fn new(inner: D) -> (cache: Self)
        requires
            inner.valid(),
        ensures
            cache.wf(),
            cache.device() == inner,
            cache.view_sectors() == inner.sectors(),
            cache.spec_hits() == 0 && cache.spec_misses() == 0,
            cache.spec_writebacks() == 0 && cache.spec_evictions() == 0,
            resident_count(cache.slots()) == 0,
            dirty_count(cache.slots()) == 0,
    {
        let mut entries: Vec<CacheEntry> = Vec::new();
        let mut i: usize = 0;
        while i < N
            invariant
                i <= N,
                entries@.len() == i,
                forall|k: int| 0 <= k < i ==> !(#[trigger] entries@[k]).valid,
            decreases N - i,
        {
            entries.push(CacheEntry::empty());
            i = i + 1;
        }
        let cache = CachedDevice { inner, entries, writebacks: 0, evictions: 0, hits: 0, misses: 0 };
        proof {
            assert forall|lba: int| 0 <= lba < inner.sectors().len() implies #[trigger] cached_sector(
                cache.entries@,
                inner.sectors(),
                lba,
            ) == inner.sectors()[lba] by {
                lemma_cached_without_holder(cache.entries@, inner.sectors(), lba);
            }
            assert(cache.view_sectors() =~= inner.sectors());
            lemma_counts_all_invalid(cache.entries@);
        }
        cache
    }

    /// The wrapped device, for inspection.
    pub fn inner(&self) -> (inner: &D)
        ensures
            *inner == self.device(),
    {
        &self.inner
    }

    pub fn hits(&self) -> (hits: u64)
        ensures
            hits == self.spec_hits(),
    {
        self.hits
    }

    pub fn misses(&self) -> (misses: u64)
        ensures
            misses == self.spec_misses(),
    {
        self.misses
    }

    /// Marks entry `index` most recently used and ages every other valid entry.
    fn touch(&mut self, index: usize)
        requires
            old(self).entries@.len() == N,
            index < N,
        ensures
            final(self).entries@.len() == N,
            old(self).entries@.len() == N,
            final(self).inner == old(self).inner,
            final(self).hits == old(self).hits,
            final(self).misses == old(self).misses,
            final(self).writebacks == old(self).writebacks,
            final(self).evictions == old(self).evictions,
            final(self).entries@[index as int].age == 0,
            forall|i: int|
                0 <= i < N ==> {
                    &&& (#[trigger] final(self).entries@[i]).lba == old(self).entries@[i].lba
                    &&& final(self).entries@[i].data == old(self).entries@[i].data
                    &&& final(self).entries@[i].valid == old(self).entries@[i].valid
                    &&& final(self).entries@[i].dirty == old(self).entries@[i].dirty
                    &&& i != index ==> final(self).entries@[i].age == (if old(
                        self,
                    ).entries@[i].valid {
                        if old(self).entries@[i].age == u64::MAX {
                            u64::MAX
                        } else {
                            (old(self).entries@[i].age + 1) as u64
                        }
                    } else {
                        old(self).entries@[i].age
                    })
                },
    {
        let mut i: usize = 0;
        while i < N
            invariant
                i <= N,
                index < N,
                self.entries@.len() == N,
                self.inner == old(self).inner,
                self.hits == old(self).hits,
                self.misses == old(self).misses,
                self.writebacks == old(self).writebacks,
                self.evictions == old(self).evictions,
                forall|k: int|
                    0 <= k < N ==> {
                        &&& (#[trigger] self.entries@[k]).lba == old(self).entries@[k].lba
                        &&& self.entries@[k].data == old(self).entries@[k].data
                        &&& self.entries@[k].valid == old(self).entries@[k].valid
                        &&& self.entries@[k].dirty == old(self).entries@[k].dirty
                        &&& k < i ==> self.entries@[k].age == (if old(self).entries@[k].valid {
                            if old(self).entries@[k].age == u64::MAX {
                                u64::MAX
                            } else {
                                (old(self).entries@[k].age + 1) as u64
                            }
                        } else {
                            old(self).entries@[k].age
                        })
                        &&& k >= i ==> self.entries@[k].age == old(self).entries@[k].age
                    },
                old(self).entries@.len() == N,
            decreases N - i,
        {
            let mut entry = self.entries[i];
            if entry.valid {
                entry.age = entry.age.saturating_add(1);
            }
            self.entries.set(i, entry);
            i = i + 1;
        }
        let mut entry = self.entries[index];
        entry.age = 0;
        self.entries.set(index, entry);
    }

    /// The slot caching `lba`, if any.
    fn find(&self, lba: u64) -> (found: Option<usize>)
        ensures
            match found {
                Some(i) => i < self.entries@.len() && holds(self.entries@, i as int, lba as int),
                None => forall|i: int|
                    0 <= i < self.entries@.len() && #[trigger] self.entries@[i].valid
                        ==> self.entries@[i].lba != lba,
            },
    {
        let mut i: usize = 0;
        while i < self.entries.len()
            invariant
                i <= self.entries@.len(),
                forall|k: int|
                    0 <= k < i && #[trigger] self.entries@[k].valid ==> self.entries@[k].lba
                        != lba,
            decreases self.entries@.len() - i,
        {
            if self.entries[i].valid && self.entries[i].lba == lba {
                return Some(i);
            }
            i = i + 1;
        }
        None
    }

    /// The slot to replace: the first free one, else the least recently used.
    fn victim(&self) -> (index: usize)
        requires
            self.entries@.len() == N,
            N > 0,
        ensures
            index < N,
            index == victim_of(self.entries@),
            self.entries@[index as int].valid ==> forall|k: int|
                0 <= k < N ==> (#[trigger] self.entries@[k]).valid,
    {
        let mut i: usize = 0;
        while i < N
            invariant
                i <= N,
                self.entries@.len() == N,
                forall|k: int| 0 <= k < i ==> (#[trigger] self.entries@[k]).valid,
                first_free_from(self.entries@, 0) == first_free_from(self.entries@, i as int),
            decreases N - i,
        {
            if !self.entries[i].valid {
                return i;
            }
            i = i + 1;
        }
        let mut best: usize = 0;
        let mut j: usize = 1;
        while j < N
            invariant
                1 <= j <= N,
                best < j,
                self.entries@.len() == N,
                best == oldest_among(self.entries@, j as int),
            decreases N - j,
        {
            if self.entries[j].age >= self.entries[best].age {
                best = j;
            }
            j = j + 1;
        }
        best
    }

    /// Writes entry `index` back to the device if it holds unwritten data.
    fn write_back(&mut self, index: usize) -> (result: Result<(), Error>)
        requires
            old(self).wf(),
            index < N,
        ensures
            final(self).wf(),
            final(self).view_sectors() == old(self).view_sectors(),
            final(self).inner.read_only() == old(self).inner.read_only(),
            final(self).hits == old(self).hits,
            final(self).misses == old(self).misses,
            final(self).evictions == old(self).evictions,
            result is Err ==> final(self).entries@ == old(self).entries@ && final(self).writebacks
                == old(self).writebacks,
            result is Ok ==> {
                let e = old(self).entries@[index as int];
                &&& final(self).entries@ == (if e.valid && e.dirty {
                    old(self).entries@.update(index as int, CacheEntry { dirty: false, ..e })
                } else {
                    old(self).entries@
                })
                &&& final(self).writebacks == (if e.valid && e.dirty {
                    old(self).writebacks.saturating_add(1)
                } else {
                    old(self).writebacks
                })
            },
            !(old(self).entries@[index as int].valid && old(self).entries@[index as int].dirty) ==> result is Ok
                && *final(self) == *old(self),
            old(self).entries@[index as int].valid && old(self).entries@[index as int].dirty && result is Ok ==> {
                let e = old(self).entries@[index as int];
                &&& e.lba < old(self).inner.sectors().len()
                &&& final(self).inner.sectors() == old(self).inner.sectors().update(e.lba as int, e.data@)
            },
    {
        let entry = self.entries[index];
        if entry.valid && entry.dirty {
            let lba = entry.lba;
            let data = entry.data;
            proof {
                lemma_writeback_keeps_view(self.entries@, self.inner.sectors(), index as int);
            }
            match self.inner.write_sector(lba, &data) {
                Ok(()) => {},
                Err(error) => {
                    return Err(error);
                },
            }
            let cleaned = CacheEntry { dirty: false, ..entry };
            self.entries.set(index, cleaned);
            self.writebacks = self.writebacks.saturating_add(1);
        }
        Ok(())
    }

    /// Makes `lba` resident and returns its slot.
    fn load(&mut self, lba: u64) -> (result: Result<usize, Error>)
        requires
            old(self).wf(),
            N > 0,
            lba < old(self).view_sectors().len(),
        ensures
            final(self).wf(),
            final(self).view_sectors() == old(self).view_sectors(),
            final(self).inner.read_only() == old(self).inner.read_only(),
            (exists|i: int| #[trigger] holds(old(self).entries@, i, lba as int)) ==> {
                &&& result is Ok
                &&& final(self).hits == old(self).hits.saturating_add(1)
                &&& final(self).misses == old(self).misses
            },
            !(exists|i: int| #[trigger] holds(old(self).entries@, i, lba as int)) ==> {
                &&& final(self).hits == old(self).hits
                &&& final(self).misses == old(self).misses.saturating_add(1)
            },
            match result {
                Ok(index) => {
                    &&& index < N
                    &&& holds(final(self).entries@, index as int, lba as int)
                    &&& final(self).entries@[index as int].data@ == old(self).view_sectors()[lba as int]
                },
                Err(_) => true,
            },
    {
        if let Some(index) = self.find(lba) {
            self.hits = self.hits.saturating_add(1);
            proof {
                lemma_cached_at_holder(self.entries@, self.inner.sectors(), index as int);
            }
            let ghost before = self.entries@;
            self.touch(index);
            proof {
                lemma_ages_irrelevant(before, self.entries@, self.inner.sectors());
            }
            return Ok(index);
        }
        self.misses = self.misses.saturating_add(1);
        let index = self.victim();
        let ghost victim_entries = self.entries@;
        self.write_back(index)?;
        let mut data = [0u8; 512];
        match self.inner.read_sector(lba, &mut data) {
            Ok(()) => {},
            Err(error) => {
                return Err(error);
            },
        }
        if self.entries[index].valid {
            self.evictions = self.evictions.saturating_add(1);
        }
        let entry = CacheEntry { lba, data, valid: true, dirty: false, age: 0 };
        proof {
            assert(forall|j: int|
                0 <= j < N && #[trigger] self.entries@[j].valid ==> self.entries@[j].lba != lba) by {
                assert forall|j: int| 0 <= j < N && #[trigger] self.entries@[j].valid implies self.entries@[j].lba != lba by {
                    assert(self.entries@[j].lba == victim_entries[j].lba);
                }
            }
            lemma_install_entry(self.entries@, self.inner.sectors(), index as int, entry);
            lemma_cached_without_holder(self.entries@, self.inner.sectors(), lba as int);
            assert(overlay(self.entries@, self.inner.sectors()).update(lba as int, data@) =~= overlay(
                self.entries@,
                self.inner.sectors(),
            ));
        }
        self.entries.set(index, entry);
        let ghost before = self.entries@;
        self.touch(index);
        proof {
            lemma_ages_irrelevant(before, self.entries@, self.inner.sectors());
        }
        Ok(index)
    }

    /// Writes every dirty entry back, then flushes the device.
    pub fn flush(&mut self) -> (result: Result<(), Error>)
        requires
            old(self).wf(),
        ensures
            final(self).wf(),
            final(self).view_sectors() == old(self).view_sectors(),
            final(self).device().read_only() == old(self).device().read_only(),
            final(self).spec_hits() == old(self).spec_hits(),
            final(self).spec_misses() == old(self).spec_misses(),
            final(self).spec_evictions() == old(self).spec_evictions(),
            resident_count(final(self).slots()) == resident_count(old(self).slots()),
            result is Ok ==> {
                &&& dirty_count(final(self).slots()) == 0
                &&& final(self).device().sectors() == final(self).view_sectors()
                &&& final(self).spec_writebacks() == capped(old(self).spec_writebacks() + dirty_count(old(self).slots()))
            },
    {
        let mut index: usize = 0;
        while index < N
            invariant
                self.wf(),
                index <= N,
                self.view_sectors() == old(self).view_sectors(),
                self.inner.read_only() == old(self).inner.read_only(),
                self.hits == old(self).hits,
                self.misses == old(self).misses,
                self.evictions == old(self).evictions,
                self.entries@.len() == N,
                forall|k: int| index <= k < N ==> self.entries@[k] == old(self).entries@[k],
                self.writebacks == capped(old(self).writebacks + dirty_count(old(self).entries@.subrange(0, index as int))),
                forall|k: int|
                    0 <= k < index ==> !((#[trigger] self.entries@[k]).valid
                        && self.entries@[k].dirty),
                old(self).entries@.len() == N,
                forall|k: int|
                    0 <= k < N ==> (#[trigger] self.entries@[k]).valid == old(
                        self,
                    ).entries@[k].valid,
            decreases N - index,
        {
            proof {
                assert(old(self).entries@.subrange(0, index + 1).drop_last() =~= old(self).entries@.subrange(0, index as int));
            }
            match self.write_back(index) {
                Ok(()) => {},
                Err(error) => {
                    proof {
                        lemma_counts_valid_same(old(self).entries@, self.entries@);
                    }
                    return Err(error);
                },
            }
            index = index + 1;
        }
        proof {
            lemma_counts_valid_same(old(self).entries@, self.entries@);
            lemma_no_dirty(self.entries@, self.inner.sectors());
            assert(old(self).entries@.subrange(0, N as int) =~= old(self).entries@);
        }
        self.inner.flush()
    }

    /// Counters and occupancy.
    pub fn stats(&self) -> (stats: Stats)
        requires
            self.wf(),
        ensures
            stats.hits == self.spec_hits(),
            stats.misses == self.spec_misses(),
            stats.writebacks == self.spec_writebacks(),
            stats.evictions == self.spec_evictions(),
            stats.capacity == N,
            stats.resident == resident_count(self.slots()),
            stats.dirty == dirty_count(self.slots()),
    {
        let mut resident: usize = 0;
        let mut dirty: usize = 0;
        let mut i: usize = 0;
        while i < N
            invariant
                i <= N,
                self.entries@.len() == N,
                resident == resident_count(self.entries@.subrange(0, i as int)),
                dirty == dirty_count(self.entries@.subrange(0, i as int)),
                resident <= i,
                dirty <= i,
            decreases N - i,
        {
            proof {
                assert(self.entries@.subrange(0, i + 1).drop_last() =~= self.entries@.subrange(
                    0,
                    i as int,
                ));
            }
            if self.entries[i].valid {
                resident = resident + 1;
                if self.entries[i].dirty {
                    dirty = dirty + 1;
                }
            }
            i = i + 1;
        }
        proof {
            assert(self.entries@.subrange(0, N as int) =~= self.entries@);
        }
        Stats {
            hits: self.hits,
            misses: self.misses,
            writebacks: self.writebacks,
            evictions: self.evictions,
            capacity: N,
            resident,
            dirty,
        }
    }

    /// Mutable access to the wrapped device. The caller must keep its contents
    /// unchanged for the cache to remain coherent.
    pub fn inner_mut(&mut self) -> (inner: &mut D)
        ensures
            *inner == old(self).device(),
            final(self).device() == *final(inner),
            final(self).slots() == old(self).slots(),
            final(self).spec_hits() == old(self).spec_hits(),
            final(self).spec_misses() == old(self).spec_misses(),
            final(self).spec_writebacks() == old(self).spec_writebacks(),
            final(self).spec_evictions() == old(self).spec_evictions(),
            old(self).wf() && final(inner).valid() && final(inner).sectors() == old(
                self,
            ).device().sectors() ==> final(self).wf() && final(self).view_sectors() == old(
                self,
            ).view_sectors(),
    {
        &mut self.inner
    }
}


impl<D: BlockDevice, const N: usize> BlockDevice for CachedDevice<D, N> {
    open spec fn sectors(&self) -> Seq<Seq<u8>> {
        self.view_sectors()
    }

    open spec fn read_only(&self) -> bool {
        self.device().read_only()
    }

    open spec fn valid(&self) -> bool {
        self.wf()
    }

    fn sector_count(&self) -> (count: u64) {
        self.inner.sector_count()
    }

    fn is_read_only(&self) -> (read_only: bool) {
        self.inner.is_read_only()
    }

    fn flush(&mut self) -> (result: Result<(), Error>) {
        CachedDevice::flush(self)
    }

    fn read_sector(&mut self, lba: u64, sector: &mut [u8]) -> (result: Result<(), Error>)
        ensures
            old(sector)@.len() != SECTOR_SIZE ==> result == Err::<(), Error>(Error::InvalidBuffer),
            old(sector)@.len() == SECTOR_SIZE && lba >= old(self).view_sectors().len() ==> result
                == Err::<(), Error>(Error::OutOfBounds),
            N > 0 && old(sector)@.len() == SECTOR_SIZE && lba < old(self).view_sectors().len() ==> {
                if exists|i: int| #[trigger] holds(old(self).slots(), i, lba as int) {
                    &&& result is Ok
                    &&& final(self).spec_hits() == old(self).spec_hits().saturating_add(1)
                    &&& final(self).spec_misses() == old(self).spec_misses()
                } else {
                    &&& final(self).spec_hits() == old(self).spec_hits()
                    &&& final(self).spec_misses() == old(self).spec_misses().saturating_add(1)
                }
            },
            N == 0 ==> final(self).spec_hits() == old(self).spec_hits()
                && final(self).spec_misses() == old(self).spec_misses(),
    {
        if sector.len() != SECTOR_SIZE {
            return Err(Error::InvalidBuffer);
        }
        if lba >= self.inner.sector_count() {
            return Err(Error::OutOfBounds);
        }
        if N == 0 {
            proof {
                lemma_overlay_no_entries(self.entries@, self.inner.sectors());
            }
            let result = self.inner.read_sector(lba, sector);
            proof {
                lemma_overlay_no_entries(self.entries@, self.inner.sectors());
            }
            return result;
        }
        proof {
            assert(old(self).slots() == self.entries@);
        }
        let index = self.load(lba)?;
        let source: &[u8; 512] = &self.entries[index].data;
        copy_bytes(sector, 0, source, 0, SECTOR_SIZE);
        proof {
            assert(sector@ =~= self.entries@[index as int].data@);
        }
        Ok(())
    }

    fn write_sector(&mut self, lba: u64, sector: &[u8]) -> (result: Result<(), Error>)
        ensures
            sector@.len() != SECTOR_SIZE ==> result == Err::<(), Error>(Error::InvalidBuffer),
            sector@.len() == SECTOR_SIZE && lba >= old(self).view_sectors().len() ==> result
                == Err::<(), Error>(Error::OutOfBounds),
            sector@.len() == SECTOR_SIZE && lba < old(self).view_sectors().len()
                && old(self).device().read_only() ==> result == Err::<(), Error>(Error::ReadOnly),
            N > 0 && sector@.len() == SECTOR_SIZE && lba < old(self).view_sectors().len() && !old(
                self,
            ).device().read_only() ==> {
                if exists|i: int| #[trigger] holds(old(self).slots(), i, lba as int) {
                    &&& result is Ok
                    &&& final(self).spec_hits() == old(self).spec_hits().saturating_add(1)
                    &&& final(self).spec_misses() == old(self).spec_misses()
                } else {
                    &&& final(self).spec_hits() == old(self).spec_hits()
                    &&& final(self).spec_misses() == old(self).spec_misses().saturating_add(1)
                }
            },
            N == 0 ==> final(self).spec_hits() == old(self).spec_hits()
                && final(self).spec_misses() == old(self).spec_misses(),
    {
        if sector.len() != SECTOR_SIZE {
            return Err(Error::InvalidBuffer);
        }
        if lba >= self.inner.sector_count() {
            return Err(Error::OutOfBounds);
        }
        if self.inner.is_read_only() {
            return Err(Error::ReadOnly);
        }
        if N == 0 {
            proof {
                lemma_overlay_no_entries(self.entries@, self.inner.sectors());
            }
            let result = self.inner.write_sector(lba, sector);
            proof {
                lemma_overlay_no_entries(self.entries@, self.inner.sectors());
            }
            return result;
        }
        proof {
            assert(old(self).slots() == self.entries@);
        }
        let data = sector_from_slice(sector);
        let index = match self.find(lba) {
            Some(index) => {
                self.hits = self.hits.saturating_add(1);
                index
            },
            None => {
                self.misses = self.misses.saturating_add(1);
                let index = self.victim();
                let ghost victim_entries = self.entries@;
                self.write_back(index)?;
                if self.entries[index].valid {
                    self.evictions = self.evictions.saturating_add(1);
                }
                proof {
                    assert forall|j: int| 0 <= j < N && #[trigger] self.entries@[j].valid implies self.entries@[j].lba != lba by {
                        assert(self.entries@[j].lba == victim_entries[j].lba);
                    }
                }
                index
            },
        };
        let entry = CacheEntry { lba, data, valid: true, dirty: true, age: 0 };
        proof {
            assert(self.inner.sectors().len() == self.view_sectors().len());
            assert forall|j: int| 0 <= j < N && j != index && #[trigger] self.entries@[j].valid implies self.entries@[j].lba != lba by {
                if self.entries@[index as int].valid && self.entries@[index as int].lba == lba {
                    assert(self.entries@[j].lba != self.entries@[index as int].lba);
                }
            }
            lemma_install_entry(self.entries@, self.inner.sectors(), index as int, entry);
        }
        self.entries.set(index, entry);
        let ghost before = self.entries@;
        self.touch(index);
        proof {
            lemma_ages_irrelevant(before, self.entries@, self.inner.sectors());
        }
        Ok(())
    }
}

/// Entries that differ only in their ages give the same view.
proof fn lemma_ages_irrelevant(e1: Seq<CacheEntry>, e2: Seq<CacheEntry>, base: Seq<Seq<u8>>)
    requires
        entries_consistent(e1, base),
        e1.len() == e2.len(),
        forall|i: int|
            0 <= i < e1.len() ==> {
                &&& (#[trigger] e2[i]).lba == e1[i].lba
                &&& e2[i].data == e1[i].data
                &&& e2[i].valid == e1[i].valid
                &&& e2[i].dirty == e1[i].dirty
            },
    ensures
        entries_consistent(e2, base),
        overlay(e2, base) == overlay(e1, base),
        resident_count(e2) == resident_count(e1),
        dirty_count(e2) == dirty_count(e1),
{
    assert forall|i: int, j: int|
        0 <= i < e2.len() && 0 <= j < e2.len() && i != j && e2[i].valid && e2[j].valid
            implies #[trigger] e2[i].lba != #[trigger] e2[j].lba by {
        assert(e1[i].lba != e1[j].lba);
    }
    assert forall|lba: int| 0 <= lba < base.len() implies #[trigger] cached_sector(e2, base, lba)
        == cached_sector(e1, base, lba) by {
        if exists|i: int| #[trigger] holds(e1, i, lba) {
            let i = choose|i: int| #[trigger] holds(e1, i, lba);
            assert(holds(e1, i, lba));
            lemma_cached_at_holder(e1, base, i);
            lemma_cached_at_holder(e2, base, i);
        } else {
            assert forall|i: int| 0 <= i < e2.len() && e2[i].valid implies e2[i].lba != lba by {
                if e2[i].lba == lba {
                    assert(holds(e1, i, lba));
                }
            }
            assert forall|i: int| 0 <= i < e1.len() && e1[i].valid implies e1[i].lba != lba by {
                if e1[i].lba == lba {
                    assert(holds(e1, i, lba));
                }
            }
            lemma_cached_without_holder(e1, base, lba);
            lemma_cached_without_holder(e2, base, lba);
        }
    }
    assert(overlay(e2, base) =~= overlay(e1, base));
    lemma_counts_same(e1, e2);
}

proof fn lemma_counts_same(e1: Seq<CacheEntry>, e2: Seq<CacheEntry>)
    requires
        e1.len() == e2.len(),
        forall|i: int|
            0 <= i < e1.len() ==> (#[trigger] e2[i]).valid == e1[i].valid && e2[i].dirty
                == e1[i].dirty,
    ensures
        resident_count(e2) == resident_count(e1),
        dirty_count(e2) == dirty_count(e1),
    decreases e1.len(),
{
    if e1.len() > 0 {
        assert(e2[e2.len() - 1].valid == e1[e1.len() - 1].valid);
        lemma_counts_same(e1.drop_last(), e2.drop_last());
    }
}

/// Writing a dirty entry back to the device and marking it clean keeps the view.
proof fn lemma_writeback_keeps_view(e1: Seq<CacheEntry>, base: Seq<Seq<u8>>, index: int)
    requires
        entries_consistent(e1, base),
        0 <= index < e1.len(),
        e1[index].valid,
    ensures
        ({
            let e = e1[index];
            let e2 = e1.update(index, CacheEntry { dirty: false, ..e });
            let b2 = base.update(e.lba as int, e.data@);
            &&& entries_consistent(e2, b2)
            &&& overlay(e2, b2) == overlay(e1, base)
        }),
{
    let e = e1[index];
    let e2 = e1.update(index, CacheEntry { dirty: false, ..e });
    let b2 = base.update(e.lba as int, e.data@);
    assert forall|i: int, j: int|
        0 <= i < e2.len() && 0 <= j < e2.len() && i != j && e2[i].valid && e2[j].valid
            implies #[trigger] e2[i].lba != #[trigger] e2[j].lba by {
        assert(e1[i].lba != e1[j].lba);
    }
    assert forall|i: int|
        0 <= i < e2.len() && #[trigger] e2[i].valid && !e2[i].dirty implies e2[i].data@ == b2[
        e2[i].lba as int] by {
        if i != index {
            assert(e1[i].lba != e1[index].lba);
        }
    }
    assert forall|lba: int| 0 <= lba < base.len() implies #[trigger] cached_sector(e2, b2, lba)
        == cached_sector(e1, base, lba) by {
        if exists|i: int| #[trigger] holds(e1, i, lba) {
            let i = choose|i: int| #[trigger] holds(e1, i, lba);
            assert(holds(e1, i, lba));
            lemma_cached_at_holder(e1, base, i);
            lemma_cached_at_holder(e2, b2, i);
        } else {
            assert forall|i: int| 0 <= i < e2.len() && e2[i].valid implies e2[i].lba != lba by {
                if e2[i].lba == lba {
                    assert(holds(e1, i, lba));
                }
            }
            assert forall|i: int| 0 <= i < e1.len() && e1[i].valid implies e1[i].lba != lba by {
                if e1[i].lba == lba {
                    assert(holds(e1, i, lba));
                }
            }
            lemma_cached_without_holder(e1, base, lba);
            lemma_cached_without_holder(e2, b2, lba);
        }
    }
    assert(overlay(e2, b2) =~= overlay(e1, base));
}

/// Installing `entry` in slot `index` changes the view only at the entry's sector.
proof fn lemma_install_entry(
    e1: Seq<CacheEntry>,
    base: Seq<Seq<u8>>,
    index: int,
    entry: CacheEntry,
)
    requires
        entries_consistent(e1, base),
        0 <= index < e1.len(),
        entry.valid,
        entry.lba < base.len(),
        !entry.dirty ==> entry.data@ == base[entry.lba as int],
        forall|j: int|
            0 <= j < e1.len() && j != index && #[trigger] e1[j].valid ==> e1[j].lba != entry.lba,
        e1[index].valid && e1[index].lba != entry.lba ==> !e1[index].dirty,
    ensures
        entries_consistent(e1.update(index, entry), base),
        overlay(e1.update(index, entry), base) == overlay(e1, base).update(
            entry.lba as int,
            entry.data@,
        ),
{
    let e2 = e1.update(index, entry);
    assert forall|i: int, j: int|
        0 <= i < e2.len() && 0 <= j < e2.len() && i != j && e2[i].valid && e2[j].valid
            implies #[trigger] e2[i].lba != #[trigger] e2[j].lba by {
        if i != index && j != index {
            assert(e1[i].lba != e1[j].lba);
        }
    }
    assert forall|lba: int| 0 <= lba < base.len() implies #[trigger] cached_sector(e2, base, lba)
        == overlay(e1, base).update(entry.lba as int, entry.data@)[lba] by {
        if lba == entry.lba {
            assert(e2[index] == entry);
            lemma_cached_at_holder(e2, base, index);
        } else if exists|i: int| #[trigger] holds(e1, i, lba) && i != index {
            let i = choose|i: int| #[trigger] holds(e1, i, lba) && i != index;
            assert(holds(e1, i, lba));
            lemma_cached_at_holder(e1, base, i);
            lemma_cached_at_holder(e2, base, i);
        } else {
            assert forall|i: int| 0 <= i < e2.len() && e2[i].valid implies e2[i].lba != lba by {
                if e2[i].lba == lba && i != index {
                    assert(holds(e1, i, lba));
                }
            }
            lemma_cached_without_holder(e2, base, lba);
            if e1[index].valid && e1[index].lba == lba {
                lemma_cached_at_holder(e1, base, index);
            } else {
                assert forall|i: int| 0 <= i < e1.len() && e1[i].valid implies e1[i].lba
                    != lba by {
                    if e1[i].lba == lba && i != index {
                        assert(holds(e1, i, lba));
                    }
                }
                lemma_cached_without_holder(e1, base, lba);
            }
        }
    }
    assert(overlay(e2, base) =~= overlay(e1, base).update(entry.lba as int, entry.data@));
}

proof fn lemma_counts_valid_same(e1: Seq<CacheEntry>, e2: Seq<CacheEntry>)
    requires
        e1.len() == e2.len(),
        forall|i: int| 0 <= i < e1.len() ==> (#[trigger] e2[i]).valid == e1[i].valid,
    ensures
        resident_count(e2) == resident_count(e1),
    decreases e1.len(),
{
    if e1.len() > 0 {
        assert(e2[e2.len() - 1].valid == e1[e1.len() - 1].valid);
        lemma_counts_valid_same(e1.drop_last(), e2.drop_last());
    }
}

/// Without dirty entries the cache shows exactly the device.
proof fn lemma_no_dirty(entries: Seq<CacheEntry>, base: Seq<Seq<u8>>)
    requires
        entries_consistent(entries, base),
        forall|k: int|
            0 <= k < entries.len() ==> !((#[trigger] entries[k]).valid && entries[k].dirty),
    ensures
        dirty_count(entries) == 0,
        overlay(entries, base) == base,
{
    lemma_dirty_count_zero(entries);
    assert forall|lba: int| 0 <= lba < base.len() implies #[trigger] overlay(entries, base)[lba]
        == base[lba] by {
        if exists|i: int| #[trigger] holds(entries, i, lba) {
            let i = choose|i: int| #[trigger] holds(entries, i, lba);
            assert(holds(entries, i, lba));
            lemma_cached_at_holder(entries, base, i);
        } else {
            assert forall|i: int| 0 <= i < entries.len() && entries[i].valid implies entries[i].lba
                != lba by {
                if entries[i].lba == lba {
                    assert(holds(entries, i, lba));
                }
            }
            lemma_cached_without_holder(entries, base, lba);
        }
    }
    assert(overlay(entries, base) =~= base);
}

proof fn lemma_dirty_count_zero(entries: Seq<CacheEntry>)
    requires
        forall|k: int|
            0 <= k < entries.len() ==> !((#[trigger] entries[k]).valid && entries[k].dirty),
    ensures
        dirty_count(entries) == 0,
    decreases entries.len(),
{
    if entries.len() > 0 {
        let rest = entries.drop_last();
        assert forall|k: int| 0 <= k < rest.len() implies !((#[trigger] rest[k]).valid
            && rest[k].dirty) by {
            assert(rest[k] == entries[k]);
        }
        assert(!(entries[entries.len() - 1].valid && entries[entries.len() - 1].dirty));
        lemma_dirty_count_zero(rest);
    }
}

/// With no slots the cache shows exactly the device.
proof fn lemma_overlay_no_entries(entries: Seq<CacheEntry>, base: Seq<Seq<u8>>)
    requires
        entries.len() == 0,
    ensures
        overlay(entries, base) == base,
{
    assert forall|lba: int| 0 <= lba < base.len() implies #[trigger] overlay(entries, base)[lba]
        == base[lba] by {
        lemma_cached_without_holder(entries, base, lba);
    }
    assert(overlay(entries, base) =~= base);
}

proof fn lemma_counts_all_invalid(entries: Seq<CacheEntry>)
    requires
        forall|k: int| 0 <= k < entries.len() ==> !(#[trigger] entries[k]).valid,
    ensures
        resident_count(entries) == 0,
        dirty_count(entries) == 0,
    decreases entries.len(),
{
    if entries.len() > 0 {
        lemma_counts_all_invalid(entries.drop_last());
    }
}


/// A RAM disk that counts its calls and can be told to fail reads, writes or
/// flushes, for exercising the cache.
pub struct Probe {
    pub disk: crate::block::RamDisk<4>,
    pub reads: usize,
    pub writes: usize,
    pub flushes: usize,
    pub fail_read: bool,
    pub fail_write: bool,
    pub fail_flush: bool,
}

impl Probe {
    pub fn new() -> (probe: Self)
        ensures
            probe.disk.count() == 4,
            probe.disk.contents() == Seq::new(4, |i: int| Seq::new(512, |j: int| 0u8)),
            !probe.disk.spec_read_only(),
            probe.reads == 0 && probe.writes == 0 && probe.flushes == 0,
            !probe.fail_read && !probe.fail_write && !probe.fail_flush,
    {
        Probe {
            disk: crate::block::RamDisk::new(),
            reads: 0,
            writes: 0,
            flushes: 0,
            fail_read: false,
            fail_write: false,
            fail_flush: false,
        }
    }
}

impl BlockDevice for Probe {
    open spec fn sectors(&self) -> Seq<Seq<u8>> {
        self.disk.contents()
    }

    open spec fn read_only(&self) -> bool {
        self.disk.spec_read_only()
    }

    open spec fn valid(&self) -> bool {
        true
    }

    fn sector_count(&self) -> (count: u64) {
        self.disk.sector_count()
    }

    fn is_read_only(&self) -> (read_only: bool) {
        self.disk.is_read_only()
    }

    fn flush(&mut self) -> (result: Result<(), Error>) {
        self.flushes = self.flushes.saturating_add(1);
        if self.fail_flush {
            Err(Error::DeviceFault)
        } else {
            Ok(())
        }
    }

    fn read_sector(&mut self, lba: u64, sector: &mut [u8]) -> (result: Result<(), Error>) {
        self.reads = self.reads.saturating_add(1);
        if self.fail_read {
            return Err(Error::DeviceFault);
        }
        self.disk.read_sector(lba, sector)
    }

    fn write_sector(&mut self, lba: u64, sector: &[u8]) -> (result: Result<(), Error>) {
        self.writes = self.writes.saturating_add(1);
        if self.fail_write {
            return Err(Error::DeviceFault);
        }
        self.disk.write_sector(lba, sector)
    }
}

/// Whether two byte strings are equal.
pub fn same_bytes(a: &[u8], b: &[u8]) -> (equal: bool)
    ensures
        equal == (a@ == b@),
{
    if a.len() != b.len() {
        return false;
    }
    let n = a.len();
    let mut i: usize = 0;
    while i < n
        invariant
            n == a@.len(),
            n == b@.len(),
            i <= n,
            forall|k: int| 0 <= k < i ==> a@[k] == b@[k],
        decreases n - i,
    {
        if a[i] != b[i] {
            return false;
        }
        i = i + 1;
    }
    assert(a@ =~= b@);
    true
}

fn is_error(result: Result<(), Error>, expected: Error) -> (matched: bool)
    ensures
        matched == (result == Err::<(), Error>(expected)),
{
    match result {
        Ok(()) => false,
        Err(error) => error == expected,
    }
}

/// Reads are served from the cache, writes are coalesced, and a dirty
/// least-recently-used sector is written back when it is evicted.
pub fn reuse_and_eviction_test() -> (passed: bool) {
    let mut cache = CachedDevice::<Probe, 2>::new(Probe::new());
    let mut out = [0u8; 512];
    let a = [1u8; 512];
    let b = [2u8; 512];
    if cache.read_sector(0, &mut out).is_err() || cache.read_sector(0, &mut out).is_err()
        || cache.inner().reads != 1 || cache.write_sector(1, &a).is_err()
        || cache.write_sector(1, &b).is_err() || cache.inner().reads != 1
        || cache.inner().writes != 0 || cache.read_sector(1, &mut out).is_err()
        || !same_bytes(&out, &b) || cache.stats().dirty != 1 {
        return false;
    }
    // Touch 0 last: dirty sector 1 must be the least recently used victim.
    if cache.read_sector(0, &mut out).is_err() || cache.read_sector(2, &mut out).is_err()
        || cache.inner().writes != 1 || cache.stats().writebacks != 1
        || cache.stats().evictions != 1 || cache.stats().resident != 2 {
        return false;
    }
    let probe = cache.inner_mut();
    let read_back = probe.disk.read_sector(1, &mut out);
    if read_back.is_err() || !same_bytes(&out, &b) {
        return false;
    }
    // Repeated flush keeps clean cached data and performs no extra writes.
    cache.flush().is_ok() && cache.flush().is_ok() && cache.inner().writes == 1
        && cache.inner().flushes == 2 && cache.stats().dirty == 0
        && cache.read_sector(0, &mut out).is_ok() && cache.inner().reads == 2
        && cache.hits() == 5 && cache.misses() == 3
}

/// Failed writebacks keep dirty data cached until a later flush succeeds, and
/// failed reads leave the caller's buffer untouched.
pub fn failure_recovery_test() -> (passed: bool) {
    let mut cache = CachedDevice::<Probe, 1>::new(Probe::new());
    let data = [7u8; 512];
    let mut out = [0u8; 512];
    if cache.write_sector(0, &data).is_err() {
        return false;
    }
    cache.inner_mut().fail_write = true;
    if !is_error(cache.flush(), Error::DeviceFault)
        || !is_error(cache.read_sector(1, &mut out), Error::DeviceFault)
        || !is_error(cache.write_sector(1, &[9u8; 512]), Error::DeviceFault)
        || cache.stats().dirty != 1 || cache.stats().evictions != 0
        || cache.read_sector(0, &mut out).is_err() || !same_bytes(&out, &data) {
        return false;
    }
    cache.inner_mut().fail_write = false;
    if cache.flush().is_err() || cache.stats().dirty != 0 {
        return false;
    }
    let probe = cache.inner_mut();
    let read_back = probe.disk.read_sector(0, &mut out);
    if read_back.is_err() || !same_bytes(&out, &data) {
        return false;
    }
    cache.inner_mut().fail_read = true;
    crate::block::fill_bytes(&mut out, 3);
    if !is_error(cache.read_sector(1, &mut out), Error::DeviceFault)
        || !same_bytes(&out, &[3u8; 512]) || cache.read_sector(0, &mut out).is_err()
        || !same_bytes(&out, &data) {
        return false;
    }
    cache.inner_mut().fail_read = false;
    cache.inner_mut().fail_flush = true;
    if !is_error(cache.flush(), Error::DeviceFault) {
        return false;
    }
    cache.inner_mut().fail_flush = false;
    cache.flush().is_ok() && cache.read_sector(1, &mut out).is_ok() && same_bytes(
        &out,
        &[0u8; 512],
    )
}

/// Bad requests are refused before any device access, read-only devices refuse
/// writes, and a cache of no entries passes every request through.
pub fn validation_and_bypass_test() -> (passed: bool) {
    let mut cache = CachedDevice::<Probe, 1>::new(Probe::new());
    let mut out = [0u8; 512];
    let short = [0u8; 1];
    let mut short_out = [0u8; 1];
    if !is_error(cache.read_sector(4, &mut out), Error::OutOfBounds)
        || !is_error(cache.write_sector(4, &out), Error::OutOfBounds)
        || !is_error(cache.read_sector(0, &mut short_out), Error::InvalidBuffer)
        || !is_error(cache.write_sector(0, &short), Error::InvalidBuffer)
        || cache.inner().reads != 0 || cache.inner().writes != 0 {
        return false;
    }
    cache.inner_mut().disk.set_read_only(true);
    if !is_error(cache.write_sector(0, &out), Error::ReadOnly) || cache.stats().dirty != 0 {
        return false;
    }
    let mut bypass = CachedDevice::<Probe, 0>::new(Probe::new());
    let data = [8u8; 512];
    bypass.write_sector(2, &data).is_ok() && bypass.read_sector(2, &mut out).is_ok()
        && same_bytes(&out, &data) && bypass.inner().writes == 1 && bypass.inner().reads == 1
        && bypass.stats().resident == 0 && bypass.flush().is_ok() && bypass.inner().flushes == 1
}

pub fn self_test() -> (passed: bool) {
    reuse_and_eviction_test() && failure_recovery_test() && validation_and_bypass_test()
}

} // verus!
