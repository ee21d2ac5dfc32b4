//! A bounded cache of clean file pages, filled on demand by a loader.
use vstd::prelude::*;

use crate::block::{copy_bytes, Error};
use vstd::string::StringSliceAdditionalSpecFns;

verus! {

/// Bytes in one page.
pub const PAGE_SIZE: usize = 4096;

/// Longest key, in bytes.
pub const KEY_SIZE: usize = 128;

/// One cached page.
#[derive(Clone, Copy)]
pub struct PageSlot {
    pub key: [u8; 128],
    pub key_len: usize,
    pub page: usize,
    pub data: [u8; 4096],
    pub length: usize,
    pub valid: bool,
    pub age: u64,
}

impl PageSlot {
    pub fn empty() -> (slot: Self)
        ensures
            !slot.valid,
            slot.key_len == 0,
            slot.length == 0,
            slot.age == 0,
    {
        PageSlot { key: [0u8; 128], key_len: 0, page: 0, data: [0u8; 4096], length: 0, valid: false, age: 0 }
    }
}

/// Counters and occupancy of a cache.
#[derive(Clone, Copy)]
pub struct Stats {
    pub hits: u64,
    pub misses: u64,
    pub evictions: u64,
    pub resident: usize,
    pub capacity: usize,
}

/// The key bytes of `slot`.
pub open spec fn slot_key(slot: PageSlot) -> Seq<u8> {
    slot.key@.subrange(0, slot.key_len as int)
}

/// `slot` holds page `page` of the file named `key`.
pub open spec fn slot_matches(slot: PageSlot, key: Seq<u8>, page: int) -> bool {
    slot.valid && slot.page == page && slot.key_len <= KEY_SIZE && slot_key(slot) == key
}

/// Number of valid slots in `slots`.
pub open spec fn count_valid(slots: Seq<PageSlot>) -> nat
    decreases slots.len(),
{
    if slots.len() == 0 {
        0
    } else {
        count_valid(slots.drop_last()) + if slots.last().valid {
            1nat
        } else {
            0nat
        }
    }
}

/// A read that is refused before any lookup.
pub open spec fn request_invalid(key: Seq<u8>, offset: int, length: int, capacity: int) -> bool {
    key.len() == 0 || key.len() > KEY_SIZE || capacity == 0 || offset + length > usize::MAX
}

/// The bytes of page data `data` of `length` valid bytes that a read from `within`
/// of at most `wanted` bytes returns.
pub open spec fn served(data: Seq<u8>, length: int, within: int, wanted: int) -> Seq<u8> {
    let available = if length > within { length - within } else { 0 };
    let count = if available < wanted { available } else { wanted };
    data.subrange(within, within + count)
}

/// A cache of `N` pages.
pub struct PageCache<const N: usize> {
    slots: Vec<PageSlot>,
    hits: u64,
    misses: u64,
    evictions: u64,
}

impl<const N: usize> PageCache<N> {
    pub closed spec fn wf(&self) -> bool {
        &&& self.slots@.len() == N
        &&& forall|i: int| 0 <= i < N && (#[trigger] self.slots@[i]).valid ==> self.slots@[i].key_len
            <= KEY_SIZE && self.slots@[i].length <= PAGE_SIZE
        &&& forall|i: int, j: int|
            0 <= i < N && 0 <= j < N && i != j && (#[trigger] self.slots@[i]).valid && (#[trigger] self.slots@[j]).valid
                ==> !(self.slots@[i].page == self.slots@[j].page && slot_key(self.slots@[i]) == slot_key(
                self.slots@[j],
            ))
    }

    /// The slots, in order.
    pub closed spec fn table(&self) -> Seq<PageSlot> {
        self.slots@
    }

    pub closed spec fn spec_hits(&self) -> u64 {
        self.hits
    }

    pub closed spec fn spec_misses(&self) -> u64 {
        self.misses
    }

    pub closed spec fn spec_evictions(&self) -> u64 {
        self.evictions
    }

    /// Page `page` of `key` is cached.
    pub open spec fn resident(&self, key: Seq<u8>, page: int) -> bool {
        exists|i: int| 0 <= i < N && #[trigger] slot_matches(self.table()[i], key, page)
    }

    pub fn new() -> (cache: Self)
        ensures
            cache.wf(),
            cache.spec_hits() == 0,
            cache.spec_misses() == 0,
            cache.spec_evictions() == 0,
            forall|i: int| 0 <= i < N ==> !(#[trigger] cache.table()[i]).valid,
    {
        let mut slots: Vec<PageSlot> = Vec::new();
        let mut i: usize = 0;
        while i < N
            invariant
                i <= N,
                slots@.len() == i,
                forall|k: int| 0 <= k < i ==> !(#[trigger] slots@[k]).valid,
            decreases N - i,
        {
            slots.push(PageSlot::empty());
            i = i + 1;
        }
        PageCache { slots, hits: 0, misses: 0, evictions: 0 }
    }

    /// Counters, the number of cached pages and the capacity.
    pub fn stats(&self) -> (stats: Stats)
        requires
            self.wf(),
        ensures
            stats.hits == self.spec_hits(),
            stats.misses == self.spec_misses(),
            stats.evictions == self.spec_evictions(),
            stats.resident == count_valid(self.table()),
            stats.capacity == N,
    {
        let mut resident: usize = 0;
        let mut i: usize = 0;
        while i < self.slots.len()
            invariant
                self.wf(),
                i <= N,
                resident <= i,
                resident == count_valid(self.slots@.take(i as int)),
            decreases N - i,
        {
            assert(self.slots@.take(i as int + 1).drop_last() =~= self.slots@.take(i as int));
            if self.slots[i].valid {
                resident = resident + 1;
            }
            i = i + 1;
        }
        assert(self.slots@.take(i as int) =~= self.slots@);
        Stats { hits: self.hits, misses: self.misses, evictions: self.evictions, resident, capacity: N }
    }

    /// Drops every cached page; they are all clean, so nothing is written back.
    pub fn invalidate(&mut self)
        requires
            old(self).wf(),
        ensures
            final(self).wf(),
            forall|i: int| 0 <= i < N ==> !(#[trigger] final(self).table()[i]).valid,
            final(self).spec_hits() == old(self).spec_hits(),
            final(self).spec_misses() == old(self).spec_misses(),
            final(self).spec_evictions() == old(self).spec_evictions(),
    {
        let mut i: usize = 0;
        while i < self.slots.len()
            invariant
                self.slots@.len() == N,
                i <= N,
                self.hits == old(self).hits,
                self.misses == old(self).misses,
                self.evictions == old(self).evictions,
                forall|k: int| 0 <= k < i ==> !(#[trigger] self.slots@[k]).valid,
                forall|k: int| i <= k < N ==> #[trigger] self.slots@[k] == old(self).slots@[k],
            decreases N - i,
        {
            let mut slot = self.slots[i];
            slot.valid = false;
            self.slots.set(i, slot);
            i = i + 1;
        }
    }

    /// The slot holding page `page` of `key`.
    fn lookup(&self, key: &[u8], page: usize) -> (found: Option<usize>)
        requires
            self.wf(),
            key@.len() <= KEY_SIZE,
        ensures
            match found {
                Some(i) => i < N && slot_matches(self.table()[i as int], key@, page as int),
                None => !self.resident(key@, page as int),
            },
    {
        let mut i: usize = 0;
        while i < self.slots.len()
            invariant
                self.wf(),
                i <= N,
                key@.len() <= KEY_SIZE,
                forall|k: int| 0 <= k < i ==> !#[trigger] slot_matches(self.slots@[k], key@, page as int),
            decreases N - i,
        {
            let slot = &self.slots[i];
            if slot.valid && slot.page == page && slot.key_len == key.len() {
                let mut same = true;
                let mut k: usize = 0;
                while k < key.len()
                    invariant
                        k <= key@.len(),
                        key@.len() == slot.key_len,
                        key@.len() <= KEY_SIZE,
                        same == forall|m: int| 0 <= m < k ==> slot.key@[m] == key@[m],
                    decreases key@.len() - k,
                {
                    if slot.key[k] != key[k] {
                        same = false;
                    }
                    k = k + 1;
                }
                if same {
                    assert(slot_key(*slot) =~= key@);
                    return Some(i);
                }
                assert(slot_key(*slot)[k as int - 1] != key@[k as int - 1] || exists|m: int| 0 <= m < k && slot.key@[m] != key@[m]);
            }
            i = i + 1;
        }
        None
    }

    /// The slot to refill: the first free one, else the last of the oldest.
    fn victim(&self) -> (index: usize)
        requires
            self.wf(),
            N > 0,
        ensures
            index < N,
            (exists|k: int| 0 <= k < N && !(#[trigger] self.table()[k]).valid) ==> !self.table()[index as int].valid
                && forall|k: int| 0 <= k < index ==> (#[trigger] self.table()[k]).valid,
            (forall|k: int| 0 <= k < N ==> (#[trigger] self.table()[k]).valid) ==> {
                &&& forall|k: int| 0 <= k < N ==> (#[trigger] self.table()[k]).age <= self.table()[index as int].age
                &&& forall|k: int| index < k < N ==> (#[trigger] self.table()[k]).age < self.table()[index as int].age
            },
    {
        let mut i: usize = 0;
        while i < self.slots.len()
            invariant
                self.wf(),
                i <= N,
                forall|k: int| 0 <= k < i ==> (#[trigger] self.table()[k]).valid,
            decreases N - i,
        {
            if !self.slots[i].valid {
                return i;
            }
            i = i + 1;
        }
        let mut best: usize = 0;
        let mut j: usize = 1;
        while j < self.slots.len()
            invariant
                self.wf(),
                N > 0,
                1 <= j <= N,
                best < j,
                forall|k: int| 0 <= k < N ==> (#[trigger] self.table()[k]).valid,
                forall|k: int| 0 <= k < j ==> (#[trigger] self.table()[k]).age <= self.table()[best as int].age,
                forall|k: int| best < k < j ==> (#[trigger] self.table()[k]).age < self.table()[best as int].age,
            decreases N - j,
        {
            if self.slots[j].age >= self.slots[best].age {
                best = j;
            }
            j = j + 1;
        }
        best
    }

    /// Ages every cached page by one and makes slot `index` the youngest.
    fn touch(&mut self, index: usize)
        requires
            old(self).wf(),
            index < N,
        ensures
            final(self).wf(),
            forall|i: int| 0 <= i < N ==> (#[trigger] final(self).table()[i]).valid == old(self).table()[i].valid
                && final(self).table()[i].page == old(self).table()[i].page
                && final(self).table()[i].key == old(self).table()[i].key
                && final(self).table()[i].key_len == old(self).table()[i].key_len
                && final(self).table()[i].data == old(self).table()[i].data
                && final(self).table()[i].length == old(self).table()[i].length,
            final(self).spec_hits() == old(self).spec_hits(),
            final(self).spec_misses() == old(self).spec_misses(),
            final(self).spec_evictions() == old(self).spec_evictions(),
            final(self).table()[index as int].age == 0,
            forall|i: int| 0 <= i < N && i != index ==> (#[trigger] final(self).table()[i]).age == if old(self).table()[i].valid {
                old(self).table()[i].age.saturating_add(1)
            } else {
                old(self).table()[i].age
            },
    {
        let mut i: usize = 0;
        while i < self.slots.len()
            invariant
                self.slots@.len() == N,
                i <= N,
                index < N,
                self.hits == old(self).hits,
                self.misses == old(self).misses,
                self.evictions == old(self).evictions,
                forall|k: int| 0 <= k < N ==> (#[trigger] self.slots@[k]).valid == old(self).slots@[k].valid
                    && self.slots@[k].page == old(self).slots@[k].page
                    && self.slots@[k].key == old(self).slots@[k].key
                    && self.slots@[k].key_len == old(self).slots@[k].key_len
                    && self.slots@[k].data == old(self).slots@[k].data
                    && self.slots@[k].length == old(self).slots@[k].length,
                forall|k: int| 0 <= k < i ==> (#[trigger] self.slots@[k]).age == if old(self).slots@[k].valid {
                    old(self).slots@[k].age.saturating_add(1)
                } else {
                    old(self).slots@[k].age
                },
                forall|k: int| i <= k < N ==> (#[trigger] self.slots@[k]).age == old(self).slots@[k].age,
            decreases N - i,
        {
            let mut slot = self.slots[i];
            if slot.valid {
                slot.age = slot.age.saturating_add(1);
            }
            self.slots.set(i, slot);
            i = i + 1;
        }
        let mut slot = self.slots[index];
        slot.age = 0;
        self.slots.set(index, slot);
        proof {
            assert forall|a: int, b: int|
                0 <= a < N && 0 <= b < N && a != b && (#[trigger] self.slots@[a]).valid && (#[trigger] self.slots@[b]).valid
                    implies !(self.slots@[a].page == self.slots@[b].page && slot_key(self.slots@[a]) == slot_key(
                    self.slots@[b],
                )) by {
                assert(slot_key(self.slots@[a]) == slot_key(old(self).slots@[a]));
                assert(slot_key(self.slots@[b]) == slot_key(old(self).slots@[b]));
            }
        }
    }

    /// Fills slot `index` with page `page` of `key` through `load`, evicting what it
    /// held.
    fn fill<F: FnMut(usize, &mut [u8]) -> Result<usize, Error>>(&mut self, index: usize, key: &[u8], page: usize, load: &mut F) -> (result: Result<(), Error>)
        requires
            old(self).wf(),
            index < N,
            0 < key@.len() <= KEY_SIZE,
            page * PAGE_SIZE <= usize::MAX,
            !old(self).resident(key@, page as int),
            forall|offset: usize, p: &mut [u8]| call_requires(*old(load), (offset, p)),
        ensures
            final(self).wf(),
            forall|offset: usize, p: &mut [u8]| call_requires(*final(load), (offset, p)),
            final(self).spec_hits() == old(self).spec_hits(),
            final(self).spec_misses() == old(self).spec_misses(),
            result is Ok ==> slot_matches(final(self).table()[index as int], key@, page as int),
            forall|i: int| 0 <= i < N && i != index ==> #[trigger] final(self).table()[i] == old(self).table()[i],
            result is Err ==> !final(self).table()[index as int].valid,
    {
        let mut slot = self.slots[index];
        if slot.valid {
            self.evictions = self.evictions.saturating_add(1);
        }
        slot.valid = false;
        self.slots.set(index, slot);
        let mut data = [0u8; 4096];
        let length = match load(page * PAGE_SIZE, &mut data) {
            Ok(length) => length,
            Err(error) => return Err(error),
        };
        if length > PAGE_SIZE {
            return Err(Error::InvalidBuffer);
        }
        let mut key_bytes = slot.key;
        copy_bytes(&mut key_bytes, 0, key, 0, key.len());
        let filled = PageSlot {
            key: key_bytes,
            key_len: key.len(),
            page,
            data,
            length,
            valid: true,
            age: slot.age,
        };
        assert(slot_key(filled) =~= key@);
        self.slots.set(index, filled);
        proof {
            assert forall|a: int, b: int|
                0 <= a < N && 0 <= b < N && a != b && (#[trigger] self.slots@[a]).valid && (#[trigger] self.slots@[b]).valid
                    implies !(self.slots@[a].page == self.slots@[b].page && slot_key(self.slots@[a]) == slot_key(
                    self.slots@[b],
                )) by {
                if a == index {
                    assert(!slot_matches(old(self).table()[b], key@, page as int));
                } else if b == index {
                    assert(!slot_matches(old(self).table()[a], key@, page as int));
                }
            }
        }
        Ok(())
    }

    /// Serves the part of one page that a read wants: finds or loads page `page` of `key`
    /// and copies up to `wanted` of its valid bytes from `within` on into `output` at
    /// `at`. Hands back how many bytes it copied and whether the page is short.
    fn serve_page<F: FnMut(usize, &mut [u8]) -> Result<usize, Error>>(&mut self, key: &[u8], page: usize, within: usize, output: &mut [u8], at: usize, wanted: usize, load: &mut F) -> (result: Result<(usize, bool), Error>)
        requires
            old(self).wf(),
            N > 0,
            0 < key@.len() <= KEY_SIZE,
            within < PAGE_SIZE,
            page * PAGE_SIZE <= usize::MAX,
            at + wanted <= old(output)@.len(),
            forall|offset: usize, p: &mut [u8]| call_requires(*old(load), (offset, p)),
        ensures
            final(self).wf(),
            forall|offset: usize, p: &mut [u8]| call_requires(*final(load), (offset, p)),
            final(output)@.len() == old(output)@.len(),
            result is Err ==> final(output)@ == old(output)@,
            result is Ok ==> {
                let (count, short) = result->Ok_0;
                &&& count <= wanted
                &&& final(output)@.subrange(0, at as int) == old(output)@.subrange(0, at as int)
                &&& final(output)@.subrange(at + count, old(output)@.len() as int) == old(output)@.subrange(
                    at + count,
                    old(output)@.len() as int,
                )
                &&& exists|i: int|
                    0 <= i < N && #[trigger] slot_matches(final(self).table()[i], key@, page as int)
                        && final(output)@.subrange(at as int, at + count) == served(
                        final(self).table()[i].data@,
                        final(self).table()[i].length as int,
                        within as int,
                        wanted as int,
                    ) && short == (final(self).table()[i].length < PAGE_SIZE)
            },
            !old(self).resident(key@, page as int) ==> final(self).spec_misses() == old(self).spec_misses().saturating_add(1)
                && final(self).spec_hits() == old(self).spec_hits(),
            old(self).resident(key@, page as int) ==> {
                &&& result is Ok
                &&& final(self).spec_hits() == old(self).spec_hits().saturating_add(1)
                &&& final(self).spec_misses() == old(self).spec_misses()
                &&& forall|i: int| 0 <= i < N ==> #[trigger] slot_matches(old(self).table()[i], key@, page as int)
                    ==> final(self).table()[i].data == old(self).table()[i].data && final(self).table()[i].length
                    == old(self).table()[i].length && slot_matches(final(self).table()[i], key@, page as int)
            },
    {
        let index = match self.lookup(key, page) {
            Some(index) => {
                self.hits = self.hits.saturating_add(1);
                index
            },
            None => {
                let ghost snapshot = *self;
                self.misses = self.misses.saturating_add(1);
                let index = self.victim();
                assert(self.table() == snapshot.table());
                assert(!self.resident(key@, page as int));
                match self.fill(index, key, page, load) {
                    Ok(()) => {},
                    Err(error) => return Err(error),
                }
                index
            },
        };
        assert(self.table()[index as int].valid);
        self.touch(index);
        assert(self.table()[index as int].valid);
        let slot = &self.slots[index];
        assert(slot.length <= PAGE_SIZE);
        let available = if slot.length > within {
            slot.length - within
        } else {
            0
        };
        let count = if available < wanted {
            available
        } else {
            wanted
        };
        let ghost before = output@;
        copy_bytes(output, at, &slot.data, within, count);
        proof {
            assert(output@.subrange(0, at as int) =~= before.subrange(0, at as int));
            assert(output@.subrange(at + count, output@.len() as int) =~= before.subrange(at + count, before.len() as int));
            assert(output@.subrange(at as int, at + count) =~= served(slot.data@, slot.length as int, within as int, wanted as int));
            assert(slot_matches(self.table()[index as int], key@, page as int));
            if old(self).resident(key@, page as int) {
                assert forall|i: int| 0 <= i < N && #[trigger] slot_matches(old(self).table()[i], key@, page as int)
                    implies self.table()[i].data == old(self).table()[i].data && self.table()[i].length
                    == old(self).table()[i].length && slot_matches(self.table()[i], key@, page as int) by {
                    assert(slot_key(self.table()[i]) == slot_key(old(self).table()[i]));
                }
            }
        }
        Ok((count, slot.length < PAGE_SIZE))
    }

    /// Reads up to `output.len()` bytes of the file named `key` from byte `offset` on,
    /// page by page, loading pages the cache lacks through `load`, which fills a zeroed
    /// page from a byte offset and reports how many bytes of it are valid.
    ///
    /// Stops at the end of the output, at a short page (end of file), or on a failed
    /// load. A failed load leaves the page uncached.
    pub fn read<F: FnMut(usize, &mut [u8]) -> Result<usize, Error>>(&mut self, key: &str, offset: usize, output: &mut [u8], load: F) -> (result: Result<usize, Error>)
        requires
            old(self).wf(),
            forall|at: usize, p: &mut [u8]| load.requires((at, p)),
        ensures
            final(self).wf(),
            final(output)@.len() == old(output)@.len(),
            request_invalid(key.spec_bytes(), offset as int, old(output)@.len() as int, N as int) ==> result
                == Err::<usize, Error>(Error::InvalidBuffer) && final(self).table() == old(self).table()
                && final(output)@ == old(output)@ && final(self).spec_hits() == old(self).spec_hits()
                && final(self).spec_misses() == old(self).spec_misses() && final(self).spec_evictions()
                == old(self).spec_evictions(),
            result is Ok ==> result->Ok_0 <= old(output)@.len() && final(output)@.subrange(
                result->Ok_0 as int,
                old(output)@.len() as int,
            ) == old(output)@.subrange(result->Ok_0 as int, old(output)@.len() as int),
            ({
                let page = offset / PAGE_SIZE;
                let within = offset % PAGE_SIZE;
                !request_invalid(key.spec_bytes(), offset as int, old(output)@.len() as int, N as int)
                    && old(output)@.len() > 0 && within + old(output)@.len() <= PAGE_SIZE && result is Ok
                    ==> exists|i: int|
                    0 <= i < N && #[trigger] slot_matches(final(self).table()[i], key.spec_bytes(), page as int)
                        && final(output)@.subrange(0, result->Ok_0 as int) == served(
                        final(self).table()[i].data@,
                        final(self).table()[i].length as int,
                        within as int,
                        old(output)@.len() as int,
                    )
            }),
            ({
                let page = offset / PAGE_SIZE;
                let within = offset % PAGE_SIZE;
                !request_invalid(key.spec_bytes(), offset as int, old(output)@.len() as int, N as int)
                    && old(output)@.len() > 0 && within + old(output)@.len() <= PAGE_SIZE && !old(self).resident(
                    key.spec_bytes(),
                    page as int,
                ) ==> final(self).spec_misses() == old(self).spec_misses().saturating_add(1) && final(self).spec_hits()
                    == old(self).spec_hits()
            }),
            ({
                let page = offset / PAGE_SIZE;
                let within = offset % PAGE_SIZE;
                !request_invalid(key.spec_bytes(), offset as int, old(output)@.len() as int, N as int)
                    && old(output)@.len() > 0 && within + old(output)@.len() <= PAGE_SIZE && old(self).resident(
                    key.spec_bytes(),
                    page as int,
                ) ==> {
                    &&& result is Ok
                    &&& final(self).spec_hits() == old(self).spec_hits().saturating_add(1)
                    &&& final(self).spec_misses() == old(self).spec_misses()
                    &&& forall|i: int| 0 <= i < N ==> #[trigger] slot_matches(old(self).table()[i], key.spec_bytes(), page as int)
                        ==> final(output)@.subrange(0, result->Ok_0 as int) == served(
                        old(self).table()[i].data@,
                        old(self).table()[i].length as int,
                        within as int,
                        old(output)@.len() as int,
                    )
                }
            }),
    {
        let key_bytes = key.as_bytes();
        let total = output.len();
        if key_bytes.len() == 0 || key_bytes.len() > KEY_SIZE || N == 0 || offset > usize::MAX - total {
            return Err(Error::InvalidBuffer);
        }
        if total == 0 {
            return Ok(0);
        }
        let mut load = load;
        let first_page = offset / PAGE_SIZE;
        let first_within = offset % PAGE_SIZE;
        assert(first_page * PAGE_SIZE <= offset) by (nonlinear_arith)
            requires first_page == offset / 4096;
        let (count, short) = match self.serve_page(key_bytes, first_page, first_within, output, 0, total, &mut load) {
            Ok(step) => step,
            Err(error) => return Err(error),
        };
        let mut copied = count;
        if count == 0 || short {
            return Ok(copied);
        }
        proof {
            if first_within + total <= PAGE_SIZE {
                let i = choose|i: int|
                    0 <= i < N && #[trigger] slot_matches(self.table()[i], key_bytes@, first_page as int)
                        && output@.subrange(0, count as int) == served(
                        self.table()[i].data@,
                        self.table()[i].length as int,
                        first_within as int,
                        total as int,
                    ) && short == (self.table()[i].length < PAGE_SIZE);
                assert(output@.subrange(0, count as int).len() == count);
                assert(count == total);
            }
        }
        let ghost after_first = *self;
        let ghost output_after_first = output@;
        while copied < total
            invariant
                self.wf(),
                total == output@.len(),
                output@.len() == old(output)@.len(),
                0 < key_bytes@.len() <= KEY_SIZE,
                key_bytes@ == key.spec_bytes(),
                first_within == offset % PAGE_SIZE,
                !request_invalid(key.spec_bytes(), offset as int, total as int, N as int),
                N > 0,
                offset + total <= usize::MAX,
                copied <= total,
                forall|at: usize, p: &mut [u8]| call_requires(load, (at, p)),
                output@.subrange(copied as int, total as int) == old(output)@.subrange(copied as int, total as int),
                first_within + total <= PAGE_SIZE ==> copied == total && *self == after_first && output@ == output_after_first,
            decreases total - copied,
        {
            let position = offset + copied;
            let page = position / PAGE_SIZE;
            let within = position % PAGE_SIZE;
            assert(page * PAGE_SIZE <= position) by (nonlinear_arith)
                requires page == position / 4096;
            let ghost before = output@;
            let (count, short) = match self.serve_page(key_bytes, page, within, output, copied, total - copied, &mut load) {
                Ok(step) => step,
                Err(error) => return Err(error),
            };
            if count == 0 {
                break;
            }
            proof {
                assert(output@.subrange(copied + count, total as int) =~= old(output)@.subrange(copied + count, total as int)) by {
                    assert(before.subrange(copied as int, total as int) == old(output)@.subrange(copied as int, total as int));
                    assert forall|k: int| copied + count <= k < total implies output@[k] == old(output)@[k] by {
                        assert(output@.subrange(copied + count, total as int)[k - copied - count] == before.subrange(copied + count, total as int)[k - copied - count]);
                        assert(before.subrange(copied as int, total as int)[k - copied] == old(output)@.subrange(copied as int, total as int)[k - copied]);
                    }
                }
            }
            copied = copied + count;
            if short {
                break;
            }
        }
        Ok(copied)
    }
}

/// Fills the first `length` bytes of `page` with `value`.
fn fill_prefix(page: &mut [u8], length: usize, value: u8)
    requires
        length <= old(page)@.len(),
    ensures
        final(page)@.len() == old(page)@.len(),
        forall|k: int| 0 <= k < length ==> #[trigger] final(page)@[k] == value,
        forall|k: int| length <= k < old(page)@.len() ==> #[trigger] final(page)@[k] == old(page)@[k],
{
    let mut i: usize = 0;
    while i < length
        invariant
            i <= length,
            length <= page@.len(),
            page@.len() == old(page)@.len(),
            forall|k: int| 0 <= k < i ==> #[trigger] page@[k] == value,
            forall|k: int| i <= k < page@.len() ==> #[trigger] page@[k] == old(page)@[k],
        decreases length - i,
    {
        page[i] = value;
        i = i + 1;
    }
}

/// A file of one page of ones followed by eleven twos.
fn two_page_file(offset: usize, page: &mut [u8]) -> (result: Result<usize, Error>)
    ensures
        ({
            let remaining = if PAGE_SIZE + 11 > offset { PAGE_SIZE + 11 - offset } else { 0 };
            let length = if remaining < PAGE_SIZE { remaining } else { PAGE_SIZE as int };
            let value: u8 = if offset == 0 { 1 } else { 2 };
            &&& final(page)@.len() == old(page)@.len()
            &&& result is Ok <==> length <= old(page)@.len()
            &&& result is Err ==> result == Err::<usize, Error>(Error::InvalidBuffer) && final(page)@ == old(page)@
            &&& result is Ok ==> result->Ok_0 == length && (forall|k: int| 0 <= k < length ==> #[trigger] final(page)@[k] == value)
                && forall|k: int| length <= k < old(page)@.len() ==> #[trigger] final(page)@[k] == old(page)@[k]
        }),
{
    let end: usize = PAGE_SIZE + 11;
    let remaining = if end > offset { end - offset } else { 0 };
    let length = if remaining < PAGE_SIZE { remaining } else { PAGE_SIZE };
    if length > page.len() {
        return Err(Error::InvalidBuffer);
    }
    fill_prefix(page, length, if offset == 0 { 1 } else { 2 });
    Ok(length)
}

/// A file of whole pages of fours.
fn page_of_fours(_offset: usize, page: &mut [u8]) -> (result: Result<usize, Error>)
{
    let length = page.len();
    fill_prefix(page, length, 4);
    Ok(PAGE_SIZE)
}

/// A file of whole pages of sevens.
fn page_of_sevens(_offset: usize, page: &mut [u8]) -> (result: Result<usize, Error>)
{
    let length = page.len();
    fill_prefix(page, length, 7);
    Ok(PAGE_SIZE)
}

/// A device that always fails.
fn failing_load(_offset: usize, _page: &mut [u8]) -> (result: Result<usize, Error>)
{
    Err(Error::DeviceFault)
}

/// A device that scribbles on the page and then fails.
fn scribbling_failure(_offset: usize, page: &mut [u8]) -> (result: Result<usize, Error>)
{
    let length = page.len();
    fill_prefix(page, length, 99);
    Err(Error::DeviceFault)
}

/// Whether every byte of `bytes` in `from..to` is `value`.
fn all_equal(bytes: &[u8], from: usize, to: usize, value: u8) -> (equal: bool)
    requires
        from <= to <= bytes@.len(),
{
    let mut i = from;
    while i < to
        invariant
            from <= i <= to,
            to <= bytes@.len(),
        decreases to - i,
    {
        if bytes[i] != value {
            return false;
        }
        i = i + 1;
    }
    true
}

/// A read across a page boundary up to the end of the file, then hits on the cached
/// pages and an empty read at the end of the file.
pub fn boundary_test() -> (passed: bool)
{
    let mut cache = PageCache::<2>::new();
    let mut output = [0u8; 32];
    match cache.read("/file", PAGE_SIZE - 8, &mut output, two_page_file) {
        Ok(19) => {},
        _ => return false,
    }
    if !all_equal(&output, 0, 8, 1) || !all_equal(&output, 8, 19, 2) || !all_equal(&output, 19, 32, 0) {
        return false;
    }
    match cache.read("/file", PAGE_SIZE - 8, &mut output, two_page_file) {
        Ok(19) => {},
        _ => return false,
    }
    match cache.read("/file", PAGE_SIZE + 11, &mut output, two_page_file) {
        Ok(0) => {},
        _ => return false,
    }
    let stats = cache.stats();
    stats.misses == 2 && stats.resident == 2 && stats.hits == 3
}

/// Least-recently-used eviction, failed loads that never become hits, and
/// invalidation, then the refusals of bad requests.
pub fn eviction_and_failure_test() -> (passed: bool)
{
    let mut cache = PageCache::<2>::new();
    let mut output = [0u8; 1];
    if cache.read("a", 0, &mut output, page_of_fours).is_err() || cache.read(
        "b",
        0,
        &mut output,
        page_of_fours,
    ).is_err() || cache.read("a", 0, &mut output, page_of_fours).is_err() || cache.read(
        "c",
        0,
        &mut output,
        page_of_fours,
    ).is_err() || cache.stats().evictions != 1 {
        return false;
    }
    if cache.read("a", 0, &mut output, failing_load).is_err() {
        return false;
    }
    match cache.read("b", 0, &mut output, scribbling_failure) {
        Err(Error::DeviceFault) => {},
        _ => return false,
    }
    if cache.read("b", 0, &mut output, page_of_fours).is_err() || output[0] != 4 {
        return false;
    }
    cache.invalidate();
    if cache.stats().resident != 0 || cache.read("a", 0, &mut output, page_of_sevens).is_err()
        || output[0] != 7 {
        return false;
    }
    let empty_key = match cache.read("", 0, &mut output, page_of_sevens) {
        Err(Error::InvalidBuffer) => true,
        _ => false,
    };
    let overflow = match cache.read("a", usize::MAX, &mut output, page_of_sevens) {
        Err(Error::InvalidBuffer) => true,
        _ => false,
    };
    let mut empty = PageCache::<0>::new();
    let no_capacity = match empty.read("a", 0, &mut output, page_of_sevens) {
        Err(Error::InvalidBuffer) => true,
        _ => false,
    };
    empty_key && overflow && no_capacity
}

/// Both page cache checks.
pub fn self_test() -> (passed: bool)
{
    boundary_test() && eviction_and_failure_test()
}

/// A cache whose pages were all dropped holds none: a read of any page after
/// `invalidate` goes to the loader and counts a miss.
pub proof fn law_invalidated_cache_holds_nothing<const N: usize>(cache: PageCache<N>, key: Seq<u8>, page: int)
    requires
        forall|i: int| 0 <= i < N ==> !(#[trigger] cache.table()[i]).valid,
    ensures
        !cache.resident(key, page),
{
}

/// Reading the same range of one page twice gives the same bytes: the first read leaves
/// the page cached with what it returned, and the second is served from that copy.
pub proof fn law_reread_same_bytes<const N: usize>(cache: PageCache<N>, key: Seq<u8>, page: int, within: int, wanted: int, first: Seq<u8>, second: Seq<u8>)
    requires
        cache.wf(),
        exists|i: int|
            0 <= i < N && #[trigger] slot_matches(cache.table()[i], key, page) && first == served(
                cache.table()[i].data@,
                cache.table()[i].length as int,
                within,
                wanted,
            ),
        forall|i: int| 0 <= i < N ==> #[trigger] slot_matches(cache.table()[i], key, page) ==> second == served(
            cache.table()[i].data@,
            cache.table()[i].length as int,
            within,
            wanted,
        ),
    ensures
        cache.resident(key, page),
        first == second,
{
}

} // verus!
