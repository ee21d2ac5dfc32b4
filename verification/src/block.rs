use vstd::prelude::*;

verus! {

/// Size in bytes of one addressable sector.
pub const SECTOR_SIZE: usize = 512;

/// Failure reported by a block device.
#[derive(Clone, Copy, PartialEq, Eq, Structural, Debug)]
pub enum Error {
    OutOfBounds,
    InvalidBuffer,
    ReadOnly,
    DeviceFault,
}

/// A device addressed in fixed-size sectors.
///
/// Its contents are modelled by `sectors()`: one byte sequence per logical block
/// address. A successful read hands back exactly the addressed sector; a read never
/// changes the contents; a successful write replaces exactly the addressed sector,
/// and a failed write leaves the contents as they were.
///
/// Every device of this crate gives its model and is proved against these
/// contracts. A device implemented outside verified code (a hardware disk) cannot
/// give a model: it keeps the default one, an empty sequence of sectors, which its
/// real sector count and successful reads do not match. For such a device the
/// contracts proved over `sectors()` (what a read returns, what a mount finds) do
/// not describe the disk; what does carry over is that the verified code never
/// panics and calls the device only with the arguments it states.
pub trait BlockDevice {
    /// The device contents, indexed by logical block address.
    open spec fn sectors(&self) -> Seq<Seq<u8>> {
        Seq::empty()
    }

    /// Whether the device refuses writes.
    open spec fn read_only(&self) -> bool {
        false
    }

    /// The device's own consistency condition, kept by every operation.
    open spec fn valid(&self) -> bool {
        true
    }

    /// Whether every read of a whole sector that the model holds succeeds. A device
    /// that makes no such promise keeps the default, `false`.
    open spec fn reliable(&self) -> bool {
        false
    }

    fn sector_count(&self) -> (count: u64)
        requires
            self.valid(),
        ensures
            count == self.sectors().len(),
    ;

    fn is_read_only(&self) -> (read_only: bool)
        requires
            self.valid(),
        ensures
            read_only == self.read_only(),
    ;

    fn flush(&mut self) -> (result: Result<(), Error>)
        requires
            old(self).valid(),
        ensures
            final(self).valid(),
            final(self).sectors() == old(self).sectors(),
            final(self).read_only() == old(self).read_only(),
    ;

    fn read_sector(&mut self, lba: u64, sector: &mut [u8]) -> (result: Result<(), Error>)
        requires
            old(self).valid(),
        ensures
            final(self).valid(),
            final(self).sectors() == old(self).sectors(),
            final(self).read_only() == old(self).read_only(),
            final(self).reliable() == old(self).reliable(),
            final(sector)@.len() == old(sector)@.len(),
            result is Ok ==> {
                &&& lba < old(self).sectors().len()
                &&& old(sector)@.len() == SECTOR_SIZE
                &&& final(sector)@ == old(self).sectors()[lba as int]
            },
            old(self).reliable() && lba < old(self).sectors().len() && old(sector)@.len() == SECTOR_SIZE
                && old(self).sectors()[lba as int].len() == SECTOR_SIZE ==> result is Ok,
    ;

    fn write_sector(&mut self, lba: u64, sector: &[u8]) -> (result: Result<(), Error>)
        requires
            old(self).valid(),
        ensures
            final(self).valid(),
            final(self).read_only() == old(self).read_only(),
            result is Ok ==> {
                &&& lba < old(self).sectors().len()
                &&& sector@.len() == SECTOR_SIZE
                &&& final(self).sectors() == old(self).sectors().update(lba as int, sector@)
            },
            result is Err ==> final(self).sectors() == old(self).sectors(),
    ;
}

/// Copies `count` bytes of `source`, starting at `from`, into `target` at `at`.
pub fn copy_bytes(target: &mut [u8], at: usize, source: &[u8], from: usize, count: usize)
    requires
        at + count <= old(target)@.len(),
        from + count <= source@.len(),
    ensures
        final(target)@.len() == old(target)@.len(),
        final(target)@ == old(target)@.subrange(0, at as int) + source@.subrange(
            from as int,
            from + count,
        ) + old(target)@.subrange(at + count, old(target)@.len() as int),
{
    let ghost original = target@;
    let target_len = target.len();
    let source_len = source.len();
    let mut i: usize = 0;
    while i < count
        invariant
            i <= count,
            target_len == original.len(),
            source_len == source@.len(),
            at + count <= original.len(),
            from + count <= source@.len(),
            target@.len() == original.len(),
            forall|j: int| 0 <= j < at ==> target@[j] == original[j],
            forall|j: int| at + count <= j < original.len() ==> target@[j] == original[j],
            forall|j: int| at <= j < at + i ==> target@[j] == source@[from + (j - at)],
            forall|j: int| at + i <= j < at + count ==> target@[j] == original[j],
        decreases count - i,
    {
        target[at + i] = source[from + i];
        i = i + 1;
    }
    assert(target@ =~= original.subrange(0, at as int) + source@.subrange(from as int, from + count)
        + original.subrange(at + count, original.len() as int));
}

/// Sets every byte of `target` to `value`.
pub fn fill_bytes(target: &mut [u8], value: u8)
    ensures
        final(target)@.len() == old(target)@.len(),
        forall|i: int| 0 <= i < old(target)@.len() ==> final(target)@[i] == value,
{
    let n = target.len();
    let mut i: usize = 0;
    while i < n
        invariant
            n == target@.len(),
            i <= n,
            forall|j: int| 0 <= j < i ==> target@[j] == value,
        decreases n - i,
    {
        target[i] = value;
        i = i + 1;
    }
}

/// A sector-array copy of a slice that is exactly one sector long.
pub fn sector_from_slice(source: &[u8]) -> (sector: [u8; 512])
    requires
        source@.len() == SECTOR_SIZE,
    ensures
        sector@ == source@,
{
    let mut sector = [0u8; 512];
    copy_bytes(&mut sector, 0, source, 0, SECTOR_SIZE);
    assert(sector@ =~= source@);
    sector
}

/// An in-memory disk of `SECTORS` zero-initialised sectors.
pub struct RamDisk<const SECTORS: usize> {
    sectors: Vec<[u8; 512]>,
    read_only: bool,
}

impl<const SECTORS: usize> RamDisk<SECTORS> {
    /// The sector contents as byte sequences.
    pub closed spec fn contents(&self) -> Seq<Seq<u8>> {
        self.sectors@.map_values(|sector: [u8; 512]| sector@)
    }

    pub closed spec fn spec_read_only(&self) -> bool {
        self.read_only
    }

    /// The number of sectors the disk holds.
    pub closed spec fn count(&self) -> nat {
        self.sectors@.len()
    }

    pub fn new() -> (disk: Self)
        ensures
            disk.count() == SECTORS,
            disk.contents() == Seq::new(SECTORS as nat, |i: int| Seq::new(512, |j: int| 0u8)),
            !disk.spec_read_only(),
    {
        let mut sectors: Vec<[u8; 512]> = Vec::new();
        let mut i: usize = 0;
        while i < SECTORS
            invariant
                i <= SECTORS,
                sectors@.len() == i,
                forall|k: int| 0 <= k < i ==> sectors@[k]@ == Seq::new(512, |j: int| 0u8),
            decreases SECTORS - i,
        {
            let zero = [0u8; 512];
            assert(zero@ =~= Seq::new(512, |j: int| 0u8));
            sectors.push(zero);
            i = i + 1;
        }
        let disk = RamDisk { sectors, read_only: false };
        assert(disk.contents() =~= Seq::new(SECTORS as nat, |i: int| Seq::new(512, |j: int| 0u8)));
        disk
    }

    pub fn set_read_only(&mut self, read_only: bool)
        ensures
            final(self).contents() == old(self).contents(),
            final(self).count() == old(self).count(),
            final(self).spec_read_only() == read_only,
    {
        self.read_only = read_only;
    }
}

impl<const SECTORS: usize> BlockDevice for RamDisk<SECTORS> {
    open spec fn sectors(&self) -> Seq<Seq<u8>> {
        self.contents()
    }

    open spec fn read_only(&self) -> bool {
        self.spec_read_only()
    }

    open spec fn valid(&self) -> bool {
        true
    }

    open spec fn reliable(&self) -> bool {
        true
    }

    fn sector_count(&self) -> (count: u64) {
        self.sectors.len() as u64
    }

    fn is_read_only(&self) -> (read_only: bool) {
        self.read_only
    }

    fn flush(&mut self) -> (result: Result<(), Error>) {
        Ok(())
    }

    fn read_sector(&mut self, lba: u64, sector: &mut [u8]) -> (result: Result<(), Error>)
        ensures
            result == (if old(sector)@.len() != SECTOR_SIZE {
                Err(Error::InvalidBuffer)
            } else if lba >= old(self).count() {
                Err(Error::OutOfBounds)
            } else {
                Ok::<(), Error>(())
            }),
            result is Err ==> final(sector)@ == old(sector)@,
    {
        if sector.len() != SECTOR_SIZE {
            return Err(Error::InvalidBuffer);
        }
        if lba >= self.sectors.len() as u64 {
            return Err(Error::OutOfBounds);
        }
        let index = lba as usize;
        let source: &[u8; 512] = &self.sectors[index];
        copy_bytes(sector, 0, source, 0, SECTOR_SIZE);
        assert(sector@ =~= self.contents()[lba as int]);
        Ok(())
    }

    fn write_sector(&mut self, lba: u64, sector: &[u8]) -> (result: Result<(), Error>)
        ensures
            result == (if sector@.len() != SECTOR_SIZE {
                Err(Error::InvalidBuffer)
            } else if old(self).spec_read_only() {
                Err(Error::ReadOnly)
            } else if lba >= old(self).count() {
                Err(Error::OutOfBounds)
            } else {
                Ok::<(), Error>(())
            }),
    {
        if sector.len() != SECTOR_SIZE {
            return Err(Error::InvalidBuffer);
        }
        if self.read_only {
            return Err(Error::ReadOnly);
        }
        if lba >= self.sectors.len() as u64 {
            return Err(Error::OutOfBounds);
        }
        let index = lba as usize;
        let copy = sector_from_slice(sector);
        self.sectors.set(index, copy);
        assert(self.contents() =~= old(self).contents().update(lba as int, sector@));
        Ok(())
    }
}


/// The contents of a sparse disk at `lba`: the stored sector for that address, or
/// zeros where none is stored.
pub open spec fn sparse_sector(lbas: Seq<u64>, data: Seq<[u8; 512]>, lba: int) -> Seq<u8> {
    if exists|i: int| 0 <= i < lbas.len() && lbas[i] == lba {
        data[choose|i: int| 0 <= i < lbas.len() && lbas[i] == lba]@
    } else {
        Seq::new(512, |j: int| 0u8)
    }
}

/// A disk of `total` sectors that stores only the sectors it was given; every
/// other sector reads as zeros, or, when the disk is strict, cannot be read at all.
/// Only stored sectors can be written, and only when the disk is writable.
pub struct SparseDisk {
    total: u64,
    lbas: Vec<u64>,
    data: Vec<[u8; 512]>,
    writable: bool,
    strict: bool,
}

impl SparseDisk {
    pub closed spec fn stored(&self) -> Seq<u64> {
        self.lbas@
    }

    pub closed spec fn total(&self) -> u64 {
        self.total
    }

    pub closed spec fn well_formed(&self) -> bool {
        &&& self.lbas@.len() == self.data@.len()
        &&& forall|i: int, j: int|
            0 <= i < j < self.lbas@.len() ==> #[trigger] self.lbas@[i] != #[trigger] self.lbas@[j]
    }

    pub closed spec fn contents(&self) -> Seq<Seq<u8>> {
        Seq::new(self.total as nat, |lba: int| sparse_sector(self.lbas@, self.data@, lba))
    }

    pub closed spec fn writable(&self) -> bool {
        self.writable
    }

    /// Whether reading a sector that was never stored fails rather than gives zeros.
    pub closed spec fn strict(&self) -> bool {
        self.strict
    }

    pub fn new(total: u64, writable: bool, strict: bool) -> (disk: Self)
        ensures
            disk.well_formed(),
            disk.total() == total,
            disk.stored() == Seq::<u64>::empty(),
            disk.writable() == writable,
            disk.strict() == strict,
    {
        SparseDisk { total, lbas: Vec::new(), data: Vec::new(), writable, strict }
    }

    fn position(&self, lba: u64) -> (index: Option<usize>)
        requires
            self.well_formed(),
        ensures
            match index {
                Some(i) => i < self.lbas@.len() && self.lbas@[i as int] == lba,
                None => forall|k: int| 0 <= k < self.lbas@.len() ==> self.lbas@[k] != lba,
            },
    {
        let n = self.lbas.len();
        let mut i: usize = 0;
        while i < n
            invariant
                n == self.lbas@.len(),
                i <= n,
                forall|k: int| 0 <= k < i ==> self.lbas@[k] != lba,
            decreases n - i,
        {
            if self.lbas[i] == lba {
                return Some(i);
            }
            i = i + 1;
        }
        None
    }

    /// Stores `bytes` as the sector at `lba`, replacing what was stored there.
    pub fn store(&mut self, lba: u64, bytes: [u8; 512])
        requires
            old(self).well_formed(),
        ensures
            final(self).well_formed(),
            final(self).total() == old(self).total(),
            final(self).writable() == old(self).writable(),
            final(self).strict() == old(self).strict(),
            final(self).stored().contains(lba),
            lba < old(self).total() ==> final(self).contents() == old(self).contents().update(
                lba as int,
                bytes@,
            ),
    {
        let ghost before = *self;
        match self.position(lba) {
            Some(i) => {
                self.data.set(i, bytes);
                proof {
                    assert(self.lbas@[i as int] == lba);
                    lemma_sparse_update(before.lbas@, before.data@, self.data@, i as int);
                }
            },
            None => {
                self.lbas.push(lba);
                self.data.push(bytes);
                proof {
                    assert(self.lbas@[self.lbas@.len() - 1] == lba);
                    lemma_sparse_push(before.lbas@, before.data@, lba, bytes);
                }
            },
        }
        proof {
            if lba < before.total {
                assert(self.contents() =~= before.contents().update(lba as int, bytes@)) by {
                    assert forall|k: int| 0 <= k < before.total implies #[trigger] self.contents()[k]
                        == before.contents().update(lba as int, bytes@)[k] by {
                        if k != lba {
                            assert(sparse_sector(self.lbas@, self.data@, k) == sparse_sector(
                                before.lbas@,
                                before.data@,
                                k,
                            ));
                        }
                    }
                }
            }
        }
    }
}

proof fn lemma_sparse_found(lbas: Seq<u64>, data: Seq<[u8; 512]>, i: int)
    requires
        lbas.len() == data.len(),
        0 <= i < lbas.len(),
        forall|a: int, b: int| 0 <= a < b < lbas.len() ==> #[trigger] lbas[a] != #[trigger] lbas[b],
    ensures
        sparse_sector(lbas, data, lbas[i] as int) == data[i]@,
{
    let lba = lbas[i] as int;
    assert(0 <= i < lbas.len() && lbas[i] == lba);
    let j = choose|j: int| 0 <= j < lbas.len() && lbas[j] == lba;
    if j < i {
        assert(lbas[j] != lbas[i]);
    } else if i < j {
        assert(lbas[i] != lbas[j]);
    }
}

proof fn lemma_sparse_update(lbas: Seq<u64>, data: Seq<[u8; 512]>, data2: Seq<[u8; 512]>, i: int)
    requires
        lbas.len() == data.len(),
        data2.len() == data.len(),
        0 <= i < lbas.len(),
        forall|k: int| 0 <= k < data.len() && k != i ==> data2[k] == data[k],
        forall|a: int, b: int| 0 <= a < b < lbas.len() ==> #[trigger] lbas[a] != #[trigger] lbas[b],
    ensures
        sparse_sector(lbas, data2, lbas[i] as int) == data2[i]@,
        forall|lba: int| lba != lbas[i] ==> #[trigger] sparse_sector(lbas, data2, lba) == sparse_sector(lbas, data, lba),
{
    lemma_sparse_found(lbas, data2, i);
    assert forall|lba: int| lba != lbas[i] implies #[trigger] sparse_sector(lbas, data2, lba)
        == sparse_sector(lbas, data, lba) by {
        if exists|k: int| 0 <= k < lbas.len() && lbas[k] == lba {
            let j = choose|k: int| 0 <= k < lbas.len() && lbas[k] == lba;
            assert(j != i);
        }
    }
}

proof fn lemma_sparse_push(lbas: Seq<u64>, data: Seq<[u8; 512]>, lba: u64, bytes: [u8; 512])
    requires
        lbas.len() == data.len(),
        forall|k: int| 0 <= k < lbas.len() ==> lbas[k] != lba,
        forall|a: int, b: int| 0 <= a < b < lbas.len() ==> #[trigger] lbas[a] != #[trigger] lbas[b],
    ensures
        forall|a: int, b: int|
            0 <= a < b < lbas.push(lba).len() ==> #[trigger] lbas.push(lba)[a] != #[trigger] lbas.push(lba)[b],
        sparse_sector(lbas.push(lba), data.push(bytes), lba as int) == bytes@,
        forall|other: int| other != lba ==> #[trigger] sparse_sector(lbas.push(lba), data.push(bytes), other) == sparse_sector(lbas, data, other),
{
    let l2 = lbas.push(lba);
    let d2 = data.push(bytes);
    assert forall|a: int, b: int| 0 <= a < b < l2.len() implies #[trigger] l2[a] != #[trigger] l2[b] by {
        if b < lbas.len() {
            assert(lbas[a] != lbas[b]);
        } else {
            assert(l2[a] == lbas[a]);
        }
    }
    lemma_sparse_found(l2, d2, lbas.len() as int);
    assert forall|other: int| other != lba implies #[trigger] sparse_sector(l2, d2, other)
        == sparse_sector(lbas, data, other) by {
        if exists|k: int| 0 <= k < lbas.len() && lbas[k] == other {
            let j = choose|k: int| 0 <= k < lbas.len() && lbas[k] == other;
            assert(l2[j] == other);
            lemma_sparse_found(l2, d2, j);
            lemma_sparse_found(lbas, data, j);
        } else {
            assert forall|k: int| 0 <= k < l2.len() implies l2[k] != other by {
                if k < lbas.len() {
                    assert(l2[k] == lbas[k]);
                }
            }
        }
    }
}

impl BlockDevice for SparseDisk {
    open spec fn sectors(&self) -> Seq<Seq<u8>> {
        self.contents()
    }

    open spec fn read_only(&self) -> bool {
        !self.writable()
    }

    open spec fn valid(&self) -> bool {
        self.well_formed()
    }

    open spec fn reliable(&self) -> bool {
        !self.strict()
    }

    fn sector_count(&self) -> (count: u64) {
        self.total
    }

    fn is_read_only(&self) -> (read_only: bool) {
        !self.writable
    }

    fn flush(&mut self) -> (result: Result<(), Error>) {
        Ok(())
    }

    fn read_sector(&mut self, lba: u64, sector: &mut [u8]) -> (result: Result<(), Error>)
        ensures
            *final(self) == *old(self),
            result is Ok <==> old(sector)@.len() == SECTOR_SIZE && lba < old(self).total() && (!old(self).strict()
                || old(self).stored().contains(lba)),
            result is Err ==> result == Err::<(), Error>(Error::OutOfBounds),
            result is Err ==> final(sector)@ == old(sector)@,
    {
        if sector.len() != SECTOR_SIZE || lba >= self.total {
            return Err(Error::OutOfBounds);
        }
        match self.position(lba) {
            Some(i) => {
                let source: &[u8; 512] = &self.data[i];
                copy_bytes(sector, 0, source, 0, SECTOR_SIZE);
                proof {
                    lemma_sparse_found(self.lbas@, self.data@, i as int);
                }
                assert(sector@ =~= self.contents()[lba as int]);
                Ok(())
            },
            None => {
                if self.strict {
                    return Err(Error::OutOfBounds);
                }
                fill_bytes(sector, 0);
                assert(sector@ =~= self.contents()[lba as int]);
                Ok(())
            },
        }
    }

    fn write_sector(&mut self, lba: u64, sector: &[u8]) -> (result: Result<(), Error>)
        ensures
            final(self).stored() == old(self).stored(),
            final(self).total() == old(self).total(),
            final(self).writable() == old(self).writable(),
            final(self).strict() == old(self).strict(),
            result is Ok <==> old(self).writable() && sector@.len() == SECTOR_SIZE && lba < old(self).total()
                && old(self).stored().contains(lba),
            !old(self).writable() ==> result == Err::<(), Error>(Error::ReadOnly),
            old(self).writable() && result is Err ==> result == Err::<(), Error>(Error::OutOfBounds),
    {
        if !self.writable {
            return Err(Error::ReadOnly);
        }
        if sector.len() != SECTOR_SIZE || lba >= self.total {
            return Err(Error::OutOfBounds);
        }
        match self.position(lba) {
            Some(i) => {
                let ghost before = *self;
                let copy = sector_from_slice(sector);
                self.data.set(i, copy);
                proof {
                    lemma_sparse_update(before.lbas@, before.data@, self.data@, i as int);
                    assert(self.contents() =~= before.contents().update(lba as int, sector@));
                }
                Ok(())
            },
            None => Err(Error::OutOfBounds),
        }
    }
}

/// A device that fails the first write to `fail_lba` and passes every other
/// request to `inner`.
pub struct FailingWriteDisk<D: BlockDevice> {
    pub inner: D,
    pub fail_lba: u64,
    pub failed: bool,
}

impl<D: BlockDevice> BlockDevice for FailingWriteDisk<D> {
    open spec fn sectors(&self) -> Seq<Seq<u8>> {
        self.inner.sectors()
    }

    open spec fn read_only(&self) -> bool {
        self.inner.read_only()
    }

    open spec fn valid(&self) -> bool {
        self.inner.valid()
    }

    fn sector_count(&self) -> (count: u64) {
        self.inner.sector_count()
    }

    fn is_read_only(&self) -> (read_only: bool) {
        self.inner.is_read_only()
    }

    fn flush(&mut self) -> (result: Result<(), Error>) {
        self.inner.flush()
    }

    fn read_sector(&mut self, lba: u64, sector: &mut [u8]) -> (result: Result<(), Error>) {
        self.inner.read_sector(lba, sector)
    }

    fn write_sector(&mut self, lba: u64, sector: &[u8]) -> (result: Result<(), Error>) {
        if lba == self.fail_lba && !self.failed {
            self.failed = true;
            return Err(Error::DeviceFault);
        }
        self.inner.write_sector(lba, sector)
    }
}

} // verus!
