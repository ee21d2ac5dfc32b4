//! Anonymous pipes: a table of bounded byte rings with reader and writer counts.
//!
//! The operations here never block. An attempt that cannot proceed reports so and
//! registers the caller as a waiter; the caller parks itself and tries again when
//! the opposite end wakes it.
use vstd::prelude::*;

use crate::task::TaskId;

verus! {

/// Bytes one pipe can buffer.
pub const PIPE_BUFFER: usize = 2048;

/// Pipes the table can hold.
pub const MAX_PIPES: usize = 32;

/// Tasks that can wait on one end of a pipe.
pub const MAX_WAITERS: usize = 8;

/// Why a pipe operation failed.
#[derive(Clone, Copy, PartialEq, Eq, Structural, Debug)]
pub enum Error {
    Full,
    Invalid,
    Closed,
}

/// Position `offset` places after `start` in a ring of `PIPE_BUFFER` bytes.
pub open spec fn ring_index(start: int, offset: int) -> int {
    if start + offset < PIPE_BUFFER {
        start + offset
    } else {
        start + offset - PIPE_BUFFER
    }
}

/// Whether `id` waits in `slots`.
pub open spec fn waits(slots: Seq<Option<TaskId>>, id: TaskId) -> bool {
    exists|i: int| 0 <= i < slots.len() && slots[i] == Some(id)
}

/// Waiter slots are filled from the front and hold each task at most once.
pub open spec fn waiters_wf(slots: Seq<Option<TaskId>>) -> bool {
    &&& slots.len() == MAX_WAITERS
    &&& forall|i: int, j: int| 0 <= i < j < slots.len() && slots[j] is Some ==> slots[i] is Some
    &&& forall|i: int, j: int|
        0 <= i < j < slots.len() && slots[i] is Some ==> slots[i] != slots[j]
}

/// One pipe.
pub struct Pipe {
    data: Vec<u8>,
    head: usize,
    tail: usize,
    len: usize,
    readers: u32,
    writers: u32,
    occupied: bool,
    read_waiters: Vec<Option<TaskId>>,
    write_waiters: Vec<Option<TaskId>>,
}

impl Pipe {
    pub closed spec fn wf(&self) -> bool {
        &&& self.data@.len() == PIPE_BUFFER
        &&& self.head < PIPE_BUFFER
        &&& self.len <= PIPE_BUFFER
        &&& self.tail == ring_index(self.head as int, self.len as int) % PIPE_BUFFER as int
        &&& waiters_wf(self.read_waiters@)
        &&& waiters_wf(self.write_waiters@)
    }

    /// The buffered bytes, oldest first.
    pub closed spec fn contents(&self) -> Seq<u8> {
        Seq::new(self.len as nat, |k: int| self.data@[ring_index(self.head as int, k)])
    }

    pub closed spec fn reader_count(&self) -> u32 {
        self.readers
    }

    pub closed spec fn writer_count(&self) -> u32 {
        self.writers
    }

    pub closed spec fn in_use(&self) -> bool {
        self.occupied
    }

    /// Tasks waiting for data.
    pub closed spec fn reading_waiters(&self) -> Seq<Option<TaskId>> {
        self.read_waiters@
    }

    /// Tasks waiting for room.
    pub closed spec fn writing_waiters(&self) -> Seq<Option<TaskId>> {
        self.write_waiters@
    }

    fn empty_waiters() -> (slots: Vec<Option<TaskId>>)
        ensures
            waiters_wf(slots@),
            forall|i: int| 0 <= i < slots@.len() ==> slots@[i] is None,
    {
        let mut slots: Vec<Option<TaskId>> = Vec::new();
        let mut i: usize = 0;
        while i < MAX_WAITERS
            invariant
                i <= MAX_WAITERS,
                slots@.len() == i,
                forall|k: int| 0 <= k < i ==> slots@[k] is None,
            decreases MAX_WAITERS - i,
        {
            slots.push(None);
            i = i + 1;
        }
        slots
    }

    /// An unused pipe, or a fresh one with one reader and one writer.
    fn fresh(open: bool) -> (pipe: Self)
        ensures
            pipe.wf(),
            pipe.contents() == Seq::<u8>::empty(),
            pipe.in_use() == open,
            pipe.reader_count() == (if open { 1u32 } else { 0u32 }),
            pipe.writer_count() == (if open { 1u32 } else { 0u32 }),
            forall|i: int| 0 <= i < MAX_WAITERS ==> pipe.reading_waiters()[i] is None,
            forall|i: int| 0 <= i < MAX_WAITERS ==> pipe.writing_waiters()[i] is None,
    {
        let mut data: Vec<u8> = Vec::new();
        let mut i: usize = 0;
        while i < PIPE_BUFFER
            invariant
                i <= PIPE_BUFFER,
                data@.len() == i,
            decreases PIPE_BUFFER - i,
        {
            data.push(0);
            i = i + 1;
        }
        let count: u32 = if open { 1 } else { 0 };
        let pipe = Pipe {
            data,
            head: 0,
            tail: 0,
            len: 0,
            readers: count,
            writers: count,
            occupied: open,
            read_waiters: Pipe::empty_waiters(),
            write_waiters: Pipe::empty_waiters(),
        };
        assert(pipe.contents() =~= Seq::<u8>::empty());
        pipe
    }

    /// Moves as much of `buf` as fits into the ring.
    fn fill(&mut self, buf: &[u8]) -> (written: usize)
        requires
            old(self).wf(),
        ensures
            final(self).wf(),
            written == if buf@.len() <= PIPE_BUFFER - old(self).contents().len() {
                buf@.len() as int
            } else {
                PIPE_BUFFER - old(self).contents().len()
            },
            final(self).contents() == old(self).contents() + buf@.subrange(0, written as int),
            final(self).reader_count() == old(self).reader_count(),
            final(self).writer_count() == old(self).writer_count(),
            final(self).in_use() == old(self).in_use(),
            final(self).reading_waiters() == old(self).reading_waiters(),
            final(self).writing_waiters() == old(self).writing_waiters(),
    {
        let mut written: usize = 0;
        while written < buf.len() && self.len < PIPE_BUFFER
            invariant
                self.wf(),
                written <= buf@.len(),
                self.len == old(self).len + written,
                self.head == old(self).head,
                self.contents() == old(self).contents() + buf@.subrange(0, written as int),
                self.readers == old(self).readers,
                self.writers == old(self).writers,
                self.occupied == old(self).occupied,
                self.read_waiters == old(self).read_waiters,
                self.write_waiters == old(self).write_waiters,
            decreases buf@.len() - written,
        {
            let ghost before = self.contents();
            self.data.set(self.tail, buf[written]);
            self.tail = if self.tail + 1 == PIPE_BUFFER {
                0
            } else {
                self.tail + 1
            };
            self.len = self.len + 1;
            written = written + 1;
            assert(self.contents() =~= before.push(buf@[written - 1]));
            assert(buf@.subrange(0, written as int) =~= buf@.subrange(0, written - 1).push(
                buf@[written - 1],
            ));
        }
        written
    }

    /// Moves the oldest buffered bytes into `buf`, as many as fit.
    fn drain(&mut self, buf: &mut [u8]) -> (read: usize)
        requires
            old(self).wf(),
        ensures
            final(self).wf(),
            read == if old(buf)@.len() <= old(self).contents().len() {
                old(buf)@.len() as int
            } else {
                old(self).contents().len() as int
            },
            final(buf)@.len() == old(buf)@.len(),
            final(buf)@.subrange(0, read as int) == old(self).contents().subrange(0, read as int),
            final(buf)@.subrange(read as int, final(buf)@.len() as int) == old(buf)@.subrange(
                read as int,
                old(buf)@.len() as int,
            ),
            final(self).contents() == old(self).contents().subrange(
                read as int,
                old(self).contents().len() as int,
            ),
            final(self).reader_count() == old(self).reader_count(),
            final(self).writer_count() == old(self).writer_count(),
            final(self).in_use() == old(self).in_use(),
            final(self).reading_waiters() == old(self).reading_waiters(),
            final(self).writing_waiters() == old(self).writing_waiters(),
    {
        let mut read: usize = 0;
        while read < buf.len() && self.len > 0
            invariant
                self.wf(),
                read <= buf@.len(),
                buf@.len() == old(buf)@.len(),
                read + self.len == old(self).len,
                self.contents() == old(self).contents().subrange(
                    read as int,
                    old(self).contents().len() as int,
                ),
                buf@.subrange(0, read as int) == old(self).contents().subrange(0, read as int),
                buf@.subrange(read as int, buf@.len() as int) == old(buf)@.subrange(
                    read as int,
                    old(buf)@.len() as int,
                ),
                self.readers == old(self).readers,
                self.writers == old(self).writers,
                self.occupied == old(self).occupied,
                self.read_waiters == old(self).read_waiters,
                self.write_waiters == old(self).write_waiters,
            decreases buf@.len() - read,
        {
            let ghost before = self.contents();
            let ghost before_buf = buf@;
            buf[read] = self.data[self.head];
            self.head = if self.head + 1 == PIPE_BUFFER {
                0
            } else {
                self.head + 1
            };
            self.len = self.len - 1;
            read = read + 1;
            assert(self.contents() =~= before.drop_first());
            assert(buf@.subrange(0, read as int) =~= before_buf.subrange(0, read - 1).push(
                before[0],
            ));
            assert forall|k: int| read <= k < buf@.len() implies before_buf[k] == old(buf)@[k] by {
                assert(before_buf.subrange(read - 1, buf@.len() as int)[k - (read - 1)] == old(
                    buf,
                )@.subrange(read - 1, buf@.len() as int)[k - (read - 1)]);
            }
            assert(buf@.subrange(read as int, buf@.len() as int) =~= old(buf)@.subrange(
                read as int,
                buf@.len() as int,
            ));
        }
        read
    }
}

/// Registers `id` as a waiter in `slots`, unless it already waits there or every slot
/// is taken.
fn push_waiter(slots: &mut Vec<Option<TaskId>>, id: TaskId)
    requires
        waiters_wf(old(slots)@),
    ensures
        waiters_wf(final(slots)@),
        waits(final(slots)@, id) == (waits(old(slots)@, id) || old(slots)@[MAX_WAITERS - 1] is None),
        forall|other: TaskId| other != id ==> waits(final(slots)@, other) == waits(old(slots)@, other),
{
    let mut i: usize = 0;
    while i < slots.len()
        invariant
            slots@ == old(slots)@,
            waiters_wf(slots@),
            i <= slots@.len(),
            forall|k: int| 0 <= k < i ==> slots@[k] is Some && slots@[k] != Some(id),
        decreases slots@.len() - i,
    {
        match slots[i] {
            None => {
                slots.set(i, Some(id));
                proof {
                    assert(slots@[i as int] == Some(id));
                    assert(waits(slots@, id));
                    assert forall|other: TaskId| other != id implies waits(slots@, other) == waits(
                        old(slots)@,
                        other,
                    ) by {
                        if waits(slots@, other) {
                            let k = choose|k: int| 0 <= k < slots@.len() && slots@[k] == Some(other);
                            assert(old(slots)@[k] == Some(other));
                        }
                        if waits(old(slots)@, other) {
                            let k = choose|k: int| 0 <= k < old(slots)@.len() && old(slots)@[k] == Some(other);
                            assert(k != i);
                            assert(slots@[k] == Some(other));
                        }
                    }
                    if old(slots)@[MAX_WAITERS - 1] is Some {
                        assert(old(slots)@[i as int] is Some);
                    }
                }
                return;
            },
            Some(waiting) => {
                if waiting == id {
                    return;
                }
            },
        }
        i = i + 1;
    }
}

/// Hands back the waiters of `slots` and clears them.
fn take_waiters(slots: &mut Vec<Option<TaskId>>) -> (taken: Vec<Option<TaskId>>)
    requires
        waiters_wf(old(slots)@),
    ensures
        taken@ == old(slots)@,
        waiters_wf(final(slots)@),
        forall|i: int| 0 <= i < MAX_WAITERS ==> final(slots)@[i] is None,
{
    let mut taken = Pipe::empty_waiters();
    std::mem::swap(slots, &mut taken);
    taken
}

/// The outcome of one non-blocking attempt on a pipe.
pub struct Transfer {
    /// Bytes moved.
    pub count: usize,
    /// Nothing moved and the caller should park until woken.
    pub block: bool,
    /// Every writer is gone and nothing is left to read.
    pub eof: bool,
    /// Tasks on the opposite end to wake.
    pub woken: Vec<Option<TaskId>>,
}

/// The pipe table.
pub struct Table {
    pipes: Vec<Pipe>,
}

impl Table {
    pub closed spec fn wf(&self) -> bool {
        &&& self.pipes@.len() == MAX_PIPES
        &&& forall|i: int| 0 <= i < MAX_PIPES ==> (#[trigger] self.pipes@[i]).wf()
    }

    /// Pipe `id`.
    pub closed spec fn pipe(&self, id: int) -> Pipe {
        self.pipes@[id]
    }

    /// Whether `id` names a pipe in use.
    pub open spec fn live(&self, id: int) -> bool {
        0 <= id < MAX_PIPES && self.pipe(id).in_use()
    }

    /// Every pipe but `id` is as it was in `before`.
    pub open spec fn others_unchanged(&self, before: &Table, id: int) -> bool {
        forall|j: int| 0 <= j < MAX_PIPES && j != id ==> #[trigger] self.pipe(j) == before.pipe(j)
    }

    pub fn new() -> (table: Self)
        ensures
            table.wf(),
            forall|id: int| !table.live(id),
    {
        let mut pipes: Vec<Pipe> = Vec::new();
        let mut i: usize = 0;
        while i < MAX_PIPES
            invariant
                i <= MAX_PIPES,
                pipes@.len() == i,
                forall|k: int| 0 <= k < i ==> (#[trigger] pipes@[k]).wf() && !pipes@[k].in_use(),
            decreases MAX_PIPES - i,
        {
            pipes.push(Pipe::fresh(false));
            i = i + 1;
        }
        Table { pipes }
    }

    /// Opens a pipe with one reader and one writer in the first unused slot.
    pub fn allocate(&mut self) -> (result: Result<usize, Error>)
        requires
            old(self).wf(),
        ensures
            final(self).wf(),
            result is Err <==> forall|id: int| 0 <= id < MAX_PIPES ==> old(self).live(id),
            result is Err ==> result == Err::<usize, Error>(Error::Full) && *final(self) == *old(self),
            result is Ok ==> {
                let id = result->Ok_0 as int;
                &&& !old(self).live(id)
                &&& forall|j: int| 0 <= j < id ==> old(self).live(j)
                &&& final(self).live(id)
                &&& final(self).pipe(id).contents() == Seq::<u8>::empty()
                &&& final(self).pipe(id).reader_count() == 1
                &&& final(self).pipe(id).writer_count() == 1
                &&& final(self).others_unchanged(old(self), id)
            },
    {
        let mut i: usize = 0;
        while i < self.pipes.len()
            invariant
                self.wf(),
                *self == *old(self),
                i <= MAX_PIPES,
                forall|k: int| 0 <= k < i ==> self.live(k),
            decreases MAX_PIPES - i,
        {
            if !self.pipes[i].occupied {
                self.pipes.set(i, Pipe::fresh(true));
                proof {
                    assert(!old(self).live(i as int));
                    assert forall|k: int| 0 <= k < MAX_PIPES implies (#[trigger] self.pipes@[k]).wf() by {
                        if k != i {
                            assert(self.pipes@[k] == old(self).pipes@[k]);
                        }
                    }
                }
                return Ok(i);
            }
            i = i + 1;
        }
        Err(Error::Full)
    }

    /// Appends as much of `buf` as fits to pipe `id`; reports `block` when nothing fit.
    pub fn try_write(&mut self, id: usize, buf: &[u8]) -> (result: Result<(usize, bool), Error>)
        requires
            old(self).wf(),
        ensures
            final(self).wf(),
            !old(self).live(id as int) ==> result == Err::<(usize, bool), Error>(Error::Invalid),
            old(self).live(id as int) && old(self).pipe(id as int).reader_count() == 0 ==> result
                == Err::<(usize, bool), Error>(Error::Closed),
            result is Err ==> *final(self) == *old(self),
            result is Ok <==> old(self).live(id as int) && old(self).pipe(id as int).reader_count() > 0,
            result is Ok ==> {
                let before = old(self).pipe(id as int);
                let (written, block) = result->Ok_0;
                &&& old(self).live(id as int)
                &&& before.reader_count() > 0
                &&& written == if buf@.len() <= PIPE_BUFFER - before.contents().len() {
                    buf@.len() as int
                } else {
                    PIPE_BUFFER - before.contents().len()
                }
                &&& block == (written == 0 && buf@.len() > 0)
                &&& final(self).pipe(id as int).contents() == before.contents() + buf@.subrange(
                    0,
                    written as int,
                )
                &&& final(self).pipe(id as int).reader_count() == before.reader_count()
                &&& final(self).pipe(id as int).writer_count() == before.writer_count()
                &&& final(self).pipe(id as int).in_use()
                &&& final(self).pipe(id as int).reading_waiters() == before.reading_waiters()
                &&& final(self).pipe(id as int).writing_waiters() == before.writing_waiters()
                &&& final(self).others_unchanged(old(self), id as int)
            },
    {
        if id >= self.pipes.len() || !self.pipes[id].occupied {
            return Err(Error::Invalid);
        }
        if self.pipes[id].readers == 0 {
            return Err(Error::Closed);
        }
        let ghost before = *self;
        let written = self.pipes[id].fill(buf);
        proof {
            assert forall|i: int| 0 <= i < MAX_PIPES implies (#[trigger] self.pipes@[i]).wf() by {
                if i != id {
                    assert(self.pipes@[i] == before.pipes@[i]);
                }
            }
        }
        Ok((written, written < buf.len() && written == 0))
    }

    /// Takes the oldest bytes of pipe `id` into `buf`; reports `(count, block, eof)`.
    pub fn try_read(&mut self, id: usize, buf: &mut [u8]) -> (result: Result<(usize, bool, bool), Error>)
        requires
            old(self).wf(),
        ensures
            final(self).wf(),
            final(buf)@.len() == old(buf)@.len(),
            !old(self).live(id as int) ==> result == Err::<(usize, bool, bool), Error>(Error::Invalid),
            result is Err ==> *final(self) == *old(self) && final(buf)@ == old(buf)@,
            result is Ok <==> old(self).live(id as int),
            result is Ok ==> {
                let before = old(self).pipe(id as int);
                let (count, block, eof) = result->Ok_0;
                &&& old(self).live(id as int)
                &&& (before.contents().len() == 0 ==> count == 0 && block == (before.writer_count() > 0)
                    && eof == (before.writer_count() == 0) && final(buf)@ == old(buf)@)
                &&& (before.contents().len() > 0 ==> !block && !eof && count == if old(buf)@.len()
                    <= before.contents().len() {
                    old(buf)@.len() as int
                } else {
                    before.contents().len() as int
                })
                &&& final(buf)@.subrange(0, count as int) == before.contents().subrange(0, count as int)
                &&& final(buf)@.subrange(count as int, final(buf)@.len() as int) == old(buf)@.subrange(
                    count as int,
                    old(buf)@.len() as int,
                )
                &&& final(self).pipe(id as int).contents() == before.contents().subrange(
                    count as int,
                    before.contents().len() as int,
                )
                &&& final(self).pipe(id as int).reader_count() == before.reader_count()
                &&& final(self).pipe(id as int).writer_count() == before.writer_count()
                &&& final(self).pipe(id as int).in_use()
                &&& final(self).pipe(id as int).reading_waiters() == before.reading_waiters()
                &&& final(self).pipe(id as int).writing_waiters() == before.writing_waiters()
                &&& final(self).others_unchanged(old(self), id as int)
            },
    {
        if id >= self.pipes.len() || !self.pipes[id].occupied {
            return Err(Error::Invalid);
        }
        if self.pipes[id].len == 0 {
            proof {
                assert(buf@.subrange(0, 0) =~= self.pipe(id as int).contents().subrange(0, 0));
                assert(buf@.subrange(0, buf@.len() as int) =~= buf@);
                assert(self.pipe(id as int).contents().subrange(0, 0) =~= self.pipe(
                    id as int,
                ).contents());
            }
            if self.pipes[id].writers == 0 {
                return Ok((0, false, true));
            }
            return Ok((0, true, false));
        }
        let ghost before = *self;
        let read = self.pipes[id].drain(buf);
        proof {
            assert forall|i: int| 0 <= i < MAX_PIPES implies (#[trigger] self.pipes@[i]).wf() by {
                if i != id {
                    assert(self.pipes@[i] == before.pipes@[i]);
                }
            }
        }
        Ok((read, false, false))
    }
}

/// Opens a new pipe in `table`, handing back its id.
pub fn create(table: &mut Table) -> (result: Result<usize, Error>)
    requires
        old(table).wf(),
    ensures
        final(table).wf(),
        result is Err <==> forall|id: int| 0 <= id < MAX_PIPES ==> old(table).live(id),
        result is Ok ==> final(table).live(result->Ok_0 as int) && final(table).pipe(
            result->Ok_0 as int,
        ).contents() == Seq::<u8>::empty(),
        result is Ok ==> final(table).pipe(result->Ok_0 as int).reader_count() == 1 && final(table).pipe(
            result->Ok_0 as int,
        ).writer_count() == 1,
{
    table.allocate()
}

/// Bytes one pipe can buffer.
pub fn buffer_size() -> (size: usize)
    ensures
        size == PIPE_BUFFER,
{
    PIPE_BUFFER
}


impl Pipe {
    /// Registers `task` as waiting for room.
    fn wait_for_room(&mut self, task: TaskId)
        requires
            old(self).wf(),
        ensures
            final(self).wf(),
            final(self).contents() == old(self).contents(),
            final(self).reader_count() == old(self).reader_count(),
            final(self).writer_count() == old(self).writer_count(),
            final(self).in_use() == old(self).in_use(),
            final(self).reading_waiters() == old(self).reading_waiters(),
            waits(final(self).writing_waiters(), task) == (waits(old(self).writing_waiters(), task)
                || old(self).writing_waiters()[MAX_WAITERS - 1] is None),
            forall|other: TaskId| other != task ==> waits(final(self).writing_waiters(), other)
                == waits(old(self).writing_waiters(), other),
    {
        push_waiter(&mut self.write_waiters, task);
    }

    /// Registers `task` as waiting for data.
    fn wait_for_data(&mut self, task: TaskId)
        requires
            old(self).wf(),
        ensures
            final(self).wf(),
            final(self).contents() == old(self).contents(),
            final(self).reader_count() == old(self).reader_count(),
            final(self).writer_count() == old(self).writer_count(),
            final(self).in_use() == old(self).in_use(),
            final(self).writing_waiters() == old(self).writing_waiters(),
            waits(final(self).reading_waiters(), task) == (waits(old(self).reading_waiters(), task)
                || old(self).reading_waiters()[MAX_WAITERS - 1] is None),
            forall|other: TaskId| other != task ==> waits(final(self).reading_waiters(), other)
                == waits(old(self).reading_waiters(), other),
    {
        push_waiter(&mut self.read_waiters, task);
    }

    /// Clears and hands back the tasks waiting for data.
    fn wake_readers(&mut self) -> (woken: Vec<Option<TaskId>>)
        requires
            old(self).wf(),
        ensures
            final(self).wf(),
            woken@ == old(self).reading_waiters(),
            forall|i: int| 0 <= i < MAX_WAITERS ==> final(self).reading_waiters()[i] is None,
            final(self).contents() == old(self).contents(),
            final(self).reader_count() == old(self).reader_count(),
            final(self).writer_count() == old(self).writer_count(),
            final(self).in_use() == old(self).in_use(),
            final(self).writing_waiters() == old(self).writing_waiters(),
    {
        take_waiters(&mut self.read_waiters)
    }

    /// Clears and hands back the tasks waiting for room.
    fn wake_writers(&mut self) -> (woken: Vec<Option<TaskId>>)
        requires
            old(self).wf(),
        ensures
            final(self).wf(),
            woken@ == old(self).writing_waiters(),
            forall|i: int| 0 <= i < MAX_WAITERS ==> final(self).writing_waiters()[i] is None,
            final(self).contents() == old(self).contents(),
            final(self).reader_count() == old(self).reader_count(),
            final(self).writer_count() == old(self).writer_count(),
            final(self).in_use() == old(self).in_use(),
            final(self).reading_waiters() == old(self).reading_waiters(),
    {
        take_waiters(&mut self.write_waiters)
    }

    /// Sets the number of open ends.
    fn set_ends(&mut self, readers: u32, writers: u32)
        requires
            old(self).wf(),
        ensures
            final(self).wf(),
            final(self).reader_count() == readers,
            final(self).writer_count() == writers,
            final(self).contents() == old(self).contents(),
            final(self).in_use() == old(self).in_use(),
            final(self).reading_waiters() == old(self).reading_waiters(),
            final(self).writing_waiters() == old(self).writing_waiters(),
    {
        self.readers = readers;
        self.writers = writers;
    }
}

impl Table {
    /// Pipe `id` after an operation that changed only it keeps the table consistent.
    proof fn lemma_one_changed(&self, before: &Table, id: int)
        requires
            before.wf(),
            0 <= id < MAX_PIPES,
            self.pipes@.len() == MAX_PIPES,
            self.pipe(id).wf(),
            self.pipes@ == before.pipes@.update(id, self.pipe(id)),
        ensures
            self.wf(),
            self.others_unchanged(before, id),
    {
        assert forall|i: int| 0 <= i < MAX_PIPES implies (#[trigger] self.pipes@[i]).wf() by {
            if i != id {
                assert(self.pipes@[i] == before.pipes@[i]);
            }
        }
    }
}

/// No task to wake.
fn nobody() -> (woken: Vec<Option<TaskId>>)
    ensures
        woken@.len() == 0,
{
    Vec::new()
}

/// One non-blocking write of `buf` to pipe `id` on behalf of `current`.
///
/// Appends what fits. When nothing fits, `current` is registered to wait for room and
/// `block` is set. When bytes went in, the tasks waiting for data are handed back to be
/// woken.
pub fn write(table: &mut Table, id: usize, buf: &[u8], current: TaskId) -> (result: Result<Transfer, Error>)
    requires
        old(table).wf(),
    ensures
        final(table).wf(),
        buf@.len() > 0 && !old(table).live(id as int) ==> result == Err::<Transfer, Error>(Error::Invalid),
        buf@.len() > 0 && old(table).live(id as int) && old(table).pipe(id as int).reader_count() == 0
            ==> result == Err::<Transfer, Error>(Error::Closed),
        result is Err ==> *final(table) == *old(table),
        buf@.len() > 0 && old(table).live(id as int) && old(table).pipe(id as int).reader_count() > 0 ==> result is Ok,
        buf@.len() == 0 ==> result is Ok && result->Ok_0.count == 0 && !result->Ok_0.block
            && result->Ok_0.woken@.len() == 0 && *final(table) == *old(table),
        buf@.len() > 0 && result is Ok ==> {
            let before = old(table).pipe(id as int);
            let after = final(table).pipe(id as int);
            let transfer = result->Ok_0;
            &&& old(table).live(id as int)
            &&& before.reader_count() > 0
            &&& transfer.count == if buf@.len() <= PIPE_BUFFER - before.contents().len() {
                buf@.len() as int
            } else {
                PIPE_BUFFER - before.contents().len()
            }
            &&& transfer.block == (transfer.count == 0)
            &&& !transfer.eof
            &&& after.contents() == before.contents() + buf@.subrange(0, transfer.count as int)
            &&& after.reader_count() == before.reader_count()
            &&& after.writer_count() == before.writer_count()
            &&& after.in_use()
            &&& (transfer.block ==> waits(after.writing_waiters(), current) == (waits(
                before.writing_waiters(),
                current,
            ) || before.writing_waiters()[MAX_WAITERS - 1] is None))
            &&& (transfer.count > 0 ==> transfer.woken@ == before.reading_waiters() && forall|i: int|
                0 <= i < MAX_WAITERS ==> after.reading_waiters()[i] is None)
            &&& (transfer.count == 0 ==> transfer.woken@.len() == 0 && after.reading_waiters()
                == before.reading_waiters())
            &&& final(table).others_unchanged(old(table), id as int)
        },
{
    if buf.len() == 0 {
        return Ok(Transfer { count: 0, block: false, eof: false, woken: nobody() });
    }
    let (count, block) = match table.try_write(id, buf) {
        Ok(step) => step,
        Err(error) => return Err(error),
    };
    let ghost middle = *table;
    if block {
        table.pipes[id].wait_for_room(current);
        proof {
            table.lemma_one_changed(&middle, id as int);
        }
    }
    let ghost later = *table;
    let woken = if count > 0 {
        let woken = table.pipes[id].wake_readers();
        proof {
            table.lemma_one_changed(&later, id as int);
        }
        woken
    } else {
        nobody()
    };
    Ok(Transfer { count, block, eof: false, woken })
}

/// One non-blocking read from pipe `id` into `buf` on behalf of `current`.
///
/// Takes what is buffered. When nothing is buffered and a writer remains, `current` is
/// registered to wait for data and `block` is set; with no writer left, `eof` is set.
/// When bytes came out, the tasks waiting for room are handed back to be woken.
pub fn read(table: &mut Table, id: usize, buf: &mut [u8], current: TaskId) -> (result: Result<Transfer, Error>)
    requires
        old(table).wf(),
    ensures
        final(table).wf(),
        final(buf)@.len() == old(buf)@.len(),
        old(buf)@.len() > 0 && !old(table).live(id as int) ==> result == Err::<Transfer, Error>(
            Error::Invalid,
        ),
        result is Err ==> *final(table) == *old(table) && final(buf)@ == old(buf)@,
        old(table).live(id as int) ==> result is Ok,
        old(buf)@.len() == 0 ==> result is Ok && result->Ok_0.count == 0 && !result->Ok_0.block
            && !result->Ok_0.eof && *final(table) == *old(table),
        old(buf)@.len() > 0 && result is Ok ==> {
            let before = old(table).pipe(id as int);
            let after = final(table).pipe(id as int);
            let transfer = result->Ok_0;
            &&& old(table).live(id as int)
            &&& (before.contents().len() == 0 ==> transfer.count == 0 && transfer.block == (
            before.writer_count() > 0) && transfer.eof == (before.writer_count() == 0))
            &&& (before.contents().len() > 0 ==> !transfer.block && !transfer.eof && transfer.count
                == if old(buf)@.len() <= before.contents().len() {
                old(buf)@.len() as int
            } else {
                before.contents().len() as int
            })
            &&& final(buf)@.subrange(0, transfer.count as int) == before.contents().subrange(
                0,
                transfer.count as int,
            )
            &&& final(buf)@.subrange(transfer.count as int, final(buf)@.len() as int) == old(
                buf,
            )@.subrange(transfer.count as int, old(buf)@.len() as int)
            &&& after.contents() == before.contents().subrange(
                transfer.count as int,
                before.contents().len() as int,
            )
            &&& after.reader_count() == before.reader_count()
            &&& after.writer_count() == before.writer_count()
            &&& after.in_use()
            &&& (transfer.block ==> waits(after.reading_waiters(), current) == (waits(
                before.reading_waiters(),
                current,
            ) || before.reading_waiters()[MAX_WAITERS - 1] is None))
            &&& (transfer.count > 0 ==> transfer.woken@ == before.writing_waiters() && forall|i: int|
                0 <= i < MAX_WAITERS ==> after.writing_waiters()[i] is None)
            &&& (transfer.count == 0 ==> transfer.woken@.len() == 0 && after.writing_waiters()
                == before.writing_waiters())
            &&& final(table).others_unchanged(old(table), id as int)
        },
{
    if buf.len() == 0 {
        return Ok(Transfer { count: 0, block: false, eof: false, woken: nobody() });
    }
    let (count, block, eof) = match table.try_read(id, buf) {
        Ok(step) => step,
        Err(error) => return Err(error),
    };
    let ghost middle = *table;
    if block {
        table.pipes[id].wait_for_data(current);
        proof {
            table.lemma_one_changed(&middle, id as int);
        }
    }
    let ghost later = *table;
    let woken = if count > 0 {
        let woken = table.pipes[id].wake_writers();
        proof {
            table.lemma_one_changed(&later, id as int);
        }
        woken
    } else {
        nobody()
    };
    Ok(Transfer { count, block, eof, woken })
}

/// Adds a reader to pipe `id`.
pub fn clone_reader(table: &mut Table, id: usize) -> (result: Result<(), Error>)
    requires
        old(table).wf(),
    ensures
        final(table).wf(),
        result is Err <==> !old(table).live(id as int),
        result is Err ==> result == Err::<(), Error>(Error::Invalid) && *final(table) == *old(table),
        result is Ok ==> {
            let before = old(table).pipe(id as int);
            let after = final(table).pipe(id as int);
            &&& after.reader_count() == before.reader_count().saturating_add(1)
            &&& after.writer_count() == before.writer_count()
            &&& after.contents() == before.contents()
            &&& after.in_use()
            &&& final(table).others_unchanged(old(table), id as int)
        },
{
    if id >= table.pipes.len() || !table.pipes[id].occupied {
        return Err(Error::Invalid);
    }
    let ghost before = *table;
    let readers = table.pipes[id].readers.saturating_add(1);
    let writers = table.pipes[id].writers;
    table.pipes[id].set_ends(readers, writers);
    proof {
        table.lemma_one_changed(&before, id as int);
    }
    Ok(())
}

/// Adds a writer to pipe `id`.
pub fn clone_writer(table: &mut Table, id: usize) -> (result: Result<(), Error>)
    requires
        old(table).wf(),
    ensures
        final(table).wf(),
        result is Err <==> !old(table).live(id as int),
        result is Err ==> result == Err::<(), Error>(Error::Invalid) && *final(table) == *old(table),
        result is Ok ==> {
            let before = old(table).pipe(id as int);
            let after = final(table).pipe(id as int);
            &&& after.writer_count() == before.writer_count().saturating_add(1)
            &&& after.reader_count() == before.reader_count()
            &&& after.contents() == before.contents()
            &&& after.in_use()
            &&& final(table).others_unchanged(old(table), id as int)
        },
{
    if id >= table.pipes.len() || !table.pipes[id].occupied {
        return Err(Error::Invalid);
    }
    let ghost before = *table;
    let readers = table.pipes[id].readers;
    let writers = table.pipes[id].writers.saturating_add(1);
    table.pipes[id].set_ends(readers, writers);
    proof {
        table.lemma_one_changed(&before, id as int);
    }
    Ok(())
}

/// Frees pipe `id` once neither end is open.
fn release_if_closed(table: &mut Table, id: usize)
    requires
        old(table).wf(),
        id < MAX_PIPES,
    ensures
        final(table).wf(),
        final(table).others_unchanged(old(table), id as int),
        old(table).pipe(id as int).reader_count() == 0 && old(table).pipe(id as int).writer_count()
            == 0 ==> !final(table).live(id as int),
        !(old(table).pipe(id as int).reader_count() == 0 && old(table).pipe(id as int).writer_count()
            == 0) ==> *final(table) == *old(table),
{
    if table.pipes[id].readers == 0 && table.pipes[id].writers == 0 {
        let ghost before = *table;
        table.pipes.set(id, Pipe::fresh(false));
        proof {
            table.lemma_one_changed(&before, id as int);
        }
    }
}

/// Closes one reader of pipe `id`, handing back the writers to wake; the pipe is freed
/// once neither end is open. Does nothing on a pipe not in use.
pub fn close_reader(table: &mut Table, id: usize) -> (woken: Vec<Option<TaskId>>)
    requires
        old(table).wf(),
    ensures
        final(table).wf(),
        !old(table).live(id as int) ==> woken@.len() == 0 && *final(table) == *old(table),
        old(table).live(id as int) ==> {
            let before = old(table).pipe(id as int);
            let after = final(table).pipe(id as int);
            let readers = before.reader_count().saturating_sub(1);
            &&& woken@ == before.writing_waiters()
            &&& final(table).others_unchanged(old(table), id as int)
            &&& (readers == 0 && before.writer_count() == 0 ==> !final(table).live(id as int))
            &&& (!(readers == 0 && before.writer_count() == 0) ==> {
                &&& after.in_use()
                &&& after.reader_count() == readers
                &&& after.writer_count() == before.writer_count()
                &&& after.contents() == before.contents()
            })
        },
{
    if id >= table.pipes.len() || !table.pipes[id].occupied {
        return nobody();
    }
    let ghost before = *table;
    let woken = table.pipes[id].wake_writers();
    let readers = table.pipes[id].readers.saturating_sub(1);
    let writers = table.pipes[id].writers;
    table.pipes[id].set_ends(readers, writers);
    proof {
        assert(table.pipes@ =~= before.pipes@.update(id as int, table.pipes@[id as int]));
        table.lemma_one_changed(&before, id as int);
    }
    release_if_closed(table, id);
    woken
}

/// Closes one writer of pipe `id`, handing back the readers to wake; the pipe is freed
/// once neither end is open. Does nothing on a pipe not in use.
pub fn close_writer(table: &mut Table, id: usize) -> (woken: Vec<Option<TaskId>>)
    requires
        old(table).wf(),
    ensures
        final(table).wf(),
        !old(table).live(id as int) ==> woken@.len() == 0 && *final(table) == *old(table),
        old(table).live(id as int) ==> {
            let before = old(table).pipe(id as int);
            let after = final(table).pipe(id as int);
            let writers = before.writer_count().saturating_sub(1);
            &&& woken@ == before.reading_waiters()
            &&& final(table).others_unchanged(old(table), id as int)
            &&& (writers == 0 && before.reader_count() == 0 ==> !final(table).live(id as int))
            &&& (!(writers == 0 && before.reader_count() == 0) ==> {
                &&& after.in_use()
                &&& after.writer_count() == writers
                &&& after.reader_count() == before.reader_count()
                &&& after.contents() == before.contents()
            })
        },
{
    if id >= table.pipes.len() || !table.pipes[id].occupied {
        return nobody();
    }
    let ghost before = *table;
    let woken = table.pipes[id].wake_readers();
    let readers = table.pipes[id].readers;
    let writers = table.pipes[id].writers.saturating_sub(1);
    table.pipes[id].set_ends(readers, writers);
    proof {
        assert(table.pipes@ =~= before.pipes@.update(id as int, table.pipes@[id as int]));
        table.lemma_one_changed(&before, id as int);
    }
    release_if_closed(table, id);
    woken
}

/// Bytes read from a pipe come out in the order they were written: what a write appended
/// to an empty pipe is exactly what the next read of at least as many bytes returns.
pub proof fn law_read_returns_written(empty: Seq<u8>, written: Seq<u8>, stored: Seq<u8>, read: Seq<u8>, count: int)
    requires
        empty.len() == 0,
        stored == empty + written,
        count == stored.len(),
        read == stored.subrange(0, count),
    ensures
        read == written,
{
    assert(read =~= written);
}

/// Round trip through a fresh pipe, then end of file once the writer is gone.
pub fn self_test() -> (passed: bool)
    ensures
        passed,
{
    let mut table = Table::new();
    assert(!table.live(0));
    let id = match create(&mut table) {
        Ok(id) => id,
        Err(_) => return false,
    };
    let payload: [u8; 18] = [98, 108, 111, 99, 107, 105, 110, 103, 45, 112, 105, 112, 101, 45, 116, 101, 115, 116];
    let me = TaskId(1);
    let wrote = match write(&mut table, id, &payload, me) {
        Ok(transfer) => transfer.count == payload.len(),
        Err(_) => false,
    };
    if !wrote {
        close_writer(&mut table, id);
        close_reader(&mut table, id);
        return false;
    }
    let mut buf = [0u8; 32];
    let ghost written = table.pipe(id as int).contents();
    assert(written =~= payload@);
    let ok = match read(&mut table, id, &mut buf, me) {
        Ok(transfer) => transfer.count == payload.len() && crate::ipc::bytes_equal(
            prefix(&buf, payload.len()),
            &payload,
        ),
        Err(_) => false,
    };
    proof {
        if ok {
            assert(table.pipe(id as int).contents() =~= Seq::<u8>::empty());
        }
    }
    close_writer(&mut table, id);
    let eof = match read(&mut table, id, &mut buf, me) {
        Ok(transfer) => transfer.count == 0 && transfer.eof,
        Err(_) => false,
    };
    close_reader(&mut table, id);
    ok && eof
}

/// The first `length` bytes of `bytes`, or all of them when there are fewer.
fn prefix(bytes: &[u8], length: usize) -> (head: &[u8])
    ensures
        head@ == bytes@.subrange(0, if length <= bytes@.len() { length as int } else { bytes@.len() as int }),
{
    let cut = if length <= bytes.len() { length } else { bytes.len() };
    let (head, _) = bytes.split_at(cut);
    head
}

} // verus!
