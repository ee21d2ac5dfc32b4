//! The queue of sector requests that a worker task serves on behalf of waiting tasks.
//!
//! A request is pushed as pending, taken by the worker (in progress), finished with the
//! device's answer (complete), and finally taken back by its submitter, which frees the
//! slot.
use vstd::prelude::*;

use crate::block::{BlockDevice, Error};

verus! {

/// Requests the queue can hold at once.
pub const MAX_BLOCK_IO_REQUESTS: usize = 16;

/// What a request asks of the device.
#[derive(Clone, Copy, PartialEq, Eq, Structural, Debug)]
pub enum Operation {
    Read,
    Write,
    Flush,
}

/// Where a request is in its life.
#[derive(Clone, Copy, PartialEq, Eq, Structural, Debug)]
pub enum RequestState {
    Pending,
    InProgress,
    Complete,
}

/// One request.
#[derive(Clone, Copy)]
pub struct Request {
    pub id: u64,
    pub operation: Operation,
    pub lba: u64,
    pub data: [u8; 512],
    pub result: Result<(), Error>,
    pub state: RequestState,
}

/// A request handed to the worker, with the slot it came from.
#[derive(Clone, Copy)]
pub struct WorkItem {
    pub slot: usize,
    pub request: Request,
}

/// Counters of the block I/O path and the queue's occupancy.
#[derive(Clone, Copy, PartialEq, Eq, Structural, Debug)]
pub struct Stats {
    pub queued: u64,
    pub completed: u64,
    pub direct: u64,
    pub pending: usize,
    pub active: usize,
}

/// The id after `id`, never 0.
pub open spec fn following_id(id: u64) -> u64 {
    if id == u64::MAX {
        1
    } else {
        (id + 1) as u64
    }
}

/// Number of requests of `entries`, only pending ones when `pending_only`.
pub open spec fn count_requests(entries: Seq<Option<Request>>, pending_only: bool) -> nat
    decreases entries.len(),
{
    if entries.len() == 0 {
        0
    } else {
        let last = entries.last();
        count_requests(entries.drop_last(), pending_only) + if last is Some && (!pending_only
            || last->0.state == RequestState::Pending) {
            1nat
        } else {
            0nat
        }
    }
}

/// The request queue.
pub struct Queue {
    entries: Vec<Option<Request>>,
    next_id: u64,
}

impl Queue {
    pub closed spec fn wf(&self) -> bool {
        &&& self.entries@.len() == MAX_BLOCK_IO_REQUESTS
        &&& self.next_id != 0
    }

    /// The slots, in order.
    pub closed spec fn slots(&self) -> Seq<Option<Request>> {
        self.entries@
    }

    /// The id the next request gets.
    pub closed spec fn upcoming_id(&self) -> u64 {
        self.next_id
    }

    pub fn new() -> (queue: Self)
        ensures
            queue.wf(),
            queue.upcoming_id() == 1,
            forall|i: int| 0 <= i < MAX_BLOCK_IO_REQUESTS ==> (#[trigger] queue.slots()[i]) is None,
    {
        let mut entries: Vec<Option<Request>> = Vec::new();
        let mut i: usize = 0;
        while i < MAX_BLOCK_IO_REQUESTS
            invariant
                i <= MAX_BLOCK_IO_REQUESTS,
                entries@.len() == i,
                forall|k: int| 0 <= k < i ==> (#[trigger] entries@[k]) is None,
            decreases MAX_BLOCK_IO_REQUESTS - i,
        {
            entries.push(None);
            i = i + 1;
        }
        Queue { entries, next_id: 1 }
    }

    /// Queues a pending request in the first free slot, handing back its id.
    pub fn push(&mut self, operation: Operation, lba: u64, data: [u8; 512]) -> (id: Option<u64>)
        requires
            old(self).wf(),
        ensures
            final(self).wf(),
            id is None <==> forall|i: int| 0 <= i < MAX_BLOCK_IO_REQUESTS ==> (#[trigger] old(self).slots()[i]) is Some,
            id is None ==> *final(self) == *old(self),
            id is Some ==> {
                &&& id->0 == old(self).upcoming_id()
                &&& final(self).upcoming_id() == following_id(old(self).upcoming_id())
                &&& exists|i: int|
                    0 <= i < MAX_BLOCK_IO_REQUESTS && (#[trigger] old(self).slots()[i]) is None && (forall|j: int|
                        0 <= j < i ==> (#[trigger] old(self).slots()[j]) is Some) && final(self).slots()
                        == old(self).slots().update(
                        i,
                        Some(
                            Request {
                                id: id->0,
                                operation,
                                lba,
                                data,
                                result: Ok(()),
                                state: RequestState::Pending,
                            },
                        ),
                    )
            },
    {
        let mut i: usize = 0;
        while i < self.entries.len()
            invariant
                self.wf(),
                *self == *old(self),
                i <= MAX_BLOCK_IO_REQUESTS,
                forall|k: int| 0 <= k < i ==> (#[trigger] self.entries@[k]) is Some,
            decreases MAX_BLOCK_IO_REQUESTS - i,
        {
            if self.entries[i].is_none() {
                let id = self.next_id;
                self.next_id = if self.next_id == u64::MAX {
                    1
                } else {
                    self.next_id + 1
                };
                let request = Request {
                    id,
                    operation,
                    lba,
                    data,
                    result: Ok(()),
                    state: RequestState::Pending,
                };
                self.entries.set(i, Some(request));
                assert(old(self).slots()[i as int] is None);
                return Some(id);
            }
            i = i + 1;
        }
        None
    }

    /// Marks the first pending request in progress and hands it to the worker.
    pub fn take_pending(&mut self) -> (work: Option<WorkItem>)
        requires
            old(self).wf(),
        ensures
            final(self).wf(),
            final(self).upcoming_id() == old(self).upcoming_id(),
            work is None <==> forall|i: int| 0 <= i < MAX_BLOCK_IO_REQUESTS ==> !((#[trigger] old(self).slots()[i]) is Some
                && old(self).slots()[i]->0.state == RequestState::Pending),
            work is None ==> *final(self) == *old(self),
            work is Some ==> {
                let i = work->0.slot as int;
                let before = old(self).slots()[i]->0;
                &&& 0 <= i < MAX_BLOCK_IO_REQUESTS
                &&& old(self).slots()[i] is Some && before.state == RequestState::Pending
                &&& forall|j: int| 0 <= j < i ==> !((#[trigger] old(self).slots()[j]) is Some
                    && old(self).slots()[j]->0.state == RequestState::Pending)
                &&& work->0.request == Request { state: RequestState::InProgress, ..before }
                &&& final(self).slots() == old(self).slots().update(i, Some(work->0.request))
            },
    {
        let mut i: usize = 0;
        while i < self.entries.len()
            invariant
                self.wf(),
                *self == *old(self),
                i <= MAX_BLOCK_IO_REQUESTS,
                forall|k: int| 0 <= k < i ==> !((#[trigger] self.entries@[k]) is Some
                    && self.entries@[k]->0.state == RequestState::Pending),
            decreases MAX_BLOCK_IO_REQUESTS - i,
        {
            match self.entries[i] {
                Some(request) => {
                    if request.state == RequestState::Pending {
                        let taken = Request { state: RequestState::InProgress, ..request };
                        self.entries.set(i, Some(taken));
                        return Some(WorkItem { slot: i, request: taken });
                    }
                },
                None => {},
            }
            i = i + 1;
        }
        None
    }

    /// Records the device's answer for the in-progress request `id` in `slot`; an answer
    /// for anything else is ignored.
    pub fn finish(&mut self, slot: usize, id: u64, result: Result<(), Error>, data: [u8; 512])
        requires
            old(self).wf(),
        ensures
            final(self).wf(),
            final(self).upcoming_id() == old(self).upcoming_id(),
            ({
                let before = old(self).slots()[slot as int];
                slot < MAX_BLOCK_IO_REQUESTS && before is Some && before->0.id == id && before->0.state
                    == RequestState::InProgress
            }) ==> final(self).slots() == old(self).slots().update(
                slot as int,
                Some(
                    Request {
                        data,
                        result,
                        state: RequestState::Complete,
                        ..old(self).slots()[slot as int]->0
                    },
                ),
            ),
            !({
                let before = old(self).slots()[slot as int];
                slot < MAX_BLOCK_IO_REQUESTS && before is Some && before->0.id == id && before->0.state
                    == RequestState::InProgress
            }) ==> *final(self) == *old(self),
    {
        if slot >= self.entries.len() {
            return;
        }
        match self.entries[slot] {
            Some(request) => {
                if request.id == id && request.state == RequestState::InProgress {
                    self.entries.set(
                        slot,
                        Some(Request { data, result, state: RequestState::Complete, ..request }),
                    );
                }
            },
            None => {},
        }
    }

    /// Hands back the answer to the completed request `id` and frees its slot; on success
    /// its sector data is copied to `output`.
    pub fn take_result(&mut self, id: u64, output: &mut [u8; 512]) -> (result: Option<Result<(), Error>>)
        requires
            old(self).wf(),
        ensures
            final(self).wf(),
            final(self).upcoming_id() == old(self).upcoming_id(),
            result is None <==> forall|i: int| 0 <= i < MAX_BLOCK_IO_REQUESTS ==> !((#[trigger] old(self).slots()[i]) is Some
                && old(self).slots()[i]->0.id == id && old(self).slots()[i]->0.state == RequestState::Complete),
            result is None ==> *final(self) == *old(self) && *final(output) == *old(output),
            result is Some ==> exists|i: int|
                0 <= i < MAX_BLOCK_IO_REQUESTS && (#[trigger] old(self).slots()[i]) is Some
                    && old(self).slots()[i]->0.id == id && old(self).slots()[i]->0.state
                    == RequestState::Complete && (forall|j: int|
                    0 <= j < i ==> !((#[trigger] old(self).slots()[j]) is Some && old(self).slots()[j]->0.id
                        == id && old(self).slots()[j]->0.state == RequestState::Complete)) && result->0
                    == old(self).slots()[i]->0.result && final(self).slots() == old(self).slots().update(
                    i,
                    None,
                ) && (result->0 is Ok ==> *final(output) == old(self).slots()[i]->0.data) && (
                result->0 is Err ==> *final(output) == *old(output)),
    {
        let mut i: usize = 0;
        while i < self.entries.len()
            invariant
                self.wf(),
                *self == *old(self),
                i <= MAX_BLOCK_IO_REQUESTS,
                *output == *old(output),
                forall|k: int| 0 <= k < i ==> !((#[trigger] self.entries@[k]) is Some && self.entries@[k]->0.id
                    == id && self.entries@[k]->0.state == RequestState::Complete),
            decreases MAX_BLOCK_IO_REQUESTS - i,
        {
            match self.entries[i] {
                Some(request) => {
                    if request.id == id && request.state == RequestState::Complete {
                        let result = request.result;
                        if result.is_ok() {
                            *output = request.data;
                        }
                        self.entries.set(i, None);
                        assert(old(self).slots()[i as int] == Some(request));
                        assert(self.slots() == old(self).slots().update(i as int, None));
                        assert(forall|j: int| 0 <= j < i ==> !((#[trigger] old(self).slots()[j]) is Some && old(self).slots()[j]->0.id
                            == id && old(self).slots()[j]->0.state == RequestState::Complete));
                        return Some(result);
                    }
                },
                None => {},
            }
            i = i + 1;
        }
        None
    }

    fn count(&self, pending_only: bool) -> (count: usize)
        requires
            self.wf(),
        ensures
            count == count_requests(self.slots(), pending_only),
    {
        let mut count: usize = 0;
        let mut i: usize = 0;
        while i < self.entries.len()
            invariant
                self.wf(),
                i <= MAX_BLOCK_IO_REQUESTS,
                count <= i,
                count == count_requests(self.entries@.take(i as int), pending_only),
            decreases MAX_BLOCK_IO_REQUESTS - i,
        {
            assert(self.entries@.take(i as int + 1).drop_last() =~= self.entries@.take(i as int));
            match self.entries[i] {
                Some(request) => {
                    if !pending_only || request.state == RequestState::Pending {
                        count = count + 1;
                    }
                },
                None => {},
            }
            i = i + 1;
        }
        assert(self.entries@.take(i as int) =~= self.entries@);
        count
    }

    /// Number of pending requests.
    pub fn pending_count(&self) -> (count: usize)
        requires
            self.wf(),
        ensures
            count == count_requests(self.slots(), true),
    {
        self.count(true)
    }

    /// Number of requests held, in any state.
    pub fn active_count(&self) -> (count: usize)
        requires
            self.wf(),
        ensures
            count == count_requests(self.slots(), false),
    {
        self.count(false)
    }
}

/// Serves the first pending request of `queue` on `device` and records the answer.
/// Reports whether there was one.
pub fn drive_one<D: BlockDevice>(queue: &mut Queue, device: &mut D) -> (served: bool)
    requires
        old(queue).wf(),
        old(device).valid(),
    ensures
        final(queue).wf(),
        final(device).valid(),
        served <==> exists|i: int| 0 <= i < MAX_BLOCK_IO_REQUESTS && (#[trigger] old(queue).slots()[i]) is Some
            && old(queue).slots()[i]->0.state == RequestState::Pending,
        !served ==> *final(queue) == *old(queue) && *final(device) == *old(device),
        served ==> exists|i: int|
            0 <= i < MAX_BLOCK_IO_REQUESTS && (#[trigger] old(queue).slots()[i]) is Some && old(queue).slots()[i]->0.state
                == RequestState::Pending && final(queue).slots()[i] is Some && final(queue).slots()[i]->0.id
                == old(queue).slots()[i]->0.id && final(queue).slots()[i]->0.state == RequestState::Complete
                && (old(queue).slots()[i]->0.operation == Operation::Write && final(queue).slots()[i]->0.result
                is Ok ==> final(device).sectors() == old(device).sectors().update(
                old(queue).slots()[i]->0.lba as int,
                old(queue).slots()[i]->0.data@,
            )) && (old(queue).slots()[i]->0.operation == Operation::Read && final(queue).slots()[i]->0.result
                is Ok ==> final(queue).slots()[i]->0.data@ == old(device).sectors()[old(queue).slots()[i]->0.lba as int])
                && forall|j: int| 0 <= j < MAX_BLOCK_IO_REQUESTS && j != i ==> #[trigger] final(queue).slots()[j]
                == old(queue).slots()[j],
{
    let work = match queue.take_pending() {
        Some(work) => work,
        None => return false,
    };
    let ghost middle = queue.slots();
    let mut data = work.request.data;
    let result = match work.request.operation {
        Operation::Read => device.read_sector(work.request.lba, &mut data),
        Operation::Write => device.write_sector(work.request.lba, &data),
        Operation::Flush => device.flush(),
    };
    queue.finish(work.slot, work.request.id, result, data);
    proof {
        let i = work.slot as int;
        assert(queue.slots()[i] is Some);
        assert forall|j: int| 0 <= j < MAX_BLOCK_IO_REQUESTS && j != i implies #[trigger] queue.slots()[j]
            == old(queue).slots()[j] by {
            assert(middle[j] == old(queue).slots()[j]);
        }
    }
    true
}

/// The counters of the I/O path together with the queue's occupancy.
pub fn stats(queue: &Queue, queued: u64, completed: u64, direct: u64) -> (stats: Stats)
    requires
        queue.wf(),
    ensures
        stats.queued == queued,
        stats.completed == completed,
        stats.direct == direct,
        stats.pending == count_requests(queue.slots(), true),
        stats.active == count_requests(queue.slots(), false),
{
    Stats {
        queued,
        completed,
        direct,
        pending: queue.pending_count(),
        active: queue.active_count(),
    }
}

/// A request taken by the worker and finished with success gives its submitter that
/// success: the answer recorded by `finish` is the one `take_result` hands back.
pub proof fn law_finished_answer_returned(queued: Seq<Option<Request>>, finished: Seq<Option<Request>>, slot: int, id: u64, result: Result<(), Error>, data: [u8; 512])
    requires
        0 <= slot < queued.len(),
        queued[slot] is Some,
        queued[slot]->0.id == id,
        queued[slot]->0.state == RequestState::InProgress,
        finished == queued.update(
            slot,
            Some(Request { data, result, state: RequestState::Complete, ..queued[slot]->0 }),
        ),
    ensures
        finished[slot] is Some,
        finished[slot]->0.id == id,
        finished[slot]->0.state == RequestState::Complete,
        finished[slot]->0.result == result,
        finished[slot]->0.data == data,
{
}

/// Runs writes, reads, a full queue and a refused write through a small disk.
pub fn self_test() -> (passed: bool)
{
    let mut queue = Queue::new();
    let mut disk = crate::block::RamDisk::<4>::new();
    let mut first = [0u8; 512];
    let word: [u8; 12] = [119, 111, 118, 101, 110, 104, 97, 116, 45, 105, 111, 33];
    crate::block::copy_bytes(&mut first, 0, &word, 0, 12);
    let second = [0xaau8; 512];
    let write_id = match queue.push(Operation::Write, 2, first) {
        Some(id) => id,
        None => return false,
    };
    if queue.pending_count() != 1 || !drive_one(&mut queue, &mut disk) {
        return false;
    }
    let mut out = [0u8; 512];
    let mut scratch = [0u8; 512];
    match queue.take_result(write_id, &mut scratch) {
        Some(Ok(())) => {},
        _ => return false,
    }
    if disk.read_sector(2, &mut out).is_err() || !crate::ipc::bytes_equal(&out, &first) {
        return false;
    }
    let read_id = match queue.push(Operation::Read, 2, [0u8; 512]) {
        Some(id) => id,
        None => return false,
    };
    if !drive_one(&mut queue, &mut disk) {
        return false;
    }
    match queue.take_result(read_id, &mut out) {
        Some(Ok(())) => {},
        _ => return false,
    }
    if !crate::ipc::bytes_equal(&out, &first) {
        return false;
    }
    let mut ids: Vec<u64> = Vec::new();
    let mut index: usize = 0;
    while index < MAX_BLOCK_IO_REQUESTS
        invariant
            queue.wf(),
            index <= MAX_BLOCK_IO_REQUESTS,
        decreases MAX_BLOCK_IO_REQUESTS - index,
    {
        match queue.push(Operation::Write, (index % 4) as u64, second) {
            Some(id) => ids.push(id),
            None => return false,
        }
        index = index + 1;
    }
    if queue.push(Operation::Flush, 0, [0u8; 512]).is_some() || queue.active_count() != MAX_BLOCK_IO_REQUESTS {
        return false;
    }
    let mut rounds: usize = 0;
    while rounds < MAX_BLOCK_IO_REQUESTS + 1
        invariant
            queue.wf(),
            disk.valid(),
        decreases MAX_BLOCK_IO_REQUESTS + 1 - rounds,
    {
        if !drive_one(&mut queue, &mut disk) {
            break;
        }
        rounds = rounds + 1;
    }
    let mut k: usize = 0;
    while k < ids.len()
        invariant
            queue.wf(),
        decreases ids@.len() - k,
    {
        match queue.take_result(ids[k], &mut scratch) {
            Some(Ok(())) => {},
            _ => return false,
        }
        k = k + 1;
    }
    if queue.active_count() != 0 {
        return false;
    }
    disk.set_read_only(true);
    let fail_id = match queue.push(Operation::Write, 1, first) {
        Some(id) => id,
        None => return false,
    };
    drive_one(&mut queue, &mut disk) && match queue.take_result(fail_id, &mut scratch) {
        Some(Err(Error::ReadOnly)) => true,
        _ => false,
    }
}

} // verus!
