//! Tasks, processes and the scheduling policy.
use vstd::prelude::*;
use crate::audit;
use crate::capability::{Capability, CapabilitySet};
use crate::ipc;
use crate::pipe;
use vstd::string::StringSliceAdditionalSpecFns;

verus! {

/// Slots of the task table, the kernel and idle tasks included.
pub const MAX_TASKS: usize = 32;

/// Slots of the process table.
pub const MAX_PROCESSES: usize = 32;

/// Descriptors per process; 0, 1 and 2 are the standard streams.
pub const MAX_FILE_DESCRIPTORS: usize = 16;

/// Longest path, in bytes.
pub const MAX_PATH_SIZE: usize = 128;

/// Anonymous mappings per process.
pub const MAX_ANONYMOUS_MAPPINGS: usize = 16;

/// Id of the bootstrap kernel task.
pub const KERNEL_TASK: u64 = 0;

/// Id of the idle task.
pub const IDLE_TASK: u64 = 1;

/// Identifies a schedulable task.
#[derive(Clone, Copy, PartialEq, Eq, Structural, Debug)]
pub struct TaskId(pub u64);

impl TaskId {
    pub fn as_u64(self) -> (raw: u64)
        ensures
            raw == self.0,
    {
        self.0
    }
}

/// Identifies a process.
#[derive(Clone, Copy, PartialEq, Eq, Structural, Debug)]
pub struct ProcessId(pub u64);

impl ProcessId {
    pub fn as_u64(self) -> (raw: u64)
        ensures
            raw == self.0,
    {
        self.0
    }
}

/// The user and group a process runs as.
#[derive(Clone, Copy, PartialEq, Eq, Structural, Debug)]
pub struct Credentials {
    pub uid: u32,
    pub gid: u32,
}

impl Credentials {
    /// The superuser.
    pub fn root() -> (credentials: Self)
        ensures
            credentials == (Credentials { uid: 0, gid: 0 }),
    {
        Credentials { uid: 0, gid: 0 }
    }

    /// What every user process starts with.
    pub fn userspace() -> (credentials: Self)
        ensures
            credentials == (Credentials { uid: 1000, gid: 1000 }),
    {
        Credentials { uid: 1000, gid: 1000 }
    }

    pub fn is_root(self) -> (root: bool)
        ensures
            root == (self.uid == 0),
    {
        self.uid == 0
    }
}

/// Whether a process running as `sender` may send to one running as `receiver`:
/// the superuser may send to anyone, others only within their user or group.
pub open spec fn may_ipc(sender: Credentials, receiver: Credentials) -> bool {
    sender.uid == 0 || sender.uid == receiver.uid || sender.gid == receiver.gid
}

fn credentials_may_ipc(sender: Credentials, receiver: Credentials) -> (allowed: bool)
    ensures
        allowed == may_ipc(sender, receiver),
{
    sender.is_root() || sender.uid == receiver.uid || sender.gid == receiver.gid
}

/// Checks the messaging policy on fixed credentials: the superuser reaches a stranger,
/// a user reaches its own user and its own group, and not a stranger.
pub fn credential_policy_valid() -> (valid: bool)
    ensures
        valid,
{
    let root = Credentials::root();
    let user = Credentials::userspace();
    let peer = Credentials { uid: user.uid, gid: 2000 };
    let group_peer = Credentials { uid: 2000, gid: user.gid };
    let stranger = Credentials { uid: 2000, gid: 2000 };
    root.is_root() && !user.is_root() && root != user && credentials_may_ipc(root, stranger)
        && credentials_may_ipc(user, peer) && credentials_may_ipc(user, group_peer)
        && !credentials_may_ipc(user, stranger)
}

/// Whether a process runs or has exited and waits to be reaped.
#[derive(Clone, Copy, PartialEq, Eq, Structural, Debug)]
pub enum ProcessState {
    Ready,
    Exited,
}

/// Scheduling priority: 0 low, 1 normal, 2 high.
#[derive(Clone, Copy, PartialEq, Eq, Structural, Debug)]
pub struct TaskPriority(pub u8);

/// The ticks a task of `priority` runs before it is asked to yield.
pub open spec fn spec_quantum(priority: TaskPriority) -> u8 {
    if priority.0 == 0 {
        1
    } else if priority.0 == 1 {
        2
    } else if priority.0 == 2 {
        4
    } else {
        1
    }
}

impl TaskPriority {
    pub fn low() -> (priority: Self)
        ensures
            priority.0 == 0,
    {
        TaskPriority(0)
    }

    pub fn normal() -> (priority: Self)
        ensures
            priority.0 == 1,
    {
        TaskPriority(1)
    }

    pub fn high() -> (priority: Self)
        ensures
            priority.0 == 2,
    {
        TaskPriority(2)
    }

    pub fn as_u8(self) -> (level: u8)
        ensures
            level == self.0,
    {
        self.0
    }

    fn quantum(self) -> (ticks: u8)
        ensures
            ticks == spec_quantum(self),
    {
        if self.0 == 0 {
            1
        } else if self.0 == 1 {
            2
        } else if self.0 == 2 {
            4
        } else {
            1
        }
    }
}

/// Where a task stands in its life.
#[derive(Clone, Copy, PartialEq, Eq, Structural, Debug)]
pub enum TaskState {
    Empty,
    Ready,
    Running,
    Blocked,
    Sleeping,
    Dead,
}

impl TaskState {
    /// The state's name as the task summary prints it.
    pub fn name(self) -> &'static str {
        match self {
            TaskState::Empty => "empty",
            TaskState::Ready => "ready",
            TaskState::Running => "running",
            TaskState::Blocked => "blocked",
            TaskState::Sleeping => "sleeping",
            TaskState::Dead => "dead",
        }
    }
}

/// Where a user task enters ring 3.
#[derive(Clone, Copy, PartialEq, Eq, Structural, Debug)]
pub struct UserTaskContext {
    pub entry: u64,
    pub stack_top: u64,
    pub code_segment: u16,
    pub data_segment: u16,
}

/// The context that enters a user program at `entry` with its stack at `stack_top`,
/// under the user code and data selectors of the descriptor table.
pub fn prepare_user_context(entry: usize, stack_top: usize, code_segment: u16, data_segment: u16) -> (context: UserTaskContext)
    ensures
        context.entry == entry,
        context.stack_top == stack_top,
        context.code_segment == code_segment,
        context.data_segment == data_segment,
{
    UserTaskContext { entry: entry as u64, stack_top: stack_top as u64, code_segment, data_segment }
}

/// What a process file descriptor refers to: an open VFS file, or an end of a pipe.
#[derive(Clone, Copy, PartialEq, Eq, Structural, Debug)]
pub enum FdKind {
    File(u64),
    PipeRead(usize),
    PipeWrite(usize),
}

#[derive(Clone, Copy, PartialEq, Eq, Structural, Debug)]
pub enum ProcessError {
    Full,
}

#[derive(Clone, Copy, PartialEq, Eq, Structural, Debug)]
pub enum WaitError {
    NoSuchChild,
    StillRunning,
}

#[derive(Clone, Copy, PartialEq, Eq, Structural, Debug)]
pub enum FileError {
    PermissionDenied,
    NoProcess,
    NotFound,
    TooManyFiles,
    BadDescriptor,
    AlreadyExists,
}

#[derive(Clone, Copy, PartialEq, Eq, Structural, Debug)]
pub enum MemoryError {
    NoProcess,
    InvalidLength,
    Full,
    NotFound,
    MappingFailed,
}

#[derive(Clone, Copy, PartialEq, Eq, Structural, Debug)]
pub enum CapabilityError {
    PermissionDenied,
    UnknownTask,
}

#[derive(Clone, Copy, PartialEq, Eq, Structural, Debug)]
pub enum SpawnError {
    Full,
}

/// One slot of the task table.
#[derive(Clone, Copy)]
pub struct Task {
    pub id: TaskId,
    pub name: &'static str,
    pub state: TaskState,
    pub priority: TaskPriority,
    pub capabilities: CapabilitySet,
    pub wake_tick: u64,
    pub user_context: Option<UserTaskContext>,
    /// The page-table root the task runs under, where it has one.
    pub address_space: Option<u64>,
    pub remaining_ticks: u8,
}

/// Whether a task in `state` counts as alive.
pub open spec fn is_live(state: TaskState) -> bool {
    state != TaskState::Empty && state != TaskState::Dead
}

/// The number of live tasks among the first `n` slots.
pub open spec fn live_tasks(tasks: Seq<Task>, n: int) -> nat
    decreases n,
{
    if n <= 0 {
        0
    } else {
        live_tasks(tasks, n - 1) + if is_live(tasks[n - 1].state) {
            1nat
        } else {
            0nat
        }
    }
}

proof fn lemma_live_tasks_bound(tasks: Seq<Task>, n: int)
    requires
        0 <= n,
    ensures
        live_tasks(tasks, n) <= n,
    decreases n,
{
    if n > 0 {
        lemma_live_tasks_bound(tasks, n - 1);
    }
}

proof fn lemma_live_tasks_update(tasks: Seq<Task>, slot: int, task: Task, n: int)
    requires
        0 <= slot < tasks.len(),
        0 <= n <= tasks.len(),
    ensures
        slot < n ==> live_tasks(tasks.update(slot, task), n) + (if is_live(tasks[slot].state) {
            1int
        } else {
            0int
        }) == live_tasks(tasks, n) + (if is_live(task.state) {
            1int
        } else {
            0int
        }),
        slot >= n ==> live_tasks(tasks.update(slot, task), n) == live_tasks(tasks, n),
    decreases n,
{
    if n > 0 {
        lemma_live_tasks_update(tasks, slot, task, n - 1);
    }
}

/// The empty slot: no id, no name, nothing held.
pub open spec fn spec_empty_task() -> Task {
    Task {
        id: TaskId(u64::MAX),
        name: "",
        state: TaskState::Empty,
        priority: TaskPriority(1),
        capabilities: CapabilitySet::spec_empty(),
        wake_tick: 0,
        user_context: None,
        address_space: None,
        remaining_ticks: 0,
    }
}

impl Task {
    pub fn empty() -> (task: Self)
        ensures
            task == spec_empty_task(),
    {
        Task {
            id: TaskId(u64::MAX),
            name: "",
            state: TaskState::Empty,
            priority: TaskPriority(1),
            capabilities: CapabilitySet::empty(),
            wake_tick: 0,
            user_context: None,
            address_space: None,
            remaining_ticks: 0,
        }
    }
}

/// Ways of finding a slot of the task table.
#[derive(Clone, Copy, PartialEq, Eq, Structural, Debug)]
pub enum TaskQuery {
    /// An unused slot.
    Vacant,
    /// The slot of a task in use with this id.
    Live(TaskId),
    /// The slot of the blocked task with this id.
    Blocked(TaskId),
}

pub open spec fn task_matches(task: Task, query: TaskQuery) -> bool {
    match query {
        TaskQuery::Vacant => task.state == TaskState::Empty,
        TaskQuery::Live(id) => task.state != TaskState::Empty && task.id == id,
        TaskQuery::Blocked(id) => task.id == id && task.state == TaskState::Blocked,
    }
}

/// The first slot at or after `from` that answers `query`.
pub open spec fn first_task(tasks: Seq<Task>, query: TaskQuery, from: int) -> Option<int>
    decreases tasks.len() - from,
{
    if from < 0 || from >= tasks.len() {
        None
    } else if task_matches(tasks[from], query) {
        Some(from)
    } else {
        first_task(tasks, query, from + 1)
    }
}

proof fn lemma_first_task(tasks: Seq<Task>, query: TaskQuery, from: int)
    requires
        0 <= from,
    ensures
        first_task(tasks, query, from) matches Some(i) ==> from <= i < tasks.len() && task_matches(
            tasks[i],
            query,
        ),
        first_task(tasks, query, from) is None ==> forall|j: int|
            from <= j < tasks.len() ==> !task_matches(#[trigger] tasks[j], query),
    decreases tasks.len() - from,
{
    if from < tasks.len() {
        lemma_first_task(tasks, query, from + 1);
    }
}

proof fn lemma_first_task_same(before: Seq<Task>, after: Seq<Task>, query: TaskQuery, from: int)
    requires
        0 <= from,
        before.len() == after.len(),
        forall|i: int| 0 <= i < before.len() ==> (#[trigger] after[i]).id == before[i].id && after[i].state == before[i].state,
    ensures
        first_task(after, query, from) == first_task(before, query, from),
    decreases before.len() - from,
{
    if from < before.len() {
        lemma_first_task_same(before, after, query, from + 1);
    }
}

/// A task switch the scheduler decided on: save into `previous`, resume `next`
/// under its address space.
#[derive(Clone, Copy, PartialEq, Eq, Structural, Debug)]
pub struct Switch {
    pub previous: usize,
    pub next: usize,
    pub address_space: u64,
}

/// The task table and the scheduler's counters.
pub struct Scheduler {
    pub tasks: Vec<Task>,
    pub current_slot: usize,
    pub task_count: usize,
    pub context_switches: u64,
    /// The slot last picked at each priority, where round-robin goes on from.
    pub last_selected: [usize; 3],
    pub next_task_id: u64,
    pub preemption_requested: bool,
    pub preemption_switches: u64,
    pub idle_heartbeats: u64,
}

impl Scheduler {
    pub open spec fn wf(&self) -> bool {
        &&& self.tasks@.len() == MAX_TASKS
        &&& self.current_slot < MAX_TASKS
        &&& forall|i: int| 0 <= i < 3 ==> #[trigger] self.last_selected@[i] < MAX_TASKS
        &&& forall|i: int| 0 <= i < MAX_TASKS ==> (#[trigger] self.tasks@[i]).priority.0 <= 2
        &&& self.task_count <= live_tasks(self.tasks@, MAX_TASKS as int)
    }

    /// The task that runs now.
    pub open spec fn current(&self) -> Task {
        self.tasks@[self.current_slot as int]
    }

    /// An empty table, before the bootstrap tasks are in place.
    pub fn new() -> (scheduler: Self)
        ensures
            scheduler.wf(),
            scheduler.task_count == 0,
            scheduler.next_task_id == 2,
            scheduler.current_slot == 0,
            forall|i: int| 0 <= i < MAX_TASKS ==> #[trigger] scheduler.tasks@[i] == spec_empty_task(),
    {
        let mut tasks: Vec<Task> = Vec::new();
        while tasks.len() < MAX_TASKS
            invariant
                tasks@.len() <= MAX_TASKS,
                forall|i: int| 0 <= i < tasks@.len() ==> #[trigger] tasks@[i] == spec_empty_task(),
            decreases MAX_TASKS - tasks@.len(),
        {
            tasks.push(Task::empty());
        }
        Scheduler {
            tasks,
            current_slot: 0,
            task_count: 0,
            context_switches: 0,
            last_selected: [0, 0, 0],
            next_task_id: 2,
            preemption_requested: false,
            preemption_switches: 0,
            idle_heartbeats: 0,
        }
    }

    /// Replaces slot `slot` with `task`.
    fn put(&mut self, slot: usize, task: Task)
        requires
            slot < old(self).tasks@.len(),
            old(self).tasks@.len() == MAX_TASKS,
        ensures
            final(self).tasks@ == old(self).tasks@.update(slot as int, task),
            final(self).current_slot == old(self).current_slot,
            final(self).task_count == old(self).task_count,
            final(self).context_switches == old(self).context_switches,
            final(self).last_selected == old(self).last_selected,
            final(self).next_task_id == old(self).next_task_id,
            final(self).preemption_requested == old(self).preemption_requested,
            final(self).preemption_switches == old(self).preemption_switches,
            final(self).idle_heartbeats == old(self).idle_heartbeats,
            live_tasks(final(self).tasks@, MAX_TASKS as int) + (if is_live(old(self).tasks@[slot as int].state) {
                1int
            } else {
                0int
            }) == live_tasks(old(self).tasks@, MAX_TASKS as int) + (if is_live(task.state) {
                1int
            } else {
                0int
            }),
    {
        proof {
            lemma_live_tasks_update(self.tasks@, slot as int, task, MAX_TASKS as int);
        }
        self.tasks.set(slot, task);
    }

    /// The first slot that answers `query`.
    pub fn find(&self, query: TaskQuery) -> (slot: Option<usize>)
        requires
            self.tasks@.len() == MAX_TASKS,
        ensures
            match slot {
                Some(i) => first_task(self.tasks@, query, 0) == Some(i as int),
                None => first_task(self.tasks@, query, 0) is None,
            },
    {
        let mut i: usize = 0;
        while i < MAX_TASKS
            invariant
                i <= MAX_TASKS,
                self.tasks@.len() == MAX_TASKS,
                first_task(self.tasks@, query, 0) == first_task(self.tasks@, query, i as int),
            decreases MAX_TASKS - i,
        {
            let task = self.tasks[i];
            let hit = match query {
                TaskQuery::Vacant => task.state == TaskState::Empty,
                TaskQuery::Live(id) => task.state != TaskState::Empty && task.id == id,
                TaskQuery::Blocked(id) => task.id == id && task.state == TaskState::Blocked,
            };
            if hit {
                return Some(i);
            }
            i = i + 1;
        }
        None
    }
}

/// Puts the bootstrap kernel task, running at high priority with every capability,
/// into slot 0 and the idle task, ready at low priority, into slot 1.
pub fn init(scheduler: &mut Scheduler, kernel_space: Option<u64>)
    requires
        old(scheduler).wf(),
        old(scheduler).task_count == 0,
    ensures
        final(scheduler).wf(),
        final(scheduler).task_count == 2,
        final(scheduler).tasks@[0].id == TaskId(KERNEL_TASK as u64),
        final(scheduler).tasks@[0].state == TaskState::Running,
        final(scheduler).tasks@[0].priority.0 == 2,
        forall|c: Capability| final(scheduler).tasks@[0].capabilities.has(c),
        final(scheduler).tasks@[1].id == TaskId(IDLE_TASK as u64),
        final(scheduler).tasks@[1].state == TaskState::Ready,
        final(scheduler).tasks@[1].priority.0 == 0,
        final(scheduler).tasks@[1].capabilities == old(scheduler).tasks@[1].capabilities,
        forall|i: int| 2 <= i < MAX_TASKS ==> #[trigger] final(scheduler).tasks@[i] == old(scheduler).tasks@[i],
        final(scheduler).current_slot == old(scheduler).current_slot,
        final(scheduler).next_task_id == old(scheduler).next_task_id,
{
    let high = TaskPriority::high();
    let low = TaskPriority::low();
    let kernel = Task {
        id: TaskId(KERNEL_TASK),
        name: "kernel",
        state: TaskState::Running,
        priority: high,
        capabilities: CapabilitySet::kernel_bootstrap(),
        wake_tick: scheduler.tasks[0].wake_tick,
        user_context: scheduler.tasks[0].user_context,
        address_space: kernel_space,
        remaining_ticks: high.quantum(),
    };
    let idle = Task {
        id: TaskId(IDLE_TASK),
        name: "idle",
        state: TaskState::Ready,
        priority: low,
        capabilities: scheduler.tasks[1].capabilities,
        wake_tick: 0,
        user_context: None,
        address_space: kernel_space,
        remaining_ticks: low.quantum(),
    };
    scheduler.put(0, kernel);
    scheduler.put(1, idle);
    proof {
        lemma_live_tasks_bound(scheduler.tasks@, MAX_TASKS as int);
        reveal_with_fuel(live_tasks, 3);
        assert(live_tasks(scheduler.tasks@, 2) == 2);
        lemma_live_tasks_prefix(scheduler.tasks@, 2, MAX_TASKS as int);
    }
    scheduler.task_count = 2;
}

proof fn lemma_live_tasks_prefix(tasks: Seq<Task>, m: int, n: int)
    requires
        0 <= m <= n,
    ensures
        live_tasks(tasks, m) <= live_tasks(tasks, n),
    decreases n - m,
{
    if m < n {
        lemma_live_tasks_prefix(tasks, m, n - 1);
    }
}

/// A fresh task in slot `slot`: ready, with a full quantum, keeping the capabilities
/// the slot held.
pub open spec fn fresh_task(previous: Task, id: TaskId, name: &'static str, priority: TaskPriority, space: Option<u64>) -> Task {
    Task {
        id,
        name,
        state: TaskState::Ready,
        priority,
        capabilities: previous.capabilities,
        wake_tick: 0,
        user_context: None,
        address_space: space,
        remaining_ticks: spec_quantum(priority),
    }
}

/// Starts a kernel task at normal priority.
pub fn spawn(scheduler: &mut Scheduler, name: &'static str, kernel_space: Option<u64>) -> (result: Result<TaskId, SpawnError>)
    requires
        old(scheduler).wf(),
        old(scheduler).task_count != 0,
    ensures
        final(scheduler).wf(),
        match first_task(old(scheduler).tasks@, TaskQuery::Vacant, 0) {
            None => result == Err::<TaskId, SpawnError>(SpawnError::Full) && *final(scheduler) == *old(scheduler),
            Some(slot) => {
                &&& result == Ok::<TaskId, SpawnError>(TaskId(old(scheduler).next_task_id))
                &&& final(scheduler).tasks@ == old(scheduler).tasks@.update(
                    slot,
                    fresh_task(old(scheduler).tasks@[slot], TaskId(old(scheduler).next_task_id), name, TaskPriority(1), kernel_space),
                )
                &&& final(scheduler).task_count == old(scheduler).task_count + 1
                &&& final(scheduler).next_task_id == old(scheduler).next_task_id.wrapping_add(1)
                &&& final(scheduler).current_slot == old(scheduler).current_slot
            },
        },
{
    spawn_with_priority(scheduler, name, TaskPriority::normal(), kernel_space)
}

/// Starts a kernel task at `priority` in the first free slot; the id is the next
/// one the counter hands out.
pub fn spawn_with_priority(scheduler: &mut Scheduler, name: &'static str, priority: TaskPriority, kernel_space: Option<u64>) -> (result: Result<TaskId, SpawnError>)
    requires
        old(scheduler).wf(),
        old(scheduler).task_count != 0,
        priority.0 <= 2,
    ensures
        final(scheduler).wf(),
        match first_task(old(scheduler).tasks@, TaskQuery::Vacant, 0) {
            None => result == Err::<TaskId, SpawnError>(SpawnError::Full) && *final(scheduler) == *old(scheduler),
            Some(slot) => {
                &&& result == Ok::<TaskId, SpawnError>(TaskId(old(scheduler).next_task_id))
                &&& final(scheduler).tasks@ == old(scheduler).tasks@.update(
                    slot,
                    fresh_task(old(scheduler).tasks@[slot], TaskId(old(scheduler).next_task_id), name, priority, kernel_space),
                )
                &&& final(scheduler).task_count == old(scheduler).task_count + 1
                &&& final(scheduler).next_task_id == old(scheduler).next_task_id.wrapping_add(1)
                &&& final(scheduler).current_slot == old(scheduler).current_slot
                &&& final(scheduler).last_selected == old(scheduler).last_selected
            },
        },
{
    let slot = match scheduler.find(TaskQuery::Vacant) {
        Some(slot) => slot,
        None => return Err(SpawnError::Full),
    };
    proof {
        lemma_first_task(scheduler.tasks@, TaskQuery::Vacant, 0);
        lemma_live_tasks_bound(scheduler.tasks@, MAX_TASKS as int);
    }
    let id = TaskId(scheduler.next_task_id);
    let task = Task {
        id,
        name,
        state: TaskState::Ready,
        priority,
        capabilities: scheduler.tasks[slot].capabilities,
        wake_tick: 0,
        user_context: None,
        address_space: kernel_space,
        remaining_ticks: priority.quantum(),
    };
    scheduler.put(slot, task);
    scheduler.next_task_id = scheduler.next_task_id.wrapping_add(1);
    scheduler.task_count = scheduler.task_count + 1;
    Ok(id)
}

/// Makes the blocked task `id` ready again; false where no blocked task has that id.
pub fn wake_task(scheduler: &mut Scheduler, id: TaskId) -> (woken: bool)
    requires
        old(scheduler).wf(),
    ensures
        final(scheduler).wf(),
        match first_task(old(scheduler).tasks@, TaskQuery::Blocked(id), 0) {
            None => !woken && *final(scheduler) == *old(scheduler),
            Some(slot) => woken && final(scheduler).tasks@ == old(scheduler).tasks@.update(
                slot,
                Task { state: TaskState::Ready, ..old(scheduler).tasks@[slot] },
            ) && final(scheduler).task_count == old(scheduler).task_count
                && final(scheduler).current_slot == old(scheduler).current_slot
                && final(scheduler).next_task_id == old(scheduler).next_task_id,
        },
{
    let slot = match scheduler.find(TaskQuery::Blocked(id)) {
        Some(slot) => slot,
        None => return false,
    };
    proof {
        lemma_first_task(scheduler.tasks@, TaskQuery::Blocked(id), 0);
    }
    let task = Task { state: TaskState::Ready, ..scheduler.tasks[slot] };
    scheduler.put(slot, task);
    true
}

/// The id of the task that runs now.
pub fn current_task_id(scheduler: &Scheduler) -> (id: TaskId)
    requires
        scheduler.wf(),
        scheduler.task_count != 0,
    ensures
        id == scheduler.current().id,
{
    scheduler.tasks[scheduler.current_slot].id
}

/// Whether the task that runs now holds `capability`.
pub fn current_has(scheduler: &Scheduler, capability: Capability) -> (held: bool)
    requires
        scheduler.wf(),
        scheduler.task_count != 0,
    ensures
        held == scheduler.current().capabilities.has(capability),
{
    scheduler.tasks[scheduler.current_slot].capabilities.contains(capability)
}

/// Whether the task `id`, in use, holds `capability`.
pub fn task_has(scheduler: &Scheduler, id: TaskId, capability: Capability) -> (held: bool)
    requires
        scheduler.wf(),
    ensures
        held == match first_task(scheduler.tasks@, TaskQuery::Live(id), 0) {
            Some(slot) => scheduler.tasks@[slot].capabilities.has(capability),
            None => false,
        },
{
    match scheduler.find(TaskQuery::Live(id)) {
        Some(slot) => {
            proof {
                lemma_first_task(scheduler.tasks@, TaskQuery::Live(id), 0);
            }
            scheduler.tasks[slot].capabilities.contains(capability)
        },
        None => false,
    }
}

/// The capabilities the kernel task must hold and the idle task must lack.
pub open spec fn privileged(capability: Capability) -> bool {
    ||| capability == Capability::Console
    ||| capability == Capability::TimerRead
    ||| capability == Capability::TaskInspect
    ||| capability == Capability::TaskControl
    ||| capability == Capability::DeviceIo
    ||| capability == Capability::InterruptControl
    ||| capability == Capability::MemoryInspect
}

/// Whether the kernel task holds every privileged capability and the idle task none.
pub fn capability_policy_valid(scheduler: &Scheduler) -> (valid: bool)
    requires
        scheduler.wf(),
        scheduler.task_count >= 2,
    ensures
        valid == ((forall|c: Capability| privileged(c) ==> scheduler.tasks@[0].capabilities.has(c)) && (forall|
            c: Capability,
        | privileged(c) ==> !scheduler.tasks@[1].capabilities.has(c))),
{
    let kernel = scheduler.tasks[0].capabilities;
    let idle = scheduler.tasks[1].capabilities;
    let kernel_ok = kernel.contains(Capability::Console) && kernel.contains(Capability::TimerRead)
        && kernel.contains(Capability::TaskInspect) && kernel.contains(Capability::TaskControl)
        && kernel.contains(Capability::DeviceIo) && kernel.contains(Capability::InterruptControl)
        && kernel.contains(Capability::MemoryInspect);
    let idle_ok = !idle.contains(Capability::Console) && !idle.contains(Capability::TimerRead)
        && !idle.contains(Capability::TaskInspect) && !idle.contains(Capability::TaskControl)
        && !idle.contains(Capability::DeviceIo) && !idle.contains(Capability::InterruptControl)
        && !idle.contains(Capability::MemoryInspect);
    proof {
        assert(privileged(Capability::Console) && privileged(Capability::TimerRead) && privileged(
            Capability::TaskInspect,
        ) && privileged(Capability::TaskControl) && privileged(Capability::DeviceIo) && privileged(
            Capability::InterruptControl,
        ) && privileged(Capability::MemoryInspect));
    }
    kernel_ok && idle_ok
}

/// The table with every dead task but the current one cleared.
pub open spec fn reaped(tasks: Seq<Task>, current: int) -> Seq<Task> {
    Seq::new(
        tasks.len(),
        |i: int|
            if i != current && tasks[i].state == TaskState::Dead {
                spec_empty_task()
            } else {
                tasks[i]
            },
    )
}

/// The highest priority among the ready tasks of the first `n` slots.
pub open spec fn best_ready(tasks: Seq<Task>, n: int) -> Option<u8>
    decreases n,
{
    if n <= 0 {
        None
    } else {
        let rest = best_ready(tasks, n - 1);
        let task = tasks[n - 1];
        if task.state == TaskState::Ready {
            match rest {
                Some(level) => if level >= task.priority.0 {
                    Some(level)
                } else {
                    Some(task.priority.0)
                },
                None => Some(task.priority.0),
            }
        } else {
            rest
        }
    }
}

proof fn lemma_best_ready(tasks: Seq<Task>, n: int)
    requires
        0 <= n <= tasks.len(),
    ensures
        best_ready(tasks, n) is None ==> forall|j: int| 0 <= j < n ==> #[trigger] tasks[j].state != TaskState::Ready,
        best_ready(tasks, n) matches Some(level) ==> exists|j: int|
            0 <= j < n && #[trigger] tasks[j].state == TaskState::Ready && tasks[j].priority.0 == level,
        best_ready(tasks, n) matches Some(level) ==> forall|j: int|
            0 <= j < n && #[trigger] tasks[j].state == TaskState::Ready ==> tasks[j].priority.0 <= level,
    decreases n,
{
    if n > 0 {
        lemma_best_ready(tasks, n - 1);
        if best_ready(tasks, n - 1) is Some && tasks[n - 1].state == TaskState::Ready {
            let level = best_ready(tasks, n - 1)->0;
            if level < tasks[n - 1].priority.0 {
                assert(tasks[n - 1].state == TaskState::Ready);
            } else {
                let j = choose|j: int|
                    0 <= j < n - 1 && #[trigger] tasks[j].state == TaskState::Ready && tasks[j].priority.0 == level;
                assert(0 <= j < n && tasks[j].state == TaskState::Ready && tasks[j].priority.0 == level);
            }
        }
    }
}

/// Whether slot `slot` holds a ready task at `level`.
pub open spec fn ready_at(tasks: Seq<Task>, slot: int, level: u8) -> bool {
    tasks[slot].state == TaskState::Ready && tasks[slot].priority.0 == level
}

/// Round-robin: the first slot after `start`, wrapping around the table, that holds
/// a ready task at `level`, looking `offset` slots ahead and further.
pub open spec fn rotation_pick(tasks: Seq<Task>, start: int, level: u8, offset: int) -> Option<int>
    decreases MAX_TASKS + 1 - offset,
{
    if offset < 1 || offset > MAX_TASKS {
        None
    } else {
        let slot = (start + offset) % (MAX_TASKS as int);
        if ready_at(tasks, slot, level) {
            Some(slot)
        } else {
            rotation_pick(tasks, start, level, offset + 1)
        }
    }
}

proof fn lemma_rotation_finds(tasks: Seq<Task>, start: int, level: u8, offset: int, ahead: int)
    requires
        1 <= offset <= ahead <= MAX_TASKS,
        ready_at(tasks, (start + ahead) % (MAX_TASKS as int), level),
    ensures
        rotation_pick(tasks, start, level, offset) is Some,
    decreases ahead - offset,
{
    if offset < ahead && !ready_at(tasks, (start + offset) % (MAX_TASKS as int), level) {
        lemma_rotation_finds(tasks, start, level, offset + 1, ahead);
    }
}

proof fn lemma_rotation_result(tasks: Seq<Task>, start: int, level: u8, offset: int)
    requires
        1 <= offset,
    ensures
        rotation_pick(tasks, start, level, offset) matches Some(slot) ==> 0 <= slot < MAX_TASKS
            && ready_at(tasks, slot, level),
    decreases MAX_TASKS + 1 - offset,
{
    if offset <= MAX_TASKS {
        lemma_rotation_result(tasks, start, level, offset + 1);
    }
}

/// The table after switching from slot `previous` to slot `next`: a running
/// predecessor goes back to ready, and `next` runs with a full quantum.
pub open spec fn switched(tasks: Seq<Task>, previous: int, next: int) -> Seq<Task> {
    let demoted = if tasks[previous].state == TaskState::Running {
        tasks.update(previous, Task { state: TaskState::Ready, ..tasks[previous] })
    } else {
        tasks
    };
    demoted.update(
        next,
        Task {
            state: TaskState::Running,
            remaining_ticks: spec_quantum(demoted[next].priority),
            ..demoted[next]
        },
    )
}

impl Scheduler {
    /// Clears every dead task but the current one.
    fn reap_dead(&mut self)
        requires
            old(self).wf(),
        ensures
            final(self).wf(),
            final(self).tasks@ == reaped(old(self).tasks@, old(self).current_slot as int),
            final(self).current_slot == old(self).current_slot,
            final(self).task_count == old(self).task_count,
            final(self).context_switches == old(self).context_switches,
            final(self).last_selected == old(self).last_selected,
            final(self).next_task_id == old(self).next_task_id,
            final(self).preemption_requested == old(self).preemption_requested,
            final(self).preemption_switches == old(self).preemption_switches,
            final(self).idle_heartbeats == old(self).idle_heartbeats,
    {
        let ghost original = self.tasks@;
        let mut slot: usize = 0;
        while slot < MAX_TASKS
            invariant
                slot <= MAX_TASKS,
                self.wf(),
                self.current_slot == old(self).current_slot,
                self.task_count == old(self).task_count,
                self.context_switches == old(self).context_switches,
                self.last_selected == old(self).last_selected,
                self.next_task_id == old(self).next_task_id,
                self.preemption_requested == old(self).preemption_requested,
                self.preemption_switches == old(self).preemption_switches,
                self.idle_heartbeats == old(self).idle_heartbeats,
                original == old(self).tasks@,
                original.len() == MAX_TASKS,
                forall|i: int| 0 <= i < slot ==> #[trigger] self.tasks@[i] == reaped(original, self.current_slot as int)[i],
                forall|i: int| slot <= i < MAX_TASKS ==> #[trigger] self.tasks@[i] == original[i],
            decreases MAX_TASKS - slot,
        {
            let ghost before = self.tasks@;
            if slot != self.current_slot && self.tasks[slot].state == TaskState::Dead {
                self.put(slot, Task::empty());
            }
            proof {
                assert forall|i: int| 0 <= i < slot + 1 implies #[trigger] self.tasks@[i] == reaped(
                    original,
                    self.current_slot as int,
                )[i] by {
                    if i < slot {
                        assert(before[i] == reaped(original, self.current_slot as int)[i]);
                    }
                }
                assert forall|i: int| slot + 1 <= i < MAX_TASKS implies #[trigger] self.tasks@[i] == original[i] by {
                    assert(before[i] == original[i]);
                }
            }
            slot = slot + 1;
        }
        assert(self.tasks@ =~= reaped(original, self.current_slot as int));
    }

    /// The highest priority among ready tasks.
    fn best_ready_priority(&self) -> (level: Option<u8>)
        requires
            self.tasks@.len() == MAX_TASKS,
        ensures
            level == best_ready(self.tasks@, MAX_TASKS as int),
    {
        let mut best: Option<u8> = None;
        let mut i: usize = 0;
        while i < MAX_TASKS
            invariant
                i <= MAX_TASKS,
                self.tasks@.len() == MAX_TASKS,
                best == best_ready(self.tasks@, i as int),
            decreases MAX_TASKS - i,
        {
            let task = self.tasks[i];
            if task.state == TaskState::Ready {
                best = match best {
                    Some(level) => if level >= task.priority.0 {
                        Some(level)
                    } else {
                        Some(task.priority.0)
                    },
                    None => Some(task.priority.0),
                };
            }
            i = i + 1;
        }
        best
    }

    /// Round-robin search from `start` for a ready task at `level`.
    fn pick(&self, start: usize, level: u8) -> (slot: Option<usize>)
        requires
            self.tasks@.len() == MAX_TASKS,
            start < MAX_TASKS,
        ensures
            match slot {
                Some(s) => rotation_pick(self.tasks@, start as int, level, 1) == Some(s as int),
                None => rotation_pick(self.tasks@, start as int, level, 1) is None,
            },
    {
        let mut offset: usize = 1;
        while offset <= MAX_TASKS
            invariant
                1 <= offset <= MAX_TASKS + 1,
                start < MAX_TASKS,
                self.tasks@.len() == MAX_TASKS,
                rotation_pick(self.tasks@, start as int, level, 1) == rotation_pick(
                    self.tasks@,
                    start as int,
                    level,
                    offset as int,
                ),
            decreases MAX_TASKS + 1 - offset,
        {
            let slot = (start + offset) % MAX_TASKS;
            if self.tasks[slot].state == TaskState::Ready && self.tasks[slot].priority.0 == level {
                return Some(slot);
            }
            offset = offset + 1;
        }
        None
    }

    /// Decides the next task to run: reaps the dead, takes the highest priority that
    /// has a ready task, and goes round-robin within it from the slot last picked
    /// there. The chosen task runs and a running predecessor becomes ready.
    pub fn prepare_switch(&mut self) -> (switch: Option<Switch>)
        requires
            old(self).wf(),
        ensures
            final(self).wf(),
            final(self).task_count == old(self).task_count,
            final(self).next_task_id == old(self).next_task_id,
            final(self).preemption_requested == old(self).preemption_requested,
            final(self).preemption_switches == old(self).preemption_switches,
            final(self).idle_heartbeats == old(self).idle_heartbeats,
            ({
                let cleared = reaped(old(self).tasks@, old(self).current_slot as int);
                match best_ready(cleared, MAX_TASKS as int) {
                    None => {
                        &&& switch is None
                        &&& final(self).tasks@ == cleared
                        &&& final(self).current_slot == old(self).current_slot
                        &&& final(self).context_switches == old(self).context_switches
                        &&& final(self).last_selected == old(self).last_selected
                    },
                    Some(level) => {
                        let start = old(self).last_selected@[level as int] as int;
                        let next = rotation_pick(cleared, start, level, 1)->0;
                        let tasks = switched(cleared, old(self).current_slot as int, next);
                        &&& rotation_pick(cleared, start, level, 1) is Some
                        &&& final(self).tasks@ == tasks
                        &&& final(self).current_slot == next
                        &&& final(self).context_switches == old(self).context_switches.wrapping_add(1)
                        &&& final(self).last_selected@ == old(self).last_selected@.update(level as int, next as usize)
                        &&& switch == match tasks[next].address_space {
                            Some(space) => Some(
                                Switch { previous: old(self).current_slot, next: next as usize, address_space: space },
                            ),
                            None => None,
                        }
                    },
                }
            }),
    {
        self.reap_dead();
        let level = match self.best_ready_priority() {
            Some(level) => level,
            None => return None,
        };
        proof {
            lemma_best_ready(self.tasks@, MAX_TASKS as int);
        }
        let index = level as usize;
        let start = self.last_selected[index];
        proof {
            let j = choose|j: int|
                0 <= j < MAX_TASKS && #[trigger] self.tasks@[j].state == TaskState::Ready
                    && self.tasks@[j].priority.0 == level;
            let ahead = if j > start as int {
                j - start
            } else {
                j - start + MAX_TASKS
            };
            assert((start + ahead) % (MAX_TASKS as int) == j);
            lemma_rotation_finds(self.tasks@, start as int, level, 1, ahead);
            lemma_rotation_result(self.tasks@, start as int, level, 1);
        }
        let next = match self.pick(start, level) {
            Some(next) => next,
            None => return None,
        };
        self.last_selected[index] = next;
        let previous = self.current_slot;
        if self.tasks[previous].state == TaskState::Running {
            let demoted = Task { state: TaskState::Ready, ..self.tasks[previous] };
            self.put(previous, demoted);
        }
        let chosen = self.tasks[next];
        let running = Task { state: TaskState::Running, remaining_ticks: chosen.priority.quantum(), ..chosen };
        self.put(next, running);
        self.current_slot = next;
        self.context_switches = self.context_switches.wrapping_add(1);
        match self.tasks[next].address_space {
            Some(space) => Some(Switch { previous, next, address_space: space }),
            None => None,
        }
    }

    /// Makes ready every sleeping task whose wake tick is at most `now`.
    fn wake_sleeping(&mut self, now: u64)
        requires
            old(self).wf(),
        ensures
            final(self).wf(),
            final(self).tasks@ == awakened(old(self).tasks@, now),
            final(self).current_slot == old(self).current_slot,
            final(self).task_count == old(self).task_count,
            final(self).context_switches == old(self).context_switches,
            final(self).last_selected == old(self).last_selected,
            final(self).next_task_id == old(self).next_task_id,
            final(self).preemption_requested == old(self).preemption_requested,
            final(self).preemption_switches == old(self).preemption_switches,
            final(self).idle_heartbeats == old(self).idle_heartbeats,
    {
        let ghost original = self.tasks@;
        let mut slot: usize = 0;
        while slot < MAX_TASKS
            invariant
                slot <= MAX_TASKS,
                self.wf(),
                self.current_slot == old(self).current_slot,
                self.task_count == old(self).task_count,
                self.context_switches == old(self).context_switches,
                self.last_selected == old(self).last_selected,
                self.next_task_id == old(self).next_task_id,
                self.preemption_requested == old(self).preemption_requested,
                self.preemption_switches == old(self).preemption_switches,
                self.idle_heartbeats == old(self).idle_heartbeats,
                original == old(self).tasks@,
                original.len() == MAX_TASKS,
                forall|i: int| 0 <= i < slot ==> #[trigger] self.tasks@[i] == awakened(original, now)[i],
                forall|i: int| slot <= i < MAX_TASKS ==> #[trigger] self.tasks@[i] == original[i],
            decreases MAX_TASKS - slot,
        {
            let ghost before = self.tasks@;
            let task = self.tasks[slot];
            if task.state == TaskState::Sleeping && task.wake_tick <= now {
                self.put(slot, Task { state: TaskState::Ready, wake_tick: 0, ..task });
            }
            proof {
                assert forall|i: int| 0 <= i < slot + 1 implies #[trigger] self.tasks@[i] == awakened(original, now)[i] by {
                    if i < slot {
                        assert(before[i] == awakened(original, now)[i]);
                    }
                }
                assert forall|i: int| slot + 1 <= i < MAX_TASKS implies #[trigger] self.tasks@[i] == original[i] by {
                    assert(before[i] == original[i]);
                }
            }
            slot = slot + 1;
        }
        assert(self.tasks@ =~= awakened(original, now));
    }
}

/// The table with every sleeping task due by `now` made ready.
pub open spec fn awakened(tasks: Seq<Task>, now: u64) -> Seq<Task> {
    Seq::new(
        tasks.len(),
        |i: int|
            if tasks[i].state == TaskState::Sleeping && tasks[i].wake_tick <= now {
                Task { state: TaskState::Ready, wake_tick: 0, ..tasks[i] }
            } else {
                tasks[i]
            },
    )
}

/// One timer tick at time `now`: wakes the sleepers that are due, then charges the
/// running task one tick of its quantum and asks for preemption when it is used up.
pub fn tick(scheduler: &mut Scheduler, now: u64)
    requires
        old(scheduler).wf(),
    ensures
        final(scheduler).wf(),
        final(scheduler).current_slot == old(scheduler).current_slot,
        final(scheduler).task_count == old(scheduler).task_count,
        ({
            let woke = awakened(old(scheduler).tasks@, now);
            let slot = old(scheduler).current_slot as int;
            let task = woke[slot];
            if task.state != TaskState::Running {
                &&& final(scheduler).tasks@ == woke
                &&& final(scheduler).preemption_requested == old(scheduler).preemption_requested
            } else if task.remaining_ticks > 1 {
                &&& final(scheduler).tasks@ == woke.update(
                    slot,
                    Task { remaining_ticks: (task.remaining_ticks - 1) as u8, ..task },
                )
                &&& final(scheduler).preemption_requested == old(scheduler).preemption_requested
            } else {
                &&& final(scheduler).tasks@ == woke.update(slot, Task { remaining_ticks: 0, ..task })
                &&& final(scheduler).preemption_requested
            }
        }),
{
    scheduler.wake_sleeping(now);
    let slot = scheduler.current_slot;
    let task = scheduler.tasks[slot];
    if task.state != TaskState::Running {
        return;
    }
    if task.remaining_ticks > 1 {
        scheduler.put(slot, Task { remaining_ticks: task.remaining_ticks - 1, ..task });
    } else {
        scheduler.put(slot, Task { remaining_ticks: 0, ..task });
        scheduler.preemption_requested = true;
    }
}

/// At a preemption point, switches away when a tick asked for it and clears the
/// request; otherwise leaves everything as it is.
pub fn preemption_point(scheduler: &mut Scheduler) -> (switch: Option<Switch>)
    requires
        old(scheduler).wf(),
        old(scheduler).task_count != 0,
    ensures
        final(scheduler).wf(),
        !old(scheduler).preemption_requested ==> switch is None && *final(scheduler) == *old(scheduler),
        old(scheduler).preemption_requested ==> !final(scheduler).preemption_requested,
        final(scheduler).task_count == old(scheduler).task_count,
{
    if !scheduler.preemption_requested {
        return None;
    }
    let switch = scheduler.prepare_switch();
    scheduler.preemption_requested = false;
    switch
}

/// The number of tasks among the first `n` slots whose state `counted` accepts.
pub open spec fn count_tasks(tasks: Seq<Task>, n: int, waiting: bool) -> nat
    decreases n,
{
    if n <= 0 {
        0
    } else {
        let state = tasks[n - 1].state;
        let hit = if waiting {
            state == TaskState::Blocked || state == TaskState::Sleeping
        } else {
            state == TaskState::Ready
        };
        count_tasks(tasks, n - 1, waiting) + if hit {
            1nat
        } else {
            0nat
        }
    }
}

proof fn lemma_count_tasks_bound(tasks: Seq<Task>, n: int, waiting: bool)
    requires
        0 <= n,
    ensures
        count_tasks(tasks, n, waiting) <= n,
    decreases n,
{
    if n > 0 {
        lemma_count_tasks_bound(tasks, n - 1, waiting);
    }
}

/// A snapshot of the scheduler for diagnostics.
pub struct Summary {
    pub task_count: usize,
    pub ready_tasks: usize,
    pub blocked_tasks: usize,
    pub current_id: TaskId,
    pub current_name: &'static str,
    pub current_state: &'static str,
    pub current_priority: u8,
    pub context_switches: u64,
    pub preemption_switches: u64,
    pub idle_heartbeats: u64,
}

fn count_in(scheduler: &Scheduler, waiting: bool) -> (count: usize)
    requires
        scheduler.wf(),
    ensures
        count == count_tasks(scheduler.tasks@, MAX_TASKS as int, waiting),
{
    let mut count: usize = 0;
    let mut i: usize = 0;
    while i < MAX_TASKS
        invariant
            i <= MAX_TASKS,
            scheduler.wf(),
            count == count_tasks(scheduler.tasks@, i as int, waiting),
        decreases MAX_TASKS - i,
    {
        proof {
            lemma_count_tasks_bound(scheduler.tasks@, i as int, waiting);
        }
        let state = scheduler.tasks[i].state;
        let hit = if waiting {
            state == TaskState::Blocked || state == TaskState::Sleeping
        } else {
            state == TaskState::Ready
        };
        if hit {
            count = count + 1;
        }
        i = i + 1;
    }
    count
}

/// Counts ready and waiting tasks and describes the running one.
pub fn summary(scheduler: &Scheduler) -> (summary: Summary)
    requires
        scheduler.wf(),
        scheduler.task_count != 0,
        scheduler.current().state == TaskState::Running,
    ensures
        summary.task_count == scheduler.task_count,
        summary.ready_tasks == count_tasks(scheduler.tasks@, MAX_TASKS as int, false),
        summary.blocked_tasks == count_tasks(scheduler.tasks@, MAX_TASKS as int, true),
        summary.current_id == scheduler.current().id,
        summary.current_name == scheduler.current().name,
        summary.current_priority == scheduler.current().priority.0,
        summary.context_switches == scheduler.context_switches,
        summary.preemption_switches == scheduler.preemption_switches,
        summary.idle_heartbeats == scheduler.idle_heartbeats,
{
    let task = scheduler.tasks[scheduler.current_slot];
    Summary {
        task_count: scheduler.task_count,
        ready_tasks: count_in(scheduler, false),
        blocked_tasks: count_in(scheduler, true),
        current_id: task.id,
        current_name: task.name,
        current_state: task.state.name(),
        current_priority: task.priority.as_u8(),
        context_switches: scheduler.context_switches,
        preemption_switches: scheduler.preemption_switches,
        idle_heartbeats: scheduler.idle_heartbeats,
    }
}

/// An anonymous memory mapping of a process.
#[derive(Clone, Copy, PartialEq, Eq, Structural, Debug)]
pub struct AnonymousMapping {
    pub address: u64,
    pub size: usize,
    pub writable: bool,
}

/// An error of the VFS as the process layer tells them apart.
#[derive(Clone, Copy, PartialEq, Eq, Structural, Debug)]
pub enum VfsError {
    NotFound,
    AlreadyExists,
    Full,
    ReadOnly,
    Other,
}

/// What the process layer asks of the file system and of the memory manager.
///
/// Nothing is assumed of the answers: every function below is verified for any
/// implementation.
pub trait Services {
    type Stat;
    type DirEntry;

    /// Opens the file at `path`, giving its open-file id.
    fn open_file(&mut self, path: &[u8]) -> Option<u64>;

    /// Creates an empty file at `path`.
    fn create_file(&mut self, path: &[u8]) -> bool;

    /// Shares open file `id` once more, giving the id the new descriptor uses.
    fn clone_file(&mut self, id: u64) -> Option<u64>;

    /// Drops one reference to open file `id`.
    fn close_file(&mut self, id: u64);

    fn read_file(&mut self, id: u64, buffer: &mut [u8]) -> Option<usize>;

    fn write_file(&mut self, id: u64, buffer: &[u8]) -> Option<usize>;

    fn seek_file(&mut self, id: u64, offset: usize) -> Option<usize>;

    fn stat(&mut self, path: &[u8]) -> Option<Self::Stat>;

    fn is_directory(&mut self, path: &[u8]) -> bool;

    fn read_directory(&mut self, path: &[u8], index: usize) -> Option<Self::DirEntry>;

    fn make_directory(&mut self, path: &[u8]) -> Result<(), VfsError>;

    fn remove(&mut self, path: &[u8]) -> Result<(), VfsError>;

    fn rename(&mut self, old_path: &[u8], new_path: &[u8]) -> Result<(), VfsError>;

    /// Copies address space `source`, with its mappings, for a forked child.
    fn clone_space(&mut self, source: u64, mappings: &[Option<AnonymousMapping>; 16]) -> Option<u64>;

    /// Frees address space `space` and its mappings.
    fn destroy_space(&mut self, space: u64, mappings: &[Option<AnonymousMapping>; 16]);

    fn map_anonymous(&mut self, space: u64, slot: usize, size: usize, writable: bool) -> Option<AnonymousMapping>;

    fn unmap_anonymous(&mut self, space: u64, mapping: AnonymousMapping) -> bool;
}

/// One slot of the process table.
#[derive(Clone, Copy)]
pub struct Process {
    pub id: ProcessId,
    pub task_id: TaskId,
    pub state: ProcessState,
    pub parent: ProcessId,
    pub credentials: Credentials,
    pub exit_code: i32,
    pub address_space: Option<u64>,
    pub files: [Option<FdKind>; 16],
    pub memory_mappings: [Option<AnonymousMapping>; 16],
    pub cwd: [u8; 128],
    pub cwd_len: usize,
    pub pending_signal: u64,
}

/// Ways of finding a slot of the process table.
#[derive(Clone, Copy, PartialEq, Eq, Structural, Debug)]
pub enum ProcessQuery {
    Vacant,
    /// The process that task runs.
    Task(TaskId),
    Id(ProcessId),
    /// `child`, provided its parent is `parent`.
    Child(ProcessId, ProcessId),
}

pub open spec fn process_matches(slot: Option<Process>, query: ProcessQuery) -> bool {
    match query {
        ProcessQuery::Vacant => slot is None,
        ProcessQuery::Task(task) => slot matches Some(p) && p.task_id == task,
        ProcessQuery::Id(id) => slot matches Some(p) && p.id == id,
        ProcessQuery::Child(child, parent) => slot matches Some(p) && p.id == child && p.parent == parent,
    }
}

/// The first slot at or after `from` that answers `query`.
pub open spec fn first_process(slots: Seq<Option<Process>>, query: ProcessQuery, from: int) -> Option<int>
    decreases slots.len() - from,
{
    if from < 0 || from >= slots.len() {
        None
    } else if process_matches(slots[from], query) {
        Some(from)
    } else {
        first_process(slots, query, from + 1)
    }
}

proof fn lemma_first_process(slots: Seq<Option<Process>>, query: ProcessQuery, from: int)
    requires
        0 <= from,
    ensures
        first_process(slots, query, from) matches Some(i) ==> from <= i < slots.len() && process_matches(
            slots[i],
            query,
        ),
        first_process(slots, query, from) is None ==> forall|j: int|
            from <= j < slots.len() ==> !process_matches(#[trigger] slots[j], query),
    decreases slots.len() - from,
{
    if from < slots.len() {
        lemma_first_process(slots, query, from + 1);
    }
}

/// The process table.
pub struct ProcessTable {
    pub slots: Vec<Option<Process>>,
    pub next_process_id: u64,
}

impl ProcessTable {
    pub open spec fn wf(&self) -> bool {
        &&& self.slots@.len() == MAX_PROCESSES
        &&& forall|i: int| 0 <= i < MAX_PROCESSES && (#[trigger] self.slots@[i]) is Some ==> self.slots@[i]->0.cwd_len <= MAX_PATH_SIZE
    }

    /// The process in slot `slot`.
    pub open spec fn at(&self, slot: int) -> Process {
        self.slots@[slot]->0
    }

    pub open spec fn lookup(&self, query: ProcessQuery) -> Option<int> {
        first_process(self.slots@, query, 0)
    }

    /// An empty table; the first process gets id 1.
    pub fn new() -> (table: Self)
        ensures
            table.wf(),
            table.next_process_id == 1,
            forall|i: int| 0 <= i < MAX_PROCESSES ==> #[trigger] table.slots@[i] is None,
    {
        let mut slots: Vec<Option<Process>> = Vec::new();
        while slots.len() < MAX_PROCESSES
            invariant
                slots@.len() <= MAX_PROCESSES,
                forall|i: int| 0 <= i < slots@.len() ==> #[trigger] slots@[i] is None,
            decreases MAX_PROCESSES - slots@.len(),
        {
            slots.push(None);
        }
        ProcessTable { slots, next_process_id: 1 }
    }

    /// The first slot that answers `query`.
    pub fn find(&self, query: ProcessQuery) -> (slot: Option<usize>)
        requires
            self.wf(),
        ensures
            match slot {
                Some(i) => self.lookup(query) == Some(i as int),
                None => self.lookup(query) is None,
            },
            slot matches Some(i) ==> i < MAX_PROCESSES && process_matches(self.slots@[i as int], query),
    {
        proof {
            lemma_first_process(self.slots@, query, 0);
        }
        let mut i: usize = 0;
        while i < MAX_PROCESSES
            invariant
                i <= MAX_PROCESSES,
                self.wf(),
                first_process(self.slots@, query, 0) == first_process(self.slots@, query, i as int),
            decreases MAX_PROCESSES - i,
        {
            let hit = match self.slots[i] {
                None => query == ProcessQuery::Vacant,
                Some(p) => match query {
                    ProcessQuery::Vacant => false,
                    ProcessQuery::Task(task) => p.task_id == task,
                    ProcessQuery::Id(id) => p.id == id,
                    ProcessQuery::Child(child, parent) => p.id == child && p.parent == parent,
                },
            };
            if hit {
                return Some(i);
            }
            i = i + 1;
        }
        None
    }
}

/// The id of the process the current task runs, or the task's own id for a kernel
/// task.
pub open spec fn spec_current_process_id(scheduler: &Scheduler, processes: &ProcessTable) -> u64 {
    match processes.lookup(ProcessQuery::Task(scheduler.current().id)) {
        Some(slot) => processes.at(slot).id.0,
        None => scheduler.current().id.0,
    }
}

pub fn current_process_id(scheduler: &Scheduler, processes: &ProcessTable) -> (id: u64)
    requires
        scheduler.wf(),
        scheduler.task_count != 0,
        processes.wf(),
    ensures
        id == spec_current_process_id(scheduler, processes),
{
    let task = current_task_id(scheduler);
    match processes.find(ProcessQuery::Task(task)) {
        Some(slot) => match processes.slots[slot] {
            Some(p) => p.id.0,
            None => task.0,
        },
        None => task.0,
    }
}

/// Whether process `id` has exited.
pub fn process_exited(processes: &ProcessTable, id: ProcessId) -> (exited: bool)
    requires
        processes.wf(),
    ensures
        exited == match processes.lookup(ProcessQuery::Id(id)) {
            Some(slot) => processes.at(slot).state == ProcessState::Exited,
            None => false,
        },
{
    match processes.find(ProcessQuery::Id(id)) {
        Some(slot) => match processes.slots[slot] {
            Some(p) => p.state == ProcessState::Exited,
            None => false,
        },
        None => false,
    }
}

/// The credentials of the current task's process; a kernel task runs as the superuser.
pub open spec fn spec_current_credentials(scheduler: &Scheduler, processes: &ProcessTable) -> Credentials {
    match processes.lookup(ProcessQuery::Task(scheduler.current().id)) {
        Some(slot) => processes.at(slot).credentials,
        None => Credentials { uid: 0, gid: 0 },
    }
}

pub fn current_credentials(scheduler: &Scheduler, processes: &ProcessTable) -> (credentials: Credentials)
    requires
        scheduler.wf(),
        scheduler.task_count != 0,
        processes.wf(),
    ensures
        credentials == spec_current_credentials(scheduler, processes),
{
    let task = current_task_id(scheduler);
    match processes.find(ProcessQuery::Task(task)) {
        Some(slot) => match processes.slots[slot] {
            Some(p) => p.credentials,
            None => Credentials::root(),
        },
        None => Credentials::root(),
    }
}

/// The credentials of process `id`.
pub fn process_credentials(processes: &ProcessTable, id: ProcessId) -> (credentials: Option<Credentials>)
    requires
        processes.wf(),
    ensures
        credentials == match processes.lookup(ProcessQuery::Id(id)) {
            Some(slot) => Some(processes.at(slot).credentials),
            None => None,
        },
{
    match processes.find(ProcessQuery::Id(id)) {
        Some(slot) => match processes.slots[slot] {
            Some(p) => Some(p.credentials),
            None => None,
        },
        None => None,
    }
}

/// Whether the current process may send to process `receiver`.
pub fn may_ipc_with(scheduler: &Scheduler, processes: &ProcessTable, receiver: u64) -> (allowed: bool)
    requires
        scheduler.wf(),
        scheduler.task_count != 0,
        processes.wf(),
    ensures
        allowed == match processes.lookup(ProcessQuery::Id(ProcessId(receiver))) {
            Some(slot) => may_ipc(spec_current_credentials(scheduler, processes), processes.at(slot).credentials),
            None => false,
        },
{
    let sender = current_credentials(scheduler, processes);
    match process_credentials(processes, ProcessId(receiver)) {
        Some(target) => credentials_may_ipc(sender, target),
        None => false,
    }
}

/// The number of processes among the first `n` slots that `counted` accepts:
/// exited ones when `exited`, running ones otherwise.
pub open spec fn count_processes(slots: Seq<Option<Process>>, n: int, exited: bool) -> nat
    decreases n,
{
    if n <= 0 {
        0
    } else {
        count_processes(slots, n - 1, exited) + if slots[n - 1] matches Some(p) && (p.state
            == ProcessState::Exited) == exited {
            1nat
        } else {
            0nat
        }
    }
}

proof fn lemma_count_processes_bound(slots: Seq<Option<Process>>, n: int, exited: bool)
    requires
        0 <= n,
    ensures
        count_processes(slots, n, exited) <= n,
    decreases n,
{
    if n > 0 {
        lemma_count_processes_bound(slots, n - 1, exited);
    }
}

fn count_by_state(processes: &ProcessTable, exited: bool) -> (count: usize)
    requires
        processes.wf(),
    ensures
        count == count_processes(processes.slots@, MAX_PROCESSES as int, exited),
{
    let mut count: usize = 0;
    let mut i: usize = 0;
    while i < MAX_PROCESSES
        invariant
            i <= MAX_PROCESSES,
            processes.wf(),
            count == count_processes(processes.slots@, i as int, exited),
        decreases MAX_PROCESSES - i,
    {
        proof {
            lemma_count_processes_bound(processes.slots@, i as int, exited);
        }
        match processes.slots[i] {
            Some(p) => {
                if (p.state == ProcessState::Exited) == exited {
                    count = count + 1;
                }
            },
            None => {},
        }
        i = i + 1;
    }
    count
}

/// Exited processes not yet reaped.
pub fn zombie_count(processes: &ProcessTable) -> (count: usize)
    requires
        processes.wf(),
    ensures
        count == count_processes(processes.slots@, MAX_PROCESSES as int, true),
{
    count_by_state(processes, true)
}

/// Processes that have not exited.
pub fn process_count(processes: &ProcessTable) -> (count: usize)
    requires
        processes.wf(),
    ensures
        count == count_processes(processes.slots@, MAX_PROCESSES as int, false),
{
    count_by_state(processes, false)
}

/// The number of `Some` entries among the first `n` of `entries`.
pub open spec fn occupied<T>(entries: Seq<Option<T>>, n: int) -> nat
    decreases n,
{
    if n <= 0 {
        0
    } else {
        occupied(entries, n - 1) + if entries[n - 1] is Some {
            1nat
        } else {
            0nat
        }
    }
}

proof fn lemma_occupied_bound<T>(entries: Seq<Option<T>>, n: int)
    requires
        0 <= n,
    ensures
        occupied(entries, n) <= n,
    decreases n,
{
    if n > 0 {
        lemma_occupied_bound(entries, n - 1);
    }
}

/// Open descriptors (`files`) or anonymous mappings over all processes among the
/// first `n` slots.
pub open spec fn table_total(slots: Seq<Option<Process>>, n: int, files: bool) -> nat
    decreases n,
{
    if n <= 0 {
        0
    } else {
        table_total(slots, n - 1, files) + match slots[n - 1] {
            Some(p) => if files {
                occupied(p.files@, MAX_FILE_DESCRIPTORS as int)
            } else {
                occupied(p.memory_mappings@, MAX_ANONYMOUS_MAPPINGS as int)
            },
            None => 0nat,
        }
    }
}

proof fn lemma_table_total_bound(slots: Seq<Option<Process>>, n: int, files: bool)
    requires
        0 <= n,
    ensures
        table_total(slots, n, files) <= n * 16,
    decreases n,
{
    if n > 0 {
        lemma_table_total_bound(slots, n - 1, files);
        match slots[n - 1] {
            Some(p) => {
                lemma_occupied_bound(p.files@, 16);
                lemma_occupied_bound(p.memory_mappings@, 16);
            },
            None => {},
        }
    }
}

fn count_files(files: &[Option<FdKind>; 16]) -> (count: usize)
    ensures
        count == occupied(files@, 16),
{
    let mut count: usize = 0;
    let mut i: usize = 0;
    while i < 16
        invariant
            i <= 16,
            count == occupied(files@, i as int),
        decreases 16 - i,
    {
        proof {
            lemma_occupied_bound(files@, i as int);
        }
        if files[i].is_some() {
            count = count + 1;
        }
        i = i + 1;
    }
    count
}

fn count_mappings(mappings: &[Option<AnonymousMapping>; 16]) -> (count: usize)
    ensures
        count == occupied(mappings@, 16),
{
    let mut count: usize = 0;
    let mut i: usize = 0;
    while i < 16
        invariant
            i <= 16,
            count == occupied(mappings@, i as int),
        decreases 16 - i,
    {
        proof {
            lemma_occupied_bound(mappings@, i as int);
        }
        if mappings[i].is_some() {
            count = count + 1;
        }
        i = i + 1;
    }
    count
}

fn table_count(processes: &ProcessTable, files: bool) -> (count: usize)
    requires
        processes.wf(),
    ensures
        count == table_total(processes.slots@, MAX_PROCESSES as int, files),
{
    let mut count: usize = 0;
    let mut i: usize = 0;
    while i < MAX_PROCESSES
        invariant
            i <= MAX_PROCESSES,
            processes.wf(),
            count == table_total(processes.slots@, i as int, files),
        decreases MAX_PROCESSES - i,
    {
        proof {
            lemma_table_total_bound(processes.slots@, i as int + 1, files);
        }
        match processes.slots[i] {
            Some(p) => {
                let here = if files {
                    count_files(&p.files)
                } else {
                    count_mappings(&p.memory_mappings)
                };
                count = count + here;
            },
            None => {},
        }
        i = i + 1;
    }
    count
}

/// Open descriptors over every process.
pub fn open_file_count(processes: &ProcessTable) -> (count: usize)
    requires
        processes.wf(),
    ensures
        count == table_total(processes.slots@, MAX_PROCESSES as int, true),
{
    table_count(processes, true)
}

/// Anonymous mappings over every process.
pub fn anonymous_mapping_count(processes: &ProcessTable) -> (count: usize)
    requires
        processes.wf(),
    ensures
        count == table_total(processes.slots@, MAX_PROCESSES as int, false),
{
    table_count(processes, false)
}

/// The parent of the current process; 0 for a kernel task.
pub fn getppid_current(scheduler: &Scheduler, processes: &ProcessTable) -> (parent: u64)
    requires
        scheduler.wf(),
        scheduler.task_count != 0,
        processes.wf(),
    ensures
        parent == match processes.lookup(ProcessQuery::Task(scheduler.current().id)) {
            Some(slot) => processes.at(slot).parent.0,
            None => 0,
        },
{
    let task = current_task_id(scheduler);
    match processes.find(ProcessQuery::Task(task)) {
        Some(slot) => match processes.slots[slot] {
            Some(p) => p.parent.0,
            None => 0,
        },
        None => 0,
    }
}

/// `tasks` once the blocked task `id`, if any, is ready again.
pub open spec fn woken_one(tasks: Seq<Task>, id: TaskId) -> Seq<Task> {
    match first_task(tasks, TaskQuery::Blocked(id), 0) {
        None => tasks,
        Some(slot) => tasks.update(slot, Task { state: TaskState::Ready, ..tasks[slot] }),
    }
}

/// `tasks` once every blocked task named in `ids` is woken, in order.
pub open spec fn woken_tasks(tasks: Seq<Task>, ids: Seq<Option<TaskId>>) -> Seq<Task>
    decreases ids.len(),
{
    if ids.len() == 0 {
        tasks
    } else {
        let earlier = woken_tasks(tasks, ids.drop_last());
        match ids.last() {
            Some(id) => woken_one(earlier, id),
            None => earlier,
        }
    }
}

/// Wakes every task named in `woken`.
fn wake_all(scheduler: &mut Scheduler, woken: &Vec<Option<TaskId>>)
    requires
        old(scheduler).wf(),
    ensures
        final(scheduler).wf(),
        final(scheduler).task_count == old(scheduler).task_count,
        final(scheduler).current_slot == old(scheduler).current_slot,
        final(scheduler).next_task_id == old(scheduler).next_task_id,
        final(scheduler).tasks@ == woken_tasks(old(scheduler).tasks@, woken@),
{
    let mut i: usize = 0;
    while i < woken.len()
        invariant
            i <= woken@.len(),
            scheduler.tasks@ == woken_tasks(old(scheduler).tasks@, woken@.subrange(0, i as int)),
            scheduler.wf(),
            scheduler.task_count == old(scheduler).task_count,
            scheduler.current_slot == old(scheduler).current_slot,
            scheduler.next_task_id == old(scheduler).next_task_id,
        decreases woken@.len() - i,
    {
        assert(woken@.subrange(0, i + 1).drop_last() =~= woken@.subrange(0, i as int));
        match woken[i] {
            Some(id) => {
                wake_task(scheduler, id);
            },
            None => {},
        }
        i = i + 1;
    }
    assert(woken@.subrange(0, woken@.len() as int) =~= woken@);
}

/// Drops descriptor `fd`: a file reference goes back to the VFS, a pipe end is
/// closed and the tasks waiting on the other end are woken.
fn release_fd<S: Services>(scheduler: &mut Scheduler, pipes: &mut pipe::Table, services: &mut S, fd: FdKind)
    requires
        old(scheduler).wf(),
        old(pipes).wf(),
    ensures
        final(scheduler).wf(),
        final(pipes).wf(),
        final(scheduler).task_count == old(scheduler).task_count,
        final(scheduler).current_slot == old(scheduler).current_slot,
        final(scheduler).next_task_id == old(scheduler).next_task_id,
        match fd {
            FdKind::File(_) => *final(scheduler) == *old(scheduler) && *final(pipes) == *old(pipes),
            FdKind::PipeRead(id) => if old(pipes).live(id as int) {
                let before = old(pipes).pipe(id as int);
                &&& final(scheduler).tasks@ == woken_tasks(old(scheduler).tasks@, before.writing_waiters())
                &&& final(pipes).others_unchanged(old(pipes), id as int)
                &&& final(pipes).live(id as int) ==> final(pipes).pipe(id as int).reader_count()
                    == before.reader_count().saturating_sub(1)
            } else {
                final(scheduler).tasks@ == old(scheduler).tasks@ && *final(pipes) == *old(pipes)
            },
            FdKind::PipeWrite(id) => if old(pipes).live(id as int) {
                let before = old(pipes).pipe(id as int);
                &&& final(scheduler).tasks@ == woken_tasks(old(scheduler).tasks@, before.reading_waiters())
                &&& final(pipes).others_unchanged(old(pipes), id as int)
                &&& final(pipes).live(id as int) ==> final(pipes).pipe(id as int).writer_count()
                    == before.writer_count().saturating_sub(1)
            } else {
                final(scheduler).tasks@ == old(scheduler).tasks@ && *final(pipes) == *old(pipes)
            },
        },
{
    match fd {
        FdKind::File(id) => services.close_file(id),
        FdKind::PipeRead(id) => {
            let woken = pipe::close_reader(pipes, id);
            wake_all(scheduler, &woken);
        },
        FdKind::PipeWrite(id) => {
            let woken = pipe::close_writer(pipes, id);
            wake_all(scheduler, &woken);
        },
    }
}

/// Closes every descriptor of `files`.
fn release_file_table<S: Services>(scheduler: &mut Scheduler, pipes: &mut pipe::Table, services: &mut S, files: &mut [Option<FdKind>; 16])
    requires
        old(scheduler).wf(),
        old(pipes).wf(),
    ensures
        final(scheduler).wf(),
        final(pipes).wf(),
        final(scheduler).task_count == old(scheduler).task_count,
        final(scheduler).current_slot == old(scheduler).current_slot,
        final(scheduler).next_task_id == old(scheduler).next_task_id,
        forall|i: int| 0 <= i < 16 ==> #[trigger] final(files)@[i] is None,
{
    let mut i: usize = 0;
    while i < 16
        invariant
            i <= 16,
            scheduler.wf(),
            pipes.wf(),
            scheduler.task_count == old(scheduler).task_count,
            scheduler.current_slot == old(scheduler).current_slot,
            scheduler.next_task_id == old(scheduler).next_task_id,
            forall|k: int| 0 <= k < i ==> #[trigger] files@[k] is None,
        decreases 16 - i,
    {
        match files[i] {
            Some(fd) => {
                files[i] = None;
                release_fd(scheduler, pipes, services, fd);
            },
            None => {},
        }
        i = i + 1;
    }
}

/// `child` is the descriptor table forked from `parent`: the same descriptors, pipe
/// ends shared, files each re-opened.
pub open spec fn forked_files(parent: Seq<Option<FdKind>>, child: Seq<Option<FdKind>>) -> bool {
    &&& child.len() == parent.len()
    &&& forall|i: int|
        0 <= i < parent.len() ==> match #[trigger] parent[i] {
            None => child[i] is None,
            Some(FdKind::File(_)) => child[i] matches Some(FdKind::File(_)),
            Some(fd) => child[i] == Some(fd),
        }
}

/// Every descriptor of `files` is a pipe end of a live pipe of `pipes`, or empty.
pub open spec fn only_live_pipes(files: Seq<Option<FdKind>>, pipes: pipe::Table) -> bool {
    forall|k: int|
        0 <= k < files.len() ==> match #[trigger] files[k] {
            Some(FdKind::File(_)) => false,
            Some(FdKind::PipeRead(id)) => pipes.live(id as int),
            Some(FdKind::PipeWrite(id)) => pipes.live(id as int),
            None => true,
        }
}

/// Shares every descriptor of `parent` with a forked child.
fn clone_file_table<S: Services>(pipes: &mut pipe::Table, services: &mut S, parent: &[Option<FdKind>; 16]) -> (result: Result<[Option<FdKind>; 16], ProcessError>)
    requires
        old(pipes).wf(),
    ensures
        final(pipes).wf(),
        result matches Ok(child) ==> forked_files(parent@, child@),
        result is Err ==> result == Err::<[Option<FdKind>; 16], ProcessError>(ProcessError::Full),
        only_live_pipes(parent@, *old(pipes)) ==> result is Ok,
{
    let mut child: [Option<FdKind>; 16] = [None; 16];
    let mut i: usize = 0;
    while i < 16
        invariant
            i <= 16,
            pipes.wf(),
            forall|j: int| old(pipes).live(j) ==> #[trigger] pipes.live(j),
            child@.len() == 16,
            forall|k: int| i <= k < 16 ==> #[trigger] child@[k] is None,
            forall|k: int|
                0 <= k < i ==> match #[trigger] parent@[k] {
                    None => child@[k] is None,
                    Some(FdKind::File(_)) => child@[k] matches Some(FdKind::File(_)),
                    Some(fd) => child@[k] == Some(fd),
                },
        decreases 16 - i,
    {
        match parent[i] {
            Some(FdKind::File(id)) => {
                match services.clone_file(id) {
                    Some(copy) => {
                        child[i] = Some(FdKind::File(copy));
                    },
                    None => return Err(ProcessError::Full),
                }
            },
            Some(FdKind::PipeRead(id)) => {
                let ghost before = *pipes;
                match pipe::clone_reader(pipes, id) {
                    Ok(()) => {
                        assert forall|j: int| before.live(j) implies #[trigger] pipes.live(j) by {
                            if j != id as int {
                                assert(pipes.pipe(j) == before.pipe(j));
                            }
                        }
                    },
                    Err(_) => return Err(ProcessError::Full),
                }
                child[i] = Some(FdKind::PipeRead(id));
            },
            Some(FdKind::PipeWrite(id)) => {
                let ghost before = *pipes;
                match pipe::clone_writer(pipes, id) {
                    Ok(()) => {
                        assert forall|j: int| before.live(j) implies #[trigger] pipes.live(j) by {
                            if j != id as int {
                                assert(pipes.pipe(j) == before.pipe(j));
                            }
                        }
                    },
                    Err(_) => return Err(ProcessError::Full),
                }
                child[i] = Some(FdKind::PipeWrite(id));
            },
            None => {},
        }
        i = i + 1;
    }
    Ok(child)
}

/// `process` is the one a new task `task_id` starts under `parent` with id `id`: ready,
/// as the ordinary user, owning `space`, with no descriptors or mappings, in the
/// parent's directory when the parent is in `table`, else in `/`.
pub open spec fn fresh_process(process: Process, table: &ProcessTable, id: u64, task_id: TaskId, parent: ProcessId, space: u64) -> bool {
    &&& process.id == ProcessId(id)
    &&& process.task_id == task_id
    &&& process.state == ProcessState::Ready
    &&& process.parent == parent
    &&& process.credentials == (Credentials { uid: 1000, gid: 1000 })
    &&& process.exit_code == 0
    &&& process.address_space == Some(space)
    &&& (forall|i: int| 0 <= i < 16 ==> #[trigger] process.files@[i] is None)
    &&& (forall|i: int| 0 <= i < 16 ==> #[trigger] process.memory_mappings@[i] is None)
    &&& process.pending_signal == 0
    &&& match table.lookup(ProcessQuery::Id(parent)) {
        Some(slot) => process.cwd == table.at(slot).cwd && process.cwd_len == table.at(slot).cwd_len,
        None => process.cwd_len == 1 && process.cwd@[0] == 0x2f,
    }
}

/// The record of a new process; its id is the next one the table hands out.
fn create_process(processes: &mut ProcessTable, task_id: TaskId, parent: ProcessId, space: u64) -> (process: Process)
    requires
        old(processes).wf(),
    ensures
        final(processes).wf(),
        final(processes).slots@ == old(processes).slots@,
        final(processes).next_process_id == old(processes).next_process_id.wrapping_add(1),
        fresh_process(process, old(processes), old(processes).next_process_id, task_id, parent, space),
        process.cwd_len <= MAX_PATH_SIZE,
{
    let mut cwd: [u8; 128] = [0u8; 128];
    cwd[0] = 0x2f;
    let mut cwd_len: usize = 1;
    match processes.find(ProcessQuery::Id(parent)) {
        Some(slot) => match processes.slots[slot] {
            Some(p) => {
                cwd = p.cwd;
                cwd_len = p.cwd_len;
            },
            None => {},
        },
        None => {},
    }
    let id = ProcessId(processes.next_process_id);
    processes.next_process_id = processes.next_process_id.wrapping_add(1);
    Process {
        id,
        task_id,
        state: ProcessState::Ready,
        parent,
        credentials: Credentials::userspace(),
        exit_code: 0,
        address_space: Some(space),
        files: [None; 16],
        memory_mappings: [None; 16],
        cwd,
        cwd_len,
        pending_signal: 0,
    }
}

/// The task that runs a new user program: ready at normal priority, entering ring 3
/// through `context`, with the capabilities every user process starts with.
pub open spec fn user_task(task: Task, id: TaskId, name: &'static str, context: UserTaskContext, space: u64) -> bool {
    &&& task.id == id
    &&& task.name == name
    &&& task.state == TaskState::Ready
    &&& task.priority == TaskPriority(1)
    &&& task.wake_tick == 0
    &&& task.user_context == Some(context)
    &&& task.address_space == Some(space)
    &&& task.remaining_ticks == spec_quantum(TaskPriority(1))
    &&& forall|c: Capability|
        task.capabilities.has(c) == (c == Capability::Console || c == Capability::FileRead || c
            == Capability::FileWrite || c == Capability::Ipc || c == Capability::ProcessCreate)
}

/// Starts a user program as a child of the current process, in the first free task
/// and process slots, with its own IPC endpoint.
///
/// An invalid image, a full table or a refused endpoint give `Full`; the caller then
/// frees `space`.
pub fn spawn_user_process(
    scheduler: &mut Scheduler,
    processes: &mut ProcessTable,
    endpoints: &mut ipc::State,
    name: &'static str,
    image_valid: bool,
    entry: usize,
    stack_top: usize,
    code_segment: u16,
    data_segment: u16,
    space: u64,
) -> (result: Result<(ProcessId, UserTaskContext), ProcessError>)
    requires
        old(scheduler).wf(),
        old(scheduler).task_count != 0,
        old(processes).wf(),
        old(endpoints).wf(),
    ensures
        final(scheduler).wf(),
        final(processes).wf(),
        final(endpoints).wf(),
        final(scheduler).current_slot == old(scheduler).current_slot,
        result is Err ==> result == Err::<(ProcessId, UserTaskContext), ProcessError>(ProcessError::Full)
            && final(processes).slots@ == old(processes).slots@ && final(endpoints).slots() == old(
            endpoints,
        ).slots() && final(scheduler).task_count == old(scheduler).task_count,
        !image_valid ==> result is Err && *final(scheduler) == *old(scheduler) && final(processes).next_process_id
            == old(processes).next_process_id,
        image_valid ==> ({
            let cleared = reaped(old(scheduler).tasks@, old(scheduler).current_slot as int);
            let parent = ProcessId(spec_current_process_id(old(scheduler), old(processes)));
            let id = old(processes).next_process_id;
            let task_id = TaskId(old(scheduler).next_task_id);
            let context = UserTaskContext { entry: entry as u64, stack_top: stack_top as u64, code_segment, data_segment };
            match (first_task(cleared, TaskQuery::Vacant, 0), old(processes).lookup(ProcessQuery::Vacant)) {
                (Some(task_slot), Some(process_slot)) => {
                    &&& final(scheduler).next_task_id == old(scheduler).next_task_id.wrapping_add(1)
                    &&& final(processes).next_process_id == id.wrapping_add(1)
                    &&& (result is Err ==> final(scheduler).tasks@ == cleared && (old(endpoints).registered(id)
                        || forall|i: int| 0 <= i < old(endpoints).slots().len() ==> (#[trigger] old(
                        endpoints,
                    ).slots()[i]) is Some))
                    &&& (result is Ok ==> {
                        &&& result->Ok_0 == (ProcessId(id), context)
                        &&& !old(endpoints).registered(id)
                        &&& final(endpoints).registered(id)
                        &&& final(scheduler).tasks@ == cleared.update(task_slot, final(scheduler).tasks@[task_slot])
                        &&& user_task(final(scheduler).tasks@[task_slot], task_id, name, context, space)
                        &&& final(scheduler).task_count == old(scheduler).task_count + 1
                        &&& final(processes).slots@ == old(processes).slots@.update(
                            process_slot,
                            final(processes).slots@[process_slot],
                        )
                        &&& final(processes).slots@[process_slot] is Some
                        &&& fresh_process(final(processes).at(process_slot), old(processes), id, task_id, parent, space)
                    })
                },
                _ => {
                    &&& result is Err
                    &&& final(scheduler).tasks@ == cleared
                    &&& final(scheduler).next_task_id == old(scheduler).next_task_id
                    &&& final(processes).next_process_id == id
                },
            }
        }),
{
    if !image_valid {
        return Err(ProcessError::Full);
    }
    let parent = ProcessId(current_process_id(scheduler, processes));
    let context = prepare_user_context(entry, stack_top, code_segment, data_segment);
    scheduler.reap_dead();
    let task_slot = match scheduler.find(TaskQuery::Vacant) {
        Some(slot) => slot,
        None => return Err(ProcessError::Full),
    };
    let process_slot = match processes.find(ProcessQuery::Vacant) {
        Some(slot) => slot,
        None => return Err(ProcessError::Full),
    };
    proof {
        lemma_first_task(scheduler.tasks@, TaskQuery::Vacant, 0);
        lemma_live_tasks_bound(scheduler.tasks@, MAX_TASKS as int);
    }
    let task_id = TaskId(scheduler.next_task_id);
    scheduler.next_task_id = scheduler.next_task_id.wrapping_add(1);
    let ghost before = *processes;
    let process = create_process(processes, task_id, parent, space);
    let process_id = process.id;
    match ipc::register(endpoints, process_id.0) {
        Ok(()) => {},
        Err(_) => return Err(ProcessError::Full),
    }
    let normal = TaskPriority::normal();
    let task = Task {
        id: task_id,
        name,
        state: TaskState::Ready,
        priority: normal,
        capabilities: CapabilitySet::userspace(),
        wake_tick: 0,
        user_context: Some(context),
        address_space: Some(space),
        remaining_ticks: normal.quantum(),
    };
    scheduler.put(task_slot, task);
    scheduler.task_count = scheduler.task_count + 1;
    processes.slots.set(process_slot, Some(process));
    Ok((process_id, context))
}

/// The task of a forked child: ready at normal priority under the cloned address
/// space, with the capabilities of the task that forked.
pub open spec fn fork_task(task: Task, id: TaskId, capabilities: CapabilitySet, space: u64) -> bool {
    &&& task.id == id
    &&& task.name == "fork-child"
    &&& task.state == TaskState::Ready
    &&& task.priority == TaskPriority(1)
    &&& task.wake_tick == 0
    &&& task.user_context is None
    &&& task.address_space == Some(space)
    &&& task.remaining_ticks == spec_quantum(TaskPriority(1))
    &&& task.capabilities == capabilities
}

/// Forks the current process: a child with a copy of its address space, its
/// mappings, its directory and its credentials, sharing its descriptors, in the first
/// free task and process slots. The child's id is returned.
///
/// A missing process or address space, a refused copy, a full table, a refused
/// endpoint or a descriptor that cannot be shared give `Full`; a copy made by then is
/// freed again.
pub fn fork_current<S: Services>(
    scheduler: &mut Scheduler,
    processes: &mut ProcessTable,
    endpoints: &mut ipc::State,
    pipes: &mut pipe::Table,
    services: &mut S,
) -> (result: Result<ProcessId, ProcessError>)
    requires
        old(scheduler).wf(),
        old(scheduler).task_count != 0,
        old(processes).wf(),
        old(endpoints).wf(),
        old(pipes).wf(),
    ensures
        final(scheduler).wf(),
        final(processes).wf(),
        final(endpoints).wf(),
        final(pipes).wf(),
        final(scheduler).current_slot == old(scheduler).current_slot,
        result is Err ==> result == Err::<ProcessId, ProcessError>(ProcessError::Full) && final(processes).slots@
            == old(processes).slots@ && final(scheduler).task_count == old(scheduler).task_count,
        match old(processes).lookup(ProcessQuery::Task(old(scheduler).current().id)) {
            None => result is Err && *final(scheduler) == *old(scheduler) && final(endpoints).slots() == old(
                endpoints,
            ).slots(),
            Some(parent_slot) => {
                let parent = old(processes).at(parent_slot);
                let cleared = reaped(old(scheduler).tasks@, old(scheduler).current_slot as int);
                &&& parent.address_space is None ==> result is Err && *final(scheduler) == *old(scheduler)
                &&& result is Ok ==> {
                    let task_slot = first_task(cleared, TaskQuery::Vacant, 0)->0;
                    let process_slot = old(processes).lookup(ProcessQuery::Vacant)->0;
                    let child = final(processes).at(process_slot);
                    &&& first_task(cleared, TaskQuery::Vacant, 0) is Some
                    &&& old(processes).lookup(ProcessQuery::Vacant) is Some
                    &&& result->Ok_0 == ProcessId(old(processes).next_process_id)
                    &&& final(processes).next_process_id == old(processes).next_process_id.wrapping_add(1)
                    &&& final(scheduler).next_task_id == old(scheduler).next_task_id.wrapping_add(1)
                    &&& !old(endpoints).registered(old(processes).next_process_id)
                    &&& final(endpoints).registered(old(processes).next_process_id)
                    &&& final(scheduler).tasks@ == cleared.update(task_slot, final(scheduler).tasks@[task_slot])
                    &&& final(scheduler).task_count == old(scheduler).task_count + 1
                    &&& final(processes).slots@ == old(processes).slots@.update(
                        process_slot,
                        final(processes).slots@[process_slot],
                    )
                    &&& final(processes).slots@[process_slot] is Some
                    &&& child.address_space is Some
                    &&& fork_task(
                        final(scheduler).tasks@[task_slot],
                        TaskId(old(scheduler).next_task_id),
                        old(scheduler).current().capabilities,
                        child.address_space->0,
                    )
                    &&& child.id == ProcessId(old(processes).next_process_id)
                    &&& child.task_id == TaskId(old(scheduler).next_task_id)
                    &&& child.state == ProcessState::Ready
                    &&& child.parent == parent.id
                    &&& child.credentials == parent.credentials
                    &&& child.exit_code == 0
                    &&& child.memory_mappings == parent.memory_mappings
                    &&& child.cwd == parent.cwd
                    &&& child.cwd_len == parent.cwd_len
                    &&& child.pending_signal == 0
                    &&& forked_files(parent.files@, child.files@)
                }
            },
        },
{
    let task_id = current_task_id(scheduler);
    let capabilities = scheduler.tasks[scheduler.current_slot].capabilities;
    let parent_slot = match processes.find(ProcessQuery::Task(task_id)) {
        Some(slot) => slot,
        None => return Err(ProcessError::Full),
    };
    let parent = match processes.slots[parent_slot] {
        Some(p) => p,
        None => return Err(ProcessError::Full),
    };
    let source = match parent.address_space {
        Some(space) => space,
        None => return Err(ProcessError::Full),
    };
    let cloned = match services.clone_space(source, &parent.memory_mappings) {
        Some(space) => space,
        None => return Err(ProcessError::Full),
    };
    scheduler.reap_dead();
    let task_slot = match scheduler.find(TaskQuery::Vacant) {
        Some(slot) => slot,
        None => {
            services.destroy_space(cloned, &parent.memory_mappings);
            return Err(ProcessError::Full);
        },
    };
    let process_slot = match processes.find(ProcessQuery::Vacant) {
        Some(slot) => slot,
        None => {
            services.destroy_space(cloned, &parent.memory_mappings);
            return Err(ProcessError::Full);
        },
    };
    proof {
        lemma_first_task(scheduler.tasks@, TaskQuery::Vacant, 0);
        lemma_live_tasks_bound(scheduler.tasks@, MAX_TASKS as int);
    }
    let child_task_id = TaskId(scheduler.next_task_id);
    scheduler.next_task_id = scheduler.next_task_id.wrapping_add(1);
    let child_id = ProcessId(processes.next_process_id);
    processes.next_process_id = processes.next_process_id.wrapping_add(1);
    match ipc::register(endpoints, child_id.0) {
        Ok(()) => {},
        Err(_) => {
            services.destroy_space(cloned, &parent.memory_mappings);
            return Err(ProcessError::Full);
        },
    }
    let child_files = match clone_file_table(pipes, services, &parent.files) {
        Ok(files) => files,
        Err(error) => {
            services.destroy_space(cloned, &parent.memory_mappings);
            return Err(error);
        },
    };
    let normal = TaskPriority::normal();
    let task = Task {
        id: child_task_id,
        name: "fork-child",
        state: TaskState::Ready,
        priority: normal,
        capabilities,
        wake_tick: 0,
        user_context: None,
        address_space: Some(cloned),
        remaining_ticks: normal.quantum(),
    };
    scheduler.put(task_slot, task);
    scheduler.task_count = scheduler.task_count + 1;
    let child = Process {
        id: child_id,
        task_id: child_task_id,
        state: ProcessState::Ready,
        parent: parent.id,
        credentials: parent.credentials,
        exit_code: 0,
        address_space: Some(cloned),
        files: child_files,
        memory_mappings: parent.memory_mappings,
        cwd: parent.cwd,
        cwd_len: parent.cwd_len,
        pending_signal: 0,
    };
    processes.slots.set(process_slot, Some(child));
    Ok(child_id)
}

/// Reaps the exited child `child` of the current process: closes what it still
/// holds, removes its endpoint and frees its slot, giving its exit code.
pub fn wait_process<S: Services>(
    scheduler: &mut Scheduler,
    processes: &mut ProcessTable,
    endpoints: &mut ipc::State,
    pipes: &mut pipe::Table,
    services: &mut S,
    child: u64,
) -> (result: Result<i32, WaitError>)
    requires
        old(scheduler).wf(),
        old(scheduler).task_count != 0,
        old(processes).wf(),
        old(endpoints).wf(),
        old(pipes).wf(),
        ({
            let parent = ProcessId(spec_current_process_id(old(scheduler), old(processes)));
            old(processes).lookup(ProcessQuery::Child(ProcessId(child), parent)) matches Some(slot)
                && old(processes).at(slot).state == ProcessState::Exited ==> old(endpoints).registered(child)
        }),
    ensures
        final(scheduler).wf(),
        final(processes).wf(),
        final(endpoints).wf(),
        final(pipes).wf(),
        final(scheduler).task_count == old(scheduler).task_count,
        final(scheduler).current_slot == old(scheduler).current_slot,
        final(processes).next_process_id == old(processes).next_process_id,
        ({
            let parent = ProcessId(spec_current_process_id(old(scheduler), old(processes)));
            match old(processes).lookup(ProcessQuery::Child(ProcessId(child), parent)) {
                None => result == Err::<i32, WaitError>(WaitError::NoSuchChild) && final(processes).slots@
                    == old(processes).slots@ && *final(scheduler) == *old(scheduler),
                Some(slot) => if old(processes).at(slot).state != ProcessState::Exited {
                    result == Err::<i32, WaitError>(WaitError::StillRunning) && final(processes).slots@
                        == old(processes).slots@ && *final(scheduler) == *old(scheduler)
                } else {
                    &&& result == Ok::<i32, WaitError>(old(processes).at(slot).exit_code)
                    &&& final(processes).slots@ == old(processes).slots@.update(slot, None)
                    &&& !final(endpoints).registered(child)
                },
            }
        }),
{
    let parent = ProcessId(current_process_id(scheduler, processes));
    let slot = match processes.find(ProcessQuery::Child(ProcessId(child), parent)) {
        Some(slot) => slot,
        None => return Err(WaitError::NoSuchChild),
    };
    let mut process = match processes.slots[slot] {
        Some(p) => p,
        None => return Err(WaitError::NoSuchChild),
    };
    if process.state != ProcessState::Exited {
        return Err(WaitError::StillRunning);
    }
    release_file_table(scheduler, pipes, services, &mut process.files);
    let exit_code = process.exit_code;
    let _ = ipc::unregister(endpoints, child);
    processes.slots.set(slot, None);
    Ok(exit_code)
}

/// Sends signal `signal` to process `pid`: 0 only checks that it exists; 9 and 15
/// record the signal and, unless it has exited already, end it with code 128 plus
/// the signal, closing its descriptors. Any other signal is refused.
pub fn kill_process<S: Services>(
    scheduler: &mut Scheduler,
    processes: &mut ProcessTable,
    pipes: &mut pipe::Table,
    services: &mut S,
    pid: u64,
    signal: u64,
) -> (result: Result<(), FileError>)
    requires
        old(scheduler).wf(),
        old(processes).wf(),
        old(pipes).wf(),
    ensures
        final(scheduler).wf(),
        final(processes).wf(),
        final(pipes).wf(),
        final(scheduler).task_count == old(scheduler).task_count,
        final(scheduler).current_slot == old(scheduler).current_slot,
        final(processes).next_process_id == old(processes).next_process_id,
        result is Err ==> result == Err::<(), FileError>(FileError::NotFound) && final(processes).slots@ == old(
            processes,
        ).slots@,
        signal != 0 && signal != 9 && signal != 15 ==> result is Err,
        (signal == 0 || signal == 9 || signal == 15) ==> match old(processes).lookup(ProcessQuery::Id(ProcessId(pid))) {
            None => result is Err,
            Some(slot) => {
                let before = old(processes).at(slot);
                let after = final(processes).at(slot);
                &&& result is Ok
                &&& signal == 0 ==> final(processes).slots@ == old(processes).slots@
                &&& signal != 0 ==> {
                    &&& final(processes).slots@ == old(processes).slots@.update(slot, final(processes).slots@[slot])
                    &&& final(processes).slots@[slot] is Some
                    &&& after.pending_signal == signal
                    &&& after.state == ProcessState::Exited
                    &&& after.exit_code == if before.state == ProcessState::Exited {
                        before.exit_code as int
                    } else {
                        128 + signal
                    }
                    &&& before.state != ProcessState::Exited ==> forall|i: int|
                        0 <= i < 16 ==> #[trigger] after.files@[i] is None
                    &&& before.state == ProcessState::Exited ==> after.files == before.files
                    &&& after.id == before.id && after.task_id == before.task_id && after.parent == before.parent
                    &&& after.credentials == before.credentials && after.address_space == before.address_space
                }
            },
        },
{
    if signal != 9 && signal != 15 && signal != 0 {
        return Err(FileError::NotFound);
    }
    let slot = match processes.find(ProcessQuery::Id(ProcessId(pid))) {
        Some(slot) => slot,
        None => return Err(FileError::NotFound),
    };
    let mut process = match processes.slots[slot] {
        Some(p) => p,
        None => return Err(FileError::NotFound),
    };
    if signal == 0 {
        return Ok(());
    }
    process.pending_signal = signal;
    if process.state != ProcessState::Exited {
        process.state = ProcessState::Exited;
        process.exit_code = 128 + signal as i32;
        release_file_table(scheduler, pipes, services, &mut process.files);
    }
    processes.slots.set(slot, Some(process));
    Ok(())
}

/// Gives task `target` `capability`, provided the current task holds task control
/// and the capability itself; the decision goes into `log` at `tick`.
pub fn grant(
    scheduler: &mut Scheduler,
    processes: &ProcessTable,
    log: &mut audit::Log,
    tick: u64,
    target: TaskId,
    capability: Capability,
) -> (result: Result<(), CapabilityError>)
    requires
        old(scheduler).wf(),
        old(scheduler).task_count != 0,
        processes.wf(),
        old(log).wf(),
    ensures
        final(scheduler).wf(),
        final(log).wf(),
        final(scheduler).task_count == old(scheduler).task_count,
        final(scheduler).current_slot == old(scheduler).current_slot,
        final(scheduler).next_task_id == old(scheduler).next_task_id,
        forall|i: int|
            0 <= i < MAX_TASKS ==> (#[trigger] final(scheduler).tasks@[i]).id == old(scheduler).tasks@[i].id
                && final(scheduler).tasks@[i].state == old(scheduler).tasks@[i].state,
        ({
            let authority = old(scheduler).current().capabilities;
            if !authority.has(Capability::TaskControl) || !authority.has(capability) {
                result == Err::<(), CapabilityError>(CapabilityError::PermissionDenied) && final(scheduler).tasks@
                    == old(scheduler).tasks@
            } else {
                match first_task(old(scheduler).tasks@, TaskQuery::Live(target), 0) {
                    None => result == Err::<(), CapabilityError>(CapabilityError::UnknownTask) && final(scheduler).tasks@ == old(scheduler).tasks@,
                    Some(slot) => {
                        &&& result is Ok
                        &&& final(scheduler).tasks@ == old(scheduler).tasks@.update(
                            slot,
                            final(scheduler).tasks@[slot],
                        )
                        &&& final(scheduler).tasks@[slot].id == old(scheduler).tasks@[slot].id
                        &&& final(scheduler).tasks@[slot].state == old(scheduler).tasks@[slot].state
                        &&& forall|c: Capability|
                            #[trigger] final(scheduler).tasks@[slot].capabilities.has(c) == (c == capability
                                || old(scheduler).tasks@[slot].capabilities.has(c))
                    },
                }
            }
        }),
        final(log).newest() == Some(
            audit::Event {
                sequence: old(log).next_sequence(),
                tick,
                actor: spec_current_process_id(old(scheduler), processes),
                action: audit::Action::CapabilityGrant,
                target: target.0,
                allowed: result is Ok,
            },
        ),
{
    let actor = current_process_id(scheduler, processes);
    let authority = scheduler.tasks[scheduler.current_slot].capabilities;
    let result = if !authority.contains(Capability::TaskControl) || !authority.contains(capability) {
        Err(CapabilityError::PermissionDenied)
    } else {
        match scheduler.find(TaskQuery::Live(target)) {
            Some(slot) => {
                proof {
                    lemma_first_task(scheduler.tasks@, TaskQuery::Live(target), 0);
                }
                let task = scheduler.tasks[slot];
                scheduler.put(slot, Task { capabilities: task.capabilities.with(capability), ..task });
                Ok(())
            },
            None => Err(CapabilityError::UnknownTask),
        }
    };
    audit::record(log, tick, actor, audit::Action::CapabilityGrant, target.0, result.is_ok());
    result
}

/// Takes `capability` from task `target`, provided the current task holds task
/// control; the decision goes into `log` at `tick`.
pub fn revoke(
    scheduler: &mut Scheduler,
    processes: &ProcessTable,
    log: &mut audit::Log,
    tick: u64,
    target: TaskId,
    capability: Capability,
) -> (result: Result<(), CapabilityError>)
    requires
        old(scheduler).wf(),
        old(scheduler).task_count != 0,
        processes.wf(),
        old(log).wf(),
    ensures
        final(scheduler).wf(),
        final(log).wf(),
        final(scheduler).task_count == old(scheduler).task_count,
        final(scheduler).current_slot == old(scheduler).current_slot,
        final(scheduler).next_task_id == old(scheduler).next_task_id,
        forall|i: int|
            0 <= i < MAX_TASKS ==> (#[trigger] final(scheduler).tasks@[i]).id == old(scheduler).tasks@[i].id
                && final(scheduler).tasks@[i].state == old(scheduler).tasks@[i].state,
        ({
            if !old(scheduler).current().capabilities.has(Capability::TaskControl) {
                result == Err::<(), CapabilityError>(CapabilityError::PermissionDenied) && final(scheduler).tasks@
                    == old(scheduler).tasks@
            } else {
                match first_task(old(scheduler).tasks@, TaskQuery::Live(target), 0) {
                    None => result == Err::<(), CapabilityError>(CapabilityError::UnknownTask) && final(scheduler).tasks@ == old(scheduler).tasks@,
                    Some(slot) => {
                        &&& result is Ok
                        &&& final(scheduler).tasks@ == old(scheduler).tasks@.update(
                            slot,
                            final(scheduler).tasks@[slot],
                        )
                        &&& final(scheduler).tasks@[slot].id == old(scheduler).tasks@[slot].id
                        &&& final(scheduler).tasks@[slot].state == old(scheduler).tasks@[slot].state
                        &&& forall|c: Capability|
                            #[trigger] final(scheduler).tasks@[slot].capabilities.has(c) == (c != capability
                                && old(scheduler).tasks@[slot].capabilities.has(c))
                    },
                }
            }
        }),
        final(log).newest() == Some(
            audit::Event {
                sequence: old(log).next_sequence(),
                tick,
                actor: spec_current_process_id(old(scheduler), processes),
                action: audit::Action::CapabilityRevoke,
                target: target.0,
                allowed: result is Ok,
            },
        ),
{
    let actor = current_process_id(scheduler, processes);
    let authority = scheduler.tasks[scheduler.current_slot].capabilities;
    let result = if !authority.contains(Capability::TaskControl) {
        Err(CapabilityError::PermissionDenied)
    } else {
        match scheduler.find(TaskQuery::Live(target)) {
            Some(slot) => {
                proof {
                    lemma_first_task(scheduler.tasks@, TaskQuery::Live(target), 0);
                }
                let task = scheduler.tasks[slot];
                scheduler.put(slot, Task { capabilities: task.capabilities.without(capability), ..task });
                Ok(())
            },
            None => Err(CapabilityError::UnknownTask),
        }
    };
    audit::record(log, tick, actor, audit::Action::CapabilityRevoke, target.0, result.is_ok());
    result
}

/// Grants the idle task the timer, checks that it holds it, revokes it and checks
/// that it is gone.
pub fn capability_delegation_valid(scheduler: &mut Scheduler, processes: &ProcessTable, log: &mut audit::Log, tick: u64) -> (valid: bool)
    requires
        old(scheduler).wf(),
        old(scheduler).task_count != 0,
        processes.wf(),
        old(log).wf(),
    ensures
        final(scheduler).wf(),
        final(log).wf(),
        final(scheduler).task_count == old(scheduler).task_count,
        final(scheduler).current_slot == old(scheduler).current_slot,
        valid == (old(scheduler).current().capabilities.has(Capability::TaskControl) && old(
            scheduler,
        ).current().capabilities.has(Capability::TimerRead) && first_task(
            old(scheduler).tasks@,
            TaskQuery::Live(TaskId(IDLE_TASK as u64)),
            0,
        ) is Some),
{
    let idle = TaskId(IDLE_TASK);
    let ghost start = scheduler.tasks@;
    let granted = grant(scheduler, processes, log, tick, idle, Capability::TimerRead).is_ok();
    proof {
        lemma_first_task_same(start, scheduler.tasks@, TaskQuery::Live(idle), 0);
    }
    let ghost middle = scheduler.tasks@;
    proof {
        lemma_first_task(start, TaskQuery::Live(idle), 0);
        if granted {
            let slot = first_task(start, TaskQuery::Live(idle), 0)->0;
            assert(middle[slot].capabilities.has(Capability::TimerRead));
            let current = scheduler.current_slot as int;
            if current == slot {
                assert(middle[slot].capabilities.has(Capability::TaskControl));
            } else {
                assert(middle[current] == start[current]);
            }
        }
    }
    let observed = task_has(scheduler, idle, Capability::TimerRead);
    let revoked = revoke(scheduler, processes, log, tick, idle, Capability::TimerRead).is_ok();
    proof {
        lemma_first_task_same(middle, scheduler.tasks@, TaskQuery::Live(idle), 0);
    }
    let denied_after_revoke = !task_has(scheduler, idle, Capability::TimerRead);
    granted && observed && revoked && denied_after_revoke
}

/// The first empty entry of `entries` at or after `from`.
pub open spec fn first_vacant<T>(entries: Seq<Option<T>>, from: int) -> Option<int>
    decreases entries.len() - from,
{
    if from < 0 || from >= entries.len() {
        None
    } else if entries[from] is None {
        Some(from)
    } else {
        first_vacant(entries, from + 1)
    }
}

proof fn lemma_first_vacant<T>(entries: Seq<Option<T>>, from: int)
    requires
        0 <= from,
    ensures
        first_vacant(entries, from) matches Some(i) ==> from <= i < entries.len() && entries[i] is None,
        first_vacant(entries, from) is None ==> forall|j: int| from <= j < entries.len() ==> (#[trigger] entries[j]) is Some,
    decreases entries.len() - from,
{
    if from < entries.len() {
        lemma_first_vacant(entries, from + 1);
    }
}

/// Descriptors 0, 1 and 2 are kept for standard input, output and error; files and
/// pipes are opened from this one on.
pub const FIRST_FREE_DESCRIPTOR: usize = 3;

fn free_descriptor(files: &[Option<FdKind>; 16]) -> (slot: Option<usize>)
    ensures
        match slot {
            Some(i) => first_vacant(files@, FIRST_FREE_DESCRIPTOR as int) == Some(i as int) && i < 16 && files@[i as int] is None,
            None => first_vacant(files@, FIRST_FREE_DESCRIPTOR as int) is None,
        },
{
    proof {
        lemma_first_vacant(files@, FIRST_FREE_DESCRIPTOR as int);
    }
    let mut i: usize = FIRST_FREE_DESCRIPTOR;
    while i < 16
        invariant
            FIRST_FREE_DESCRIPTOR <= i <= 16,
            first_vacant(files@, FIRST_FREE_DESCRIPTOR as int) == first_vacant(files@, i as int),
        decreases 16 - i,
    {
        if files[i].is_none() {
            return Some(i);
        }
        i = i + 1;
    }
    None
}

/// The slot of the current task's process.
pub open spec fn current_slot_of(scheduler: &Scheduler, processes: &ProcessTable) -> Option<int> {
    processes.lookup(ProcessQuery::Task(scheduler.current().id))
}

/// The descriptor `descriptor` of the process in `slot`, if it is open.
pub open spec fn descriptor_of(processes: &ProcessTable, slot: int, descriptor: u64) -> Option<FdKind> {
    if descriptor < 16 {
        processes.at(slot).files@[descriptor as int]
    } else {
        None
    }
}

/// `after` is `before` with the process in `slot` changed to `process`.
pub open spec fn replaced(before: &ProcessTable, after: &ProcessTable, slot: int) -> bool {
    &&& after.slots@ == before.slots@.update(slot, after.slots@[slot])
    &&& after.slots@[slot] is Some
    &&& after.next_process_id == before.next_process_id
    &&& after.at(slot).id == before.at(slot).id
    &&& after.at(slot).task_id == before.at(slot).task_id
    &&& after.at(slot).state == before.at(slot).state
    &&& after.at(slot).parent == before.at(slot).parent
    &&& after.at(slot).credentials == before.at(slot).credentials
    &&& after.at(slot).exit_code == before.at(slot).exit_code
    &&& after.at(slot).address_space == before.at(slot).address_space
    &&& after.at(slot).cwd == before.at(slot).cwd
    &&& after.at(slot).cwd_len == before.at(slot).cwd_len
}

fn current_process_slot(scheduler: &Scheduler, processes: &ProcessTable) -> (slot: Option<usize>)
    requires
        scheduler.wf(),
        scheduler.task_count != 0,
        processes.wf(),
    ensures
        match slot {
            Some(i) => current_slot_of(scheduler, processes) == Some(i as int) && i < MAX_PROCESSES
                && processes.slots@[i as int] is Some,
            None => current_slot_of(scheduler, processes) is None,
        },
{
    let task = current_task_id(scheduler);
    processes.find(ProcessQuery::Task(task))
}

/// Opens `path` for the current process in its lowest free descriptor. Reading the
/// file system takes the file-read capability; a missing file is created empty when
/// the process may also write.
pub fn open_current<S: Services>(scheduler: &Scheduler, processes: &mut ProcessTable, services: &mut S, path: &str) -> (result: Result<u64, FileError>)
    requires
        scheduler.wf(),
        scheduler.task_count != 0,
        old(processes).wf(),
    ensures
        final(processes).wf(),
        !scheduler.current().capabilities.has(Capability::FileRead) <==> result == Err::<u64, FileError>(
            FileError::PermissionDenied,
        ),
        result is Err ==> final(processes).slots@ == old(processes).slots@,
        result == Err::<u64, FileError>(FileError::NoProcess) ==> current_slot_of(scheduler, old(processes)) is None,
        result == Err::<u64, FileError>(FileError::TooManyFiles) ==> (current_slot_of(scheduler, old(processes)) matches Some(
            slot,
        ) && first_vacant(old(processes).at(slot).files@, FIRST_FREE_DESCRIPTOR as int) is None),
        result is Ok ==> ({
            let slot = current_slot_of(scheduler, old(processes))->0;
            let descriptor = result->Ok_0;
            &&& current_slot_of(scheduler, old(processes)) is Some
            &&& first_vacant(old(processes).at(slot).files@, FIRST_FREE_DESCRIPTOR as int) == Some(descriptor as int)
            &&& replaced(old(processes), final(processes), slot)
            &&& final(processes).at(slot).files@ == old(processes).at(slot).files@.update(
                descriptor as int,
                final(processes).at(slot).files@[descriptor as int],
            )
            &&& final(processes).at(slot).files@[descriptor as int] matches Some(FdKind::File(_))
            &&& final(processes).at(slot).memory_mappings == old(processes).at(slot).memory_mappings
        }),
{
    if !current_has(scheduler, Capability::FileRead) {
        return Err(FileError::PermissionDenied);
    }
    let bytes = path.as_bytes();
    let file = match services.open_file(bytes) {
        Some(id) => id,
        None => {
            if !current_has(scheduler, Capability::FileWrite) {
                return Err(FileError::NotFound);
            }
            if !services.create_file(bytes) {
                return Err(FileError::NotFound);
            }
            match services.open_file(bytes) {
                Some(id) => id,
                None => return Err(FileError::NotFound),
            }
        },
    };
    let slot = match current_process_slot(scheduler, processes) {
        Some(slot) => slot,
        None => return Err(FileError::NoProcess),
    };
    let mut process = match processes.slots[slot] {
        Some(p) => p,
        None => return Err(FileError::NoProcess),
    };
    let descriptor = match free_descriptor(&process.files) {
        Some(d) => d,
        None => return Err(FileError::TooManyFiles),
    };
    process.files[descriptor] = Some(FdKind::File(file));
    processes.slots.set(slot, Some(process));
    Ok(descriptor as u64)
}

/// The open descriptor `descriptor` of the current process.
fn lookup_descriptor(scheduler: &Scheduler, processes: &ProcessTable, descriptor: u64) -> (result: Result<FdKind, FileError>)
    requires
        scheduler.wf(),
        scheduler.task_count != 0,
        processes.wf(),
    ensures
        match current_slot_of(scheduler, processes) {
            None => result == Err::<FdKind, FileError>(FileError::NoProcess),
            Some(slot) => match descriptor_of(processes, slot, descriptor) {
                Some(fd) => result == Ok::<FdKind, FileError>(fd),
                None => result == Err::<FdKind, FileError>(FileError::BadDescriptor),
            },
        },
{
    let slot = match current_process_slot(scheduler, processes) {
        Some(slot) => slot,
        None => return Err(FileError::NoProcess),
    };
    let process = match processes.slots[slot] {
        Some(p) => p,
        None => return Err(FileError::NoProcess),
    };
    if descriptor >= 16 {
        return Err(FileError::BadDescriptor);
    }
    match process.files[descriptor as usize] {
        Some(fd) => Ok(fd),
        None => Err(FileError::BadDescriptor),
    }
}

fn no_one() -> (woken: Vec<Option<TaskId>>)
    ensures
        woken@.len() == 0,
{
    Vec::new()
}

/// Reads through descriptor `descriptor` of the current process: from the file it
/// names, or one non-blocking step on the read end of a pipe, after which the
/// writers it made room for are woken.
pub fn read_current<S: Services>(
    scheduler: &mut Scheduler,
    processes: &ProcessTable,
    pipes: &mut pipe::Table,
    services: &mut S,
    descriptor: u64,
    buffer: &mut [u8],
) -> (result: Result<pipe::Transfer, FileError>)
    requires
        old(scheduler).wf(),
        old(scheduler).task_count != 0,
        processes.wf(),
        old(pipes).wf(),
    ensures
        final(scheduler).wf(),
        final(pipes).wf(),
        final(scheduler).task_count == old(scheduler).task_count,
        final(scheduler).current_slot == old(scheduler).current_slot,
        match current_slot_of(old(scheduler), processes) {
            None => result == Err::<pipe::Transfer, FileError>(FileError::NoProcess),
            Some(slot) => match descriptor_of(processes, slot, descriptor) {
                None => result == Err::<pipe::Transfer, FileError>(FileError::BadDescriptor),
                Some(FdKind::PipeWrite(_)) => result == Err::<pipe::Transfer, FileError>(FileError::BadDescriptor),
                Some(FdKind::PipeRead(id)) => ((old(buffer)@.len() > 0 && !old(pipes).live(id as int)) ==> result is Err)
                    && (old(buffer)@.len() == 0 ==> result is Ok)
                    && (result is Err ==> result == Err::<pipe::Transfer, FileError>(FileError::BadDescriptor)),
                Some(FdKind::File(_)) => result is Err ==> result == Err::<pipe::Transfer, FileError>(
                    FileError::BadDescriptor,
                ),
            },
        },
        result is Err ==> *final(pipes) == *old(pipes),
{
    let fd = match lookup_descriptor(scheduler, processes, descriptor) {
        Ok(fd) => fd,
        Err(error) => return Err(error),
    };
    match fd {
        FdKind::File(id) => match services.read_file(id, buffer) {
            Some(count) => Ok(pipe::Transfer { count, block: false, eof: false, woken: no_one() }),
            None => Err(FileError::BadDescriptor),
        },
        FdKind::PipeRead(id) => {
            let current = current_task_id(scheduler);
            match pipe::read(pipes, id, buffer, current) {
                Ok(transfer) => {
                    wake_all(scheduler, &transfer.woken);
                    Ok(transfer)
                },
                Err(_) => Err(FileError::BadDescriptor),
            }
        },
        FdKind::PipeWrite(_) => Err(FileError::BadDescriptor),
    }
}

/// Writes through descriptor `descriptor` of the current process: to the file it
/// names, which takes the file-write capability, or one non-blocking step on the
/// write end of a pipe, after which the readers are woken.
pub fn write_current<S: Services>(
    scheduler: &mut Scheduler,
    processes: &ProcessTable,
    pipes: &mut pipe::Table,
    services: &mut S,
    descriptor: u64,
    buffer: &[u8],
) -> (result: Result<pipe::Transfer, FileError>)
    requires
        old(scheduler).wf(),
        old(scheduler).task_count != 0,
        processes.wf(),
        old(pipes).wf(),
    ensures
        final(scheduler).wf(),
        final(pipes).wf(),
        final(scheduler).task_count == old(scheduler).task_count,
        final(scheduler).current_slot == old(scheduler).current_slot,
        match current_slot_of(old(scheduler), processes) {
            None => result == Err::<pipe::Transfer, FileError>(FileError::NoProcess),
            Some(slot) => match descriptor_of(processes, slot, descriptor) {
                None => result == Err::<pipe::Transfer, FileError>(FileError::BadDescriptor),
                Some(FdKind::PipeRead(_)) => result == Err::<pipe::Transfer, FileError>(FileError::BadDescriptor),
                Some(FdKind::PipeWrite(id)) => ((buffer@.len() > 0 && (!old(pipes).live(id as int)
                    || old(pipes).pipe(id as int).reader_count() == 0)) ==> result is Err) && (buffer@.len() == 0 ==> result is Ok)
                    && (result is Err ==> result == Err::<pipe::Transfer, FileError>(FileError::BadDescriptor)),
                Some(FdKind::File(_)) => {
                    &&& !old(scheduler).current().capabilities.has(Capability::FileWrite) ==> result == Err::<
                        pipe::Transfer,
                        FileError,
                    >(FileError::PermissionDenied)
                    &&& old(scheduler).current().capabilities.has(Capability::FileWrite) && result is Err ==> result
                        == Err::<pipe::Transfer, FileError>(FileError::BadDescriptor)
                },
            },
        },
        result is Err ==> *final(pipes) == *old(pipes),
{
    let fd = match lookup_descriptor(scheduler, processes, descriptor) {
        Ok(fd) => fd,
        Err(error) => return Err(error),
    };
    match fd {
        FdKind::File(id) => {
            if !current_has(scheduler, Capability::FileWrite) {
                return Err(FileError::PermissionDenied);
            }
            match services.write_file(id, buffer) {
                Some(count) => Ok(pipe::Transfer { count, block: false, eof: false, woken: no_one() }),
                None => Err(FileError::BadDescriptor),
            }
        },
        FdKind::PipeWrite(id) => {
            let current = current_task_id(scheduler);
            match pipe::write(pipes, id, buffer, current) {
                Ok(transfer) => {
                    wake_all(scheduler, &transfer.woken);
                    Ok(transfer)
                },
                Err(_) => Err(FileError::BadDescriptor),
            }
        },
        FdKind::PipeRead(_) => Err(FileError::BadDescriptor),
    }
}

/// Moves the offset of the file behind descriptor `descriptor` of the current
/// process to `offset`; pipes cannot seek.
pub fn seek_current<S: Services>(scheduler: &Scheduler, processes: &ProcessTable, services: &mut S, descriptor: u64, offset: u64) -> (result: Result<u64, FileError>)
    requires
        scheduler.wf(),
        scheduler.task_count != 0,
        processes.wf(),
    ensures
        offset > usize::MAX ==> result == Err::<u64, FileError>(FileError::BadDescriptor),
        offset <= usize::MAX ==> match current_slot_of(scheduler, processes) {
            None => result == Err::<u64, FileError>(FileError::NoProcess),
            Some(slot) => match descriptor_of(processes, slot, descriptor) {
                Some(FdKind::File(_)) => result is Err ==> result == Err::<u64, FileError>(FileError::BadDescriptor),
                _ => result == Err::<u64, FileError>(FileError::BadDescriptor),
            },
        },
{
    if offset > usize::MAX as u64 {
        return Err(FileError::BadDescriptor);
    }
    let fd = match lookup_descriptor(scheduler, processes, descriptor) {
        Ok(fd) => fd,
        Err(error) => return Err(error),
    };
    match fd {
        FdKind::File(id) => match services.seek_file(id, offset as usize) {
            Some(position) => Ok(position as u64),
            None => Err(FileError::BadDescriptor),
        },
        _ => Err(FileError::BadDescriptor),
    }
}

/// One more reference to what `fd` refers to, for a second descriptor.
fn share_fd<S: Services>(pipes: &mut pipe::Table, services: &mut S, fd: FdKind) -> (result: Result<FdKind, FileError>)
    requires
        old(pipes).wf(),
    ensures
        final(pipes).wf(),
        result is Err ==> result == Err::<FdKind, FileError>(FileError::TooManyFiles),
        result matches Ok(shared) ==> match fd {
            FdKind::File(_) => shared matches FdKind::File(_),
            _ => shared == fd,
        },
        match fd {
            FdKind::PipeRead(id) => result is Err <==> !old(pipes).live(id as int),
            FdKind::PipeWrite(id) => result is Err <==> !old(pipes).live(id as int),
            FdKind::File(_) => true,
        },
{
    match fd {
        FdKind::File(id) => match services.clone_file(id) {
            Some(copy) => Ok(FdKind::File(copy)),
            None => Err(FileError::TooManyFiles),
        },
        FdKind::PipeRead(id) => match pipe::clone_reader(pipes, id) {
            Ok(()) => Ok(FdKind::PipeRead(id)),
            Err(_) => Err(FileError::TooManyFiles),
        },
        FdKind::PipeWrite(id) => match pipe::clone_writer(pipes, id) {
            Ok(()) => Ok(FdKind::PipeWrite(id)),
            Err(_) => Err(FileError::TooManyFiles),
        },
    }
}

/// Duplicates descriptor `descriptor` of the current process into its lowest free
/// descriptor.
pub fn dup_current<S: Services>(
    scheduler: &Scheduler,
    processes: &mut ProcessTable,
    pipes: &mut pipe::Table,
    services: &mut S,
    descriptor: u64,
) -> (result: Result<u64, FileError>)
    requires
        scheduler.wf(),
        scheduler.task_count != 0,
        old(processes).wf(),
        old(pipes).wf(),
    ensures
        final(processes).wf(),
        final(pipes).wf(),
        result is Err ==> final(processes).slots@ == old(processes).slots@,
        match current_slot_of(scheduler, old(processes)) {
            None => result == Err::<u64, FileError>(FileError::NoProcess),
            Some(slot) => match descriptor_of(old(processes), slot, descriptor) {
                None => result == Err::<u64, FileError>(FileError::BadDescriptor),
                Some(fd) => {
                    &&& result is Err ==> result == Err::<u64, FileError>(FileError::TooManyFiles)
                    &&& first_vacant(old(processes).at(slot).files@, FIRST_FREE_DESCRIPTOR as int) is None ==> result is Err
                    &&& result is Ok ==> {
                        let copy = result->Ok_0;
                        &&& first_vacant(old(processes).at(slot).files@, FIRST_FREE_DESCRIPTOR as int) == Some(copy as int)
                        &&& replaced(old(processes), final(processes), slot)
                        &&& final(processes).at(slot).memory_mappings == old(processes).at(slot).memory_mappings
                        &&& final(processes).at(slot).files@ == old(processes).at(slot).files@.update(
                            copy as int,
                            final(processes).at(slot).files@[copy as int],
                        )
                        &&& match fd {
                            FdKind::File(_) => final(processes).at(slot).files@[copy as int] matches Some(
                                FdKind::File(_),
                            ),
                            _ => final(processes).at(slot).files@[copy as int] == Some(fd),
                        }
                    }
                },
            },
        },
{
    let fd = match lookup_descriptor(scheduler, processes, descriptor) {
        Ok(fd) => fd,
        Err(error) => return Err(error),
    };
    let slot = match current_process_slot(scheduler, processes) {
        Some(slot) => slot,
        None => return Err(FileError::NoProcess),
    };
    let mut process = match processes.slots[slot] {
        Some(p) => p,
        None => return Err(FileError::NoProcess),
    };
    let shared = match share_fd(pipes, services, fd) {
        Ok(shared) => shared,
        Err(error) => return Err(error),
    };
    let copy = match free_descriptor(&process.files) {
        Some(d) => d,
        None => return Err(FileError::TooManyFiles),
    };
    process.files[copy] = Some(shared);
    processes.slots.set(slot, Some(process));
    Ok(copy as u64)
}

/// Makes descriptor `new` of the current process refer to what `old_fd` refers to,
/// closing what `new` held; a descriptor duplicated onto itself is left alone.
pub fn dup2_current<S: Services>(
    scheduler: &mut Scheduler,
    processes: &mut ProcessTable,
    pipes: &mut pipe::Table,
    services: &mut S,
    old_fd: u64,
    new: u64,
) -> (result: Result<u64, FileError>)
    requires
        old(scheduler).wf(),
        old(scheduler).task_count != 0,
        old(processes).wf(),
        old(pipes).wf(),
    ensures
        final(scheduler).wf(),
        final(processes).wf(),
        final(pipes).wf(),
        final(scheduler).task_count == old(scheduler).task_count,
        final(scheduler).current_slot == old(scheduler).current_slot,
        result is Err ==> final(processes).slots@ == old(processes).slots@,
        new >= 16 ==> result == Err::<u64, FileError>(FileError::BadDescriptor),
        new < 16 && old_fd == new ==> result == Ok::<u64, FileError>(new) && final(processes).slots@ == old(
            processes,
        ).slots@,
        new < 16 && old_fd != new ==> match current_slot_of(old(scheduler), old(processes)) {
            None => result == Err::<u64, FileError>(FileError::NoProcess),
            Some(slot) => match descriptor_of(old(processes), slot, old_fd) {
                None => result == Err::<u64, FileError>(FileError::BadDescriptor),
                Some(fd) => {
                    &&& result is Err ==> result == Err::<u64, FileError>(FileError::TooManyFiles)
                    &&& result is Ok ==> {
                        &&& result->Ok_0 == new
                        &&& replaced(old(processes), final(processes), slot)
                        &&& final(processes).at(slot).memory_mappings == old(processes).at(slot).memory_mappings
                        &&& final(processes).at(slot).files@ == old(processes).at(slot).files@.update(
                            new as int,
                            final(processes).at(slot).files@[new as int],
                        )
                        &&& match fd {
                            FdKind::File(_) => final(processes).at(slot).files@[new as int] matches Some(
                                FdKind::File(_),
                            ),
                            _ => final(processes).at(slot).files@[new as int] == Some(fd),
                        }
                    }
                },
            },
        },
{
    if new >= 16 {
        return Err(FileError::BadDescriptor);
    }
    if old_fd == new {
        return Ok(new);
    }
    let fd = match lookup_descriptor(scheduler, processes, old_fd) {
        Ok(fd) => fd,
        Err(error) => return Err(error),
    };
    let slot = match current_process_slot(scheduler, processes) {
        Some(slot) => slot,
        None => return Err(FileError::NoProcess),
    };
    let mut process = match processes.slots[slot] {
        Some(p) => p,
        None => return Err(FileError::NoProcess),
    };
    let shared = match share_fd(pipes, services, fd) {
        Ok(shared) => shared,
        Err(error) => return Err(error),
    };
    let index = new as usize;
    match process.files[index] {
        Some(previous) => {
            process.files[index] = None;
            release_fd(scheduler, pipes, services, previous);
        },
        None => {},
    }
    process.files[index] = Some(shared);
    processes.slots.set(slot, Some(process));
    Ok(new)
}

/// Creates a pipe and gives its read end and its write end the two lowest free
/// descriptors of the current process.
pub fn pipe_current(scheduler: &Scheduler, processes: &mut ProcessTable, pipes: &mut pipe::Table) -> (result: Result<(u64, u64), FileError>)
    requires
        scheduler.wf(),
        scheduler.task_count != 0,
        old(processes).wf(),
        old(pipes).wf(),
    ensures
        final(processes).wf(),
        final(pipes).wf(),
        (forall|id: int| 0 <= id < pipe::MAX_PIPES ==> old(pipes).live(id)) ==> result
            == Err::<(u64, u64), FileError>(FileError::TooManyFiles) && final(processes).slots@ == old(processes).slots@,
        result == Err::<(u64, u64), FileError>(FileError::NoProcess) ==> current_slot_of(scheduler, old(processes)) is None,
        result is Ok ==> ({
            let slot = current_slot_of(scheduler, old(processes))->0;
            let (reader, writer) = result->Ok_0;
            let files = old(processes).at(slot).files@;
            &&& current_slot_of(scheduler, old(processes)) is Some
            &&& first_vacant(files, FIRST_FREE_DESCRIPTOR as int) == Some(reader as int)
            &&& first_vacant(files.update(reader as int, Some(FdKind::PipeRead(0))), FIRST_FREE_DESCRIPTOR as int) == Some(writer as int)
            &&& replaced(old(processes), final(processes), slot)
            &&& final(processes).at(slot).memory_mappings == old(processes).at(slot).memory_mappings
            &&& (final(processes).at(slot).files@[reader as int] matches Some(FdKind::PipeRead(id)) && final(processes).at(
                slot,
            ).files@[writer as int] == Some(FdKind::PipeWrite(id)) && final(pipes).live(id as int))
            &&& final(processes).at(slot).files@ == files.update(
                reader as int,
                final(processes).at(slot).files@[reader as int],
            ).update(writer as int, final(processes).at(slot).files@[writer as int])
        }),
{
    let pipe_id = match pipe::create(pipes) {
        Ok(id) => id,
        Err(_) => return Err(FileError::TooManyFiles),
    };
    let slot = match current_process_slot(scheduler, processes) {
        Some(slot) => slot,
        None => return Err(FileError::NoProcess),
    };
    let mut process = match processes.slots[slot] {
        Some(p) => p,
        None => return Err(FileError::NoProcess),
    };
    let reader = match free_descriptor(&process.files) {
        Some(d) => d,
        None => return Err(FileError::TooManyFiles),
    };
    let ghost files = process.files@;
    process.files[reader] = Some(FdKind::PipeRead(pipe_id));
    proof {
        lemma_first_vacant_same_shape(files, reader as int, Some(FdKind::PipeRead(pipe_id)), Some(FdKind::PipeRead(0)));
    }
    let writer = match free_descriptor(&process.files) {
        Some(d) => d,
        None => {
            processes.slots.set(slot, Some(process));
            return Err(FileError::TooManyFiles);
        },
    };
    process.files[writer] = Some(FdKind::PipeWrite(pipe_id));
    processes.slots.set(slot, Some(process));
    Ok((reader as u64, writer as u64))
}

proof fn lemma_first_vacant_same_shape<T>(entries: Seq<Option<T>>, at: int, a: Option<T>, b: Option<T>)
    requires
        0 <= at < entries.len(),
        a is Some,
        b is Some,
    ensures
        first_vacant(entries.update(at, a), FIRST_FREE_DESCRIPTOR as int) == first_vacant(entries.update(at, b), FIRST_FREE_DESCRIPTOR as int),
{
    lemma_first_vacant_shape(entries.update(at, a), entries.update(at, b), FIRST_FREE_DESCRIPTOR as int);
}

proof fn lemma_first_vacant_shape<T>(x: Seq<Option<T>>, y: Seq<Option<T>>, from: int)
    requires
        x.len() == y.len(),
        forall|i: int| 0 <= i < x.len() ==> ((#[trigger] x[i]) is None) == (y[i] is None),
    ensures
        first_vacant(x, from) == first_vacant(y, from),
    decreases x.len() - from,
{
    if 0 <= from < x.len() {
        lemma_first_vacant_shape(x, y, from + 1);
    }
}

/// Closes descriptor `descriptor` of the current process; the standard streams
/// cannot be closed.
pub fn close_current<S: Services>(
    scheduler: &mut Scheduler,
    processes: &mut ProcessTable,
    pipes: &mut pipe::Table,
    services: &mut S,
    descriptor: u64,
) -> (result: Result<(), FileError>)
    requires
        old(scheduler).wf(),
        old(scheduler).task_count != 0,
        old(processes).wf(),
        old(pipes).wf(),
    ensures
        final(scheduler).wf(),
        final(processes).wf(),
        final(pipes).wf(),
        final(scheduler).task_count == old(scheduler).task_count,
        final(scheduler).current_slot == old(scheduler).current_slot,
        result is Err ==> final(processes).slots@ == old(processes).slots@,
        descriptor < 3 ==> result == Err::<(), FileError>(FileError::BadDescriptor),
        descriptor >= 3 ==> match current_slot_of(old(scheduler), old(processes)) {
            None => result == Err::<(), FileError>(FileError::NoProcess),
            Some(slot) => match descriptor_of(old(processes), slot, descriptor) {
                None => result == Err::<(), FileError>(FileError::BadDescriptor),
                Some(_) => {
                    &&& result is Ok
                    &&& replaced(old(processes), final(processes), slot)
                    &&& final(processes).at(slot).memory_mappings == old(processes).at(slot).memory_mappings
                    &&& final(processes).at(slot).files@ == old(processes).at(slot).files@.update(
                        descriptor as int,
                        None,
                    )
                },
            },
        },
{
    if descriptor < 3 {
        return Err(FileError::BadDescriptor);
    }
    let fd = match lookup_descriptor(scheduler, processes, descriptor) {
        Ok(fd) => fd,
        Err(error) => return Err(error),
    };
    let slot = match current_process_slot(scheduler, processes) {
        Some(slot) => slot,
        None => return Err(FileError::NoProcess),
    };
    let mut process = match processes.slots[slot] {
        Some(p) => p,
        None => return Err(FileError::NoProcess),
    };
    process.files[descriptor as usize] = None;
    processes.slots.set(slot, Some(process));
    release_fd(scheduler, pipes, services, fd);
    Ok(())
}

/// The size of an anonymous mapping of `length` bytes: rounded up to whole pages,
/// refused when empty or when it does not fit the address width.
pub open spec fn mapping_size(length: u64) -> Option<int> {
    if length + 4095 > usize::MAX {
        None
    } else {
        let size = (length + 4095) / 4096 * 4096;
        if size == 0 {
            None
        } else {
            Some(size)
        }
    }
}

fn mapping_size_of(length: u64) -> (size: Option<usize>)
    ensures
        match size {
            Some(s) => mapping_size(length) == Some(s as int),
            None => mapping_size(length) is None,
        },
{
    if length > usize::MAX as u64 {
        return None;
    }
    let length = length as usize;
    let padded = match length.checked_add(4095) {
        Some(padded) => padded,
        None => return None,
    };
    let size = padded / 4096 * 4096;
    if size == 0 {
        None
    } else {
        Some(size)
    }
}

fn free_mapping(mappings: &[Option<AnonymousMapping>; 16]) -> (slot: Option<usize>)
    ensures
        match slot {
            Some(i) => first_vacant(mappings@, 0) == Some(i as int) && i < 16 && mappings@[i as int] is None,
            None => first_vacant(mappings@, 0) is None,
        },
{
    proof {
        lemma_first_vacant(mappings@, 0);
    }
    let mut i: usize = 0;
    while i < 16
        invariant
            i <= 16,
            first_vacant(mappings@, 0) == first_vacant(mappings@, i as int),
        decreases 16 - i,
    {
        if mappings[i].is_none() {
            return Some(i);
        }
        i = i + 1;
    }
    None
}

/// Maps `length` bytes, rounded up to pages, of fresh memory into the current
/// process, in its first free mapping slot, and gives the address.
pub fn mmap_current<S: Services>(
    scheduler: &Scheduler,
    processes: &mut ProcessTable,
    services: &mut S,
    length: u64,
    writable: bool,
) -> (result: Result<u64, MemoryError>)
    requires
        scheduler.wf(),
        scheduler.task_count != 0,
        old(processes).wf(),
    ensures
        final(processes).wf(),
        result is Err ==> final(processes).slots@ == old(processes).slots@,
        mapping_size(length) is None ==> result == Err::<u64, MemoryError>(MemoryError::InvalidLength),
        mapping_size(length) is Some ==> match current_slot_of(scheduler, old(processes)) {
            None => result == Err::<u64, MemoryError>(MemoryError::NoProcess),
            Some(slot) => {
                let before = old(processes).at(slot);
                match first_vacant(before.memory_mappings@, 0) {
                    None => result == Err::<u64, MemoryError>(MemoryError::Full),
                    Some(index) => if before.address_space is None {
                        result == Err::<u64, MemoryError>(MemoryError::NoProcess)
                    } else {
                        &&& result is Err ==> result == Err::<u64, MemoryError>(MemoryError::MappingFailed)
                        &&& result is Ok ==> {
                            &&& replaced(old(processes), final(processes), slot)
                            &&& final(processes).at(slot).files == before.files
                            &&& final(processes).at(slot).memory_mappings@ == before.memory_mappings@.update(
                                index,
                                final(processes).at(slot).memory_mappings@[index],
                            )
                            &&& final(processes).at(slot).memory_mappings@[index] matches Some(mapping)
                                && mapping.address == result->Ok_0
                        }
                    },
                }
            },
        },
{
    let size = match mapping_size_of(length) {
        Some(size) => size,
        None => return Err(MemoryError::InvalidLength),
    };
    let slot = match current_process_slot(scheduler, processes) {
        Some(slot) => slot,
        None => return Err(MemoryError::NoProcess),
    };
    let mut process = match processes.slots[slot] {
        Some(p) => p,
        None => return Err(MemoryError::NoProcess),
    };
    let index = match free_mapping(&process.memory_mappings) {
        Some(index) => index,
        None => return Err(MemoryError::Full),
    };
    let space = match process.address_space {
        Some(space) => space,
        None => return Err(MemoryError::NoProcess),
    };
    let mapping = match services.map_anonymous(space, index, size, writable) {
        Some(mapping) => mapping,
        None => return Err(MemoryError::MappingFailed),
    };
    process.memory_mappings[index] = Some(mapping);
    processes.slots.set(slot, Some(process));
    Ok(mapping.address)
}

/// The first mapping at or after `from` at `address` of exactly `size` bytes.
pub open spec fn first_mapping(mappings: Seq<Option<AnonymousMapping>>, address: u64, size: int, from: int) -> Option<int>
    decreases mappings.len() - from,
{
    if from < 0 || from >= mappings.len() {
        None
    } else if mappings[from] matches Some(m) && m.address == address && m.size == size {
        Some(from)
    } else {
        first_mapping(mappings, address, size, from + 1)
    }
}

proof fn lemma_first_mapping(mappings: Seq<Option<AnonymousMapping>>, address: u64, size: int, from: int)
    requires
        0 <= from,
    ensures
        first_mapping(mappings, address, size, from) matches Some(i) ==> from <= i < mappings.len()
            && mappings[i] is Some,
    decreases mappings.len() - from,
{
    if from < mappings.len() {
        lemma_first_mapping(mappings, address, size, from + 1);
    }
}

fn find_mapping(mappings: &[Option<AnonymousMapping>; 16], address: u64, size: usize) -> (slot: Option<usize>)
    ensures
        match slot {
            Some(i) => first_mapping(mappings@, address, size as int, 0) == Some(i as int) && i < 16
                && mappings@[i as int] is Some,
            None => first_mapping(mappings@, address, size as int, 0) is None,
        },
{
    proof {
        lemma_first_mapping(mappings@, address, size as int, 0);
    }
    let mut i: usize = 0;
    while i < 16
        invariant
            i <= 16,
            first_mapping(mappings@, address, size as int, 0) == first_mapping(mappings@, address, size as int, i as int),
        decreases 16 - i,
    {
        match mappings[i] {
            Some(m) => {
                if m.address == address && m.size == size {
                    return Some(i);
                }
            },
            None => {},
        }
        i = i + 1;
    }
    None
}

/// Unmaps the mapping of the current process at `address` whose size is `length`
/// rounded up to pages.
pub fn munmap_current<S: Services>(
    scheduler: &Scheduler,
    processes: &mut ProcessTable,
    services: &mut S,
    address: u64,
    length: u64,
) -> (result: Result<(), MemoryError>)
    requires
        scheduler.wf(),
        scheduler.task_count != 0,
        old(processes).wf(),
    ensures
        final(processes).wf(),
        result is Err ==> final(processes).slots@ == old(processes).slots@,
        mapping_size(length) is None ==> result == Err::<(), MemoryError>(MemoryError::InvalidLength),
        mapping_size(length) matches Some(size) ==> match current_slot_of(scheduler, old(processes)) {
            None => result == Err::<(), MemoryError>(MemoryError::NoProcess),
            Some(slot) => {
                let before = old(processes).at(slot);
                match first_mapping(before.memory_mappings@, address, size, 0) {
                    None => result == Err::<(), MemoryError>(MemoryError::NotFound),
                    Some(index) => if before.address_space is None {
                        result == Err::<(), MemoryError>(MemoryError::NoProcess)
                    } else {
                        &&& result is Err ==> result == Err::<(), MemoryError>(MemoryError::MappingFailed)
                        &&& result is Ok ==> {
                            &&& replaced(old(processes), final(processes), slot)
                            &&& final(processes).at(slot).files == before.files
                            &&& final(processes).at(slot).memory_mappings@ == before.memory_mappings@.update(index, None)
                        }
                    },
                }
            },
        },
{
    let size = match mapping_size_of(length) {
        Some(size) => size,
        None => return Err(MemoryError::InvalidLength),
    };
    let slot = match current_process_slot(scheduler, processes) {
        Some(slot) => slot,
        None => return Err(MemoryError::NoProcess),
    };
    let mut process = match processes.slots[slot] {
        Some(p) => p,
        None => return Err(MemoryError::NoProcess),
    };
    let index = match find_mapping(&process.memory_mappings, address, size) {
        Some(index) => index,
        None => return Err(MemoryError::NotFound),
    };
    let mapping = match process.memory_mappings[index] {
        Some(m) => m,
        None => return Err(MemoryError::NotFound),
    };
    let space = match process.address_space {
        Some(space) => space,
        None => return Err(MemoryError::NoProcess),
    };
    if !services.unmap_anonymous(space, mapping) {
        return Err(MemoryError::MappingFailed);
    }
    process.memory_mappings[index] = None;
    processes.slots.set(slot, Some(process));
    Ok(())
}

/// Where the component of `path` that starts at `from` ends: at the next `/`, or at
/// the end of the path.
pub open spec fn component_end(path: Seq<u8>, from: int) -> int
    decreases path.len() - from,
{
    if from < 0 || from >= path.len() {
        path.len() as int
    } else if path[from] == 0x2f {
        from
    } else {
        component_end(path, from + 1)
    }
}

pub proof fn lemma_component_end(path: Seq<u8>, from: int)
    requires
        0 <= from <= path.len(),
    ensures
        from <= component_end(path, from) <= path.len(),
        component_end(path, from) < path.len() ==> path[component_end(path, from)] == 0x2f,
        forall|k: int| from <= k < component_end(path, from) ==> path[k] != 0x2f,
    decreases path.len() - from,
{
    if from < path.len() && path[from] != 0x2f {
        lemma_component_end(path, from + 1);
    }
}

/// The directory stack after one more component: empty components and `.` change
/// nothing, `..` goes up but never above the root, and a name holding a NUL byte is
/// refused.
pub open spec fn push_component(stack: Seq<Seq<u8>>, component: Seq<u8>) -> Option<Seq<Seq<u8>>> {
    if component.len() == 0 || component == seq![0x2eu8] {
        Some(stack)
    } else if component == seq![0x2eu8, 0x2eu8] {
        Some(
            if stack.len() > 0 {
                stack.drop_last()
            } else {
                stack
            },
        )
    } else if component.contains(0u8) {
        None
    } else {
        Some(stack.push(component))
    }
}

/// The directory stack after the components of `path` from byte `from` on.
pub open spec fn walk(stack: Seq<Seq<u8>>, path: Seq<u8>, from: int) -> Option<Seq<Seq<u8>>>
    decreases path.len() - from,
{
    if from < 0 || from > path.len() {
        None
    } else {
        let end = component_end(path, from);
        match push_component(stack, path.subrange(from, end)) {
            None => None,
            Some(next) => if from <= end < path.len() {
                walk(next, path, end + 1)
            } else {
                Some(next)
            },
        }
    }
}

/// `/` followed by the names of `stack` joined with `/`.
pub open spec fn joined(stack: Seq<Seq<u8>>) -> Seq<u8>
    decreases stack.len(),
{
    if stack.len() == 0 {
        Seq::empty()
    } else {
        joined(stack.drop_last()) + seq![0x2fu8] + stack.last()
    }
}

/// The absolute path of a directory stack; the empty stack is the root.
pub open spec fn rendered(stack: Seq<Seq<u8>>) -> Seq<u8> {
    if stack.len() == 0 {
        seq![0x2fu8]
    } else {
        joined(stack)
    }
}

/// The canonical form of the absolute path `path`: `.`, `..` and repeated slashes
/// resolved; refused when the path is not absolute, holds a NUL byte in a name, or
/// comes out longer than a path may be.
pub open spec fn normalized(path: Seq<u8>) -> Option<Seq<u8>> {
    if path.len() == 0 || path[0] != 0x2f {
        None
    } else {
        match walk(Seq::empty(), path, 0) {
            None => None,
            Some(stack) => if rendered(stack).len() > MAX_PATH_SIZE {
                None
            } else {
                Some(rendered(stack))
            },
        }
    }
}

/// The names of the stack of byte ranges `ranges` of `path`.
pub open spec fn names(path: Seq<u8>, ranges: Seq<(usize, usize)>) -> Seq<Seq<u8>> {
    ranges.map_values(|r: (usize, usize)| path.subrange(r.0 as int, r.1 as int))
}

fn holds_nul(path: &[u8], start: usize, end: usize) -> (nul: bool)
    requires
        start <= end <= path@.len(),
    ensures
        nul == path@.subrange(start as int, end as int).contains(0u8),
{
    let mut k = start;
    while k < end
        invariant
            start <= k <= end <= path@.len(),
            forall|j: int| start <= j < k ==> path@[j] != 0u8,
        decreases end - k,
    {
        if path[k] == 0 {
            proof {
                assert(path@.subrange(start as int, end as int)[k - start] == 0u8);
            }
            return true;
        }
        k = k + 1;
    }
    proof {
        if path@.subrange(start as int, end as int).contains(0u8) {
            let j = choose|j: int|
                0 <= j < end - start && #[trigger] path@.subrange(start as int, end as int)[j] == 0u8;
            assert(path@[start + j] == 0u8);
        }
    }
    false
}

/// Resolves `.`, `..` and repeated slashes in the absolute path `path`.
pub fn normalize_absolute(path: &[u8]) -> (result: Result<Vec<u8>, FileError>)
    ensures
        match result {
            Ok(out) => normalized(path@) == Some(out@),
            Err(error) => normalized(path@) is None && error == FileError::NotFound,
        },
{
    let length = path.len();
    if length == 0 || path[0] != 0x2f {
        return Err(FileError::NotFound);
    }
    let mut stack: Vec<(usize, usize)> = Vec::new();
    let mut at: usize = 0;
    proof {
        assert(names(path@, stack@) =~= Seq::<Seq<u8>>::empty());
    }
    loop
        invariant_except_break
            at <= length,
            walk(Seq::empty(), path@, 0) == walk(names(path@, stack@), path@, at as int),
        invariant
            length == path@.len(),
            forall|i: int| 0 <= i < stack@.len() ==> (#[trigger] stack@[i]).0 <= stack@[i].1 <= length,
        ensures
            walk(Seq::empty(), path@, 0) == Some(names(path@, stack@)),
        decreases length - at,
    {
        let mut end = at;
        while end < length && path[end] != 0x2f
            invariant
                at <= end <= length,
                length == path@.len(),
                forall|k: int| at <= k < end ==> path@[k] != 0x2f,
            decreases length - end,
        {
            end = end + 1;
        }
        proof {
            lemma_component_end(path@, at as int);
            if component_end(path@, at as int) < end {
                assert(path@[component_end(path@, at as int)] == 0x2f);
            }
            if component_end(path@, at as int) > end {
                assert(path@[end as int] != 0x2f);
            }
            assert(component_end(path@, at as int) == end);
        }
        let ghost component = path@.subrange(at as int, end as int);
        let ghost before = names(path@, stack@);
        let size = end - at;
        if size == 0 || (size == 1 && path[at] == 0x2e) {
            proof {
                if size == 1 {
                    assert(component =~= seq![0x2eu8]);
                }
                assert(push_component(before, component) == Some(before));
            }
        } else if size == 2 && path[at] == 0x2e && path[at + 1] == 0x2e {
            proof {
                assert(component =~= seq![0x2eu8, 0x2eu8]);
            }
            if stack.len() > 0 {
                stack.pop();
                proof {
                    assert(names(path@, stack@) =~= before.drop_last());
                }
            }
            proof {
                assert(push_component(before, component) == Some(names(path@, stack@)));
            }
        } else {
            proof {
                if size == 1 {
                    assert(component != seq![0x2eu8]) by {
                        assert(component[0] != seq![0x2eu8][0]);
                    }
                }
                if size == 2 {
                    assert(component != seq![0x2eu8, 0x2eu8]) by {
                        if path[at as int] != 0x2e {
                            assert(component[0] != seq![0x2eu8, 0x2eu8][0]);
                        } else {
                            assert(component[1] != seq![0x2eu8, 0x2eu8][1]);
                        }
                    }
                }
            }
            if holds_nul(path, at, end) {
                return Err(FileError::NotFound);
            }
            stack.push((at, end));
            proof {
                assert(names(path@, stack@) =~= before.push(component));
                assert(component.len() != 0);
                assert(component != seq![0x2eu8]);
                assert(component != seq![0x2eu8, 0x2eu8]);
                assert(push_component(before, component) == Some(names(path@, stack@)));
            }
        }
        proof {
            assert(push_component(before, component) == Some(names(path@, stack@)));
        }
        if end >= length {
            break;
        }
        at = end + 1;
    }
    let ghost parts = names(path@, stack@);
    let mut out: Vec<u8> = Vec::new();
    let mut k: usize = 0;
    while k < stack.len()
        invariant
            k <= stack@.len(),
            length == path@.len(),
            parts == names(path@, stack@),
            forall|i: int| 0 <= i < stack@.len() ==> (#[trigger] stack@[i]).0 <= stack@[i].1 <= length,
            out@ == joined(parts.take(k as int)),
        decreases stack@.len() - k,
    {
        let (start, end) = stack[k];
        out.push(0x2f);
        let mut j = start;
        let ghost prefix = out@;
        while j < end
            invariant
                start <= j <= end <= length,
                length == path@.len(),
                out@ == prefix + path@.subrange(start as int, j as int),
            decreases end - j,
        {
            out.push(path[j]);
            proof {
                assert(path@.subrange(start as int, j as int + 1) =~= path@.subrange(start as int, j as int).push(path@[j as int]));
            }
            j = j + 1;
        }
        proof {
            assert(parts.take(k as int + 1).drop_last() =~= parts.take(k as int));
        }
        k = k + 1;
    }
    proof {
        assert(parts.take(stack@.len() as int) =~= parts);
    }
    if stack.len() == 0 {
        out.push(0x2f);
    }
    if out.len() > MAX_PATH_SIZE {
        return Err(FileError::NotFound);
    }
    Ok(out)
}

/// The absolute path that `path` names for a process whose directory is `cwd`.
pub open spec fn resolved(path: Seq<u8>, cwd: Seq<u8>) -> Option<Seq<u8>> {
    if path.len() == 0 {
        None
    } else if path[0] == 0x2f {
        normalized(path)
    } else if cwd == seq![0x2fu8] {
        normalized(seq![0x2fu8] + path)
    } else {
        normalized(cwd + seq![0x2fu8] + path)
    }
}

pub fn append(out: &mut Vec<u8>, bytes: &[u8])
    ensures
        final(out)@ == old(out)@ + bytes@,
{
    let mut i: usize = 0;
    while i < bytes.len()
        invariant
            i <= bytes@.len(),
            out@ == old(out)@ + bytes@.subrange(0, i as int),
        decreases bytes@.len() - i,
    {
        out.push(bytes[i]);
        proof {
            assert(bytes@.subrange(0, i as int + 1) =~= bytes@.subrange(0, i as int).push(bytes@[i as int]));
        }
        i = i + 1;
    }
    proof {
        assert(bytes@.subrange(0, bytes@.len() as int) =~= bytes@);
    }
}

/// Resolves `path` against the directory `cwd[..cwd_len]`.
pub fn resolve_path_with_cwd(path: &[u8], cwd: &[u8; 128], cwd_len: usize) -> (result: Result<Vec<u8>, FileError>)
    requires
        cwd_len <= MAX_PATH_SIZE,
    ensures
        match result {
            Ok(out) => resolved(path@, cwd@.subrange(0, cwd_len as int)) == Some(out@),
            Err(error) => resolved(path@, cwd@.subrange(0, cwd_len as int)) is None && error == FileError::NotFound,
        },
{
    if path.len() == 0 {
        return Err(FileError::NotFound);
    }
    if path[0] == 0x2f {
        return normalize_absolute(path);
    }
    let (directory, _) = cwd.split_at(cwd_len);
    let mut joined: Vec<u8> = Vec::new();
    if cwd_len == 1 && cwd[0] == 0x2f {
        proof {
            assert(directory@ =~= seq![0x2fu8]);
        }
        joined.push(0x2f);
        append(&mut joined, path);
    } else {
        proof {
            if directory@ == seq![0x2fu8] {
                assert(directory@.len() == 1 && directory@[0] == 0x2f);
            }
        }
        append(&mut joined, directory);
        joined.push(0x2f);
        append(&mut joined, path);
    }
    proof {
        assert(directory@ == cwd@.subrange(0, cwd_len as int));
        if cwd_len == 1 && cwd[0] == 0x2f {
            assert(joined@ =~= seq![0x2fu8] + path@);
        } else {
            assert(joined@ =~= directory@ + seq![0x2fu8] + path@);
        }
    }
    normalize_absolute(joined.as_slice())
}

/// The working directory of the current process; a kernel task works in `/`.
pub fn current_cwd(scheduler: &Scheduler, processes: &ProcessTable) -> (cwd: ([u8; 128], usize))
    requires
        scheduler.wf(),
        scheduler.task_count != 0,
        processes.wf(),
    ensures
        cwd.1 <= MAX_PATH_SIZE,
        match current_slot_of(scheduler, processes) {
            Some(slot) => cwd.0 == processes.at(slot).cwd && cwd.1 == processes.at(slot).cwd_len,
            None => cwd.1 == 1 && cwd.0@[0] == 0x2f,
        },
{
    match current_process_slot(scheduler, processes) {
        Some(slot) => match processes.slots[slot] {
            Some(p) => (p.cwd, p.cwd_len),
            None => {
                let mut root: [u8; 128] = [0u8; 128];
                root[0] = 0x2f;
                (root, 1)
            },
        },
        None => {
            let mut root: [u8; 128] = [0u8; 128];
            root[0] = 0x2f;
            (root, 1)
        },
    }
}

/// The current process's working directory as bytes, from `cwd`.
pub open spec fn current_directory(scheduler: &Scheduler, processes: &ProcessTable) -> Seq<u8> {
    match current_slot_of(scheduler, processes) {
        Some(slot) => processes.at(slot).cwd@.subrange(0, processes.at(slot).cwd_len as int),
        None => seq![0x2fu8],
    }
}

/// Copies the working directory of the current process into `buffer`, giving its
/// length; a buffer too short for it is refused.
pub fn current_cwd_str(scheduler: &Scheduler, processes: &ProcessTable, buffer: &mut [u8]) -> (result: Result<usize, FileError>)
    requires
        scheduler.wf(),
        scheduler.task_count != 0,
        processes.wf(),
    ensures
        final(buffer)@.len() == old(buffer)@.len(),
        ({
            let directory = current_directory(scheduler, processes);
            if old(buffer)@.len() < directory.len() {
                result == Err::<usize, FileError>(FileError::TooManyFiles) && final(buffer)@ == old(buffer)@
            } else {
                result == Ok::<usize, FileError>(directory.len() as usize) && final(buffer)@.subrange(
                    0,
                    directory.len() as int,
                ) == directory && final(buffer)@.subrange(directory.len() as int, old(buffer)@.len() as int)
                    == old(buffer)@.subrange(directory.len() as int, old(buffer)@.len() as int)
            }
        }),
{
    let (cwd, length) = current_cwd(scheduler, processes);
    proof {
        if current_slot_of(scheduler, processes) is None {
            assert(cwd@.subrange(0, 1) =~= seq![0x2fu8]);
        }
    }
    if buffer.len() < length {
        return Err(FileError::TooManyFiles);
    }
    crate::block::copy_bytes(buffer, 0, &cwd, 0, length);
    Ok(length)
}

/// Resolves `path` against the current process's working directory.
pub fn resolve_path_for_current(scheduler: &Scheduler, processes: &ProcessTable, path: &str) -> (result: Result<Vec<u8>, FileError>)
    requires
        scheduler.wf(),
        scheduler.task_count != 0,
        processes.wf(),
    ensures
        match result {
            Ok(out) => resolved(path.spec_bytes(), current_directory(scheduler, processes)) == Some(out@),
            Err(error) => resolved(path.spec_bytes(), current_directory(scheduler, processes)) is None
                && error == FileError::NotFound,
        },
{
    let (cwd, length) = current_cwd(scheduler, processes);
    proof {
        if current_slot_of(scheduler, processes) is None {
            assert(cwd@.subrange(0, 1) =~= seq![0x2fu8]);
        }
    }
    resolve_path_with_cwd(path.as_bytes(), &cwd, length)
}

/// Changes the current process's working directory to the directory `path` names.
pub fn chdir_current<S: Services>(scheduler: &Scheduler, processes: &mut ProcessTable, services: &mut S, path: &str) -> (result: Result<(), FileError>)
    requires
        scheduler.wf(),
        scheduler.task_count != 0,
        old(processes).wf(),
    ensures
        final(processes).wf(),
        result is Err ==> final(processes).slots@ == old(processes).slots@,
        !scheduler.current().capabilities.has(Capability::FileRead) ==> result == Err::<(), FileError>(
            FileError::PermissionDenied,
        ),
        scheduler.current().capabilities.has(Capability::FileRead) ==> match resolved(
            path.spec_bytes(),
            current_directory(scheduler, old(processes)),
        ) {
            None => result == Err::<(), FileError>(FileError::NotFound),
            Some(target) => {
                &&& current_slot_of(scheduler, old(processes)) is None ==> result is Err
                &&& result is Err ==> result == Err::<(), FileError>(FileError::NotFound) || result == Err::<
                    (),
                    FileError,
                >(FileError::NoProcess)
                &&& result is Ok ==> {
                    let slot = current_slot_of(scheduler, old(processes))->0;
                    &&& current_slot_of(scheduler, old(processes)) is Some
                    &&& final(processes).slots@ == old(processes).slots@.update(slot, final(processes).slots@[slot])
                    &&& final(processes).slots@[slot] is Some
                    &&& final(processes).at(slot).cwd@.subrange(0, target.len() as int) == target
                    &&& final(processes).at(slot).cwd_len == target.len()
                    &&& final(processes).at(slot).id == old(processes).at(slot).id
                    &&& final(processes).at(slot).task_id == old(processes).at(slot).task_id
                    &&& final(processes).at(slot).files == old(processes).at(slot).files
                }
            },
        },
{
    if !current_has(scheduler, Capability::FileRead) {
        return Err(FileError::PermissionDenied);
    }
    let absolute = match resolve_path_for_current(scheduler, processes, path) {
        Ok(absolute) => absolute,
        Err(error) => return Err(error),
    };
    if !services.is_directory(absolute.as_slice()) {
        return Err(FileError::NotFound);
    }
    if absolute.len() > MAX_PATH_SIZE {
        return Err(FileError::NotFound);
    }
    let slot = match current_process_slot(scheduler, processes) {
        Some(slot) => slot,
        None => return Err(FileError::NoProcess),
    };
    let mut process = match processes.slots[slot] {
        Some(p) => p,
        None => return Err(FileError::NoProcess),
    };
    let mut cwd: [u8; 128] = [0u8; 128];
    crate::block::copy_bytes(&mut cwd, 0, absolute.as_slice(), 0, absolute.len());
    process.cwd = cwd;
    process.cwd_len = absolute.len();
    processes.slots.set(slot, Some(process));
    Ok(())
}

/// What the file system reports for the file `path` names, for a process that may
/// read files.
pub fn stat_path<S: Services>(scheduler: &Scheduler, processes: &ProcessTable, services: &mut S, path: &str) -> (result: Result<S::Stat, FileError>)
    requires
        scheduler.wf(),
        scheduler.task_count != 0,
        processes.wf(),
    ensures
        !scheduler.current().capabilities.has(Capability::FileRead) ==> result matches Err(
            FileError::PermissionDenied,
        ),
        scheduler.current().capabilities.has(Capability::FileRead) ==> (result is Err ==> result matches Err(
            FileError::NotFound,
        )) && (resolved(path.spec_bytes(), current_directory(scheduler, processes)) is None ==> result is Err),
{
    if !current_has(scheduler, Capability::FileRead) {
        return Err(FileError::PermissionDenied);
    }
    let absolute = match resolve_path_for_current(scheduler, processes, path) {
        Ok(absolute) => absolute,
        Err(error) => return Err(error),
    };
    match services.stat(absolute.as_slice()) {
        Some(stat) => Ok(stat),
        None => Err(FileError::NotFound),
    }
}

/// Entry `index` of the directory `path` names, for a process that may read files.
pub fn readdir_path<S: Services>(scheduler: &Scheduler, processes: &ProcessTable, services: &mut S, path: &str, index: usize) -> (result: Result<S::DirEntry, FileError>)
    requires
        scheduler.wf(),
        scheduler.task_count != 0,
        processes.wf(),
    ensures
        !scheduler.current().capabilities.has(Capability::FileRead) ==> result matches Err(
            FileError::PermissionDenied,
        ),
        scheduler.current().capabilities.has(Capability::FileRead) ==> (result is Err ==> result matches Err(
            FileError::NotFound,
        )) && (resolved(path.spec_bytes(), current_directory(scheduler, processes)) is None ==> result is Err),
{
    if !current_has(scheduler, Capability::FileRead) {
        return Err(FileError::PermissionDenied);
    }
    let absolute = match resolve_path_for_current(scheduler, processes, path) {
        Ok(absolute) => absolute,
        Err(error) => return Err(error),
    };
    match services.read_directory(absolute.as_slice(), index) {
        Some(entry) => Ok(entry),
        None => Err(FileError::NotFound),
    }
}

/// How a refused directory creation is reported to a process.
pub open spec fn mkdir_error(error: VfsError) -> FileError {
    match error {
        VfsError::AlreadyExists => FileError::AlreadyExists,
        VfsError::Full => FileError::TooManyFiles,
        _ => FileError::NotFound,
    }
}

/// Creates the directory `path` names, for a process that may write files.
pub fn mkdir_path<S: Services>(scheduler: &Scheduler, processes: &ProcessTable, services: &mut S, path: &str) -> (result: Result<(), FileError>)
    requires
        scheduler.wf(),
        scheduler.task_count != 0,
        processes.wf(),
    ensures
        !scheduler.current().capabilities.has(Capability::FileWrite) ==> result == Err::<(), FileError>(
            FileError::PermissionDenied,
        ),
        scheduler.current().capabilities.has(Capability::FileWrite) && resolved(
            path.spec_bytes(),
            current_directory(scheduler, processes),
        ) is None ==> result == Err::<(), FileError>(FileError::NotFound),
        result is Err ==> result == Err::<(), FileError>(FileError::PermissionDenied) || result == Err::<(), FileError>(
            FileError::NotFound,
        ) || result == Err::<(), FileError>(FileError::AlreadyExists) || result == Err::<(), FileError>(
            FileError::TooManyFiles,
        ),
{
    if !current_has(scheduler, Capability::FileWrite) {
        return Err(FileError::PermissionDenied);
    }
    let absolute = match resolve_path_for_current(scheduler, processes, path) {
        Ok(absolute) => absolute,
        Err(error) => return Err(error),
    };
    match services.make_directory(absolute.as_slice()) {
        Ok(()) => Ok(()),
        Err(VfsError::AlreadyExists) => Err(FileError::AlreadyExists),
        Err(VfsError::Full) => Err(FileError::TooManyFiles),
        Err(_) => Err(FileError::NotFound),
    }
}

/// Removes `path`, for a process that may write files.
pub fn unlink_current<S: Services>(scheduler: &Scheduler, services: &mut S, path: &str) -> (result: Result<(), FileError>)
    requires
        scheduler.wf(),
        scheduler.task_count != 0,
    ensures
        !scheduler.current().capabilities.has(Capability::FileWrite) ==> result == Err::<(), FileError>(
            FileError::PermissionDenied,
        ),
        result is Err ==> result == Err::<(), FileError>(FileError::PermissionDenied) || result == Err::<(), FileError>(
            FileError::NotFound,
        ),
{
    if !current_has(scheduler, Capability::FileWrite) {
        return Err(FileError::PermissionDenied);
    }
    match services.remove(path.as_bytes()) {
        Ok(()) => Ok(()),
        Err(VfsError::NotFound) => Err(FileError::NotFound),
        Err(VfsError::ReadOnly) => Err(FileError::PermissionDenied),
        Err(_) => Err(FileError::NotFound),
    }
}

/// Renames `old_path` to `new_path`, for a process that may write files.
pub fn rename_current<S: Services>(scheduler: &Scheduler, services: &mut S, old_path: &str, new_path: &str) -> (result: Result<(), FileError>)
    requires
        scheduler.wf(),
        scheduler.task_count != 0,
    ensures
        !scheduler.current().capabilities.has(Capability::FileWrite) ==> result == Err::<(), FileError>(
            FileError::PermissionDenied,
        ),
        result is Err ==> result == Err::<(), FileError>(FileError::PermissionDenied) || result == Err::<(), FileError>(
            FileError::NotFound,
        ) || result == Err::<(), FileError>(FileError::AlreadyExists),
{
    if !current_has(scheduler, Capability::FileWrite) {
        return Err(FileError::PermissionDenied);
    }
    match services.rename(old_path.as_bytes(), new_path.as_bytes()) {
        Ok(()) => Ok(()),
        Err(VfsError::NotFound) => Err(FileError::NotFound),
        Err(VfsError::AlreadyExists) => Err(FileError::AlreadyExists),
        Err(VfsError::ReadOnly) => Err(FileError::PermissionDenied),
        Err(_) => Err(FileError::NotFound),
    }
}

/// The scheduler runs the most urgent work: when some task is ready, the task a
/// switch picks is ready, at the highest priority any ready task has.
pub proof fn law_highest_priority_runs(tasks: Seq<Task>, start: int)
    requires
        tasks.len() == MAX_TASKS,
        0 <= start < MAX_TASKS,
        exists|j: int| 0 <= j < MAX_TASKS && #[trigger] tasks[j].state == TaskState::Ready,
    ensures
        best_ready(tasks, MAX_TASKS as int) matches Some(level) && rotation_pick(tasks, start, level, 1) matches Some(
            next,
        ) && 0 <= next < MAX_TASKS && tasks[next].state == TaskState::Ready && tasks[next].priority.0 == level
            && forall|j: int|
            0 <= j < MAX_TASKS && #[trigger] tasks[j].state == TaskState::Ready ==> tasks[j].priority.0 <= level,
{
    lemma_best_ready(tasks, MAX_TASKS as int);
    let level = best_ready(tasks, MAX_TASKS as int)->0;
    let j = choose|j: int| 0 <= j < MAX_TASKS && #[trigger] tasks[j].state == TaskState::Ready && tasks[j].priority.0 == level;
    let ahead = if j > start {
        j - start
    } else {
        j - start + MAX_TASKS
    };
    assert((start + ahead) % (MAX_TASKS as int) == j);
    lemma_rotation_finds(tasks, start, level, 1, ahead);
    lemma_rotation_result(tasks, start, level, 1);
}

} // verus!
