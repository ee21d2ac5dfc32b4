//! A bounded log of security-relevant decisions, newest entries overwrite oldest.
use vstd::prelude::*;

verus! {

/// Entries the log keeps.
pub const CAPACITY: usize = 64;

/// What was attempted.
#[derive(Clone, Copy, PartialEq, Eq, Structural, Debug)]
pub enum Action {
    CapabilityGrant,
    CapabilityRevoke,
    IpcSend,
    FileWrite,
}

/// One recorded decision.
#[derive(Clone, Copy, PartialEq, Eq, Structural, Debug)]
pub struct Event {
    pub sequence: u64,
    pub tick: u64,
    pub actor: u64,
    pub action: Action,
    pub target: u64,
    pub allowed: bool,
}

/// The ring of recent events.
pub struct Log {
    events: Vec<Option<Event>>,
    next: usize,
    count: usize,
    sequence: u64,
}

impl Log {
    pub closed spec fn wf(&self) -> bool {
        &&& self.events@.len() == CAPACITY
        &&& self.next < CAPACITY
        &&& self.count <= CAPACITY
        &&& self.count > 0 ==> self.events@[((self.next + CAPACITY - 1) % CAPACITY as int)] is Some
    }

    /// Number of events held.
    pub closed spec fn held(&self) -> nat {
        self.count as nat
    }

    /// Sequence number the next event gets.
    pub closed spec fn next_sequence(&self) -> u64 {
        self.sequence
    }

    /// The most recent event, if any.
    pub closed spec fn newest(&self) -> Option<Event> {
        if self.count == 0 {
            None
        } else {
            self.events@[((self.next + CAPACITY - 1) % CAPACITY as int)]
        }
    }

    pub fn new() -> (log: Self)
        ensures
            log.wf(),
            log.held() == 0,
            log.next_sequence() == 0,
            log.newest() is None,
    {
        let mut events: Vec<Option<Event>> = Vec::new();
        let mut i: usize = 0;
        while i < CAPACITY
            invariant
                i <= CAPACITY,
                events@.len() == i,
            decreases CAPACITY - i,
        {
            events.push(None);
            i = i + 1;
        }
        Log { events, next: 0, count: 0, sequence: 0 }
    }

    /// Appends `event`, stamped with the next sequence number.
    pub fn record(&mut self, event: Event)
        requires
            old(self).wf(),
        ensures
            final(self).wf(),
            final(self).held() == if old(self).held() < CAPACITY {
                old(self).held() + 1
            } else {
                CAPACITY as nat
            },
            final(self).next_sequence() == old(self).next_sequence().wrapping_add(1),
            final(self).newest() == Some(Event { sequence: old(self).next_sequence(), ..event }),
    {
        let stamped = Event { sequence: self.sequence, ..event };
        self.sequence = self.sequence.wrapping_add(1);
        self.events.set(self.next, Some(stamped));
        let written = self.next;
        self.next = (self.next + 1) % CAPACITY;
        assert((self.next + CAPACITY - 1) % CAPACITY as int == written);
        if self.count < CAPACITY {
            self.count = self.count + 1;
        }
    }

    /// The most recent event, if any.
    pub fn latest(&self) -> (latest: Option<Event>)
        requires
            self.wf(),
        ensures
            latest == self.newest(),
    {
        if self.count == 0 {
            None
        } else {
            self.events[(self.next + CAPACITY - 1) % CAPACITY]
        }
    }

    /// Number of events held.
    pub fn count(&self) -> (count: usize)
        requires
            self.wf(),
        ensures
            count == self.held(),
    {
        self.count
    }
}

/// Records a decision made at `tick` in `log`.
pub fn record(log: &mut Log, tick: u64, actor: u64, action: Action, target: u64, allowed: bool)
    requires
        old(log).wf(),
    ensures
        final(log).wf(),
        final(log).held() == if old(log).held() < CAPACITY {
            old(log).held() + 1
        } else {
            CAPACITY as nat
        },
        final(log).next_sequence() == old(log).next_sequence().wrapping_add(1),
        final(log).newest() == Some(
            Event { sequence: old(log).next_sequence(), tick, actor, action, target, allowed },
        ),
{
    log.record(Event { sequence: 0, tick, actor, action, target, allowed });
}

/// The most recent event in `log`.
pub fn latest(log: &Log) -> (latest: Option<Event>)
    requires
        log.wf(),
    ensures
        latest == log.newest(),
{
    log.latest()
}

/// Number of events held in `log`.
pub fn count(log: &Log) -> (count: usize)
    requires
        log.wf(),
    ensures
        count == log.held(),
{
    log.count()
}

/// The log never holds more than its capacity, and the event just recorded is the
/// latest one, whatever came before.
pub proof fn law_record_is_latest(before: Log, after: Log, event: Event)
    requires
        before.wf(),
        after.wf(),
        after.held() == if before.held() < CAPACITY {
            before.held() + 1
        } else {
            CAPACITY as nat
        },
        after.newest() == Some(Event { sequence: before.next_sequence(), ..event }),
    ensures
        after.held() <= CAPACITY,
        after.held() > 0,
        after.newest() is Some,
        after.newest()->0.actor == event.actor,
        after.newest()->0.sequence == before.next_sequence(),
{
}

/// Fills a fresh log past its capacity and checks what it kept.
pub fn self_test() -> (passed: bool)
    ensures
        passed,
{
    let mut log = Log::new();
    let mut index: u64 = 0;
    while index <= CAPACITY as u64
        invariant
            log.wf(),
            index <= CAPACITY + 1,
            log.held() == if index < CAPACITY {
                index as nat
            } else {
                CAPACITY as nat
            },
            log.next_sequence() == index,
            index > 0 ==> log.newest() == Some(
                Event {
                    sequence: (index - 1) as u64,
                    tick: (index - 1) as u64,
                    actor: 1,
                    action: Action::CapabilityGrant,
                    target: 2,
                    allowed: (index - 1) % 2 == 0,
                },
            ),
        decreases CAPACITY + 1 - index,
    {
        log.record(
            Event {
                sequence: 0,
                tick: index,
                actor: 1,
                action: Action::CapabilityGrant,
                target: 2,
                allowed: index % 2 == 0,
            },
        );
        index = index + 1;
    }
    let kept = log.count() == CAPACITY;
    match log.latest() {
        Some(event) => kept && event.sequence == CAPACITY as u64 && event.tick == CAPACITY as u64
            && event.actor == 1 && event.target == 2 && event.allowed,
        None => false,
    }
}

} // verus!
