//! Differences between two samples of the kernel's counters.
use vstd::prelude::*;

verus! {

/// The counters at one moment.
#[derive(Clone, Copy, PartialEq, Eq, Structural, Debug, Default)]
pub struct Snapshot {
    pub ticks: u64,
    pub context_switches: u64,
    pub preemptions: u64,
    pub idle_heartbeats: u64,
    pub allocated_frames: u64,
    pub heap_bytes: u64,
    pub heap_allocations: u64,
}

/// How the counters moved between two snapshots.
#[derive(Clone, Copy, PartialEq, Eq, Structural, Debug, Default)]
pub struct Delta {
    pub baseline_ready: bool,
    pub ticks: u64,
    pub context_switches: u64,
    pub preemptions: u64,
    pub idle_heartbeats: u64,
    pub frame_change: i64,
    pub heap_byte_change: i64,
    pub heap_allocations: u64,
}

/// `current - previous`, or 0 when the counter went down.
pub open spec fn growth(previous: u64, current: u64) -> u64 {
    if current >= previous {
        (current - previous) as u64
    } else {
        0
    }
}

/// `current - previous` as a signed number, clamped to `[-i64::MAX, i64::MAX]`.
pub open spec fn clamped_change(previous: u64, current: u64) -> i64 {
    if current >= previous {
        if current - previous <= i64::MAX {
            (current - previous) as i64
        } else {
            i64::MAX
        }
    } else {
        if previous - current <= i64::MAX {
            (current - previous) as i64
        } else {
            (-i64::MAX) as i64
        }
    }
}

/// The delta that leads from `previous` to `current`.
pub open spec fn spec_between(previous: Snapshot, current: Snapshot) -> Delta {
    Delta {
        baseline_ready: true,
        ticks: growth(previous.ticks, current.ticks),
        context_switches: growth(previous.context_switches, current.context_switches),
        preemptions: growth(previous.preemptions, current.preemptions),
        idle_heartbeats: growth(previous.idle_heartbeats, current.idle_heartbeats),
        frame_change: clamped_change(previous.allocated_frames, current.allocated_frames),
        heap_byte_change: clamped_change(previous.heap_bytes, current.heap_bytes),
        heap_allocations: growth(previous.heap_allocations, current.heap_allocations),
    }
}

/// The signed difference `current - previous`, clamped to what an `i64` holds.
pub fn signed_change(previous: u64, current: u64) -> (change: i64)
    ensures
        change == clamped_change(previous, current),
{
    if current >= previous {
        let up = current - previous;
        if up <= i64::MAX as u64 {
            up as i64
        } else {
            i64::MAX
        }
    } else {
        let down = previous - current;
        if down <= i64::MAX as u64 {
            -(down as i64)
        } else {
            -i64::MAX
        }
    }
}

/// The change from `previous` to `current`.
pub fn between(previous: Snapshot, current: Snapshot) -> (delta: Delta)
    ensures
        delta == spec_between(previous, current),
{
    Delta {
        baseline_ready: true,
        ticks: current.ticks.saturating_sub(previous.ticks),
        context_switches: current.context_switches.saturating_sub(previous.context_switches),
        preemptions: current.preemptions.saturating_sub(previous.preemptions),
        idle_heartbeats: current.idle_heartbeats.saturating_sub(previous.idle_heartbeats),
        frame_change: signed_change(previous.allocated_frames, current.allocated_frames),
        heap_byte_change: signed_change(previous.heap_bytes, current.heap_bytes),
        heap_allocations: current.heap_allocations.saturating_sub(previous.heap_allocations),
    }
}

/// The snapshot of the given counters.
pub fn capture(
    ticks: u64,
    context_switches: u64,
    preemptions: u64,
    idle_heartbeats: u64,
    allocated_frames: u64,
    heap_bytes: u64,
    heap_allocations: u64,
) -> (snapshot: Snapshot)
    ensures
        snapshot == (Snapshot {
            ticks,
            context_switches,
            preemptions,
            idle_heartbeats,
            allocated_frames,
            heap_bytes,
            heap_allocations,
        }),
{
    Snapshot {
        ticks,
        context_switches,
        preemptions,
        idle_heartbeats,
        allocated_frames,
        heap_bytes,
        heap_allocations,
    }
}

/// The change since the previous sample, with `current` kept as the new baseline;
/// the first sample has no baseline and reports an empty delta.
pub fn sample(baseline: &mut Option<Snapshot>, current: Snapshot) -> (delta: Delta)
    ensures
        *final(baseline) == Some(current),
        match *old(baseline) {
            Some(previous) => delta == spec_between(previous, current),
            None => delta == Delta {
                baseline_ready: false,
                ticks: 0,
                context_switches: 0,
                preemptions: 0,
                idle_heartbeats: 0,
                frame_change: 0,
                heap_byte_change: 0,
                heap_allocations: 0,
            },
        },
{
    let delta = match *baseline {
        Some(previous) => between(previous, current),
        None => Delta {
            baseline_ready: false,
            ticks: 0,
            context_switches: 0,
            preemptions: 0,
            idle_heartbeats: 0,
            frame_change: 0,
            heap_byte_change: 0,
            heap_allocations: 0,
        },
    };
    *baseline = Some(current);
    delta
}

/// Checks `between` on a fixed pair of snapshots.
pub fn self_test() -> (passed: bool)
    ensures
        passed,
{
    let previous = Snapshot {
        ticks: 10,
        context_switches: 4,
        preemptions: 2,
        idle_heartbeats: 20,
        allocated_frames: 8,
        heap_bytes: 128,
        heap_allocations: 3,
    };
    let current = Snapshot {
        ticks: 17,
        context_switches: 9,
        preemptions: 5,
        idle_heartbeats: 24,
        allocated_frames: 6,
        heap_bytes: 192,
        heap_allocations: 5,
    };
    let delta = between(previous, current);
    delta.baseline_ready && delta.ticks == 7 && delta.context_switches == 5 && delta.preemptions == 3
        && delta.idle_heartbeats == 4 && delta.frame_change == -2 && delta.heap_byte_change == 64
        && delta.heap_allocations == 2
}

} // verus!
