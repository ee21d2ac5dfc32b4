//! What the kernel does about a CPU exception: whether a fault came from user mode,
//! and whether a page fault is a copy-on-write write to retry.
use vstd::prelude::*;

verus! {

/// Page fault error code bits.
pub const PROTECTION_VIOLATION: u64 = 0x1;
pub const CAUSED_BY_WRITE: u64 = 0x2;
pub const USER_MODE: u64 = 0x4;

/// The vector of a page fault, recorded in the audit log.
pub const PAGE_FAULT_VECTOR: u64 = 14;

/// The exit code of a process killed by a page fault.
pub const PAGE_FAULT_EXIT_CODE: i32 = -11;

/// A code segment selector of ring 3.
pub fn selector_is_user(selector: u16) -> (user: bool)
    ensures
        user == (selector % 4 == 3),
{
    selector % 4 == 3
}

/// The user code and data selectors count as user mode; the kernel code selector
/// does not.
pub fn fault_policy_self_test() -> (passed: bool)
    ensures
        passed,
{
    selector_is_user(0x23) && selector_is_user(0x1b) && !selector_is_user(0x08)
}

/// A user-mode write to a present page: a copy-on-write candidate.
pub open spec fn spec_cow_candidate(code: u64) -> bool {
    &&& code & USER_MODE != 0
    &&& code & CAUSED_BY_WRITE != 0
    &&& code & PROTECTION_VIOLATION != 0
}

pub fn cow_candidate(code: u64) -> (candidate: bool)
    ensures
        candidate == spec_cow_candidate(code),
{
    code & USER_MODE != 0 && code & CAUSED_BY_WRITE != 0 && code & PROTECTION_VIOLATION != 0
}

/// What follows a fault.
#[derive(Clone, Copy, PartialEq, Eq, Structural, Debug)]
pub enum FaultAction {
    /// The fault was handled; the faulting code runs on.
    Resume,
    /// The faulting process ends with this code, its fault audited under this vector.
    ExitProcess { vector: u64, exit_code: i32 },
    /// A kernel fault: the machine stops.
    Halt,
}

/// The action for a page fault with error code `code`, where `cow_handled` tells
/// whether breaking copy-on-write sharing at the fault address succeeded (it is
/// only tried for candidates whose fault address is known).
pub fn page_fault_action(code: u64, cow_handled: bool) -> (action: FaultAction)
    ensures
        action == if spec_cow_candidate(code) && cow_handled {
            FaultAction::Resume
        } else if code & USER_MODE != 0 {
            FaultAction::ExitProcess { vector: PAGE_FAULT_VECTOR, exit_code: PAGE_FAULT_EXIT_CODE }
        } else {
            FaultAction::Halt
        },
{
    if cow_candidate(code) && cow_handled {
        return FaultAction::Resume;
    }
    if code & USER_MODE != 0 {
        FaultAction::ExitProcess { vector: PAGE_FAULT_VECTOR, exit_code: PAGE_FAULT_EXIT_CODE }
    } else {
        FaultAction::Halt
    }
}

/// The action for another exception numbered `vector` raised in the code segment
/// `code_segment`: user code ends with `exit_code`, kernel code halts.
pub fn exception_action(code_segment: u16, vector: u64, exit_code: i32) -> (action: FaultAction)
    ensures
        action == if code_segment % 4 == 3 {
            FaultAction::ExitProcess { vector, exit_code }
        } else {
            FaultAction::Halt
        },
{
    if selector_is_user(code_segment) {
        FaultAction::ExitProcess { vector, exit_code }
    } else {
        FaultAction::Halt
    }
}

} // verus!
