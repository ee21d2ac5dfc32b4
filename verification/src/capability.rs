use vstd::prelude::*;

verus! {

/// A privilege a task may hold.
#[derive(Clone, Copy, PartialEq, Eq, Structural, Debug)]
pub enum Capability {
    Console,
    TimerRead,
    TaskInspect,
    TaskControl,
    DeviceIo,
    InterruptControl,
    MemoryInspect,
    FileRead,
    FileWrite,
    Ipc,
    ProcessCreate,
}

/// The bit position that stands for `capability`.
pub open spec fn capability_index(capability: Capability) -> u64 {
    match capability {
        Capability::Console => 0,
        Capability::TimerRead => 1,
        Capability::TaskInspect => 2,
        Capability::TaskControl => 3,
        Capability::DeviceIo => 4,
        Capability::InterruptControl => 5,
        Capability::MemoryInspect => 6,
        Capability::FileRead => 7,
        Capability::FileWrite => 8,
        Capability::Ipc => 9,
        Capability::ProcessCreate => 10,
    }
}

/// A set of capabilities, one bit each.
#[derive(Clone, Copy)]
pub struct CapabilitySet {
    bits: u64,
}

proof fn lemma_index_injective(a: Capability, b: Capability)
    ensures
        (capability_index(a) == capability_index(b)) == (a == b),
        capability_index(a) < 64,
{
}

proof fn lemma_bit_algebra(bits: u64, k: u64, j: u64)
    requires
        k < 64,
        j < 64,
    ensures
        ((bits | (1u64 << k)) & (1u64 << j) != 0) == (k == j || bits & (1u64 << j) != 0),
        ((bits & !(1u64 << k)) & (1u64 << j) != 0) == (k != j && bits & (1u64 << j) != 0),
        (0u64 & (1u64 << j)) == 0,
{
    assert(((bits | (1u64 << k)) & (1u64 << j) != 0) == (k == j || bits & (1u64 << j) != 0))
        by (bit_vector)
        requires
            k < 64,
            j < 64,
    ;
    assert(((bits & !(1u64 << k)) & (1u64 << j) != 0) == (k != j && bits & (1u64 << j) != 0))
        by (bit_vector)
        requires
            k < 64,
            j < 64,
    ;
    assert((0u64 & (1u64 << j)) == 0) by (bit_vector);
}

impl CapabilitySet {
    /// Whether the set holds `capability`.
    pub closed spec fn has(self, capability: Capability) -> bool {
        self.bits & (1u64 << capability_index(capability)) != 0
    }

    /// The set that holds nothing.
    pub closed spec fn spec_empty() -> Self {
        CapabilitySet { bits: 0 }
    }

    pub fn empty() -> (set: Self)
        ensures
            forall|c: Capability| !set.has(c),
            set == Self::spec_empty(),
    {
        proof {
            assert forall|c: Capability| !(CapabilitySet { bits: 0 }).has(c) by {
                lemma_index_injective(c, c);
                lemma_bit_algebra(0, 0, capability_index(c));
            }
        }
        CapabilitySet { bits: 0 }
    }

    /// Every capability: the set the bootstrap kernel task starts with.
    pub fn kernel_bootstrap() -> (set: Self)
        ensures
            forall|c: Capability| set.has(c),
    {
        Self::empty().with(Capability::Console).with(Capability::TimerRead).with(
            Capability::TaskInspect,
        ).with(Capability::TaskControl).with(Capability::DeviceIo).with(
            Capability::InterruptControl,
        ).with(Capability::MemoryInspect).with(Capability::FileRead).with(
            Capability::FileWrite,
        ).with(Capability::Ipc).with(Capability::ProcessCreate)
    }

    /// The set a user process starts with.
    pub fn userspace() -> (set: Self)
        ensures
            forall|c: Capability|
                set.has(c) == (c == Capability::Console || c == Capability::FileRead || c
                    == Capability::FileWrite || c == Capability::Ipc || c
                    == Capability::ProcessCreate),
    {
        Self::empty().with(Capability::Console).with(Capability::FileRead).with(
            Capability::FileWrite,
        ).with(Capability::Ipc).with(Capability::ProcessCreate)
    }

    /// The set with `capability` added.
    pub fn with(self, capability: Capability) -> (set: Self)
        ensures
            forall|c: Capability| set.has(c) == (c == capability || self.has(c)),
    {
        let result = CapabilitySet { bits: self.bits | capability.bit() };
        proof {
            assert forall|c: Capability| result.has(c) == (c == capability || self.has(c)) by {
                lemma_index_injective(c, capability);
                lemma_bit_algebra(self.bits, capability_index(capability), capability_index(c));
            }
        }
        result
    }

    /// Whether the set holds `capability`.
    pub fn contains(self, capability: Capability) -> (held: bool)
        ensures
            held == self.has(capability),
    {
        self.bits & capability.bit() != 0
    }

    /// The set with `capability` removed.
    pub fn without(self, capability: Capability) -> (set: Self)
        ensures
            forall|c: Capability| set.has(c) == (c != capability && self.has(c)),
    {
        let result = CapabilitySet { bits: self.bits & !capability.bit() };
        proof {
            assert forall|c: Capability| result.has(c) == (c != capability && self.has(c)) by {
                lemma_index_injective(c, capability);
                lemma_bit_algebra(self.bits, capability_index(capability), capability_index(c));
            }
        }
        result
    }
}

impl Capability {
    /// The single bit that stands for this capability.
    pub fn bit(self) -> (bit: u64)
        ensures
            bit == 1u64 << capability_index(self),
    {
        let index: u64 = match self {
            Capability::Console => 0,
            Capability::TimerRead => 1,
            Capability::TaskInspect => 2,
            Capability::TaskControl => 3,
            Capability::DeviceIo => 4,
            Capability::InterruptControl => 5,
            Capability::MemoryInspect => 6,
            Capability::FileRead => 7,
            Capability::FileWrite => 8,
            Capability::Ipc => 9,
            Capability::ProcessCreate => 10,
        };
        1u64 << index
    }
}

/// Granting a capability and then revoking it leaves a set that lacks it, and
/// revoking one capability never takes away another.
pub proof fn law_grant_then_revoke(set: CapabilitySet, granted: CapabilitySet, revoked: CapabilitySet, c: Capability, other: Capability)
    requires
        forall|d: Capability| granted.has(d) == (d == c || set.has(d)),
        forall|d: Capability| revoked.has(d) == (d != c && granted.has(d)),
        other != c,
    ensures
        granted.has(c),
        !revoked.has(c),
        revoked.has(other) == set.has(other),
{
}

} // verus!
