//! The table of devices the kernel knows, with unique names and interrupt lines.
use vstd::prelude::*;

use crate::ipc::bytes_equal;
use vstd::string::StringSliceAdditionalSpecFns;

verus! {

/// Devices the registry can hold.
pub const MAX_DEVICES: usize = 32;

/// What a device is.
#[derive(Clone, Copy, PartialEq, Eq, Structural, Debug)]
pub enum DeviceKind {
    Console,
    Serial,
    Timer,
    Keyboard,
    Block,
}

/// One registered device.
#[derive(Clone, Copy)]
pub struct Device {
    pub name: &'static str,
    pub kind: DeviceKind,
    pub irq: Option<u8>,
}

/// Why a registration was refused.
#[derive(Clone, Copy, PartialEq, Eq, Structural, Debug)]
pub enum RegisterError {
    Full,
    DuplicateName,
    DuplicateIrq,
}

/// Some slot of `slots` holds a device named `name` (as bytes).
pub open spec fn name_taken(slots: Seq<Option<Device>>, name: Seq<u8>) -> bool {
    exists|i: int| 0 <= i < slots.len() && slots[i] is Some && (#[trigger] slots[i])->0.name.spec_bytes() == name
}

/// The first device of `slots` named `name`.
pub open spec fn first_named(slots: Seq<Option<Device>>, name: Seq<u8>) -> Option<Device> {
    if exists|i: int|
        0 <= i < slots.len() && slots[i] is Some && (#[trigger] slots[i])->0.name.spec_bytes() == name
            && forall|j: int| 0 <= j < i ==> !(slots[j] is Some && (#[trigger] slots[j])->0.name.spec_bytes() == name) {
        let i = choose|i: int|
            0 <= i < slots.len() && slots[i] is Some && (#[trigger] slots[i])->0.name.spec_bytes() == name
                && forall|j: int| 0 <= j < i ==> !(slots[j] is Some && (#[trigger] slots[j])->0.name.spec_bytes() == name);
        slots[i]
    } else {
        None
    }
}

/// Some slot of `slots` holds a device on interrupt line `irq`.
pub open spec fn irq_taken(slots: Seq<Option<Device>>, irq: u8) -> bool {
    exists|i: int| 0 <= i < slots.len() && slots[i] is Some && (#[trigger] slots[i])->0.irq == Some(irq)
}

/// Number of devices in `slots`, of kind `kind` when one is given.
pub open spec fn count_devices(slots: Seq<Option<Device>>, kind: Option<DeviceKind>) -> nat
    decreases slots.len(),
{
    if slots.len() == 0 {
        0
    } else {
        count_devices(slots.drop_last(), kind) + if slots.last() is Some && (kind is None
            || slots.last()->0.kind == kind->0) {
            1nat
        } else {
            0nat
        }
    }
}

/// The device table.
pub struct Registry {
    devices: Vec<Option<Device>>,
}

impl Registry {
    pub closed spec fn wf(&self) -> bool {
        self.devices@.len() == MAX_DEVICES
    }

    /// The slots, in order.
    pub closed spec fn slots(&self) -> Seq<Option<Device>> {
        self.devices@
    }

    pub fn new() -> (registry: Self)
        ensures
            registry.wf(),
            forall|i: int| 0 <= i < MAX_DEVICES ==> (#[trigger] registry.slots()[i]) is None,
    {
        let mut devices: Vec<Option<Device>> = Vec::new();
        let mut i: usize = 0;
        while i < MAX_DEVICES
            invariant
                i <= MAX_DEVICES,
                devices@.len() == i,
                forall|k: int| 0 <= k < i ==> (#[trigger] devices@[k]) is None,
            decreases MAX_DEVICES - i,
        {
            devices.push(None);
            i = i + 1;
        }
        Registry { devices }
    }

    /// Adds `device` in the first free slot, refusing a name or interrupt line already
    /// in use.
    pub fn register(&mut self, device: Device) -> (result: Result<(), RegisterError>)
        requires
            old(self).wf(),
        ensures
            final(self).wf(),
            name_taken(old(self).slots(), device.name.spec_bytes()) ==> result == Err::<(), RegisterError>(
                RegisterError::DuplicateName,
            ),
            !name_taken(old(self).slots(), device.name.spec_bytes()) && device.irq is Some && irq_taken(
                old(self).slots(),
                device.irq->0,
            ) ==> result == Err::<(), RegisterError>(RegisterError::DuplicateIrq),
            result is Err ==> final(self).slots() == old(self).slots(),
            result == Err::<(), RegisterError>(RegisterError::Full) ==> forall|i: int|
                0 <= i < MAX_DEVICES ==> (#[trigger] old(self).slots()[i]) is Some,
            result is Ok ==> exists|i: int|
                {
                    &&& 0 <= i < MAX_DEVICES
                    &&& old(self).slots()[i] is None
                    &&& forall|j: int| 0 <= j < i ==> (#[trigger] old(self).slots()[j]) is Some
                    &&& final(self).slots() == old(self).slots().update(i, Some(device))
                },
            !name_taken(old(self).slots(), device.name.spec_bytes()) && !(device.irq is Some
                && irq_taken(old(self).slots(), device.irq->0)) && (exists|i: int|
                0 <= i < MAX_DEVICES && (#[trigger] old(self).slots()[i]) is None) ==> result is Ok,
    {
        let name = device.name.as_bytes();
        let mut i: usize = 0;
        while i < self.devices.len()
            invariant
                self.wf(),
                *self == *old(self),
                i <= MAX_DEVICES,
                name@ == device.name.spec_bytes(),
                forall|k: int| 0 <= k < i && self.devices@[k] is Some ==> (#[trigger] self.devices@[k])->0.name.spec_bytes() != name@,
            decreases MAX_DEVICES - i,
        {
            match self.devices[i] {
                Some(registered) => {
                    if bytes_equal(registered.name.as_bytes(), name) {
                        proof {
                            assert(old(self).slots()[i as int] is Some);
                        }
                        return Err(RegisterError::DuplicateName);
                    }
                },
                None => {},
            }
            i = i + 1;
        }
        assert(!name_taken(old(self).slots(), device.name.spec_bytes()));
        match device.irq {
            Some(line) => {
                let mut i: usize = 0;
                while i < self.devices.len()
                    invariant
                        self.wf(),
                        *self == *old(self),
                        device.irq == Some(line),
                        !name_taken(old(self).slots(), device.name.spec_bytes()),
                        i <= MAX_DEVICES,
                        forall|k: int| 0 <= k < i && self.devices@[k] is Some ==> (#[trigger] self.devices@[k])->0.irq != Some(line),
                    decreases MAX_DEVICES - i,
                {
                    match self.devices[i] {
                        Some(registered) => {
                            if registered.irq == Some(line) {
                                proof {
                                    assert(old(self).slots()[i as int] is Some);
                                }
                                return Err(RegisterError::DuplicateIrq);
                            }
                        },
                        None => {},
                    }
                    i = i + 1;
                }
            },
            None => {},
        }
        assert(!(device.irq is Some && irq_taken(old(self).slots(), device.irq->0)));
        let mut i: usize = 0;
        while i < self.devices.len()
            invariant
                self.wf(),
                *self == *old(self),
                !name_taken(old(self).slots(), device.name.spec_bytes()),
                !(device.irq is Some && irq_taken(old(self).slots(), device.irq->0)),
                i <= MAX_DEVICES,
                forall|k: int| 0 <= k < i ==> (#[trigger] self.devices@[k]) is Some,
            decreases MAX_DEVICES - i,
        {
            if self.devices[i].is_none() {
                self.devices.set(i, Some(device));
                return Ok(());
            }
            i = i + 1;
        }
        Err(RegisterError::Full)
    }

    /// The device named `name`, if any.
    pub fn find(&self, name: &str) -> (found: Option<Device>)
        requires
            self.wf(),
        ensures
            found is Some <==> name_taken(self.slots(), name.spec_bytes()),
            found is Some ==> exists|i: int|
                0 <= i < MAX_DEVICES && #[trigger] self.slots()[i] == Some(found->0)
                    && found->0.name.spec_bytes() == name.spec_bytes(),
            found is Some ==> first_named(self.slots(), name.spec_bytes()) == found,
    {
        let wanted = name.as_bytes();
        let mut i: usize = 0;
        while i < self.devices.len()
            invariant
                self.wf(),
                i <= MAX_DEVICES,
                wanted@ == name.spec_bytes(),
                forall|k: int| 0 <= k < i && self.devices@[k] is Some ==> (#[trigger] self.devices@[k])->0.name.spec_bytes() != wanted@,
            decreases MAX_DEVICES - i,
        {
            match self.devices[i] {
                Some(registered) => {
                    if bytes_equal(registered.name.as_bytes(), wanted) {
                        proof {
                            assert(self.slots()[i as int] == Some(registered));
                        }
                        return Some(registered);
                    }
                },
                None => {},
            }
            i = i + 1;
        }
        None
    }

    /// Number of devices, of kind `kind` when one is given.
    fn count_matching(&self, kind: Option<DeviceKind>) -> (count: usize)
        requires
            self.wf(),
        ensures
            count == count_devices(self.slots(), kind),
    {
        let mut count: usize = 0;
        let mut i: usize = 0;
        while i < self.devices.len()
            invariant
                self.wf(),
                i <= MAX_DEVICES,
                count <= i,
                count == count_devices(self.devices@.take(i as int), kind),
            decreases MAX_DEVICES - i,
        {
            assert(self.devices@.take(i as int + 1).drop_last() =~= self.devices@.take(i as int));
            match self.devices[i] {
                Some(registered) => {
                    match kind {
                        Some(wanted) => {
                            if registered.kind == wanted {
                                count = count + 1;
                            }
                        },
                        None => {
                            count = count + 1;
                        },
                    }
                },
                None => {},
            }
            i = i + 1;
        }
        assert(self.devices@.take(i as int) =~= self.devices@);
        count
    }

    /// Number of registered devices.
    pub fn count(&self) -> (count: usize)
        requires
            self.wf(),
        ensures
            count == count_devices(self.slots(), None),
    {
        self.count_matching(None)
    }

    /// Number of registered devices of kind `kind`.
    pub fn count_kind(&self, kind: DeviceKind) -> (count: usize)
        requires
            self.wf(),
        ensures
            count == count_devices(self.slots(), Some(kind)),
    {
        self.count_matching(Some(kind))
    }
}

/// Adds `device` to `registry`.
pub fn register(registry: &mut Registry, device: Device) -> (result: Result<(), RegisterError>)
    requires
        old(registry).wf(),
    ensures
        final(registry).wf(),
        name_taken(old(registry).slots(), device.name.spec_bytes()) ==> result == Err::<(), RegisterError>(
            RegisterError::DuplicateName,
        ),
        result is Err ==> final(registry).slots() == old(registry).slots(),
        result is Ok ==> name_taken(final(registry).slots(), device.name.spec_bytes()),
{
    let result = registry.register(device);
    proof {
        if result is Ok {
            let i = choose|i: int|
                {
                    &&& 0 <= i < MAX_DEVICES
                    &&& old(registry).slots()[i] is None
                    &&& forall|j: int| 0 <= j < i ==> (#[trigger] old(registry).slots()[j]) is Some
                    &&& registry.slots() == old(registry).slots().update(i, Some(device))
                };
            assert(registry.slots()[i] == Some(device));
        }
    }
    result
}

/// The device named `name` in `registry`.
pub fn find(registry: &Registry, name: &str) -> (found: Option<Device>)
    requires
        registry.wf(),
    ensures
        found is Some <==> name_taken(registry.slots(), name.spec_bytes()),
        found is Some ==> found->0.name.spec_bytes() == name.spec_bytes(),
{
    registry.find(name)
}

/// Number of devices in `registry`.
pub fn count(registry: &Registry) -> (count: usize)
    requires
        registry.wf(),
    ensures
        count == count_devices(registry.slots(), None),
{
    registry.count()
}

/// Number of devices of kind `kind` in `registry`.
pub fn count_kind(registry: &Registry, kind: DeviceKind) -> (count: usize)
    requires
        registry.wf(),
    ensures
        count == count_devices(registry.slots(), Some(kind)),
{
    registry.count_kind(kind)
}

/// A registered name is never handed out twice: once `name` is taken, registering
/// another device under it is refused and leaves the table as it was.
pub proof fn law_names_unique(before: Seq<Option<Device>>, after: Seq<Option<Device>>, device: Device, result: Result<(), RegisterError>)
    requires
        name_taken(before, device.name.spec_bytes()),
        name_taken(before, device.name.spec_bytes()) ==> result == Err::<(), RegisterError>(
            RegisterError::DuplicateName,
        ),
        result is Err ==> after == before,
    ensures
        result == Err::<(), RegisterError>(RegisterError::DuplicateName),
        after == before,
{
}

/// Checks uniqueness on a scratch table, then that `registry` holds the boot devices:
/// one console, serial port, timer and keyboard, no block device, the timer on line
/// `timer_irq` and the keyboard on line `keyboard_irq`.
pub fn self_test(registry: &Registry, timer_irq: u8, keyboard_irq: u8) -> (passed: bool)
    requires
        registry.wf(),
{
    let mut scratch = Registry::new();
    let first = Device { name: "test-timer", kind: DeviceKind::Timer, irq: Some(9) };
    let duplicate_name = Device { name: "test-timer", kind: DeviceKind::Serial, irq: None };
    let duplicate_irq = Device { name: "test-keyboard", kind: DeviceKind::Block, irq: Some(9) };
    let uniqueness_valid = scratch.register(first).is_ok() && match scratch.register(
        duplicate_name,
    ) {
        Err(RegisterError::DuplicateName) => true,
        _ => false,
    } && match scratch.register(duplicate_irq) {
        Err(RegisterError::DuplicateIrq) => true,
        _ => false,
    };
    let timer_found = match registry.find("pit") {
        Some(device) => device.irq == Some(timer_irq),
        None => false,
    };
    let keyboard_found = match registry.find("ps2-keyboard") {
        Some(device) => device.irq == Some(keyboard_irq),
        None => false,
    };
    uniqueness_valid && registry.count() == 4 && registry.count_kind(DeviceKind::Console) == 1
        && registry.count_kind(DeviceKind::Serial) == 1 && registry.count_kind(DeviceKind::Timer)
        == 1 && registry.count_kind(DeviceKind::Keyboard) == 1 && registry.count_kind(
        DeviceKind::Block,
    ) == 0 && timer_found && keyboard_found
}

} // verus!
