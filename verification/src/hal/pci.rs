//! PCI configuration space: finding the devices on every bus and the settings the
//! drivers need.
use vstd::prelude::*;

verus! {

/// Devices the inventory keeps.
pub const MAX_DEVICES: usize = 64;

/// One function of a PCI device.
#[derive(Clone, Copy, PartialEq, Eq, Structural, Debug)]
pub struct Device {
    pub bus: u8,
    pub device: u8,
    pub function: u8,
    pub vendor_id: u16,
    pub device_id: u16,
    pub class: u8,
    pub subclass: u8,
}

/// Counts of what a scan found.
#[derive(Clone, Copy, PartialEq, Eq, Structural, Debug, Default)]
pub struct Summary {
    pub discovered: u16,
    pub recorded: u8,
    pub storage: u16,
    pub network: u16,
    pub display: u16,
    pub bridges: u16,
    pub truncated: bool,
}

/// The configuration-space ports: write an address, read or write its dword.
pub trait ConfigSpace {
    fn read(&mut self, address: u32) -> u32;

    fn write(&mut self, address: u32, value: u32);
}

/// The address of the dword at `offset` of the configuration space of a function:
/// the enable bit, bus, device, function, and the offset rounded down to a dword.
pub open spec fn spec_config_address(bus: u8, device: u8, function: u8, offset: u8) -> u32 {
    0x8000_0000u32 | ((bus as u32) << 16u32) | ((device as u32) << 11u32) | ((function as u32) << 8u32) | ((
    offset as u32) & 0xfcu32)
}

pub fn config_address(bus: u8, device: u8, function: u8, offset: u8) -> (address: u32)
    ensures
        address == spec_config_address(bus, device, function, offset),
{
    0x8000_0000u32 | ((bus as u32) << 16u32) | ((device as u32) << 11u32) | ((function as u32) << 8u32) | ((
    offset as u32) & 0xfcu32)
}

fn read_config<C: ConfigSpace>(config: &mut C, bus: u8, device: u8, function: u8, offset: u8) -> u32 {
    config.read(config_address(bus, device, function, offset))
}

/// The dword at `offset` of the configuration space of a function.
pub fn read_config_dword<C: ConfigSpace>(config: &mut C, bus: u8, device: u8, function: u8, offset: u8) -> u32 {
    read_config(config, bus, device, function, offset)
}

/// Writes the dword at `offset` of the configuration space of a function.
pub fn write_config_dword<C: ConfigSpace>(config: &mut C, bus: u8, device: u8, function: u8, offset: u8, value: u32) {
    config.write(config_address(bus, device, function, offset), value);
}

/// Turns on I/O space decoding and bus mastering in the command register, keeping
/// every other bit.
pub fn enable_io_bus_master<C: ConfigSpace>(config: &mut C, bus: u8, device: u8, function: u8) {
    let value = read_config(config, bus, device, function, 0x04);
    write_config_dword(config, bus, device, function, 0x04, value | 0x0000_0005);
}

/// The I/O port base that BAR 0 holds: `None` for a memory BAR, a base above the
/// port range, or a zero base.
pub open spec fn spec_io_base(bar: u32) -> Option<u16> {
    let base = bar & 0xffff_fffc;
    if bar & 1 == 0 || base > 0xffff || base == 0 {
        None
    } else {
        Some(base as u16)
    }
}

pub fn io_base_of(bar: u32) -> (base: Option<u16>)
    ensures
        base == spec_io_base(bar),
{
    if bar & 1 == 0 {
        return None;
    }
    let base = bar & 0xffff_fffc;
    if base > 0xffff || base == 0 {
        None
    } else {
        Some(base as u16)
    }
}

/// The I/O port base in BAR 0 of a function.
pub fn bar0_io_base<C: ConfigSpace>(config: &mut C, bus: u8, device: u8, function: u8) -> (base: Option<u16>)
    ensures
        base is Some ==> base->0 != 0,
{
    let bar = read_config(config, bus, device, function, 0x10);
    io_base_of(bar)
}

/// The device a function's first two dwords describe, when a vendor answers.
pub open spec fn spec_probe(bus: u8, device: u8, function: u8, identity: u32, class: u32) -> Device {
    Device {
        bus,
        device,
        function,
        vendor_id: (identity & 0xffff) as u16,
        device_id: (identity >> 16u32) as u16,
        class: (class >> 24u32) as u8,
        subclass: ((class >> 16u32) & 0xff) as u8,
    }
}

fn probe<C: ConfigSpace>(config: &mut C, bus: u8, device: u8, function: u8) -> (found: Option<Device>)
    ensures
        found matches Some(d) ==> d.bus == bus && d.device == device && d.function == function && d.vendor_id != 0xffff,
{
    let identity = read_config(config, bus, device, function, 0);
    let vendor_id = (identity & 0xffff) as u16;
    if vendor_id == 0xffff {
        return None;
    }
    let class = read_config(config, bus, device, function, 0x08);
    Some(
        Device {
            bus,
            device,
            function,
            vendor_id,
            device_id: (identity >> 16u32) as u16,
            class: (class >> 24u32) as u8,
            subclass: ((class >> 16u32) & 0xff) as u8,
        },
    )
}

/// The devices a scan found, as far as there was room, and the counts.
pub struct Inventory {
    pub devices: [Option<Device>; 64],
    pub summary: Summary,
}

/// The number of `Some` entries among the first `n`.
pub open spec fn recorded_count(devices: Seq<Option<Device>>, n: int) -> nat
    decreases n,
{
    if n <= 0 {
        0
    } else {
        recorded_count(devices, n - 1) + if devices[n - 1] is Some {
            1nat
        } else {
            0nat
        }
    }
}

/// The counts after one more device of class `class`.
pub open spec fn counted(summary: Summary, class: u8) -> Summary {
    Summary {
        discovered: summary.discovered.saturating_add(1),
        storage: if class == 0x01 {
            summary.storage.saturating_add(1)
        } else {
            summary.storage
        },
        network: if class == 0x02 {
            summary.network.saturating_add(1)
        } else {
            summary.network
        },
        display: if class == 0x03 {
            summary.display.saturating_add(1)
        } else {
            summary.display
        },
        bridges: if class == 0x06 {
            summary.bridges.saturating_add(1)
        } else {
            summary.bridges
        },
        ..summary
    }
}

impl Inventory {
    /// Devices are kept from the front, and `recorded` counts them.
    pub open spec fn wf(&self) -> bool {
        &&& self.summary.recorded as int == recorded_count(self.devices@, MAX_DEVICES as int)
        &&& forall|i: int, j: int|
            #![trigger self.devices@[i], self.devices@[j]]
            0 <= i < j < MAX_DEVICES && self.devices@[j] is Some ==> self.devices@[i] is Some
    }

    pub fn new() -> (inventory: Self)
        ensures
            inventory.wf(),
            inventory.summary == (Summary {
                discovered: 0,
                recorded: 0,
                storage: 0,
                network: 0,
                display: 0,
                bridges: 0,
                truncated: false,
            }),
            forall|i: int| 0 <= i < MAX_DEVICES ==> #[trigger] inventory.devices@[i] is None,
    {
        let inventory = Inventory {
            devices: [None; 64],
            summary: Summary {
                discovered: 0,
                recorded: 0,
                storage: 0,
                network: 0,
                display: 0,
                bridges: 0,
                truncated: false,
            },
        };
        proof {
            lemma_recorded_empty(inventory.devices@, MAX_DEVICES as int);
        }
        inventory
    }

    /// Counts `device` and keeps it in the first free slot; a full inventory only
    /// notes that it dropped one.
    pub fn record(&mut self, device: Device)
        requires
            old(self).wf(),
        ensures
            final(self).wf(),
            ({
                let counts = counted(old(self).summary, device.class);
                if old(self).summary.recorded < MAX_DEVICES {
                    let slot = old(self).summary.recorded as int;
                    &&& final(self).devices@ == old(self).devices@.update(slot, Some(device))
                    &&& final(self).summary == (Summary { recorded: (old(self).summary.recorded + 1) as u8, ..counts })
                } else {
                    &&& final(self).devices@ == old(self).devices@
                    &&& final(self).summary == (Summary { truncated: true, ..counts })
                }
            }),
    {
        proof {
            lemma_recorded_prefix(self.devices@, MAX_DEVICES as int);
        }
        self.summary.discovered = self.summary.discovered.saturating_add(1);
        if device.class == 0x01 {
            self.summary.storage = self.summary.storage.saturating_add(1);
        } else if device.class == 0x02 {
            self.summary.network = self.summary.network.saturating_add(1);
        } else if device.class == 0x03 {
            self.summary.display = self.summary.display.saturating_add(1);
        } else if device.class == 0x06 {
            self.summary.bridges = self.summary.bridges.saturating_add(1);
        }
        let ghost recorded = old(self).summary.recorded as int;
        let mut i: usize = 0;
        while i < MAX_DEVICES
            invariant
                i <= MAX_DEVICES,
                forall|k: int| 0 <= k < i ==> (#[trigger] self.devices@[k]) is Some,
                self.devices@ == old(self).devices@,
                self.summary == counted(old(self).summary, device.class),
                recorded == old(self).summary.recorded,
                recorded == recorded_count(old(self).devices@, MAX_DEVICES as int),
                recorded <= MAX_DEVICES,
                forall|k: int| 0 <= k < MAX_DEVICES ==> ((#[trigger] old(self).devices@[k]) is Some <==> k < recorded),
            decreases MAX_DEVICES - i,
        {
            if self.devices[i].is_none() {
                let ghost before = self.devices@;
                proof {
                    assert(before[i as int] is None);
                    if recorded < i as int {
                        assert(before[recorded] is Some);
                    }
                    assert(i as int == recorded);
                }
                self.devices[i] = Some(device);
                self.summary.recorded = self.summary.recorded + 1;
                proof {
                    lemma_recorded_prefix(before, MAX_DEVICES as int);
                    lemma_recorded_fill(before, i as int, device);
                }
                return;
            }
            i = i + 1;
        }
        self.summary.truncated = true;
    }
}

proof fn lemma_recorded_empty(devices: Seq<Option<Device>>, n: int)
    requires
        0 <= n <= devices.len(),
        forall|i: int| 0 <= i < devices.len() ==> #[trigger] devices[i] is None,
    ensures
        recorded_count(devices, n) == 0,
    decreases n,
{
    if n > 0 {
        lemma_recorded_empty(devices, n - 1);
    }
}

/// When devices are kept from the front, the first `recorded` slots are full and the
/// rest empty.
proof fn lemma_recorded_prefix(devices: Seq<Option<Device>>, n: int)
    requires
        n == devices.len(),
        n == MAX_DEVICES,
        forall|i: int, j: int| #![trigger devices[i], devices[j]] 0 <= i < j < n && devices[j] is Some ==> devices[i] is Some,
    ensures
        recorded_count(devices, n) <= n,
        forall|i: int| 0 <= i < n ==> ((#[trigger] devices[i]) is Some <==> i < recorded_count(devices, n)),
{
    lemma_recorded_prefix_at(devices, n);
}

proof fn lemma_recorded_prefix_at(devices: Seq<Option<Device>>, m: int)
    requires
        0 <= m <= devices.len(),
        forall|i: int, j: int| #![trigger devices[i], devices[j]] 0 <= i < j < devices.len() && devices[j] is Some ==> devices[i] is Some,
    ensures
        recorded_count(devices, m) <= m,
        forall|i: int| 0 <= i < m ==> ((#[trigger] devices[i]) is Some <==> i < recorded_count(devices, m)),
    decreases m,
{
    if m > 0 {
        lemma_recorded_prefix_at(devices, m - 1);
        if devices[m - 1] is Some {
            assert forall|i: int| 0 <= i < m - 1 implies (#[trigger] devices[i]) is Some by {
                assert(devices[m - 1] is Some);
            }
        }
    }
}

proof fn lemma_recorded_fill(devices: Seq<Option<Device>>, slot: int, device: Device)
    requires
        devices.len() == MAX_DEVICES,
        0 <= slot < MAX_DEVICES,
        forall|i: int| 0 <= i < MAX_DEVICES ==> ((#[trigger] devices[i]) is Some <==> i < slot),
    ensures
        recorded_count(devices.update(slot, Some(device)), MAX_DEVICES as int) == recorded_count(devices, MAX_DEVICES as int) + 1,
        forall|i: int, j: int|
            #![trigger devices.update(slot, Some(device))[i], devices.update(slot, Some(device))[j]]
            0 <= i < j < MAX_DEVICES && devices.update(slot, Some(device))[j] is Some ==> devices.update(
                slot,
                Some(device),
            )[i] is Some,
{
    lemma_recorded_update(devices, slot, Some(device), MAX_DEVICES as int);
}

proof fn lemma_recorded_update(devices: Seq<Option<Device>>, slot: int, value: Option<Device>, n: int)
    requires
        0 <= slot < devices.len(),
        0 <= n <= devices.len(),
        devices[slot] is None,
        value is Some,
    ensures
        recorded_count(devices.update(slot, value), n) == recorded_count(devices, n) + if slot < n {
            1nat
        } else {
            0nat
        },
    decreases n,
{
    if n > 0 {
        lemma_recorded_update(devices, slot, value, n - 1);
    }
}

/// Scans every device of every bus, every function of a multi-function device, and
/// records what answers.
pub fn discover<C: ConfigSpace>(config: &mut C) -> (inventory: Inventory)
    ensures
        inventory.wf(),
        inventory.summary.recorded <= MAX_DEVICES,
{
    let mut inventory = Inventory::new();
    let mut bus: u16 = 0;
    while bus <= 255
        invariant
            bus <= 256,
            inventory.wf(),
        decreases 256 - bus,
    {
        let mut device: u8 = 0;
        while device < 32
            invariant
                device <= 32,
                bus <= 255,
                inventory.wf(),
            decreases 32 - device,
        {
            let vendor = (read_config(config, bus as u8, device, 0, 0) & 0xffff) as u16;
            if vendor != 0xffff {
                let header = ((read_config(config, bus as u8, device, 0, 0x0c) >> 16u32) & 0xff) as u8;
                let functions: u8 = if header & 0x80 != 0 {
                    8
                } else {
                    1
                };
                let mut function: u8 = 0;
                while function < functions
                    invariant
                        function <= functions <= 8,
                        inventory.wf(),
                    decreases functions - function,
                {
                    match probe(config, bus as u8, device, function) {
                        Some(found) => inventory.record(found),
                        None => {},
                    }
                    function = function + 1;
                }
            }
            device = device + 1;
        }
        bus = bus + 1;
    }
    proof {
        lemma_recorded_prefix(inventory.devices@, MAX_DEVICES as int);
    }
    inventory
}

/// The device in slot `index` of the inventory.
pub fn device(inventory: &Inventory, index: usize) -> (found: Option<Device>)
    ensures
        found == if index < MAX_DEVICES {
            inventory.devices@[index as int]
        } else {
            None
        },
{
    if index < MAX_DEVICES {
        inventory.devices[index]
    } else {
        None
    }
}

/// The configuration address of a known function, a fresh inventory holding at most
/// its capacity, and nothing beyond it.
pub fn self_test() -> (passed: bool)
    ensures
        passed,
{
    let inventory = Inventory::new();
    let address = config_address(2, 3, 4, 0x0b);
    proof {
        assert(spec_config_address(2, 3, 4, 0x0b) == 0x8002_1c08) by (bit_vector);
    }
    address == 0x8002_1c08 && inventory.summary.recorded as usize <= MAX_DEVICES && device(&inventory, MAX_DEVICES).is_none()
}

} // verus!
