//! The processor bookkeeping of multiprocessor start-up: which local APIC IDs
//! belong to which CPU slot, the page below 1 MiB that application processors
//! start from, and the I/O APIC route of the keyboard line. Talking to the APICs
//! and starting the processors happens outside the library.
use vstd::prelude::*;

use crate::memory::Region;

verus! {

/// CPUs the kernel brings up.
pub const MAX_CPUS: usize = 4;

/// Slot marker of a CPU that has not registered.
pub const UNREGISTERED: u32 = 0xffff_ffff;

/// Lowest address a start-up page may have.
pub const BOOT_PAGE_FLOOR: u64 = 0x1000;

/// Start of the legacy video hole: start-up pages end below it.
pub const BOOT_PAGE_CEILING: u64 = 0xa0000;

/// Interrupt vector of the keyboard line.
pub const KEYBOARD_VECTOR: u32 = 33;

/// The start-up page that `region` offers: its first whole page at or above
/// `BOOT_PAGE_FLOOR`, if the region is usable and that page ends below both the
/// region's end and `BOOT_PAGE_CEILING`.
pub open spec fn page_in(region: Region) -> Option<u64> {
    let low = if region.start < BOOT_PAGE_FLOOR { BOOT_PAGE_FLOOR as int } else { region.start as int };
    let start = (low + 4095) - (low + 4095) % 4096;
    let limit = if region.end < BOOT_PAGE_CEILING { region.end as int } else { BOOT_PAGE_CEILING as int };
    if low + 4095 <= u64::MAX && region.usable && start + 4096 <= limit {
        Some(start as u64)
    } else {
        None
    }
}

/// The first start-up page offered by the regions from index `i` on.
pub open spec fn first_page_from(regions: Seq<Region>, i: int) -> Option<u64>
    decreases regions.len() - i,
{
    if i < 0 || i >= regions.len() {
        None
    } else {
        match page_in(regions[i]) {
            Some(page) => Some(page),
            None => first_page_from(regions, i + 1),
        }
    }
}

/// The first whole page of usable memory between 4 KiB and 640 KiB, where
/// application processors start in real mode.
pub fn boot_page(regions: &[Region]) -> (page: Option<u64>)
    ensures
        page == first_page_from(regions@, 0),
{
    let n = regions.len();
    let mut i: usize = 0;
    while i < n
        invariant
            n == regions@.len(),
            i <= n,
            first_page_from(regions@, 0) == first_page_from(regions@, i as int),
        decreases n - i,
    {
        let region = regions[i];
        let low = if region.start < BOOT_PAGE_FLOOR { BOOT_PAGE_FLOOR } else { region.start };
        if let Some(aligned) = low.checked_add(4095) {
            let start = aligned - aligned % 4096;
            let limit = if region.end < BOOT_PAGE_CEILING { region.end } else { BOOT_PAGE_CEILING };
            if region.usable && start <= limit && limit - start >= 4096 {
                return Some(start);
            }
        }
        i = i + 1;
    }
    None
}

/// The processor IDs other than the bootstrap processor's, in order.
pub open spec fn others(ids: Seq<u32>, bsp_id: u32) -> Seq<u32>
    decreases ids.len(),
{
    if ids.len() == 0 {
        Seq::empty()
    } else if ids.last() == bsp_id {
        others(ids.drop_last(), bsp_id)
    } else {
        others(ids.drop_last(), bsp_id).push(ids.last())
    }
}

/// The processors to start, in the firmware's order: every listed ID but the
/// bootstrap processor's own.
pub fn application_processors(processor_ids: &[u32], bsp_id: u32) -> (ids: Vec<u32>)
    ensures
        ids@ == others(processor_ids@, bsp_id),
{
    let mut ids: Vec<u32> = Vec::new();
    let n = processor_ids.len();
    let mut i: usize = 0;
    while i < n
        invariant
            n == processor_ids@.len(),
            i <= n,
            ids@ == others(processor_ids@.subrange(0, i as int), bsp_id),
        decreases n - i,
    {
        let id = processor_ids[i];
        assert(processor_ids@.subrange(0, i + 1).drop_last() =~= processor_ids@.subrange(0, i as int));
        if id != bsp_id {
            ids.push(id);
        }
        i = i + 1;
    }
    assert(processor_ids@.subrange(0, n as int) =~= processor_ids@);
    ids
}

/// A topology the start-up code supports: the firmware's list is complete, no more
/// processors than `MAX_CPUS`, and every ID fits the 8-bit xAPIC format.
pub open spec fn spec_topology_supported(processor_ids: Seq<u32>, truncated: bool) -> bool {
    &&& !truncated
    &&& processor_ids.len() <= MAX_CPUS
    &&& forall|i: int| 0 <= i < processor_ids.len() ==> #[trigger] processor_ids[i] < 256
}

pub fn topology_supported(processor_ids: &[u32], truncated: bool) -> (supported: bool)
    ensures
        supported == spec_topology_supported(processor_ids@, truncated),
{
    if truncated || processor_ids.len() > MAX_CPUS {
        return false;
    }
    let n = processor_ids.len();
    let mut i: usize = 0;
    while i < n
        invariant
            n == processor_ids@.len(),
            i <= n,
            forall|k: int| 0 <= k < i ==> #[trigger] processor_ids@[k] < 256,
        decreases n - i,
    {
        if processor_ids[i] >= 256 {
            return false;
        }
        i = i + 1;
    }
    true
}

/// The I/O APIC redirection entry of the keyboard line.
#[derive(Clone, Copy, PartialEq, Eq, Structural, Debug)]
pub struct Redirection {
    /// Input pin of the I/O APIC.
    pub pin: u32,
    /// Low word: vector, polarity and trigger mode.
    pub low: u32,
    /// High word: the destination processor.
    pub high: u32,
}

/// ISA interrupt 1 arrives at global interrupt `gsi` with MPS `flags`; the
/// redirection is refused when that interrupt is not on this I/O APIC (pins
/// `gsi_base` to `gsi_base + max_pin`) or when either flag field holds its reserved
/// value 2. Active-low polarity (3) sets bit 13, level trigger (3) sets bit 15.
pub open spec fn spec_keyboard_redirection(gsi: u32, flags: u16, gsi_base: u32, max_pin: u32, bsp_id: u32) -> Option<
    Redirection,
> {
    if gsi >= gsi_base && gsi - gsi_base <= max_pin && flags & 3 != 2 && (flags >> 2u16) & 3 != 2 {
        let polarity: int = if flags & 3 == 3 { 0x2000 } else { 0 };
        let trigger: int = if (flags >> 2u16) & 3 == 3 { 0x8000 } else { 0 };
        Some(
            Redirection {
                pin: (gsi - gsi_base) as u32,
                low: (KEYBOARD_VECTOR + polarity + trigger) as u32,
                high: (bsp_id * 0x100_0000) as u32,
            },
        )
    } else {
        None
    }
}

/// The entry that routes the keyboard to the bootstrap processor. Without an
/// interrupt source override, ISA interrupt 1 is global interrupt 1 with default
/// flags.
pub fn keyboard_redirection(
    source_override: Option<(u32, u16)>,
    gsi_base: u32,
    max_pin: u32,
    bsp_id: u32,
) -> (entry: Option<Redirection>)
    requires
        bsp_id < 256,
    ensures
        entry == match source_override {
            Some((gsi, flags)) => spec_keyboard_redirection(gsi, flags, gsi_base, max_pin, bsp_id),
            None => spec_keyboard_redirection(1, 0, gsi_base, max_pin, bsp_id),
        },
{
    let (gsi, flags) = match source_override {
        Some(found) => found,
        None => (1, 0),
    };
    if gsi < gsi_base || gsi - gsi_base > max_pin || flags & 3 == 2 || (flags >> 2u16) & 3 == 2 {
        return None;
    }
    let polarity: u32 = if flags & 3 == 3 { 0x2000 } else { 0 };
    let trigger: u32 = if (flags >> 2u16) & 3 == 3 { 0x8000 } else { 0 };
    Some(Redirection { pin: gsi - gsi_base, low: KEYBOARD_VECTOR + polarity + trigger, high: bsp_id * 0x100_0000 })
}

/// Which processor owns which slot, how many are online, where the I/O APIC is
/// mapped (0 until the keyboard is routed through it) and the start-up page (0
/// when memory offers none).
pub struct Cpus {
    ids: Vec<u32>,
    online: usize,
    io_apic: u64,
    start_page: u64,
}

impl Cpus {
    pub closed spec fn spec_ids(&self) -> Seq<u32> {
        self.ids@
    }

    pub closed spec fn spec_online(&self) -> usize {
        self.online
    }

    pub closed spec fn spec_io_apic(&self) -> u64 {
        self.io_apic
    }

    pub closed spec fn spec_start_page(&self) -> u64 {
        self.start_page
    }

    pub open spec fn wf(&self) -> bool {
        &&& self.spec_ids().len() == MAX_CPUS
        &&& 1 <= self.spec_online() <= MAX_CPUS
    }

    /// Only the bootstrap processor, not yet identified.
    pub fn new() -> (cpus: Self)
        ensures
            cpus.wf(),
            cpus.spec_ids() == Seq::new(MAX_CPUS as nat, |i: int| UNREGISTERED),
            cpus.spec_online() == 1,
            cpus.spec_io_apic() == 0,
            cpus.spec_start_page() == 0,
    {
        let ids = vec![UNREGISTERED, UNREGISTERED, UNREGISTERED, UNREGISTERED];
        assert(ids@ =~= Seq::new(MAX_CPUS as nat, |i: int| UNREGISTERED));
        Cpus { ids, online: 1, io_apic: 0, start_page: 0 }
    }

    /// Registers the bootstrap processor in slot 0 and picks the start-up page;
    /// the page stays as it was when memory offers none.
    pub fn prepare(&mut self, bsp_id: u32, regions: &[Region])
        requires
            old(self).wf(),
        ensures
            final(self).wf(),
            final(self).spec_ids() == old(self).spec_ids().update(0, bsp_id),
            final(self).spec_online() == old(self).spec_online(),
            final(self).spec_io_apic() == old(self).spec_io_apic(),
            final(self).spec_start_page() == match first_page_from(regions@, 0) {
                Some(page) => page,
                None => old(self).spec_start_page(),
            },
    {
        self.ids.set(0, bsp_id);
        if let Some(page) = boot_page(regions) {
            self.start_page = page;
        }
    }

    /// Gives slot `slot` to the processor with local APIC ID `id`.
    pub fn register(&mut self, slot: usize, id: u32)
        requires
            old(self).wf(),
            slot < MAX_CPUS,
        ensures
            final(self).wf(),
            final(self).spec_ids() == old(self).spec_ids().update(slot as int, id),
            final(self).spec_online() == old(self).spec_online(),
            final(self).spec_io_apic() == old(self).spec_io_apic(),
            final(self).spec_start_page() == old(self).spec_start_page(),
    {
        self.ids.set(slot, id);
    }

    /// Records how many processors came online.
    pub fn set_online(&mut self, count: usize)
        requires
            old(self).wf(),
            1 <= count <= MAX_CPUS,
        ensures
            final(self).wf(),
            final(self).spec_ids() == old(self).spec_ids(),
            final(self).spec_online() == count,
            final(self).spec_io_apic() == old(self).spec_io_apic(),
            final(self).spec_start_page() == old(self).spec_start_page(),
    {
        self.online = count;
    }

    /// Records where the I/O APIC that routes the keyboard is mapped.
    pub fn set_io_apic(&mut self, address: u64)
        requires
            old(self).wf(),
        ensures
            final(self).wf(),
            final(self).spec_ids() == old(self).spec_ids(),
            final(self).spec_online() == old(self).spec_online(),
            final(self).spec_io_apic() == address,
            final(self).spec_start_page() == old(self).spec_start_page(),
    {
        self.io_apic = address;
    }

    /// The start-up page, 0 when memory offers none.
    pub fn start_page(&self) -> (page: u64)
        ensures
            page == self.spec_start_page(),
    {
        self.start_page
    }
}

/// The slot of the processor with local APIC ID `apic_id`: the first slot that
/// holds it. Only registered processors ask.
pub fn cpu_index(cpus: &Cpus, apic_id: u32) -> (slot: usize)
    requires
        cpus.wf(),
        exists|i: int| 0 <= i < MAX_CPUS && cpus.spec_ids()[i] == apic_id,
    ensures
        slot < MAX_CPUS,
        cpus.spec_ids()[slot as int] == apic_id,
        forall|i: int| 0 <= i < slot ==> cpus.spec_ids()[i] != apic_id,
{
    let mut i: usize = 0;
    while i < MAX_CPUS
        invariant
            cpus.wf(),
            i <= MAX_CPUS,
            exists|k: int| i <= k < MAX_CPUS && cpus.spec_ids()[k] == apic_id,
            forall|k: int| 0 <= k < i ==> cpus.spec_ids()[k] != apic_id,
        decreases MAX_CPUS - i,
    {
        if cpus.ids[i] == apic_id {
            return i;
        }
        i = i + 1;
    }
    i
}

/// Processors online.
pub fn online_count(cpus: &Cpus) -> (count: usize)
    ensures
        count == cpus.spec_online(),
{
    cpus.online
}

/// Whether the keyboard is routed through the I/O APIC rather than the legacy PIC.
pub fn routed_irq(cpus: &Cpus) -> (routed: bool)
    ensures
        routed == (cpus.spec_io_apic() != 0),
{
    cpus.io_apic != 0
}

/// The digit the diagnostic shows for `count` processors: 1 to 3 as they are,
/// anything else as 4.
pub fn online_digit(count: usize) -> (digit: char)
    ensures
        digit == if 1 <= count <= 3 { (('0' as u32) + count) as char } else { '4' },
{
    match count {
        1 => '1',
        2 => '2',
        3 => '3',
        _ => '4',
    }
}

} // verus!
