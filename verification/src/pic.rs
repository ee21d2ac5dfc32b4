//! The two cascaded legacy 8259 interrupt controllers: remapping them above the
//! CPU exceptions, unmasking single lines and acknowledging interrupts.
use vstd::prelude::*;

use crate::ata::PortIo;

verus! {

/// Vector of IRQ 0.
pub const MASTER_OFFSET: u8 = 32;

/// Vector of IRQ 8.
pub const SLAVE_OFFSET: u8 = MASTER_OFFSET + 8;

pub const MASTER_COMMAND: u16 = 0x20;
pub const MASTER_DATA: u16 = 0x21;
pub const SLAVE_COMMAND: u16 = 0xa0;
pub const SLAVE_DATA: u16 = 0xa1;

const INITIALIZE: u8 = 0x11;
const MODE_8086: u8 = 0x01;
const ALL_IRQS_MASKED: u8 = 0xff;
const END_OF_INTERRUPT: u8 = 0x20;

/// The port that conventionally absorbs a write as a short delay.
const POST_DELAY_PORT: u16 = 0x80;

/// Bit `line` of `mask`.
pub open spec fn bit(mask: u8, line: u8) -> bool {
    (mask >> line) & 1 == 1
}

/// The mask register and line of `irq`: lines 0 to 7 are the master's, 8 to 15
/// the slave's.
pub open spec fn spec_mask_location(irq: u8) -> (u16, u8) {
    if irq < 8 {
        (MASTER_DATA, irq)
    } else {
        (SLAVE_DATA, (irq - 8) as u8)
    }
}

pub fn mask_location(irq: u8) -> (location: (u16, u8))
    requires
        irq < 16,
    ensures
        location == spec_mask_location(irq),
        location.1 < 8,
{
    if irq < 8 {
        (MASTER_DATA, irq)
    } else {
        (SLAVE_DATA, irq - 8)
    }
}

/// `mask` with `line` cleared and every other line kept.
pub fn unmasked(mask: u8, line: u8) -> (result: u8)
    requires
        line < 8,
    ensures
        !bit(result, line),
        forall|other: u8| other < 8 && other != line ==> bit(result, other) == bit(mask, other),
{
    let result = mask & !(1u8 << line);
    assert(!bit(result, line)) by (bit_vector)
        requires
            line < 8,
            result == mask & !(1u8 << line),
    ;
    assert forall|other: u8| other < 8 && other != line implies bit(result, other) == bit(mask, other) by {
        assert(((result >> other) & 1 == 1) == ((mask >> other) & 1 == 1)) by (bit_vector)
            requires
                line < 8,
                other < 8,
                other != line,
                result == mask & !(1u8 << line),
        ;
    }
    result
}

fn io_wait<P: PortIo>(ports: &mut P) {
    ports.outb(POST_DELAY_PORT, 0);
}

/// Remaps both controllers to `MASTER_OFFSET` and `SLAVE_OFFSET`, cascades the
/// slave on line 2, and leaves every line masked.
pub fn init<P: PortIo>(ports: &mut P) {
    ports.outb(MASTER_COMMAND, INITIALIZE);
    io_wait(ports);
    ports.outb(SLAVE_COMMAND, INITIALIZE);
    io_wait(ports);
    ports.outb(MASTER_DATA, MASTER_OFFSET);
    io_wait(ports);
    ports.outb(SLAVE_DATA, SLAVE_OFFSET);
    io_wait(ports);
    ports.outb(MASTER_DATA, 4);
    io_wait(ports);
    ports.outb(SLAVE_DATA, 2);
    io_wait(ports);
    ports.outb(MASTER_DATA, MODE_8086);
    io_wait(ports);
    ports.outb(SLAVE_DATA, MODE_8086);
    io_wait(ports);
    ports.outb(MASTER_DATA, ALL_IRQS_MASKED);
    ports.outb(SLAVE_DATA, ALL_IRQS_MASKED);
}

/// Clears the mask bit of `irq`; a slave line also needs the cascade line 2 of
/// the master unmasked.
pub fn unmask<P: PortIo>(ports: &mut P, irq: u8)
    requires
        irq < 16,
{
    let (data_port, line) = mask_location(irq);
    let mask = ports.inb(data_port);
    ports.outb(data_port, unmasked(mask, line));
    if irq >= 8 {
        let master_mask = ports.inb(MASTER_DATA);
        ports.outb(MASTER_DATA, unmasked(master_mask, 2));
    }
}

/// Acknowledges `irq`: at the slave first when it is one of its lines, then at
/// the master.
pub fn notify_end_of_interrupt<P: PortIo>(ports: &mut P, irq: u8) {
    if irq >= 8 {
        ports.outb(SLAVE_COMMAND, END_OF_INTERRUPT);
    }
    ports.outb(MASTER_COMMAND, END_OF_INTERRUPT);
}

} // verus!
