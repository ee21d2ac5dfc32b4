use wovenhat::ata::PortIo;
use wovenhat::pic::{init, mask_location, notify_end_of_interrupt, unmask, unmasked, MASTER_DATA, SLAVE_DATA};

struct Ports {
    master_mask: u8,
    slave_mask: u8,
    writes: Vec<(u16, u8)>,
}

impl PortIo for Ports {
    fn inb(&mut self, port: u16) -> u8 {
        match port {
            0x21 => self.master_mask,
            0xa1 => self.slave_mask,
            _ => 0,
        }
    }

    fn inw(&mut self, _port: u16) -> u16 {
        0
    }

    fn outb(&mut self, port: u16, value: u8) {
        match port {
            0x21 => self.master_mask = value,
            0xa1 => self.slave_mask = value,
            _ => {}
        }
        self.writes.push((port, value));
    }
}

fn ports() -> Ports {
    Ports { master_mask: 0, slave_mask: 0, writes: Vec::new() }
}

#[test]
fn lines_and_masks() {
    assert_eq!(mask_location(1), (MASTER_DATA, 1));
    assert_eq!(mask_location(12), (SLAVE_DATA, 4));
    assert_eq!(unmasked(0xff, 0), 0xfe);
    assert_eq!(unmasked(0xff, 7), 0x7f);
    assert_eq!(unmasked(0x0f, 6), 0x0f);
}

#[test]
fn init_remaps_and_masks_everything() {
    let mut p = ports();
    init(&mut p);
    let interesting: Vec<(u16, u8)> = p.writes.iter().copied().filter(|(port, _)| *port != 0x80).collect();
    assert_eq!(
        interesting,
        vec![(0x20, 0x11), (0xa0, 0x11), (0x21, 32), (0xa1, 40), (0x21, 4), (0xa1, 2), (0x21, 1), (0xa1, 1), (0x21, 0xff), (0xa1, 0xff)]
    );
    assert_eq!((p.master_mask, p.slave_mask), (0xff, 0xff));
}

#[test]
fn unmasking_a_slave_line_opens_the_cascade() {
    let mut p = ports();
    init(&mut p);
    unmask(&mut p, 1);
    assert_eq!((p.master_mask, p.slave_mask), (0xfd, 0xff));
    unmask(&mut p, 12);
    assert_eq!((p.master_mask, p.slave_mask), (0xf9, 0xef));
}

#[test]
fn slave_interrupts_are_acknowledged_at_both_controllers() {
    let mut p = ports();
    notify_end_of_interrupt(&mut p, 1);
    assert_eq!(p.writes, vec![(0x20, 0x20)]);
    let mut p = ports();
    notify_end_of_interrupt(&mut p, 9);
    assert_eq!(p.writes, vec![(0xa0, 0x20), (0x20, 0x20)]);
}
