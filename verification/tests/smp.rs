use wovenhat::memory::Region;
use wovenhat::smp::{
    application_processors, boot_page, cpu_index, keyboard_redirection, online_count, online_digit, routed_irq,
    topology_supported, Cpus, Redirection, UNREGISTERED,
};

fn region(start: u64, end: u64, usable: bool) -> Region {
    Region { start, end, usable }
}

#[test]
fn start_up_page_is_the_first_whole_low_page() {
    assert_eq!(boot_page(&[region(0, 0x1000, true), region(0x1001, 0x9f000, true)]), Some(0x2000));
    assert_eq!(boot_page(&[region(0, 0x800, true), region(0x7000, 0x8000, false), region(0x8000, 0x9000, true)]), Some(0x8000));
    assert_eq!(boot_page(&[region(0x9f800, 0x100000, true)]), None);
    assert_eq!(boot_page(&[region(0x100000, 0x200000, true)]), None);
    assert_eq!(boot_page(&[region(u64::MAX - 5, u64::MAX, true)]), None);
    assert_eq!(boot_page(&[]), None);
}

#[test]
fn application_processors_skip_the_bootstrap_processor() {
    assert_eq!(application_processors(&[0, 1, 2, 3], 0), vec![1, 2, 3]);
    assert_eq!(application_processors(&[3, 1, 0], 1), vec![3, 0]);
    assert_eq!(application_processors(&[], 1), Vec::<u32>::new());
}

#[test]
fn supported_topologies() {
    assert!(topology_supported(&[0, 1, 2, 3], false));
    assert!(!topology_supported(&[0, 1], true));
    assert!(!topology_supported(&[0, 1, 2, 3, 4], false));
    assert!(!topology_supported(&[0, 256], false));
}

#[test]
fn keyboard_route_honours_overrides() {
    assert_eq!(keyboard_redirection(None, 0, 23, 0), Some(Redirection { pin: 1, low: 33, high: 0 }));
    assert_eq!(
        keyboard_redirection(Some((1, 0b1111)), 0, 23, 2),
        Some(Redirection { pin: 1, low: 33 | (1 << 13) | (1 << 15), high: 2 << 24 })
    );
    assert_eq!(keyboard_redirection(Some((30, 0)), 24, 23, 0), Some(Redirection { pin: 6, low: 33, high: 0 }));
    assert_eq!(keyboard_redirection(Some((1, 0)), 24, 23, 0), None);
    assert_eq!(keyboard_redirection(Some((48, 0)), 24, 23, 0), None);
    assert_eq!(keyboard_redirection(Some((1, 0b10)), 0, 23, 0), None);
    assert_eq!(keyboard_redirection(Some((1, 0b1000)), 0, 23, 0), None);
}

#[test]
fn processors_find_their_slots() {
    let mut cpus = Cpus::new();
    assert_eq!(online_count(&cpus), 1);
    assert!(!routed_irq(&cpus));
    cpus.prepare(7, &[region(0x1000, 0x9000, true)]);
    assert_eq!(cpus.start_page(), 0x1000);
    cpus.register(1, 9);
    cpus.register(2, UNREGISTERED - 1);
    cpus.set_online(3);
    cpus.set_io_apic(0xfec0_0000);
    assert_eq!(cpu_index(&cpus, 7), 0);
    assert_eq!(cpu_index(&cpus, 9), 1);
    assert_eq!(online_count(&cpus), 3);
    assert!(routed_irq(&cpus));
    cpus.prepare(7, &[region(0x100000, 0x200000, true)]);
    assert_eq!(cpus.start_page(), 0x1000);
}

#[test]
fn diagnostic_digits() {
    assert_eq!(online_digit(1), '1');
    assert_eq!(online_digit(3), '3');
    assert_eq!(online_digit(4), '4');
    assert_eq!(online_digit(0), '4');
}
