use wovenhat::network::{
    dns_start, endpoint_from_packed, endpoint_to_packed, internet_checksum, net_info, ping_reply_matches, DhcpEvent,
    Endpoint, NetConfig, SocketError, SocketKind, SocketTable, MAX_DNS_QUERIES,
};

#[test]
fn checksum_of_known_header() {
    // The IPv4 header example of RFC 1071 style: the checksum field zeroed.
    let header = [
        0x45, 0x00, 0x00, 0x73, 0x00, 0x00, 0x40, 0x00, 0x40, 0x11, 0x00, 0x00, 0xc0, 0xa8, 0x00, 0x01, 0xc0, 0xa8,
        0x00, 0xc7,
    ];
    assert_eq!(internet_checksum(&header), 0xb861);
    assert_eq!(internet_checksum(&[]), 0xffff);
    assert_eq!(internet_checksum(&[0x01]), 0xfeff);
}

#[test]
fn checksum_folds_carries() {
    assert_eq!(internet_checksum(&[0xff, 0xff, 0x00, 0x01]), 0xfffe);
}

#[test]
fn endpoints_pack_and_unpack() {
    let endpoint = Endpoint { address: [10, 0, 2, 2], port: 53 };
    let packed = endpoint_to_packed(endpoint);
    assert_eq!(packed, 0x0035_0a00_0202);
    assert_eq!(endpoint_from_packed(packed), Ok(endpoint));
    assert_eq!(endpoint_from_packed(0x0a00_0202), Err(SocketError::Address));
}

#[test]
fn sockets_belong_to_their_owner() {
    let mut table = SocketTable::new();
    let id = table.socket_open(7, SocketKind::Udp, |_| 42).expect("slot");
    assert_eq!(id, 0);
    assert_eq!(table.find_slot(8, id).map(|s| s.handle), Err(SocketError::WrongOwner));
    assert_eq!(table.find_slot(7, 5).map(|s| s.handle), Err(SocketError::Invalid));
    assert_eq!(table.socket_peer(7, id), Ok(None));
    let peer = Endpoint { address: [10, 0, 2, 2], port: 7 };
    assert!(table.set_peer(7, id, peer).is_ok());
    assert_eq!(table.socket_peer(7, id), Ok(Some(peer)));
    let second = table.socket_open(7, SocketKind::Tcp, |_| 43).expect("slot");
    let other = table.socket_open(9, SocketKind::Tcp, |_| 44).expect("slot");
    assert_eq!(table.count(), 3);
    assert_eq!(table.close_process_sockets(7), vec![42, 43]);
    assert_eq!(table.count(), 1);
    assert_eq!(table.socket_close(7, second), Err(SocketError::Invalid));
    assert_eq!(table.socket_close(9, other), Ok(44));
    assert_eq!(table.count(), 0);
}

#[test]
fn socket_table_fills_up() {
    let mut table = SocketTable::new();
    for expected in 0..16u64 {
        assert_eq!(table.socket_open(1, SocketKind::Udp, |_| 0), Ok(expected));
    }
    assert_eq!(table.socket_open(1, SocketKind::Udp, |_| 0), Err(SocketError::NoSlot));
}

#[test]
fn ephemeral_ports_wrap() {
    let mut table = SocketTable::new();
    assert_eq!(table.next_ephemeral(), 49152);
    assert_eq!(table.next_ephemeral(), 49153);
    for _ in 49154..65534u32 {
        table.next_ephemeral();
    }
    assert_eq!(table.next_ephemeral(), 65534);
    assert_eq!(table.next_ephemeral(), 49152);
}

#[test]
fn ping_replies_are_matched() {
    let mut reply = [0u8; 16];
    reply[4] = 0x57;
    reply[5] = 0x48;
    reply[7] = 3;
    assert!(ping_reply_matches(&reply, 16, [10, 0, 2, 2], [10, 0, 2, 2], 3));
    assert!(!ping_reply_matches(&reply, 16, [10, 0, 2, 3], [10, 0, 2, 2], 3));
    assert!(!ping_reply_matches(&reply, 16, [10, 0, 2, 2], [10, 0, 2, 2], 4));
    assert!(!ping_reply_matches(&reply, 7, [10, 0, 2, 2], [10, 0, 2, 2], 3));
}

#[test]
fn dhcp_lease_and_fallback() {
    let mut config = NetConfig::initial();
    assert_eq!(config.ipv4, [10, 0, 2, 15]);
    assert!(!config.on_dhcp_event(DhcpEvent::Deconfigured));
    let event = DhcpEvent::Configured { address: [192, 168, 1, 9], prefix: 16, router: None, dns: Some([1, 1, 1, 1]) };
    assert!(config.on_dhcp_event(event));
    assert!(config.using_dhcp);
    assert_eq!(config.gateway, [10, 0, 2, 2]);
    assert_eq!(config.dns_server, [1, 1, 1, 1]);
    let info = net_info(&config, true, [1, 2, 3, 4, 5, 6]);
    assert_eq!(info.ipv4, [192, 168, 1, 9]);
    assert_eq!(info.prefix, 16);
    assert_eq!(info.using_dhcp, 1);
    assert!(config.on_dhcp_event(DhcpEvent::Deconfigured));
    assert_eq!(config.ipv4, [10, 0, 2, 15]);
    assert!(!config.using_dhcp);
    config.set_dhcp(false);
    assert!(!config.dhcp_enabled);
}

fn dns_fixture() -> (smoltcp::iface::Interface, smoltcp::socket::dns::Socket<'static>) {
    let mut device = smoltcp::phy::Loopback::new(smoltcp::phy::Medium::Ip);
    let iface = smoltcp::iface::Interface::new(
        smoltcp::iface::Config::new(smoltcp::wire::HardwareAddress::Ip),
        &mut device,
        smoltcp::time::Instant::ZERO,
    );
    let servers = [smoltcp::wire::IpAddress::Ipv4(smoltcp::wire::Ipv4Address::new(10, 0, 2, 3))];
    let slots: Vec<Option<smoltcp::socket::dns::DnsQuery>> = (0..MAX_DNS_QUERIES).map(|_| None).collect();
    (iface, smoltcp::socket::dns::Socket::new(&servers, slots))
}

#[test]
fn dns_start_takes_the_first_free_slot() {
    let (mut iface, mut socket) = dns_fixture();
    let mut queries = [None; MAX_DNS_QUERIES];
    assert_eq!(dns_start(&mut queries, &mut socket, iface.context(), "example.com"), Ok(0));
    assert!(queries[0].is_some());
    assert!(queries[1..].iter().all(|query| query.is_none()));
    assert_eq!(dns_start(&mut queries, &mut socket, iface.context(), "rust-lang.org."), Ok(1));
    assert!(queries[1].is_some());
}

#[test]
fn dns_start_without_a_free_slot_is_refused() {
    let (mut iface, mut socket) = dns_fixture();
    let mut queries = [None; MAX_DNS_QUERIES];
    for expected in 0..MAX_DNS_QUERIES as u64 {
        assert_eq!(dns_start(&mut queries, &mut socket, iface.context(), "example.com"), Ok(expected));
    }
    assert_eq!(dns_start(&mut queries, &mut socket, iface.context(), "example.com"), Err(SocketError::NoSlot));
}

#[test]
fn dns_start_with_an_empty_name_leaves_the_slots() {
    let (mut iface, mut socket) = dns_fixture();
    let mut queries = [None; MAX_DNS_QUERIES];
    assert_eq!(dns_start(&mut queries, &mut socket, iface.context(), ""), Err(SocketError::BufferFull));
    assert!(queries.iter().all(|query| query.is_none()));
}

#[test]
fn dns_start_refuses_bad_labels() {
    let (mut iface, mut socket) = dns_fixture();
    let mut queries = [None; MAX_DNS_QUERIES];
    assert_eq!(dns_start(&mut queries, &mut socket, iface.context(), "a..b"), Err(SocketError::BufferFull));
    assert_eq!(dns_start(&mut queries, &mut socket, iface.context(), ".example"), Err(SocketError::BufferFull));
    let long = format!("{}.com", "x".repeat(64));
    assert_eq!(dns_start(&mut queries, &mut socket, iface.context(), &long), Err(SocketError::BufferFull));
    assert!(queries.iter().all(|query| query.is_none()));
    // One trailing dot is accepted.
    assert_eq!(dns_start(&mut queries, &mut socket, iface.context(), "example.com."), Ok(0));
}
