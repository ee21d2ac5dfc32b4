//! The network stack's own bookkeeping: sockets handed to processes, the address
//! configuration, and the packet arithmetic the stack does itself.
use vstd::prelude::*;
use vstd::string::StringSliceAdditionalSpecFns;

verus! {

/// Sockets all processes together may hold.
pub const MAX_USER_SOCKETS: usize = 16;

/// Bytes of each socket buffer.
pub const SOCKET_BUFFER_BYTES: usize = 4096;

/// Datagrams each UDP buffer can queue.
pub const UDP_META_SLOTS: usize = 8;

/// Prefix length of the static address.
pub const DEFAULT_PREFIX: u8 = 24;

/// Identifier the echo requests carry.
pub const PING_IDENT: u16 = 0x5748;

/// The static address used until a DHCP lease arrives.
pub open spec fn spec_default_ipv4() -> [u8; 4] {
    [10, 0, 2, 15]
}

pub fn default_ipv4() -> (address: [u8; 4])
    ensures
        address == spec_default_ipv4(),
{
    [10, 0, 2, 15]
}

/// The static gateway.
pub open spec fn spec_default_gateway() -> [u8; 4] {
    [10, 0, 2, 2]
}

pub fn default_gateway() -> (address: [u8; 4])
    ensures
        address == spec_default_gateway(),
{
    [10, 0, 2, 2]
}

/// The static name server.
pub open spec fn spec_default_dns() -> [u8; 4] {
    [10, 0, 2, 3]
}

pub fn default_dns() -> (address: [u8; 4])
    ensures
        address == spec_default_dns(),
{
    [10, 0, 2, 3]
}

/// The protocol of a socket.
#[derive(Clone, Copy, PartialEq, Eq, Structural, Debug)]
pub enum SocketKind {
    Udp,
    Tcp,
}

/// Why a socket call failed.
#[derive(Clone, Copy, PartialEq, Eq, Structural, Debug)]
pub enum SocketError {
    Offline,
    Invalid,
    NoSlot,
    WrongOwner,
    WrongKind,
    NotBound,
    NotConnected,
    WouldBlock,
    BufferFull,
    Address,
}

/// Why the UDP echo service could not start.
#[derive(Clone, Copy, PartialEq, Eq, Structural, Debug)]
pub enum EchoError {
    NetworkOffline,
    AlreadyConfigured,
    BindFailed,
}

/// An IPv4 address and port.
#[derive(Clone, Copy, PartialEq, Eq, Debug)]
pub struct Endpoint {
    pub address: [u8; 4],
    pub port: u16,
}

/// A socket held by a process: its owner, the stack's handle for it, its protocol
/// and, once connected, its peer.
#[derive(Clone, Copy, PartialEq, Eq, Debug)]
pub struct UserSocket {
    pub owner: u64,
    pub handle: usize,
    pub kind: SocketKind,
    pub peer: Option<Endpoint>,
}

/// Counters of the network stack.
#[derive(Clone, Copy, PartialEq, Eq, Structural, Debug)]
pub struct NetStats {
    pub online: bool,
    pub echo_active: bool,
    pub echo_port: u16,
    pub echo_packets: u64,
    pub user_sockets: usize,
    pub dhcp_enabled: bool,
    pub using_dhcp: bool,
}

/// The address configuration as the system call reports it.
#[derive(Clone, Copy, PartialEq, Eq, Debug)]
pub struct NetInfo {
    pub ipv4: [u8; 4],
    pub gateway: [u8; 4],
    pub dns: [u8; 4],
    pub prefix: u8,
    pub dhcp_enabled: u8,
    pub using_dhcp: u8,
    pub online: u8,
    pub mac: [u8; 6],
    pub reserved: [u8; 2],
}

/// The sockets held by processes, by slot.
pub struct SocketTable {
    user: [Option<UserSocket>; 16],
    next_port: u16,
}

/// The socket a process `owner` names by `id`, or why it cannot use it.
pub open spec fn lookup(slots: Seq<Option<UserSocket>>, owner: u64, id: u64) -> Result<UserSocket, SocketError> {
    if id >= MAX_USER_SOCKETS || slots[id as int] is None {
        Err(SocketError::Invalid)
    } else if slots[id as int]->0.owner != owner {
        Err(SocketError::WrongOwner)
    } else {
        Ok(slots[id as int]->0)
    }
}

/// Number of held sockets among the first `n` slots.
pub open spec fn held(slots: Seq<Option<UserSocket>>, n: int) -> nat
    decreases n,
{
    if n <= 0 {
        0
    } else {
        held(slots, n - 1) + if slots[n - 1] is Some { 1nat } else { 0nat }
    }
}

impl SocketTable {
    pub closed spec fn slots(&self) -> Seq<Option<UserSocket>> {
        self.user@
    }

    pub closed spec fn spec_next_port(&self) -> u16 {
        self.next_port
    }

    /// Ephemeral ports are drawn from 49152 up to 65534.
    pub closed spec fn wf(&self) -> bool {
        49152 <= self.next_port <= 65534
    }

    pub fn new() -> (table: Self)
        ensures
            table.wf(),
            table.spec_next_port() == 49152,
            forall|i: int| 0 <= i < MAX_USER_SOCKETS ==> (#[trigger] table.slots()[i]) is None,
    {
        SocketTable { user: [None; 16], next_port: 49152 }
    }

    /// The socket `owner` names by `id`.
    pub fn find_slot(&self, owner: u64, id: u64) -> (found: Result<UserSocket, SocketError>)
        ensures
            found == lookup(self.slots(), owner, id),
    {
        if id >= 16 {
            return Err(SocketError::Invalid);
        }
        match self.user[id as usize] {
            None => Err(SocketError::Invalid),
            Some(socket) => if socket.owner != owner {
                Err(SocketError::WrongOwner)
            } else {
                Ok(socket)
            },
        }
    }

    /// The next local port for an outgoing connection; after 65534 the range starts
    /// over.
    pub fn next_ephemeral(&mut self) -> (port: u16)
        requires
            old(self).wf(),
        ensures
            final(self).wf(),
            port == old(self).spec_next_port(),
            final(self).spec_next_port() == if port >= 65534 { 49152 } else { (port + 1) as u16 },
            final(self).slots() == old(self).slots(),
    {
        let port = self.next_port;
        self.next_port = if port >= 65534 { 49152 } else { port + 1 };
        port
    }

    /// Opens a socket of `kind` for `owner` in the first free slot; `create` makes
    /// the stack's socket and gives its handle. The slot number names the socket.
    pub fn socket_open<F: FnOnce(SocketKind) -> usize>(&mut self, owner: u64, kind: SocketKind, create: F) -> (opened: Result<u64, SocketError>)
        requires
            create.requires((kind,)),
        ensures
            final(self).spec_next_port() == old(self).spec_next_port(),
            (forall|i: int| 0 <= i < MAX_USER_SOCKETS ==> (#[trigger] old(self).slots()[i]) is Some) ==> opened
                == Err::<u64, SocketError>(SocketError::NoSlot) && final(self).slots() == old(self).slots(),
            opened is Ok ==> {
                let slot = opened->Ok_0 as int;
                &&& 0 <= slot < MAX_USER_SOCKETS
                &&& old(self).slots()[slot] is None
                &&& forall|i: int| 0 <= i < slot ==> (#[trigger] old(self).slots()[i]) is Some
                &&& final(self).slots()[slot] matches Some(s) && s.owner == owner && s.kind == kind && s.peer is None
                &&& forall|i: int| 0 <= i < MAX_USER_SOCKETS && i != slot ==> #[trigger] final(self).slots()[i] == old(
                    self).slots()[i]
            },
            (exists|i: int| 0 <= i < MAX_USER_SOCKETS && (#[trigger] old(self).slots()[i]) is None) ==> opened is Ok,
    {
        let slot = match self.vacant() {
            Some(slot) => slot,
            None => return Err(SocketError::NoSlot),
        };
        let handle = create(kind);
        self.user[slot] = Some(UserSocket { owner, handle, kind, peer: None });
        Ok(slot as u64)
    }

    /// The first free slot.
    fn vacant(&self) -> (slot: Option<usize>)
        ensures
            match slot {
                Some(i) => i < MAX_USER_SOCKETS && self.user@[i as int] is None && forall|k: int|
                    0 <= k < i ==> (#[trigger] self.user@[k]) is Some,
                None => forall|k: int| 0 <= k < MAX_USER_SOCKETS ==> (#[trigger] self.user@[k]) is Some,
            },
    {
        let mut i: usize = 0;
        while i < MAX_USER_SOCKETS
            invariant
                i <= MAX_USER_SOCKETS,
                forall|k: int| 0 <= k < i ==> (#[trigger] self.user@[k]) is Some,
            decreases MAX_USER_SOCKETS - i,
        {
            if self.user[i].is_none() {
                return Some(i);
            }
            i = i + 1;
        }
        None
    }

    /// Records the peer of a socket `owner` holds; the stack's handle of the socket
    /// comes back for the protocol's own connect.
    pub fn set_peer(&mut self, owner: u64, id: u64, peer: Endpoint) -> (result: Result<UserSocket, SocketError>)
        ensures
            final(self).spec_next_port() == old(self).spec_next_port(),
            result == lookup(old(self).slots(), owner, id),
            result is Err ==> final(self).slots() == old(self).slots(),
            result is Ok ==> final(self).slots() == old(self).slots().update(
                id as int,
                Some(UserSocket { peer: Some(peer), ..result->Ok_0 }),
            ),
    {
        let socket = self.find_slot(owner, id)?;
        self.user[id as usize] = Some(UserSocket { peer: Some(peer), ..socket });
        Ok(socket)
    }

    /// The peer a socket `owner` holds is connected to.
    pub fn socket_peer(&self, owner: u64, id: u64) -> (peer: Result<Option<Endpoint>, SocketError>)
        ensures
            match lookup(self.slots(), owner, id) {
                Ok(s) => peer == Ok::<Option<Endpoint>, SocketError>(s.peer),
                Err(e) => peer == Err::<Option<Endpoint>, SocketError>(e),
            },
    {
        match self.find_slot(owner, id) {
            Ok(socket) => Ok(socket.peer),
            Err(error) => Err(error),
        }
    }

    /// Frees the slot of a socket `owner` holds; the stack's handle comes back for
    /// removal.
    pub fn socket_close(&mut self, owner: u64, id: u64) -> (closed: Result<usize, SocketError>)
        ensures
            final(self).spec_next_port() == old(self).spec_next_port(),
            match lookup(old(self).slots(), owner, id) {
                Ok(s) => closed == Ok::<usize, SocketError>(s.handle) && final(self).slots() == old(self).slots().update(
                    id as int,
                    None,
                ),
                Err(e) => closed == Err::<usize, SocketError>(e) && final(self).slots() == old(self).slots(),
            },
    {
        let socket = self.find_slot(owner, id)?;
        self.user[id as usize] = None;
        Ok(socket.handle)
    }

    /// Frees every slot `owner` holds; the stack's handles of those sockets come
    /// back, in slot order, for removal.
    pub fn close_process_sockets(&mut self, owner: u64) -> (handles: Vec<usize>)
        ensures
            final(self).spec_next_port() == old(self).spec_next_port(),
            forall|i: int|
                0 <= i < MAX_USER_SOCKETS ==> #[trigger] final(self).slots()[i] == if old(self).slots()[i] matches Some(s)
                    && s.owner == owner {
                    None
                } else {
                    old(self).slots()[i]
                },
            handles@ == owned_handles(old(self).slots(), owner, MAX_USER_SOCKETS as int),
    {
        let mut handles: Vec<usize> = Vec::new();
        let mut index: usize = 0;
        while index < MAX_USER_SOCKETS
            invariant
                index <= MAX_USER_SOCKETS,
                self.next_port == old(self).next_port,
                forall|i: int|
                    0 <= i < index ==> #[trigger] self.user@[i] == if old(self).user@[i] matches Some(s) && s.owner == owner {
                        None
                    } else {
                        old(self).user@[i]
                    },
                forall|i: int| index <= i < MAX_USER_SOCKETS ==> #[trigger] self.user@[i] == old(self).user@[i],
                handles@ == owned_handles(old(self).user@, owner, index as int),
            decreases MAX_USER_SOCKETS - index,
        {
            if let Some(entry) = self.user[index] {
                if entry.owner == owner {
                    handles.push(entry.handle);
                    self.user[index] = None;
                }
            }
            index = index + 1;
        }
        handles
    }

    /// How many slots hold a socket.
    pub fn count(&self) -> (count: usize)
        ensures
            count == held(self.slots(), MAX_USER_SOCKETS as int),
    {
        let mut count: usize = 0;
        let mut i: usize = 0;
        while i < MAX_USER_SOCKETS
            invariant
                i <= MAX_USER_SOCKETS,
                count == held(self.user@, i as int),
                count <= i,
            decreases MAX_USER_SOCKETS - i,
        {
            if self.user[i].is_some() {
                count = count + 1;
            }
            i = i + 1;
        }
        count
    }
}

/// The handles of the sockets `owner` holds among the first `n` slots, in order.
pub open spec fn owned_handles(slots: Seq<Option<UserSocket>>, owner: u64, n: int) -> Seq<usize>
    decreases n,
{
    if n <= 0 {
        Seq::empty()
    } else {
        let before = owned_handles(slots, owner, n - 1);
        match slots[n - 1] {
            Some(s) => if s.owner == owner {
                before.push(s.handle)
            } else {
                before
            },
            None => before,
        }
    }
}


/// The big-endian 16-bit words of `data` among its first `2 * n` bytes, added up.
pub open spec fn word_total(data: Seq<u8>, n: int) -> int
    decreases n,
{
    if n <= 0 {
        0
    } else {
        word_total(data, n - 1) + data[2 * n - 2] * 256 + data[2 * n - 1]
    }
}

/// The sum the Internet checksum folds: every big-endian word of `data`, a last odd
/// byte counting as the high byte of a word, modulo 2^32.
pub open spec fn checksum_sum(data: Seq<u8>) -> int {
    (word_total(data, (data.len() / 2) as int) + if data.len() % 2 == 1 { data[data.len() - 1] * 256 } else { 0int }) % 0x1_0000_0000
}

/// `sum` with its carries folded back in until it fits in 16 bits.
pub open spec fn folded(sum: int) -> int
    decreases sum,
{
    if sum < 0x10000 || sum < 0 {
        sum
    } else {
        folded(sum % 0x10000 + sum / 0x10000)
    }
}

/// The Internet checksum of `data`: the ones' complement of its folded word sum.
pub open spec fn spec_internet_checksum(data: Seq<u8>) -> int {
    0xffff - folded(checksum_sum(data))
}

proof fn lemma_mod_add(a: int, w: int)
    requires
        0 <= a,
        0 <= w,
    ensures
        (a % 0x1_0000_0000 + w) % 0x1_0000_0000 == (a + w) % 0x1_0000_0000,
{
    vstd::arithmetic::div_mod::lemma_add_mod_noop(a, w, 0x1_0000_0000);
    vstd::arithmetic::div_mod::lemma_mod_twice(w, 0x1_0000_0000);
    vstd::arithmetic::div_mod::lemma_add_mod_noop(a % 0x1_0000_0000, w, 0x1_0000_0000);
    vstd::arithmetic::div_mod::lemma_mod_twice(a, 0x1_0000_0000);
}

proof fn lemma_word_total_nonnegative(data: Seq<u8>, n: int)
    ensures
        word_total(data, n) >= 0,
    decreases n,
{
    if n > 0 {
        lemma_word_total_nonnegative(data, n - 1);
    }
}

/// The Internet checksum (RFC 1071) of `data`.
pub fn internet_checksum(data: &[u8]) -> (checksum: u16)
    ensures
        checksum == spec_internet_checksum(data@),
{
    let len = data.len();
    let mut sum: u32 = 0;
    let mut i: usize = 0;
    while i + 1 < len
        invariant
            len == data@.len(),
            i % 2 == 0,
            i <= len,
            sum == word_total(data@, i as int / 2) % 0x1_0000_0000,
        decreases len - i,
    {
        let word = data[i] as u32 * 256 + data[i + 1] as u32;
        proof {
            lemma_word_total_nonnegative(data@, i as int / 2);
            lemma_mod_add(word_total(data@, i as int / 2), word as int);
            assert(word_total(data@, (i as int + 2) / 2) == word_total(data@, i as int / 2) + word);
        }
        sum = sum.wrapping_add(word);
        i = i + 2;
    }
    proof {
        lemma_word_total_nonnegative(data@, i as int / 2);
        assert(i as int / 2 == len as int / 2);
    }
    if i < len {
        let tail = (data[i] as u32) * 256;
        proof {
            lemma_mod_add(word_total(data@, i as int / 2), tail as int);
        }
        sum = sum.wrapping_add(tail);
    }
    assert(sum == checksum_sum(data@));
    while sum >= 0x10000
        invariant
            folded(sum as int) == folded(checksum_sum(data@)),
        decreases sum,
    {
        let low = sum % 0x10000;
        let high = sum / 0x10000;
        sum = low + high;
    }
    (0xffff - sum) as u16
}

/// The endpoint packed in a system call argument: the IPv4 address in the low 32
/// bits, most significant octet first, and the port in the next 16.
pub open spec fn spec_endpoint_from_packed(value: u64) -> Result<Endpoint, SocketError> {
    let ip = value % 0x1_0000_0000;
    let port = (value / 0x1_0000_0000) % 0x10000;
    if port == 0 {
        Err(SocketError::Address)
    } else {
        Ok(
            Endpoint {
                address: [(ip / 0x100_0000) as u8, (ip / 0x1_0000 % 0x100) as u8, (ip / 0x100 % 0x100) as u8, (ip % 0x100) as u8],
                port: port as u16,
            },
        )
    }
}

pub fn endpoint_from_packed(value: u64) -> (endpoint: Result<Endpoint, SocketError>)
    ensures
        endpoint == spec_endpoint_from_packed(value),
{
    let ip = value % 0x1_0000_0000;
    let port = (value / 0x1_0000_0000) % 0x10000;
    if port == 0 {
        return Err(SocketError::Address);
    }
    Ok(
        Endpoint {
            address: [(ip / 0x100_0000) as u8, (ip / 0x1_0000 % 0x100) as u8, (ip / 0x100 % 0x100) as u8, (ip % 0x100) as u8],
            port: port as u16,
        },
    )
}

/// An endpoint packed for a system call result, as `endpoint_from_packed` reads it.
pub open spec fn spec_endpoint_to_packed(endpoint: Endpoint) -> int {
    endpoint.address[0] * 0x100_0000 + endpoint.address[1] * 0x1_0000 + endpoint.address[2] * 0x100 + endpoint.address[3]
        + endpoint.port * 0x1_0000_0000
}

pub fn endpoint_to_packed(endpoint: Endpoint) -> (value: u64)
    ensures
        value == spec_endpoint_to_packed(endpoint),
{
    endpoint.address[0] as u64 * 0x100_0000 + endpoint.address[1] as u64 * 0x1_0000 + endpoint.address[2] as u64
        * 0x100 + endpoint.address[3] as u64 + endpoint.port as u64 * 0x1_0000_0000
}

/// Packing an endpoint and reading it back gives the endpoint, unless its port is
/// zero, which no endpoint in a system call may have.
pub proof fn law_endpoint_round_trip(endpoint: Endpoint)
    requires
        endpoint.port != 0,
    ensures
        spec_endpoint_from_packed(spec_endpoint_to_packed(endpoint) as u64) == Ok::<Endpoint, SocketError>(endpoint),
{
    let a = endpoint.address;
    let ip = a[0] * 0x100_0000 + a[1] * 0x1_0000 + a[2] * 0x100 + a[3];
    let packed = ip + endpoint.port * 0x1_0000_0000;
    assert(0 <= ip < 0x1_0000_0000);
    assert(packed % 0x1_0000_0000 == ip) by (nonlinear_arith)
        requires packed == ip + endpoint.port * 0x1_0000_0000, 0 <= ip < 0x1_0000_0000, endpoint.port >= 0;
    assert(packed / 0x1_0000_0000 == endpoint.port) by (nonlinear_arith)
        requires packed == ip + endpoint.port * 0x1_0000_0000, 0 <= ip < 0x1_0000_0000, endpoint.port >= 0;
    assert(ip / 0x100_0000 == a[0]) by (nonlinear_arith)
        requires ip == a[0] * 0x100_0000 + a[1] * 0x1_0000 + a[2] * 0x100 + a[3], 0 <= a[1] < 256, 0 <= a[2] < 256, 0 <= a[3] < 256, 0 <= a[0];
    assert(ip / 0x1_0000 % 0x100 == a[1]) by (nonlinear_arith)
        requires ip == a[0] * 0x100_0000 + a[1] * 0x1_0000 + a[2] * 0x100 + a[3], 0 <= a[1] < 256, 0 <= a[2] < 256, 0 <= a[3] < 256, 0 <= a[0];
    assert(ip / 0x100 % 0x100 == a[2]) by (nonlinear_arith)
        requires ip == a[0] * 0x100_0000 + a[1] * 0x1_0000 + a[2] * 0x100 + a[3], 0 <= a[1] < 256, 0 <= a[2] < 256, 0 <= a[3] < 256, 0 <= a[0];
    assert(ip % 0x100 == a[3]) by (nonlinear_arith)
        requires ip == a[0] * 0x100_0000 + a[1] * 0x1_0000 + a[2] * 0x100 + a[3], 0 <= a[1] < 256, 0 <= a[2] < 256, 0 <= a[3] < 256, 0 <= a[0];
    let back = spec_endpoint_from_packed(packed as u64);
    assert(back->Ok_0.address =~= a);
}

/// Whether a received ICMP packet of `len` bytes from `source` is the echo reply to
/// the request numbered `sequence` sent to `target`.
pub open spec fn spec_ping_reply_matches(packet: Seq<u8>, len: int, source: [u8; 4], target: [u8; 4], sequence: u16) -> bool {
    &&& len >= 8
    &&& source@ == target@
    &&& packet[0] == 0
    &&& packet[4] * 256 + packet[5] == PING_IDENT
    &&& packet[6] * 256 + packet[7] == sequence
}

pub fn ping_reply_matches(packet: &[u8], len: usize, source: [u8; 4], target: [u8; 4], sequence: u16) -> (matches: bool)
    requires
        len <= packet@.len(),
    ensures
        matches == spec_ping_reply_matches(packet@, len as int, source, target, sequence),
{
    if len < 8 {
        return false;
    }
    assert(source[0] == target[0] && source[1] == target[1] && source[2] == target[2] && source[3] == target[3] ==> source@ =~= target@);
    source[0] == target[0] && source[1] == target[1] && source[2] == target[2] && source[3] == target[3]
        && packet[0] == 0 && packet[4] as u16 * 256 + packet[5] as u16 == PING_IDENT && packet[6] as u16 * 256
        + packet[7] as u16 == sequence
}

/// What the DHCP client reported in one poll.
#[derive(Clone, Copy, PartialEq, Eq, Debug)]
pub enum DhcpEvent {
    /// A lease: address and prefix, and the router and name server if offered.
    Configured { address: [u8; 4], prefix: u8, router: Option<[u8; 4]>, dns: Option<[u8; 4]> },
    Deconfigured,
}

/// The address configuration of the interface.
#[derive(Clone, Copy, PartialEq, Eq, Debug)]
pub struct NetConfig {
    pub dhcp_enabled: bool,
    pub using_dhcp: bool,
    pub ipv4: [u8; 4],
    pub prefix: u8,
    pub gateway: [u8; 4],
    pub dns_server: [u8; 4],
}

/// The static configuration with DHCP on.
pub open spec fn spec_initial_config() -> NetConfig {
    NetConfig {
        dhcp_enabled: true,
        using_dhcp: false,
        ipv4: spec_default_ipv4(),
        prefix: DEFAULT_PREFIX,
        gateway: spec_default_gateway(),
        dns_server: spec_default_dns(),
    }
}

/// `config` back on the static addresses.
pub open spec fn spec_static(config: NetConfig) -> NetConfig {
    NetConfig {
        using_dhcp: false,
        ipv4: spec_default_ipv4(),
        prefix: DEFAULT_PREFIX,
        gateway: spec_default_gateway(),
        dns_server: spec_default_dns(),
        ..config
    }
}

/// `config` after a DHCP event: a lease is taken, falling back to the static
/// gateway and name server for what it leaves out; losing the lease returns to the
/// static addresses.
pub open spec fn spec_after_event(config: NetConfig, event: DhcpEvent) -> NetConfig {
    match event {
        DhcpEvent::Configured { address, prefix, router, dns } => NetConfig {
            using_dhcp: true,
            ipv4: address,
            prefix,
            gateway: match router {
                Some(r) => r,
                None => spec_default_gateway(),
            },
            dns_server: match dns {
                Some(d) => d,
                None => spec_default_dns(),
            },
            ..config
        },
        DhcpEvent::Deconfigured => if config.using_dhcp {
            spec_static(config)
        } else {
            config
        },
    }
}

impl NetConfig {
    pub fn initial() -> (config: Self)
        ensures
            config == spec_initial_config(),
    {
        NetConfig {
            dhcp_enabled: true,
            using_dhcp: false,
            ipv4: default_ipv4(),
            prefix: DEFAULT_PREFIX,
            gateway: default_gateway(),
            dns_server: default_dns(),
        }
    }

    /// Returns to the static addresses.
    pub fn apply_static(&mut self)
        ensures
            *final(self) == spec_static(*old(self)),
    {
        self.ipv4 = default_ipv4();
        self.prefix = DEFAULT_PREFIX;
        self.gateway = default_gateway();
        self.dns_server = default_dns();
        self.using_dhcp = false;
    }

    /// Takes a DHCP event into account; true when the interface must be
    /// reconfigured to the new addresses.
    pub fn on_dhcp_event(&mut self, event: DhcpEvent) -> (changed: bool)
        ensures
            *final(self) == spec_after_event(*old(self), event),
            changed == (event is Configured || old(self).using_dhcp),
    {
        match event {
            DhcpEvent::Configured { address, prefix, router, dns } => {
                self.ipv4 = address;
                self.prefix = prefix;
                self.gateway = match router {
                    Some(r) => r,
                    None => default_gateway(),
                };
                self.dns_server = match dns {
                    Some(d) => d,
                    None => default_dns(),
                };
                self.using_dhcp = true;
                true
            },
            DhcpEvent::Deconfigured => {
                if self.using_dhcp {
                    self.apply_static();
                    true
                } else {
                    false
                }
            },
        }
    }

    /// Turns the DHCP client on or off; off returns to the static addresses.
    pub fn set_dhcp(&mut self, enabled: bool)
        ensures
            *final(self) == if enabled {
                NetConfig { dhcp_enabled: true, ..*old(self) }
            } else {
                spec_static(NetConfig { dhcp_enabled: false, ..*old(self) })
            },
    {
        self.dhcp_enabled = enabled;
        if !enabled {
            self.apply_static();
        }
    }
}

/// The configuration report of a running stack; `online` tells whether the device
/// is up, `mac` is its hardware address.
pub fn net_info(config: &NetConfig, online: bool, mac: [u8; 6]) -> (info: NetInfo)
    ensures
        info == (NetInfo {
            ipv4: config.ipv4,
            gateway: config.gateway,
            dns: config.dns_server,
            prefix: config.prefix,
            dhcp_enabled: if config.dhcp_enabled { 1u8 } else { 0u8 },
            using_dhcp: if config.using_dhcp { 1u8 } else { 0u8 },
            online: if online { 1u8 } else { 0u8 },
            mac,
            reserved: [0u8, 0u8],
        }),
{
    NetInfo {
        ipv4: config.ipv4,
        gateway: config.gateway,
        dns: config.dns_server,
        prefix: config.prefix,
        dhcp_enabled: if config.dhcp_enabled { 1 } else { 0 },
        using_dhcp: if config.using_dhcp { 1 } else { 0 },
        online: if online { 1 } else { 0 },
        mac,
        reserved: [0, 0],
    }
}

/// The report of a stack that was never started.
pub fn offline_info() -> (info: NetInfo)
    ensures
        info == (NetInfo {
            ipv4: [0u8, 0u8, 0u8, 0u8],
            gateway: [0u8, 0u8, 0u8, 0u8],
            dns: [0u8, 0u8, 0u8, 0u8],
            prefix: 0,
            dhcp_enabled: 0,
            using_dhcp: 0,
            online: 0,
            mac: [0u8, 0u8, 0u8, 0u8, 0u8, 0u8],
            reserved: [0u8, 0u8],
        }),
{
    NetInfo {
        ipv4: [0, 0, 0, 0],
        gateway: [0, 0, 0, 0],
        dns: [0, 0, 0, 0],
        prefix: 0,
        dhcp_enabled: 0,
        using_dhcp: 0,
        online: 0,
        mac: [0, 0, 0, 0, 0, 0],
        reserved: [0, 0],
    }
}

/// Counters of a running stack: the echo service's port and packets if it runs.
pub fn stats(config: &NetConfig, sockets: &SocketTable, echo: Option<(u16, u64)>, online: bool) -> (stats: NetStats)
    ensures
        stats == (NetStats {
            online,
            echo_active: echo is Some,
            echo_port: match echo {
                Some((port, _)) => port,
                None => 0,
            },
            echo_packets: match echo {
                Some((_, packets)) => packets,
                None => 0,
            },
            user_sockets: held(sockets.slots(), MAX_USER_SOCKETS as int) as usize,
            dhcp_enabled: config.dhcp_enabled,
            using_dhcp: config.using_dhcp,
        }),
{
    let (echo_active, echo_port, echo_packets) = match echo {
        Some((port, packets)) => (true, port, packets),
        None => (false, 0, 0),
    };
    NetStats {
        online,
        echo_active,
        echo_port,
        echo_packets,
        user_sockets: sockets.count(),
        dhcp_enabled: config.dhcp_enabled,
        using_dhcp: config.using_dhcp,
    }
}

// ---- name lookups ----

/// DNS queries that may be outstanding at once.
pub const MAX_DNS_QUERIES: usize = 4;

/// The DNS socket of the network stack.
#[verifier::external_type_specification]
#[verifier::external_body]
pub struct ExDnsSocket<'a>(smoltcp::socket::dns::Socket<'a>);

/// A query started on the DNS socket.
#[verifier::external_type_specification]
#[verifier::external_body]
pub struct ExDnsQueryHandle(smoltcp::socket::dns::QueryHandle);

/// Why the DNS socket refused to start a query.
#[verifier::external_type_specification]
#[verifier::external_body]
pub struct ExStartQueryError(smoltcp::socket::dns::StartQueryError);

/// What the interface lends its sockets while they work (addresses, randomness).
#[verifier::external_type_specification]
#[verifier::external_body]
pub struct ExInterfaceContext(smoltcp::iface::Context);

/// `name` without one trailing dot.
pub open spec fn dns_trimmed(name: Seq<u8>) -> Seq<u8> {
    if name.len() > 0 && name.last() == 0x2e {
        name.drop_last()
    } else {
        name
    }
}

/// `name` is empty, or once a trailing dot is dropped it has an empty label (a dot at
/// either end or two dots in a row) or a label of more than 63 bytes.
pub open spec fn dns_name_refused(name: Seq<u8>) -> bool {
    let t = dns_trimmed(name);
    ||| name.len() == 0
    ||| t.len() == 0
    ||| t[0] == 0x2e
    ||| t.last() == 0x2e
    ||| exists|i: int| 0 <= i < t.len() - 1 && #[trigger] t[i] == 0x2e && t[i + 1] == 0x2e
    ||| exists|i: int| 0 <= i && i + 64 <= t.len() && #[trigger] undotted_run(t, i, 64)
}

/// The `count` bytes of `t` from `start` on hold no dot.
pub open spec fn undotted_run(t: Seq<u8>, start: int, count: int) -> bool {
    forall|k: int| start <= k < start + count ==> #[trigger] t[k] != 0x2e
}

/// Starts an A-record query for `name` on `socket` (smoltcp's
/// `dns::Socket::start_query`). What it answers depends on the socket's free query
/// slots; what is claimed is what its source shows of the name: an empty name, an
/// empty label or a label over 63 bytes is refused.
#[verifier::external_body]
fn start_dns_query(
    socket: &mut smoltcp::socket::dns::Socket,
    cx: &mut smoltcp::iface::Context,
    name: &str,
) -> (query: Result<smoltcp::socket::dns::QueryHandle, smoltcp::socket::dns::StartQueryError>)
    ensures
        dns_name_refused(name.spec_bytes()) ==> query is Err,
{
    socket.start_query(cx, name, smoltcp::wire::DnsQueryType::A)
}

/// Starts a lookup of `name` in the first free slot of `queries`: the slot's number,
/// `NoSlot` when every slot is taken, `BufferFull` when the socket refuses the query.
pub fn dns_start(
    queries: &mut [Option<smoltcp::socket::dns::QueryHandle>; MAX_DNS_QUERIES],
    socket: &mut smoltcp::socket::dns::Socket,
    cx: &mut smoltcp::iface::Context,
    name: &str,
) -> (result: Result<u64, SocketError>)
    ensures
        (forall|i: int| 0 <= i < MAX_DNS_QUERIES ==> (#[trigger] old(queries)@[i]) is Some) ==> result == Err::<
            u64,
            SocketError,
        >(SocketError::NoSlot),
        (exists|i: int| 0 <= i < MAX_DNS_QUERIES && (#[trigger] old(queries)@[i]) is None) ==> result is Ok || result
            == Err::<u64, SocketError>(SocketError::BufferFull),
        result is Err ==> final(queries)@ == old(queries)@,
        dns_name_refused(name.spec_bytes()) ==> result is Err,
        result is Ok ==> {
            let slot = result->Ok_0 as int;
            &&& 0 <= slot < MAX_DNS_QUERIES
            &&& old(queries)@[slot] is None
            &&& forall|j: int| 0 <= j < slot ==> (#[trigger] old(queries)@[j]) is Some
            &&& final(queries)@[slot] is Some
            &&& forall|j: int| 0 <= j < MAX_DNS_QUERIES && j != slot ==> (#[trigger] final(queries)@[j]) == old(queries)@[j]
        },
{
    let mut slot: usize = 0;
    while slot < MAX_DNS_QUERIES
        invariant
            slot <= MAX_DNS_QUERIES,
            queries@ == old(queries)@,
            forall|j: int| 0 <= j < slot ==> (#[trigger] queries@[j]) is Some,
        ensures
            slot == MAX_DNS_QUERIES || queries@[slot as int] is None,
        decreases MAX_DNS_QUERIES - slot,
    {
        if queries[slot].is_none() {
            break;
        }
        slot = slot + 1;
    }
    if slot == MAX_DNS_QUERIES {
        return Err(SocketError::NoSlot);
    }
    let query = match start_dns_query(socket, cx, name) {
        Ok(query) => query,
        Err(_) => return Err(SocketError::BufferFull),
    };
    queries[slot] = Some(query);
    Ok(slot as u64)
}

} // verus!
