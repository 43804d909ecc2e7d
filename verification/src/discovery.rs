//! Discovery of peers on the local network by beacons.
//!
//! Every device announces itself by multicast. A device that hears a beacon
//! answers its sender directly, so that devices that multicast does not reach
//! can be probed, and keeps a list of those that were heard lately.

use vstd::prelude::*;
use vstd::string::*;

use crate::error::{Error, Result};
use crate::identity::Fingerprint;
use crate::names::effective_device_name;
use crate::net::{is_loopback, loopback, IpAddr, SocketAddr};
use crate::protocol::PROTOCOL_VERSION;
use crate::table::{Table, TableKey};
use crate::text::{
    ascii_lower, ascii_lowered, bytes_eq, chars_of, decimal, find, find_from, lowercase_of, push_decimal,
    stands_at, stands_here, string_copy, to_ascii_lower, to_lowercase,
};
use crate::verification::{hex_chars, hex_encode};

verus! {

/// Largest beacon on the wire.
pub const MAX_PACKET_SIZE: usize = 1500;

/// The multicast group of beacons: 224.0.0.167.
pub const MULTICAST_GROUP: u32 = 0xE000_00A7;

/// Shortest time between two answers to the same address, in milliseconds.
pub const ECHO_THROTTLE_MS: u64 = 2_000;

/// Rounds of a probe.
pub const PROBE_ROUNDS: u32 = 3;

/// Looks at the list of peers in a round.
pub const PROBE_POLLS: u32 = 3;

/// Time before each look, in milliseconds.
pub const PROBE_POLL_INTERVAL_MS: u64 = 150;

/// Time after the first round, in milliseconds; it doubles with each round.
pub const PROBE_ROUND_BASE_DELAY_MS: u64 = 100;

/// How long a peer that did not answer is not probed again, in milliseconds.
pub const PROBE_BACKOFF_MS: u64 = 10_000;

/// What a device announces.
#[derive(Debug, Clone)]
pub struct DiscoveryBeacon {
    pub version: u8,
    pub device_id: [u8; 16],
    pub device_name: String,
    pub port: u16,
    pub cert_fingerprint: Fingerprint,
}

/// The beacon of this device: the name chosen by the user goes before the one
/// it was started with.
pub fn create_beacon(
    custom_name: &Option<String>,
    device_name: &str,
    device_id: [u8; 16],
    port: u16,
    cert_fingerprint: Fingerprint,
) -> (r: DiscoveryBeacon)
    ensures
        r.version == PROTOCOL_VERSION,
        r.device_id == device_id,
        r.device_name@ == (match *custom_name {
            Some(name) => name@,
            None => device_name@,
        }),
        r.port == port,
        r.cert_fingerprint == cert_fingerprint,
{
    DiscoveryBeacon {
        version: PROTOCOL_VERSION,
        device_id,
        device_name: effective_device_name(custom_name, device_name),
        port,
        cert_fingerprint,
    }
}

/// Whether a beacon fits into one packet.
pub fn check_beacon_size(len: usize) -> (r: Result<()>)
    ensures
        r is Ok <==> len <= MAX_PACKET_SIZE,
        r matches Err(e) ==> e matches Error::Protocol(m) && m@ == "Beacon too large: "@ + decimal(
            len as nat,
        ) + " bytes"@,
{
    if len > MAX_PACKET_SIZE {
        let mut m = "Beacon too large: ".to_owned();
        push_decimal(&mut m, len as u64);
        m.append(" bytes");
        return Err(Error::Protocol(m));
    }
    Ok(())
}

/// Whether a beacon is of this version.
pub fn check_beacon_version(beacon: &DiscoveryBeacon) -> (r: Result<()>)
    ensures
        r is Ok <==> beacon.version == PROTOCOL_VERSION,
        r matches Err(e) ==> e matches Error::VersionMismatch { peer, ours } && peer
            == beacon.version && ours == PROTOCOL_VERSION,
{
    if beacon.version != PROTOCOL_VERSION {
        return Err(Error::VersionMismatch { peer: beacon.version, ours: PROTOCOL_VERSION });
    }
    Ok(())
}

// ---------------------------------------------------------------- interfaces

/// A network interface.
#[derive(Debug, Clone)]
pub struct Interface {
    pub name: String,
    pub ip: IpAddr,
}

/// Whether `s` starts with `prefix`.
pub open spec fn starts_with(s: Seq<char>, prefix: Seq<char>) -> bool {
    stands_at(s, prefix, 0)
}

/// A name, in lower case, of an interface that is no real link.
pub open spec fn virtual_name(n: Seq<char>) -> bool {
    starts_with(n, "docker"@) || starts_with(n, "veth"@) || starts_with(n, "vbox"@) || starts_with(
        n,
        "vmnet"@,
    ) || starts_with(n, "virbr"@) || starts_with(n, "br-"@) || starts_with(n, "tap"@) || n == "lo"@
}

fn has_prefix(s: &Vec<char>, prefix: &str) -> (r: bool)
    ensures
        r == starts_with(s@, prefix@),
{
    stands_here(s, &chars_of(prefix), 0)
}

/// Whether an interface's name is that of a virtual one.
pub fn looks_virtual(name: &str) -> (r: bool)
    ensures
        r == virtual_name(ascii_lowered(name@)),
{
    let n: Vec<char> = to_ascii_lower(name);
    proof {
        reveal_strlit("lo");
        if n@.len() == 2 && n@[0] == 'l' && n@[1] == 'o' {
            assert(n@ =~= "lo"@);
        }
    }
    has_prefix(&n, "docker") || has_prefix(&n, "veth") || has_prefix(&n, "vbox") || has_prefix(
        &n,
        "vmnet",
    ) || has_prefix(&n, "virbr") || has_prefix(&n, "br-") || has_prefix(&n, "tap") || (n.len() == 2
        && n[0] == 'l' && n[1] == 'o')
}

/// An interface that beacons are sent on: IPv4, no loopback, no virtual one.
pub open spec fn usable(i: Interface) -> bool {
    i.ip is V4 && !loopback(i.ip) && !virtual_name(ascii_lowered(i.name@))
}

/// The addresses of the interfaces that beacons are sent on, in order.
pub open spec fn usable_addresses(list: Seq<Interface>) -> Seq<u32>
    decreases list.len(),
{
    if list.len() == 0 {
        Seq::empty()
    } else {
        let rest = usable_addresses(list.drop_last());
        match list.last().ip {
            IpAddr::V4(a) => if usable(list.last()) {
                rest.push(a)
            } else {
                rest
            },
            IpAddr::V6(_) => rest,
        }
    }
}

/// The addresses of the interfaces that beacons are sent on.
pub fn list_multicast_interfaces_ipv4(list: &Vec<Interface>) -> (r: Vec<u32>)
    ensures
        r@ == usable_addresses(list@),
{
    let mut out: Vec<u32> = Vec::new();
    let mut i: usize = 0;
    assert(list@.take(0) =~= Seq::empty());
    while i < list.len()
        invariant
            i <= list@.len(),
            out@ == usable_addresses(list@.take(i as int)),
        decreases list@.len() - i,
    {
        proof {
            assert(list@.take(i + 1).drop_last() =~= list@.take(i as int));
            assert(list@.take(i + 1).last() == list@[i as int]);
        }
        if let IpAddr::V4(a) = list[i].ip {
            if !is_loopback(&list[i].ip) && !looks_virtual(list[i].name.as_str()) {
                out.push(a);
            }
        }
        i += 1;
    }
    assert(list@.take(i as int) =~= list@);
    out
}

/// The address of this device on the local network: that of the first
/// interface that beacons are sent on.
pub fn local_ipv4(list: &Vec<Interface>) -> (r: Option<u32>)
    ensures
        r == (if usable_addresses(list@).len() > 0 {
            Some(usable_addresses(list@)[0])
        } else {
            None
        }),
{
    let all: Vec<u32> = list_multicast_interfaces_ipv4(list);
    if all.len() > 0 {
        Some(all[0])
    } else {
        None
    }
}

/// Discovery needs at least one socket to work.
pub fn require_sockets(count: usize) -> (r: Result<()>)
    ensures
        r is Ok <==> count > 0,
        r matches Err(e) ==> e matches Error::Protocol(m) && m@
            == "未能为任何网络接口创建多播 socket，多播发现无法工作"@,
{
    if count == 0 {
        return Err(
            Error::Protocol("未能为任何网络接口创建多播 socket，多播发现无法工作".to_owned()),
        );
    }
    Ok(())
}

// ---------------------------------------------------------------- peers

/// A peer that was heard.
#[derive(Debug, Clone)]
pub struct PeerInfo {
    pub device_id: [u8; 16],
    pub device_name: String,
    pub address: IpAddr,
    pub port: u16,
    pub cert_fingerprint: Fingerprint,
    /// When it was last heard, in milliseconds.
    pub last_seen: u64,
}

/// A peer as a value.
pub ghost struct PeerView {
    pub device_id: Seq<u8>,
    pub device_name: Seq<char>,
    pub address: IpAddr,
    pub port: u16,
    pub cert_fingerprint: Seq<u8>,
    pub last_seen: u64,
}

impl View for PeerInfo {
    type V = PeerView;

    open spec fn view(&self) -> PeerView {
        PeerView {
            device_id: self.device_id@,
            device_name: self.device_name@,
            address: self.address,
            port: self.port,
            cert_fingerprint: self.cert_fingerprint@,
            last_seen: self.last_seen,
        }
    }
}

impl PeerView {
    /// Heard less than `ttl` ago, by a clock that was not set back since.
    pub open spec fn alive(self, ttl: u64, now: u64) -> bool {
        now >= self.last_seen && now - self.last_seen < ttl
    }
}

impl PeerInfo {
    /// The peer that a beacon from `address` announces.
    pub fn from_beacon(beacon: &DiscoveryBeacon, address: IpAddr, now: u64) -> (r: Self)
        ensures
            r@ == (PeerView {
                device_id: beacon.device_id@,
                device_name: beacon.device_name@,
                address,
                port: beacon.port,
                cert_fingerprint: beacon.cert_fingerprint@,
                last_seen: now,
            }),
    {
        PeerInfo {
            device_id: beacon.device_id,
            device_name: string_copy(beacon.device_name.as_str()),
            address,
            port: beacon.port,
            cert_fingerprint: beacon.cert_fingerprint,
            last_seen: now,
        }
    }

    /// A copy of this peer.
    pub fn copied(&self) -> (r: Self)
        ensures
            r@ == self@,
    {
        PeerInfo {
            device_id: self.device_id,
            device_name: string_copy(self.device_name.as_str()),
            address: self.address,
            port: self.port,
            cert_fingerprint: self.cert_fingerprint,
            last_seen: self.last_seen,
        }
    }

    /// Whether the peer was heard less than `ttl` ago.
    pub fn is_alive(&self, ttl: u64, now: u64) -> (r: bool)
        ensures
            r == self@.alive(ttl, now),
    {
        now >= self.last_seen && now - self.last_seen < ttl
    }

    /// The peer was heard.
    pub fn update_last_seen(&mut self, now: u64)
        ensures
            *final(self) == (PeerInfo { last_seen: now, ..*old(self) }),
    {
        self.last_seen = now;
    }

    /// Where the peer takes connections.
    pub fn socket_addr(&self) -> (r: SocketAddr)
        ensures
            r == (SocketAddr { ip: self.address, port: self.port }),
    {
        SocketAddr { ip: self.address, port: self.port }
    }
}

/// What a beacon leads to.
#[derive(Debug, Clone, Copy, PartialEq, Eq, Structural)]
pub struct BeaconOutcome {
    /// Answer the sender with a beacon of this device.
    pub echo: bool,
    /// The peer was not known.
    pub is_new: bool,
}

/// What this device announces, the peers that were heard, and when which
/// address was answered.
pub struct DiscoveryManager {
    device_name: String,
    transfer_port: u16,
    cert_fingerprint: Fingerprint,
    device_id: [u8; 16],
    peer_ttl: u64,
    peers: Table<[u8; 16], PeerInfo>,
    last_echo: Table<IpAddr, u64>,
}

/// A manager as a value.
pub ghost struct PeersView {
    pub device_name: Seq<char>,
    pub transfer_port: u16,
    pub cert_fingerprint: Fingerprint,
    pub device_id: Seq<u8>,
    /// How long a peer is remembered, in milliseconds.
    pub peer_ttl: u64,
    pub peers: Map<Seq<u8>, PeerInfo>,
    pub last_echo: Map<IpAddr, u64>,
}

impl View for DiscoveryManager {
    type V = PeersView;

    closed spec fn view(&self) -> PeersView {
        PeersView {
            device_name: self.device_name@,
            transfer_port: self.transfer_port,
            cert_fingerprint: self.cert_fingerprint,
            device_id: self.device_id@,
            peer_ttl: self.peer_ttl,
            peers: self.peers@,
            last_echo: self.last_echo@,
        }
    }
}

impl PeersView {
    /// `after` is this after a beacon came from `ip`, and `r` what it leads to.
    pub open spec fn hears(
        self,
        beacon: DiscoveryBeacon,
        ip: IpAddr,
        now: u64,
        after: PeersView,
        r: Option<BeaconOutcome>,
    ) -> bool {
        let id = beacon.device_id@;
        let known = self.peers.contains_key(id);
        let echo = echo_due(self.last_echo, ip, now);
        &&& after == (PeersView { peers: after.peers, last_echo: after.last_echo, ..self })
        &&& id == self.device_id ==> r is None && after == self
        &&& id != self.device_id ==> {
            &&& r == Some(BeaconOutcome { echo, is_new: !known })
            &&& after.last_echo == (if echo {
                self.last_echo.insert(ip, now)
            } else {
                self.last_echo
            })
            &&& after.peers.contains_key(id)
            &&& after.peers.remove(id) == self.peers.remove(id)
            &&& known ==> after.peers[id] == (PeerInfo { last_seen: now, ..self.peers[id] })
            &&& !known ==> after.peers[id]@ == (PeerView {
                device_id: id,
                device_name: beacon.device_name@,
                address: ip,
                port: beacon.port,
                cert_fingerprint: beacon.cert_fingerprint@,
                last_seen: now,
            })
        }
    }
}

/// Whether an address is to be answered: it was not answered lately.
pub open spec fn echo_due(last_echo: Map<IpAddr, u64>, ip: IpAddr, now: u64) -> bool {
    !last_echo.contains_key(ip) || now - last_echo[ip] >= ECHO_THROTTLE_MS
}

/// The peers that were heard less than `ttl` ago.
pub open spec fn living(m: Map<Seq<u8>, PeerInfo>, ttl: u64, now: u64) -> Map<Seq<u8>, PeerInfo> {
    m.remove_keys(m.dom().filter(|id: Seq<u8>| !m[id]@.alive(ttl, now)))
}

impl DiscoveryManager {
    /// Every peer is listed under its own identifier.
    pub closed spec fn wf(&self) -> bool {
        &&& self.peers.wf()
        &&& self.last_echo.wf()
        &&& forall|id: Seq<u8>| #[trigger]
            self.peers@.contains_key(id) ==> self.peers@[id].device_id@ == id
    }

    /// Whether a peer is one of those that were heard.
    pub open spec fn lists(&self, p: PeerView) -> bool {
        self@.peers.contains_key(p.device_id) && self@.peers[p.device_id]@ == p
    }

    /// What this device announces, and no peers yet. A peer is forgotten when
    /// it was not heard for `peer_ttl` milliseconds.
    pub fn new(
        device_name: String,
        transfer_port: u16,
        cert_fingerprint: Fingerprint,
        device_id: [u8; 16],
        peer_ttl: u64,
    ) -> (r: Self)
        ensures
            r.wf(),
            r@ == (PeersView {
                device_name: device_name@,
                transfer_port,
                cert_fingerprint,
                device_id: device_id@,
                peer_ttl,
                peers: Map::empty(),
                last_echo: Map::empty(),
            }),
    {
        DiscoveryManager {
            device_name,
            transfer_port,
            cert_fingerprint,
            device_id,
            peer_ttl,
            peers: Table::new(),
            last_echo: Table::new(),
        }
    }

    /// The name that this device was started with.
    pub fn device_name(&self) -> (r: &str)
        ensures
            r@ == self@.device_name,
    {
        self.device_name.as_str()
    }

    /// The beacon of this device.
    pub fn beacon(&self, custom_name: &Option<String>) -> (r: DiscoveryBeacon)
        ensures
            r.version == PROTOCOL_VERSION,
            r.device_id@ == self@.device_id,
            r.device_name@ == (match *custom_name {
                Some(name) => name@,
                None => self@.device_name,
            }),
            r.port == self@.transfer_port,
            r.cert_fingerprint == self@.cert_fingerprint,
    {
        create_beacon(
            custom_name,
            self.device_name.as_str(),
            self.device_id,
            self.transfer_port,
            self.cert_fingerprint,
        )
    }

    /// Takes a beacon that came from `ip`; `None` for one of this device
    /// itself. A peer that is known is only marked as heard; what its first
    /// beacon said of it stands.
    pub fn on_beacon(&mut self, beacon: &DiscoveryBeacon, ip: IpAddr, now: u64) -> (r: Option<
        BeaconOutcome,
    >)
        requires
            old(self).wf(),
        ensures
            final(self).wf(),
            old(self)@.hears(*beacon, ip, now, final(self)@, r),
    {
        if bytes_eq(beacon.device_id.as_slice(), self.device_id.as_slice()) {
            return None;
        }
        let echo: bool = match self.last_echo.get(&ip) {
            Some(last) => now.saturating_sub(*last) >= ECHO_THROTTLE_MS,
            None => true,
        };
        if echo {
            self.last_echo.insert(ip, now);
        }
        let ghost before = self.peers@;
        let is_new: bool = match self.peers.remove(&beacon.device_id) {
            Some(peer) => {
                let mut peer = peer;
                peer.update_last_seen(now);
                self.peers.insert(beacon.device_id, peer);
                false
            },
            None => {
                self.peers.insert(beacon.device_id, PeerInfo::from_beacon(beacon, ip, now));
                true
            },
        };
        assert(self.peers@.remove(beacon.device_id@) =~= before.remove(beacon.device_id@));
        Some(BeaconOutcome { echo, is_new })
    }

    /// Forgets the peers that were not heard lately.
    pub fn cleanup(&mut self, now: u64)
        requires
            old(self).wf(),
        ensures
            final(self).wf(),
            final(self)@ == (PeersView {
                peers: living(old(self)@.peers, old(self)@.peer_ttl, now),
                ..old(self)@
            }),
    {
        let ttl: u64 = self.peer_ttl;
        let ghost before = self.peers@;
        let mut stale: Table<[u8; 16], PeerInfo> = Table::new();
        let mut i: usize = 0;
        proof {
            assert(self.peers.entries().take(0) =~= Seq::empty());
        }
        while i < self.peers.len()
            invariant
                self.wf(),
                self@ == (PeersView { peers: self@.peers, ..old(self)@ }),
                self.peers@ == before,
                stale.wf(),
                i <= self.peers.entries().len(),
                forall|id: Seq<u8>| #[trigger]
                    stale@.contains_key(id) <==> exists|j: int|
                        0 <= j < i && (#[trigger] self.peers.entries()[j]).0@ == id
                            && !self.peers.entries()[j].1@.alive(ttl, now),
            decreases self.peers.entries().len() - i,
        {
            let ghost dead = stale@;
            let ghost entry = self.peers.entries()[i as int];
            if !self.peers.value_at(i).is_alive(ttl, now) {
                let id: [u8; 16] = *self.peers.key_at(i);
                let peer: PeerInfo = self.peers.value_at(i).copied();
                stale.insert(id, peer);
            }
            proof {
                assert forall|id: Seq<u8>| #[trigger] stale@.contains_key(id) <==> exists|j: int|
                    0 <= j < i + 1 && (#[trigger] self.peers.entries()[j]).0@ == id
                        && !self.peers.entries()[j].1@.alive(ttl, now) by {
                    if dead.contains_key(id) {
                        let j = choose|j: int|
                            0 <= j < i && (#[trigger] self.peers.entries()[j]).0@ == id
                                && !self.peers.entries()[j].1@.alive(ttl, now);
                        assert(0 <= j < i + 1 && self.peers.entries()[j].0@ == id);
                    }
                    if stale@.contains_key(id) && !dead.contains_key(id) {
                        assert(self.peers.entries()[i as int].0@ == id);
                    }
                    if exists|j: int|
                        0 <= j < i + 1 && (#[trigger] self.peers.entries()[j]).0@ == id
                            && !self.peers.entries()[j].1@.alive(ttl, now) {
                        let j = choose|j: int|
                            0 <= j < i + 1 && (#[trigger] self.peers.entries()[j]).0@ == id
                                && !self.peers.entries()[j].1@.alive(ttl, now);
                        if j < i {
                            assert(dead.contains_key(id));
                        }
                    }
                }
            }
            i += 1;
        }
        let ghost gone = stale@;
        proof {
            self.peers.entries_are_map();
            assert forall|id: Seq<u8>| #[trigger] gone.contains_key(id) <==> before.contains_key(id)
                && !before[id]@.alive(ttl, now) by {
                if gone.contains_key(id) {
                    let j = choose|j: int|
                        0 <= j < i && (#[trigger] self.peers.entries()[j]).0@ == id
                            && !self.peers.entries()[j].1@.alive(ttl, now);
                    assert(self.peers.entries()[j].0.id() == id);
                }
                if before.contains_key(id) && !before[id]@.alive(ttl, now) {
                    let j = choose|j: int|
                        0 <= j < self.peers.entries().len() && (
                        #[trigger] self.peers.entries()[j]).0.id() == id;
                    assert(self.peers.entries()[j].0@ == id);
                }
            }
        }
        let mut n: usize = 0;
        while n < stale.len()
            invariant
                self.wf(),
                self@ == (PeersView { peers: self@.peers, ..old(self)@ }),
                stale.wf(),
                stale@ == gone,
                n <= stale.entries().len(),
                forall|id: Seq<u8>| #[trigger]
                    self.peers@.contains_key(id) <==> before.contains_key(id) && !exists|j: int|
                        0 <= j < n && (#[trigger] stale.entries()[j]).0@ == id,
                forall|id: Seq<u8>| #[trigger]
                    self.peers@.contains_key(id) ==> self.peers@[id] == before[id],
            decreases stale.entries().len() - n,
        {
            let ghost mid = self.peers@;
            self.peers.remove(stale.key_at(n));
            proof {
                let t = stale.entries()[n as int].0@;
                assert forall|id: Seq<u8>| #[trigger]
                    self.peers@.contains_key(id) <==> before.contains_key(id) && !exists|j: int|
                        0 <= j < n + 1 && (#[trigger] stale.entries()[j]).0@ == id by {
                    assert(self.peers@.contains_key(id) <==> mid.contains_key(id) && id != t);
                    if exists|j: int| 0 <= j < n && (#[trigger] stale.entries()[j]).0@ == id {
                        let j = choose|j: int| 0 <= j < n && (#[trigger] stale.entries()[j]).0@ == id;
                        assert(0 <= j < n + 1 && stale.entries()[j].0@ == id);
                    }
                }
            }
            n += 1;
        }
        proof {
            stale.entries_are_map();
            assert forall|id: Seq<u8>| #[trigger] gone.contains_key(id) <==> exists|j: int|
                0 <= j < n && (#[trigger] stale.entries()[j]).0@ == id by {
                if gone.contains_key(id) {
                    let j = choose|j: int|
                        0 <= j < stale.entries().len() && (#[trigger] stale.entries()[j]).0.id() == id;
                    assert(stale.entries()[j].0@ == id);
                }
                if exists|j: int| 0 <= j < n && (#[trigger] stale.entries()[j]).0@ == id {
                    let j = choose|j: int| 0 <= j < n && (#[trigger] stale.entries()[j]).0@ == id;
                    assert(stale.entries()[j].0.id() == id);
                }
            }
            let alive = living(before, ttl, now);
            assert forall|id: Seq<u8>| #[trigger] self.peers@.contains_key(id)
                <==> alive.contains_key(id) by {
                assert(gone.contains_key(id) <==> before.contains_key(id) && !before[id]@.alive(
                    ttl,
                    now,
                ));
            }
            assert(self.peers@ =~= alive);
        }
    }

    /// Number of peers.
    pub fn peer_count(&self) -> (r: usize)
        requires
            self.wf(),
        ensures
            r == self@.peers.dom().len(),
    {
        proof {
            self.peers.entries_are_map();
        }
        self.peers.len()
    }

    /// The peer at a position of the table.
    fn peer_at(&self, i: usize) -> (r: &PeerInfo)
        requires
            self.wf(),
            i < self.peers.entries().len(),
        ensures
            *r == self.peers.entries()[i as int].1,
            self.lists(r@),
            r.device_id@ == self.peers.entries()[i as int].0@,
    {
        proof {
            self.peers.entries_are_map();
            let e = self.peers.entries()[i as int];
            assert(self.peers@.contains_key(e.0.id()));
        }
        self.peers.value_at(i)
    }

    /// All peers, each once.
    pub fn get_peers(&self) -> (r: Vec<PeerInfo>)
        requires
            self.wf(),
        ensures
            r@.len() == self@.peers.dom().len(),
            forall|i: int| 0 <= i < r@.len() ==> self.lists((#[trigger] r@[i])@),
            forall|i: int, j: int|
                0 <= i < j < r@.len() ==> (#[trigger] r@[i]).device_id@ != (
                #[trigger] r@[j]).device_id@,
            forall|id: Seq<u8>| #[trigger]
                self@.peers.contains_key(id) ==> exists|i: int|
                    0 <= i < r@.len() && (#[trigger] r@[i]).device_id@ == id,
    {
        let mut out: Vec<PeerInfo> = Vec::new();
        let mut i: usize = 0;
        while i < self.peers.len()
            invariant
                self.wf(),
                i <= self.peers.entries().len(),
                out@.len() == i,
                forall|j: int|
                    0 <= j < i ==> self.lists((#[trigger] out@[j])@) && out@[j].device_id@
                        == self.peers.entries()[j].0@,
            decreases self.peers.entries().len() - i,
        {
            out.push(self.peer_at(i).copied());
            i += 1;
        }
        proof {
            self.peers.entries_are_map();
            assert forall|a: int, b: int| 0 <= a < b < out@.len() implies (
            #[trigger] out@[a]).device_id@ != (#[trigger] out@[b]).device_id@ by {
                assert(self.peers.entries()[a].0.id() != self.peers.entries()[b].0.id());
            }
            assert forall|id: Seq<u8>| #[trigger] self@.peers.contains_key(id) implies exists|i: int|
                0 <= i < out@.len() && (#[trigger] out@[i]).device_id@ == id by {
                let j = choose|j: int|
                    0 <= j < self.peers.entries().len() && (
                    #[trigger] self.peers.entries()[j]).0.id() == id;
                assert(out@[j].device_id@ == id);
            }
        }
        out
    }

    /// A peer by its identifier.
    pub fn get_peer(&self, device_id: &[u8; 16]) -> (r: Option<PeerInfo>)
        requires
            self.wf(),
        ensures
            match r {
                Some(p) => self@.peers.contains_key(device_id@) && p@ == self@.peers[device_id@]@,
                None => !self@.peers.contains_key(device_id@),
            },
    {
        match self.peers.get(device_id) {
            Some(p) => Some(p.copied()),
            None => None,
        }
    }

    /// A peer whose name has `name` in it, in upper or lower case; any of them
    /// where there are several.
    pub fn find_peer_by_name(&self, name: &str) -> (r: Option<PeerInfo>)
        requires
            self.wf(),
        ensures
            match r {
                Some(p) => self.lists(p@) && name_has(p@.device_name, name@),
                None => forall|id: Seq<u8>| #[trigger]
                    self@.peers.contains_key(id) ==> !name_has(
                        self@.peers[id].device_name@,
                        name@,
                    ),
            },
    {
        let query: String = to_lowercase(name);
        let mut i: usize = 0;
        while i < self.peers.len()
            invariant
                self.wf(),
                query@ == lowercase_of(name@),
                i <= self.peers.entries().len(),
                forall|j: int|
                    0 <= j < i ==> !name_has(
                        (#[trigger] self.peers.entries()[j]).1.device_name@,
                        name@,
                    ),
            decreases self.peers.entries().len() - i,
        {
            let peer: &PeerInfo = self.peer_at(i);
            if contains_text(to_lowercase(peer.device_name.as_str()).as_str(), query.as_str()) {
                return Some(peer.copied());
            }
            i += 1;
        }
        proof {
            self.peers.entries_are_map();
            assert forall|id: Seq<u8>| #[trigger] self@.peers.contains_key(id) implies !name_has(
                self@.peers[id].device_name@,
                name@,
            ) by {
                let j = choose|j: int|
                    0 <= j < self.peers.entries().len() && (
                    #[trigger] self.peers.entries()[j]).0.id() == id;
                assert(!name_has(self.peers.entries()[j].1.device_name@, name@));
            }
        }
        None
    }

    /// A peer at an address; any of them where there are several.
    pub fn find_peer_by_address(&self, target: IpAddr) -> (r: Option<PeerInfo>)
        requires
            self.wf(),
        ensures
            match r {
                Some(p) => self.lists(p@) && p@.address == target,
                None => forall|id: Seq<u8>| #[trigger]
                    self@.peers.contains_key(id) ==> self@.peers[id].address != target,
            },
    {
        let mut i: usize = 0;
        while i < self.peers.len()
            invariant
                self.wf(),
                i <= self.peers.entries().len(),
                forall|j: int|
                    0 <= j < i ==> (#[trigger] self.peers.entries()[j]).1.address != target,
            decreases self.peers.entries().len() - i,
        {
            let peer: &PeerInfo = self.peer_at(i);
            if peer.address == target {
                return Some(peer.copied());
            }
            i += 1;
        }
        proof {
            self.peers.entries_are_map();
            assert forall|id: Seq<u8>| #[trigger]
                self@.peers.contains_key(id) implies self@.peers[id].address != target by {
                let j = choose|j: int|
                    0 <= j < self.peers.entries().len() && (
                    #[trigger] self.peers.entries()[j]).0.id() == id;
                assert(self.peers.entries()[j].1.address != target);
            }
        }
        None
    }
}

/// Whether a device's name has `part` in it, in upper or lower case.
pub open spec fn name_has(name: Seq<char>, part: Seq<char>) -> bool {
    has_text(lowercase_of(name), lowercase_of(part))
}

/// Whether `needle` stands anywhere in `hay`.
pub open spec fn has_text(hay: Seq<char>, needle: Seq<char>) -> bool {
    find_from(hay, needle, 0) is Some
}

/// Whether `needle` stands anywhere in `hay`.
pub fn contains_text(hay: &str, needle: &str) -> (r: bool)
    ensures
        r == has_text(hay@, needle@),
{
    find(&chars_of(hay), &chars_of(needle)).is_some()
}

/// The first peer, from `from` on, that takes connections at `target`, or the
/// first of all where there is no target.
pub open spec fn first_reachable(list: Seq<PeerInfo>, target: Option<SocketAddr>, from: int) -> Option<
    int,
>
    decreases list.len() - from,
{
    if from >= list.len() {
        None
    } else if target is None || target == Some(
        SocketAddr { ip: list[from].address, port: list[from].port },
    ) {
        Some(from)
    } else {
        first_reachable(list, target, from + 1)
    }
}

/// Picks the peer to connect to among those that were discovered.
pub fn pick_peer(peers: &Vec<PeerInfo>, target: Option<SocketAddr>) -> (r: Result<PeerInfo>)
    ensures
        match first_reachable(peers@, target, 0) {
            Some(i) => 0 <= i < peers@.len() && (r matches Ok(p) && p@ == peers@[i]@),
            None => r matches Err(Error::Protocol(m)) && m@
                == "No peers discovered. Make sure a peer is running in server mode."@,
        },
{
    let mut i: usize = 0;
    while i < peers.len()
        invariant
            i <= peers@.len(),
            first_reachable(peers@, target, 0) == first_reachable(peers@, target, i as int),
        decreases peers@.len() - i,
    {
        let wanted: bool = match target {
            None => true,
            Some(t) => peers[i].socket_addr() == t,
        };
        if wanted {
            return Ok(peers[i].copied());
        }
        i += 1;
    }
    Err(
        Error::Protocol(
            "No peers discovered. Make sure a peer is running in server mode.".to_owned(),
        ),
    )
}

/// The name under which a device without a better one looks for peers.
pub fn short_device_name(device_id: &[u8; 16]) -> (r: String)
    ensures
        r@ == "p2p-"@ + hex_chars(device_id@.take(4)),
{
    let mut name = "p2p-".to_owned();
    let head: &[u8] = vstd::slice::slice_subrange(device_id.as_slice(), 0, 4);
    assert(head@ =~= device_id@.take(4));
    name.append(hex_encode(head).as_str());
    name
}

// ---------------------------------------------------------------- probing

/// Where a probe stands.
#[derive(Debug, Clone, Copy, PartialEq, Eq, Structural)]
pub enum Probe {
    /// Send a beacon to the peer.
    Send { round: u32 },
    /// Wait [`PROBE_POLL_INTERVAL_MS`], then look whether the peer answered.
    Poll { round: u32, poll: u32 },
    /// Wait so many milliseconds.
    Pause { round: u32, delay_ms: u64 },
    /// The peer answered.
    Found,
    /// The peer did not answer.
    Lost,
}

impl Probe {
    /// A round that exists.
    pub open spec fn wf(self) -> bool {
        match self {
            Probe::Send { round } => round < PROBE_ROUNDS,
            Probe::Poll { round, poll } => round < PROBE_ROUNDS && poll < PROBE_POLLS,
            Probe::Pause { round, delay_ms } => round < PROBE_ROUNDS && delay_ms
                == PROBE_ROUND_BASE_DELAY_MS * round_factor(round as nat),
            Probe::Found | Probe::Lost => true,
        }
    }

    /// Steps left at most.
    pub open spec fn steps_left(self) -> int {
        match self {
            Probe::Send { round } => (PROBE_ROUNDS - round) * (PROBE_POLLS + 2),
            Probe::Poll { round, poll } => (PROBE_ROUNDS - round - 1) * (PROBE_POLLS + 2)
                + PROBE_POLLS - poll + 1,
            Probe::Pause { round, .. } => (PROBE_ROUNDS - round - 1) * (PROBE_POLLS + 2) + 1,
            Probe::Found | Probe::Lost => 0,
        }
    }

    /// The step after this one; `answered` is what a look showed.
    pub open spec fn after(self, answered: bool) -> Probe {
        match self {
            Probe::Send { round } => Probe::Poll { round, poll: 0 },
            Probe::Poll { round, poll } => if answered {
                Probe::Found
            } else if poll + 1 < PROBE_POLLS {
                Probe::Poll { round, poll: (poll + 1) as u32 }
            } else {
                Probe::Pause {
                    round,
                    delay_ms: (PROBE_ROUND_BASE_DELAY_MS * round_factor(round as nat)) as u64,
                }
            },
            Probe::Pause { round, .. } => if round + 1 < PROBE_ROUNDS {
                Probe::Send { round: (round + 1) as u32 }
            } else {
                Probe::Lost
            },
            Probe::Found => Probe::Found,
            Probe::Lost => Probe::Lost,
        }
    }

    /// The step after a run of looks.
    pub open spec fn after_all(self, looks: Seq<bool>) -> Probe
        decreases looks.len(),
    {
        if looks.len() == 0 {
            self
        } else {
            self.after_all(looks.drop_last()).after(looks.last())
        }
    }

    /// The first step.
    pub fn start() -> (r: Self)
        ensures
            r == (Probe::Send { round: 0 }),
            r.wf(),
    {
        Probe::Send { round: 0 }
    }

    /// The step after this one; `answered` is what a look showed.
    pub fn next(self, answered: bool) -> (r: Self)
        requires
            self.wf(),
        ensures
            r.wf(),
            r == self.after(answered),
            self.steps_left() > 0 ==> r.steps_left() < self.steps_left(),
    {
        proof {
            reveal_with_fuel(round_factor, 4);
        }
        match self {
            Probe::Send { round } => Probe::Poll { round, poll: 0 },
            Probe::Poll { round, poll } => if answered {
                Probe::Found
            } else if poll + 1 < PROBE_POLLS {
                Probe::Poll { round, poll: poll + 1 }
            } else {
                let delay_ms: u64 = if round == 0 {
                    PROBE_ROUND_BASE_DELAY_MS
                } else if round == 1 {
                    2 * PROBE_ROUND_BASE_DELAY_MS
                } else {
                    4 * PROBE_ROUND_BASE_DELAY_MS
                };
                Probe::Pause { round, delay_ms }
            },
            Probe::Pause { round, .. } => if round + 1 < PROBE_ROUNDS {
                Probe::Send { round: round + 1 }
            } else {
                Probe::Lost
            },
            Probe::Found => Probe::Found,
            Probe::Lost => Probe::Lost,
        }
    }
}

/// How much longer the pause after a round is than after the first.
pub open spec fn round_factor(round: nat) -> nat
    decreases round,
{
    if round == 0 {
        1
    } else {
        2 * round_factor((round - 1) as nat)
    }
}

/// The peers that did not answer a probe lately.
pub struct ProbeBackoff {
    failed: Table<IpAddr, u64>,
}

impl View for ProbeBackoff {
    type V = Map<IpAddr, u64>;

    closed spec fn view(&self) -> Map<IpAddr, u64> {
        self.failed@
    }
}

/// Whether a peer did not answer a probe lately.
pub open spec fn cooling_down(failed: Map<IpAddr, u64>, target: IpAddr, now: u64) -> bool {
    failed.contains_key(target) && now - failed[target] < PROBE_BACKOFF_MS
}

impl ProbeBackoff {
    pub closed spec fn wf(&self) -> bool {
        self.failed.wf()
    }

    pub fn new() -> (r: Self)
        ensures
            r.wf(),
            r@ == Map::<IpAddr, u64>::empty(),
    {
        ProbeBackoff { failed: Table::new() }
    }

    /// Whether a peer may be probed; once it may, its failure is forgotten.
    pub fn may_probe(&mut self, target: IpAddr, now: u64) -> (r: bool)
        requires
            old(self).wf(),
        ensures
            final(self).wf(),
            r == !cooling_down(old(self)@, target, now),
            final(self)@ == (if r {
                old(self)@.remove(target)
            } else {
                old(self)@
            }),
    {
        match self.failed.get(&target) {
            Some(at) => {
                if now.saturating_sub(*at) < PROBE_BACKOFF_MS {
                    return false;
                }
            },
            None => {},
        }
        self.failed.remove(&target);
        true
    }

    /// A peer did not answer.
    pub fn record_failure(&mut self, target: IpAddr, now: u64)
        requires
            old(self).wf(),
        ensures
            final(self).wf(),
            final(self)@ == old(self)@.insert(target, now),
            cooling_down(final(self)@, target, now),
    {
        self.failed.insert(target, now);
    }
}

/// Two devices do not answer each other without end: an address that was just
/// answered is not answered again until the pause is over.
pub proof fn law_echo_is_throttled(last_echo: Map<IpAddr, u64>, ip: IpAddr, now: u64, later: u64)
    requires
        later - now < ECHO_THROTTLE_MS,
    ensures
        !echo_due(last_echo.insert(ip, now), ip, later),
{
}

/// The same text but for upper and lower case: `lower` has each ASCII letter of
/// `text` as a small one, and every other character as it is.
pub open spec fn is_small_form(lower: Seq<char>, text: Seq<char>) -> bool {
    &&& lower.len() == text.len()
    &&& forall|i: int|
        #![trigger text[i]]
        0 <= i < text.len() ==> if 'A' <= text[i] <= 'Z' {
            lower[i] as u32 == text[i] as u32 + 32
        } else {
            lower[i] == text[i]
        }
}

/// Begins with `prefix`, in upper or lower case.
pub open spec fn begins_like(text: Seq<char>, prefix: Seq<char>) -> bool {
    text.len() >= prefix.len() && is_small_form(prefix, text.take(prefix.len() as int))
}

/// An interface with an IPv4 address outside of 127.0.0.0 to 127.255.255.255,
/// and a name that is not one of a bridge, a tunnel or a virtual machine.
pub open spec fn is_real_link(i: Interface) -> bool {
    let name = i.name@;
    &&& i.ip matches IpAddr::V4(a) && !(0x7F00_0000 <= a <= 0x7FFF_FFFF)
    &&& !begins_like(name, "docker"@)
    &&& !begins_like(name, "veth"@)
    &&& !begins_like(name, "vbox"@)
    &&& !begins_like(name, "vmnet"@)
    &&& !begins_like(name, "virbr"@)
    &&& !begins_like(name, "br-"@)
    &&& !begins_like(name, "tap"@)
    &&& !is_small_form("lo"@, name)
}

proof fn lemma_lower(c: char, d: char)
    ensures
        'A' <= c <= 'Z' ==> (ascii_lower(c) == d <==> d as u32 == c as u32 + 32),
{
    if 'A' <= c <= 'Z' {
        let small: u32 = (c as u32 + 32) as u32;
        assert((small as u8) as u32 == small);
        assert(ascii_lower(c) as u32 == small);
    }
}

pub(crate) proof fn lemma_small_form(lower: Seq<char>, text: Seq<char>)
    ensures
        is_small_form(lower, text) <==> ascii_lowered(text) == lower,
{
    if is_small_form(lower, text) {
        assert forall|i: int| 0 <= i < text.len() implies ascii_lowered(text)[i] == lower[i] by {
            let c = text[i];
            let d = lower[i];
            assert(ascii_lowered(text)[i] == ascii_lower(c));
            lemma_lower(c, d);
        }
        assert(ascii_lowered(text) =~= lower);
    }
    if ascii_lowered(text) == lower {
        assert forall|i: int|
            #![trigger text[i]]
            0 <= i < text.len() implies if 'A' <= text[i] <= 'Z' {
            lower[i] as u32 == text[i] as u32 + 32
        } else {
            lower[i] == text[i]
        } by {
            let c = text[i];
            let d = lower[i];
            assert(ascii_lowered(text)[i] == ascii_lower(c));
            lemma_lower(c, d);
        }
    }
}

proof fn lemma_begins_like(text: Seq<char>, prefix: Seq<char>)
    ensures
        begins_like(text, prefix) <==> starts_with(ascii_lowered(text), prefix),
{
    if text.len() >= prefix.len() {
        lemma_small_form(prefix, text.take(prefix.len() as int));
        assert(ascii_lowered(text).subrange(0, prefix.len() as int) =~= ascii_lowered(
            text.take(prefix.len() as int),
        ));
    }
}

proof fn lemma_real_links_are_usable(i: Interface)
    ensures
        is_real_link(i) <==> usable(i),
{
    let name = i.name@;
    lemma_begins_like(name, "docker"@);
    lemma_begins_like(name, "veth"@);
    lemma_begins_like(name, "vbox"@);
    lemma_begins_like(name, "vmnet"@);
    lemma_begins_like(name, "virbr"@);
    lemma_begins_like(name, "br-"@);
    lemma_begins_like(name, "tap"@);
    lemma_small_form("lo"@, name);
}

/// Beacons go out on every real link: the addresses listed are those of the
/// interfaces with an IPv4 address that is no loopback and a name that is no
/// virtual one, all of them and no others, in their order.
pub proof fn law_beacons_use_every_real_link(list: Seq<Interface>)
    ensures
        usable_addresses(list) == list.filter(|i: Interface| is_real_link(i)).map_values(
            |i: Interface| i.ip->V4_0,
        ),
        forall|a: u32|
            #[trigger] usable_addresses(list).contains(a) <==> exists|k: int|
                0 <= k < list.len() && is_real_link(#[trigger] list[k]) && list[k].ip == IpAddr::V4(
                    a,
                ),
    decreases list.len(),
{
    let p = |i: Interface| is_real_link(i);
    let f = |i: Interface| i.ip->V4_0;
    reveal(Seq::filter);
    if list.len() > 0 {
        let init = list.drop_last();
        let last = list.last();
        law_beacons_use_every_real_link(init);
        lemma_real_links_are_usable(last);
        assert(init.filter(p).push(last).map_values(f) =~= init.filter(p).map_values(f).push(f(last)));
        assert forall|a: u32|
            #[trigger] usable_addresses(list).contains(a) <==> exists|k: int|
                0 <= k < list.len() && is_real_link(#[trigger] list[k]) && list[k].ip == IpAddr::V4(
                    a,
                ) by {
            let before = usable_addresses(init);
            let after = usable_addresses(list);
            if after.contains(a) {
                let j = choose|j: int| 0 <= j < after.len() && after[j] == a;
                if j < before.len() {
                    assert(before[j] == a);
                    assert(before.contains(a));
                    let k = choose|k: int|
                        0 <= k < init.len() && is_real_link(#[trigger] init[k]) && init[k].ip
                            == IpAddr::V4(a);
                    assert(list[k] == init[k]);
                } else {
                    assert(is_real_link(list[list.len() - 1]));
                }
            }
            if exists|k: int|
                0 <= k < list.len() && is_real_link(#[trigger] list[k]) && list[k].ip == IpAddr::V4(
                    a,
                ) {
                let k = choose|k: int|
                    0 <= k < list.len() && is_real_link(#[trigger] list[k]) && list[k].ip
                        == IpAddr::V4(a);
                if k < init.len() {
                    assert(init[k] == list[k]);
                    assert(before.contains(a));
                    let j = choose|j: int| 0 <= j < before.len() && before[j] == a;
                    assert(after[j] == a);
                } else {
                    assert(after[after.len() - 1] == a);
                }
            }
        }
    } else {
        assert(list.filter(p).map_values(f) =~= Seq::empty());
        assert(usable_addresses(list) =~= Seq::empty());
    }
}

/// An address is answered if and only if it was never answered, or the last
/// answer is two seconds old or older; and an answer to one address holds back
/// no answer to another.
pub proof fn law_echo_every_two_seconds(
    last_echo: Map<IpAddr, u64>,
    ip: IpAddr,
    other: IpAddr,
    then: u64,
    now: u64,
)
    ensures
        echo_due(last_echo.remove(ip), ip, now),
        echo_due(last_echo.insert(ip, then), ip, now) <==> now >= then + 2000,
        ip != other ==> echo_due(last_echo.insert(ip, then), other, now) == echo_due(
            last_echo,
            other,
            now,
        ),
{
}

/// A peer that did not answer is left alone for ten seconds and can be probed
/// again after that; other peers are not affected.
pub proof fn law_probe_pause_lasts_ten_seconds(
    failed: Map<IpAddr, u64>,
    target: IpAddr,
    other: IpAddr,
    then: u64,
    now: u64,
)
    ensures
        !cooling_down(failed.remove(target), target, now),
        cooling_down(failed.insert(target, then), target, now) <==> now < then + 10_000,
        target != other ==> cooling_down(failed.insert(target, then), other, now) == cooling_down(
            failed,
            other,
            now,
        ),
{
}

/// Cleaning up keeps exactly the peers that were heard less than `ttl` before
/// `now`, and leaves what is known of them as it is.
pub proof fn law_peers_last_as_long_as_they_are_heard(
    m: Map<Seq<u8>, PeerInfo>,
    ttl: u64,
    now: u64,
    id: Seq<u8>,
)
    ensures
        living(m, ttl, now).contains_key(id) <==> m.contains_key(id) && m[id].last_seen <= now < m[id].last_seen
            + ttl,
        living(m, ttl, now).contains_key(id) ==> living(m, ttl, now)[id] == m[id],
{
}

/// A text is found in another if and only if the other is the text with
/// something, or nothing, before and behind it.
pub proof fn law_found_text_stands_there(hay: Seq<char>, needle: Seq<char>)
    ensures
        has_text(hay, needle) <==> exists|a: Seq<char>, b: Seq<char>| hay == #[trigger] (a + needle + b),
{
    if has_text(hay, needle) {
        lemma_found_stands(hay, needle, 0);
        let i = find_from(hay, needle, 0)->0 as int;
        let a = hay.take(i);
        let b = hay.skip(i + needle.len());
        assert(hay =~= a + needle + b);
    }
    if exists|a: Seq<char>, b: Seq<char>| hay == #[trigger] (a + needle + b) {
        let (a, b) = choose|a: Seq<char>, b: Seq<char>| hay == #[trigger] (a + needle + b);
        assert(hay.subrange(a.len() as int, (a.len() + needle.len()) as int) =~= needle);
        assert(stands_at(hay, needle, a.len() as int));
        lemma_stands_is_found(hay, needle, 0, a.len());
    }
}

proof fn lemma_found_stands(hay: Seq<char>, needle: Seq<char>, from: nat)
    ensures
        find_from(hay, needle, from) matches Some(i) ==> from <= i && stands_at(
            hay,
            needle,
            i as int,
        ),
    decreases hay.len() + 1 - from,
{
    if from <= hay.len() {
        lemma_found_stands(hay, needle, from + 1);
    }
}

proof fn lemma_stands_is_found(hay: Seq<char>, needle: Seq<char>, from: nat, at: nat)
    requires
        from <= at,
        stands_at(hay, needle, at as int),
    ensures
        find_from(hay, needle, from) is Some,
    decreases hay.len() + 1 - from,
{
    if !stands_at(hay, needle, from as int) {
        lemma_stands_is_found(hay, needle, from + 1, at);
    }
}

/// The peer picked is the first that takes connections where asked for, and
/// none is picked only where there is no such peer. Without an address to look
/// for it is the first of all.
pub proof fn law_picked_peer_is_the_first_that_fits(
    list: Seq<PeerInfo>,
    target: Option<SocketAddr>,
    from: int,
)
    requires
        0 <= from,
    ensures
        match first_reachable(list, target, from) {
            Some(i) => {
                &&& from <= i < list.len()
                &&& target is None ==> i == from
                &&& target is Some ==> list[i].address == target->0.ip && list[i].port
                    == target->0.port
                &&& forall|j: int|
                    from <= j < i ==> !((#[trigger] list[j]).address == target->0.ip && list[j].port
                        == target->0.port)
            },
            None => forall|j: int|
                from <= j < list.len() ==> target is Some && !((#[trigger] list[j]).address
                    == target->0.ip && list[j].port == target->0.port),
        },
    decreases list.len() - from,
{
    if from < list.len() {
        law_picked_peer_is_the_first_that_fits(list, target, from + 1);
    }
}

/// A peer that answers is found with the next look, whenever that is, and one
/// that was found stays found.
pub proof fn law_answer_is_noticed(p: Probe)
    requires
        p.wf(),
    ensures
        p is Poll ==> p.after(true) is Found,
        p is Poll ==> !(p.after(false) is Found) && !(p.after(false) is Lost),
        p is Send ==> p.after(true) is Poll && p.after(false) is Poll,
        forall|looks: Seq<bool>| #[trigger] Probe::Found.after_all(looks) is Found,
{
    assert forall|looks: Seq<bool>| #[trigger] Probe::Found.after_all(looks) is Found by {
        lemma_found_stays(looks);
    }
}

proof fn lemma_found_stays(looks: Seq<bool>)
    ensures
        Probe::Found.after_all(looks) is Found,
    decreases looks.len(),
{
    if looks.len() > 0 {
        lemma_found_stays(looks.drop_last());
    }
}

/// A beacon makes its sender known: under its own identifier, at the address it
/// came from and the port it names, with the fingerprint it gives, heard now.
/// What is known of a peer stays, but for when it was heard. Nobody else is
/// touched, and a device does not hear itself.
pub proof fn law_beacons_make_peers_known(
    before: PeersView,
    beacon: DiscoveryBeacon,
    ip: IpAddr,
    now: u64,
    after: PeersView,
    r: Option<BeaconOutcome>,
)
    requires
        before.hears(beacon, ip, now, after, r),
    ensures
        ({
            let id = beacon.device_id@;
            &&& r is None <==> id == before.device_id
            &&& id == before.device_id ==> after == before
            &&& id != before.device_id ==> {
                &&& after.peers.contains_key(id)
                &&& after.peers[id].last_seen == now
                &&& before.peers.contains_key(id) ==> after.peers[id].address
                    == before.peers[id].address && after.peers[id].port == before.peers[id].port
                    && after.peers[id].cert_fingerprint == before.peers[id].cert_fingerprint
                    && after.peers[id].device_name == before.peers[id].device_name
                &&& !before.peers.contains_key(id) ==> after.peers[id].address == ip
                    && after.peers[id].port == beacon.port && after.peers[id].cert_fingerprint@
                    == beacon.cert_fingerprint@ && after.peers[id].device_name@
                    == beacon.device_name@ && after.peers[id].device_id@ == id
                &&& r->0.is_new <==> !before.peers.contains_key(id)
                &&& r->0.echo <==> !before.last_echo.contains_key(ip) || now
                    >= before.last_echo[ip] + 2000
                &&& r->0.echo ==> after.last_echo.contains_key(ip) && after.last_echo[ip] == now
                &&& !r->0.echo ==> after.last_echo == before.last_echo
            }
            &&& forall|other: Seq<u8>|
                other != id ==> (#[trigger] after.peers.contains_key(other)
                    <==> before.peers.contains_key(other))
            &&& forall|other: Seq<u8>|
                other != id && #[trigger] before.peers.contains_key(other) ==> after.peers[other]
                    == before.peers[other]
            &&& after.device_name == before.device_name
            &&& after.device_id == before.device_id
            &&& after.peer_ttl == before.peer_ttl
        }),
{
    let id = beacon.device_id@;
    if id != before.device_id {
        let a = after.peers.remove(id);
        let b = before.peers.remove(id);
        assert forall|other: Seq<u8>| other != id implies (#[trigger] after.peers.contains_key(other)
            <==> before.peers.contains_key(other)) by {
            assert(a.contains_key(other) <==> b.contains_key(other));
        }
        assert forall|other: Seq<u8>|
            other != id && #[trigger] before.peers.contains_key(other) implies after.peers[other]
            == before.peers[other] by {
            assert(b.contains_key(other));
            assert(a[other] == b[other]);
        }
    }
}

/// A beacon announces the device itself: the name that the user chose, or the
/// given one, and the device, port and fingerprint it has; it is in the version
/// that is accepted, and a beacon in another version is not.
pub proof fn law_own_beacon_is_accepted(
    custom: Option<String>,
    name: &str,
    id: [u8; 16],
    port: u16,
    fingerprint: Fingerprint,
    beacon: DiscoveryBeacon,
    other: DiscoveryBeacon,
    own_check: Result<()>,
    check: Result<()>,
)
    requires
        call_ensures(create_beacon, (&custom, name, id, port, fingerprint), beacon),
        call_ensures(check_beacon_version, (&beacon,), own_check),
        call_ensures(check_beacon_version, (&other,), check),
    ensures
        own_check is Ok,
        check is Ok <==> other.version == beacon.version,
        beacon.version == 3,
        custom is Some ==> beacon.device_name@ == custom->0@,
        custom is None ==> beacon.device_name@ == name@,
        beacon.device_id == id,
        beacon.port == port,
        beacon.cert_fingerprint == fingerprint,
{
}

/// A beacon fits where it has no more than 1500 bytes, and devices are looked
/// for where there is at least one socket.
pub proof fn law_beacons_fit_into_a_packet(len: usize, r: Result<()>, count: usize, sockets: Result<()>)
    requires
        call_ensures(check_beacon_size, (len,), r),
        call_ensures(require_sockets, (count,), sockets),
    ensures
        r is Ok <==> len <= 1500,
        sockets is Ok <==> count >= 1,
{
}

/// The address of this device is that of its first real link.
pub proof fn law_own_address_is_of_the_first_real_link(list: Vec<Interface>, r: Option<u32>)
    requires
        call_ensures(local_ipv4, (&list,), r),
    ensures
        r is None <==> forall|k: int| 0 <= k < list@.len() ==> !is_real_link(#[trigger] list@[k]),
        r matches Some(a) ==> exists|k: int|
            0 <= k < list@.len() && is_real_link(#[trigger] list@[k]) && list@[k].ip == IpAddr::V4(a),
{
    law_beacons_use_every_real_link(list@);
    let all = usable_addresses(list@);
    if all.len() > 0 {
        assert(all.contains(all[0]));
    }
    if exists|k: int| 0 <= k < list@.len() && is_real_link(#[trigger] list@[k]) {
        let k = choose|k: int| 0 <= k < list@.len() && is_real_link(#[trigger] list@[k]);
        let a = list@[k].ip->V4_0;
        assert(list@[k].ip == IpAddr::V4(a));
        assert(all.contains(a));
    }
}

/// A peer takes connections at the address that its beacon came from, at the
/// port that the beacon names.
pub proof fn law_peers_are_reached_where_they_announce(
    beacon: DiscoveryBeacon,
    ip: IpAddr,
    now: u64,
    peer: PeerInfo,
    addr: SocketAddr,
)
    requires
        call_ensures(PeerInfo::from_beacon, (&beacon, ip, now), peer),
        call_ensures(PeerInfo::socket_addr, (&peer,), addr),
    ensures
        addr.ip == ip,
        addr.port == beacon.port,
        peer.cert_fingerprint@ == beacon.cert_fingerprint@,
        peer.device_id@ == beacon.device_id@,
        peer.device_name@ == beacon.device_name@,
{
}

/// A device is found by any part of its name, in upper or lower case, and by
/// nothing that is no part of it.
pub proof fn law_devices_are_found_by_part_of_their_name(name: Seq<char>, part: Seq<char>)
    ensures
        name_has(name, part) <==> exists|a: Seq<char>, b: Seq<char>|
            lowercase_of(name) == #[trigger] (a + lowercase_of(part) + b),
{
    law_found_text_stands_there(lowercase_of(name), lowercase_of(part));
}

/// Every peer that was heard is listed, once, and nobody else; as many are
/// counted as are listed; and each is found by its identifier, as it is listed.
pub proof fn law_every_peer_is_listed_once(
    manager: DiscoveryManager,
    listed: Vec<PeerInfo>,
    count: usize,
    id: [u8; 16],
    found: Option<PeerInfo>,
)
    requires
        manager.wf(),
        call_ensures(DiscoveryManager::get_peers, (&manager,), listed),
        call_ensures(DiscoveryManager::peer_count, (&manager,), count),
        call_ensures(DiscoveryManager::get_peer, (&manager, &id), found),
    ensures
        listed@.len() == count,
        found is Some <==> exists|i: int|
            0 <= i < listed@.len() && (#[trigger] listed@[i]).device_id@ == id@,
        found is Some ==> forall|i: int|
            0 <= i < listed@.len() && (#[trigger] listed@[i]).device_id@ == id@ ==> listed@[i]@
                == found->0@,
        forall|i: int, j: int|
            0 <= i < j < listed@.len() ==> (#[trigger] listed@[i]).device_id@ != (
            #[trigger] listed@[j]).device_id@,
{
    if exists|i: int| 0 <= i < listed@.len() && (#[trigger] listed@[i]).device_id@ == id@ {
        let i = choose|i: int| 0 <= i < listed@.len() && (#[trigger] listed@[i]).device_id@ == id@;
        assert(manager.lists(listed@[i]@));
        assert(manager@.peers.contains_key(id@));
    }
    if found is Some {
        assert(manager@.peers.contains_key(id@));
        assert forall|i: int|
            0 <= i < listed@.len() && (#[trigger] listed@[i]).device_id@ == id@ implies listed@[i]@
            == found->0@ by {
            assert(manager.lists(listed@[i]@));
        }
    }
}

/// A device announces what it was started with, under the name that the user
/// chose where there is one, and knows nobody at first.
pub proof fn law_devices_announce_what_they_are(
    name: String,
    port: u16,
    fingerprint: Fingerprint,
    id: [u8; 16],
    ttl: u64,
    manager: DiscoveryManager,
    custom: Option<String>,
    beacon: DiscoveryBeacon,
    shown: &str,
)
    requires
        call_ensures(DiscoveryManager::new, (name, port, fingerprint, id, ttl), manager),
        call_ensures(DiscoveryManager::beacon, (&manager, &custom), beacon),
        call_ensures(DiscoveryManager::device_name, (&manager,), shown),
    ensures
        shown@ == name@,
        beacon.device_id@ == id@,
        beacon.port == port,
        beacon.cert_fingerprint == fingerprint,
        custom is None ==> beacon.device_name@ == name@,
        custom is Some ==> beacon.device_name@ == custom->0@,
        forall|other: Seq<u8>| !(#[trigger] manager@.peers.contains_key(other)),
{
}

} // verus!
