//! What graphical front ends see: devices, events, and the way to a peer.

use vstd::prelude::*;
use vstd::string::*;

use crate::discovery::PeerInfo;
use crate::identity::Fingerprint;
use crate::ids::{id_chars, id_text};
use crate::net::SocketAddr;
use crate::paths::{last_name, path_name, Platform};
use crate::protocol::{default_config, ConfigMessage};
use crate::text::{bytes_copy, str_eq, string_copy};
use crate::verification::{
    array_of_32, fingerprint_written, hex_chars, hex_decode, hex_encode,
    law_fingerprints_are_read_back, lemma_hex_is_ascii,
};

verus! {

/// How a device is reached.
#[derive(Debug, Clone, Copy, PartialEq, Eq, Structural)]
pub enum RsDeviceVia {
    Lan,
    Rendezvous,
}

/// Direction of a transfer.
#[derive(Debug, Clone, Copy, PartialEq, Eq, Structural)]
pub enum RsTransferDirection {
    Send,
    Receive,
}

/// Where a transfer stands.
#[derive(Debug, Clone, Copy, PartialEq, Eq, Structural)]
pub enum RsTransferStatus {
    Idle,
    Pairing,
    Connecting,
    Transferring,
    Completed,
    Failed,
    Cancelled,
}

/// Severity of a log line.
#[derive(Debug, Clone, Copy, PartialEq, Eq, Structural)]
pub enum RsLogLevel {
    Trace,
    Debug,
    Info,
    Warn,
    Error,
}

/// A log line.
#[derive(Debug, Clone)]
pub struct RsLogEvent {
    pub level: RsLogLevel,
    pub tag: String,
    pub message: String,
}

/// This device.
#[derive(Debug, Clone)]
pub struct RsDevice {
    pub id: [u8; 16],
    pub name: String,
    pub address: String,
    pub via: RsDeviceVia,
    pub online: bool,
    pub allow_transfer: bool,
}

/// A peer that was found, for a list of devices.
#[derive(Debug, Clone)]
pub struct Peer {
    pub device_name: String,
    pub address: String,
    pub device_id: String,
}

/// A peer that was found, with what is needed to connect to it.
#[derive(Debug, Clone)]
pub struct RsDiscoveredPeer {
    pub name: String,
    pub addr: String,
    pub device_id: [u8; 16],
    pub cert_fingerprint: Vec<u8>,
    /// The fingerprint in hexadecimal.
    pub fingerprint: String,
}

/// What happens in a transfer.
#[derive(Debug, Clone)]
pub struct RsProgressEvent {
    pub direction: RsTransferDirection,
    /// 0 before there is a connection, 1 once there is, 2 from then on.
    pub phase: i32,
    pub transferred: u64,
    pub total: u64,
    /// Bytes per second.
    pub speed: u64,
    pub status: RsTransferStatus,
    pub message: Option<String>,
    /// The fingerprint of a peer that was trusted on first use, in hexadecimal.
    pub peer_fingerprint: Option<String>,
    pub file_name: Option<String>,
    pub peer_address: Option<String>,
}

/// The name a device has by default: the first three bytes of its identifier.
pub fn default_device_name(device_id: &[u8; 16]) -> (r: String)
    ensures
        r@ == "hyx-"@ + hex_chars(device_id@.take(3)),
{
    let head: &[u8] = vstd::slice::slice_subrange(device_id.as_slice(), 0, 3);
    assert(head@ =~= device_id@.take(3));
    "hyx-".to_owned().concat(hex_encode(head).as_str())
}

/// This device as it is shown before it listens.
pub fn create_device(device_id: [u8; 16], name: String) -> (r: RsDevice)
    ensures
        r.id == device_id,
        r.name == name,
        r.address@ == Seq::<char>::empty(),
        r.via == RsDeviceVia::Lan,
        !r.online,
        r.allow_transfer,
{
    RsDevice {
        id: device_id,
        name,
        address: String::new(),
        via: RsDeviceVia::Lan,
        online: false,
        allow_transfer: true,
    }
}

/// A peer as it is shown; `addr` is the text of its address.
pub fn to_rs_peer(peer: &PeerInfo, addr: String) -> (r: RsDiscoveredPeer)
    ensures
        r.name@ == peer.device_name@,
        r.addr == addr,
        r.device_id == peer.device_id,
        r.cert_fingerprint@ == peer.cert_fingerprint@,
        r.fingerprint@ == hex_chars(peer.cert_fingerprint@),
{
    RsDiscoveredPeer {
        name: string_copy(peer.device_name.as_str()),
        addr,
        device_id: peer.device_id,
        cert_fingerprint: bytes_copy(peer.cert_fingerprint.as_slice()),
        fingerprint: encode_fingerprint_hex(&peer.cert_fingerprint),
    }
}

/// A peer for a list of devices; `addr` is the text of its address.
pub fn to_peer(peer: &PeerInfo, addr: String) -> (r: Peer)
    ensures
        r.device_name@ == peer.device_name@,
        r.address == addr,
        r.device_id@ == id_chars(peer.device_id@),
{
    Peer {
        device_name: string_copy(peer.device_name.as_str()),
        address: addr,
        device_id: id_text(&peer.device_id),
    }
}

/// Peers as lines of text, name and address separated by a tab.
pub open spec fn peer_lines_text(peers: Seq<(String, String)>) -> Seq<char>
    decreases peers.len(),
{
    if peers.len() == 0 {
        Seq::empty()
    } else {
        let line = peers.last().0@ + seq!['\t'] + peers.last().1@;
        if peers.len() == 1 {
            line
        } else {
            peer_lines_text(peers.drop_last()) + seq!['\n'] + line
        }
    }
}

/// Peers as lines of text.
pub fn peer_lines(peers: &Vec<(String, String)>) -> (r: String)
    ensures
        r@ == peer_lines_text(peers@),
{
    let mut out = String::new();
    let mut i: usize = 0;
    assert(peers@.take(0) =~= Seq::empty());
    assert(out@ =~= peer_lines_text(peers@.take(0)));
    while i < peers.len()
        invariant
            i <= peers@.len(),
            out@ == peer_lines_text(peers@.take(i as int)),
        decreases peers@.len() - i,
    {
        if i > 0 {
            out.push('\n');
        }
        out.append(peers[i].0.as_str());
        out.push('\t');
        out.append(peers[i].1.as_str());
        proof {
            let t = peers@.take(i + 1);
            assert(t.drop_last() =~= peers@.take(i as int));
            assert(t.last() == peers@[i as int]);
            if i == 0 {
                assert(peers@.take(0) =~= Seq::empty());
            }
            assert(out@ =~= peer_lines_text(t));
        }
        i += 1;
    }
    assert(peers@.take(i as int) =~= peers@);
    out
}

// ---------------------------------------------------------------- parameters

/// The parameters of a transfer.
pub open spec fn config_for(chunk_bytes: i32, compression: i32) -> ConfigMessage {
    ConfigMessage {
        chunk_size: if chunk_bytes as u32 > 65536 {
            chunk_bytes as u32
        } else {
            65536
        },
        compression_enabled: compression != 0,
        adaptive_compression: compression != 2,
        ..default_config()
    }
}

/// The parameters of a transfer: chunks of at least 64 KiB; compression never
/// (0), always (2), or where it helps.
pub fn config_from(chunk_bytes: i32, compression: i32) -> (r: ConfigMessage)
    ensures
        r == config_for(chunk_bytes, compression),
{
    #[verifier::truncate]
    let wanted: u32 = chunk_bytes as u32;
    let mut c = ConfigMessage::default();
    c.chunk_size = if wanted > 65536 {
        wanted
    } else {
        65536
    };
    if compression == 0 {
        c.compression_enabled = false;
    } else if compression == 2 {
        c.compression_enabled = true;
        c.adaptive_compression = false;
    } else {
        c.compression_enabled = true;
        c.adaptive_compression = true;
    }
    c
}

/// The port to use: the given one, or a default where it is not positive.
pub fn port_or(port: i32, default: u16) -> (r: u16)
    ensures
        r == (if port > 0 {
            port as u16
        } else {
            default
        }),
{
    if port > 0 {
        #[verifier::truncate]
        let given: u16 = port as u16;
        given
    } else {
        default
    }
}

/// A fingerprint in hexadecimal.
pub fn encode_fingerprint_hex(fp: &Fingerprint) -> (r: String)
    ensures
        r@ == hex_chars(fp@),
{
    hex_encode(fp.as_slice())
}

/// Reads a fingerprint from hexadecimal digits.
pub fn decode_fingerprint_hex(text: &str) -> (r: Result<Fingerprint, ()>)
    ensures
        match fingerprint_written(text@) {
            Some(fp) => r matches Ok(f) && f@ == fp,
            None => r is Err,
        },
{
    if text.as_bytes().len() != 64 {
        return Err(());
    }
    match hex_decode(text) {
        Ok(bytes) => {
            proof {
                lemma_hex_is_ascii(text@);
                assert(bytes@.take(32) =~= bytes@);
            }
            Ok(array_of_32(&bytes))
        },
        Err(_) => Err(()),
    }
}

/// Reads a fingerprint from its bytes.
pub fn fingerprint_from_bytes(bytes: &Vec<u8>) -> (r: Result<Fingerprint, String>)
    ensures
        if bytes@.len() == 32 {
            r matches Ok(f) && f@ == bytes@
        } else {
            r matches Err(m) && m@ == "invalid fingerprint length"@
        },
{
    if bytes.len() != 32 {
        return Err("invalid fingerprint length".to_owned());
    }
    assert(bytes@.take(32) =~= bytes@);
    Ok(array_of_32(bytes))
}

/// Whether a text is in a list.
pub open spec fn listed(list: Seq<String>, text: Seq<char>) -> bool {
    exists|i: int| 0 <= i < list.len() && (#[trigger] list[i])@ == text
}

fn lists(list: &Vec<String>, text: &str) -> (r: bool)
    ensures
        r == listed(list@, text@),
{
    let mut i: usize = 0;
    while i < list.len()
        invariant
            i <= list@.len(),
            forall|j: int| 0 <= j < i ==> (#[trigger] list@[j])@ != text@,
        decreases list@.len() - i,
    {
        if str_eq(list[i].as_str(), text) {
            assert(list@[i as int]@ == text@);
            return true;
        }
        i += 1;
    }
    false
}

/// The devices that nothing is received from; `None` where none were named.
pub struct BlockedDevices {
    pub ids: Option<Vec<String>>,
}

impl BlockedDevices {
    /// Nothing was said of any device.
    pub fn new() -> (r: Self)
        ensures
            r.ids is None,
    {
        BlockedDevices { ids: None }
    }

    /// Replaces the whole list.
    pub fn set_blocked_devices(&mut self, ids: Vec<String>)
        ensures
            final(self).ids == Some(ids),
    {
        self.ids = Some(ids);
    }

    /// Whether a device is on the list.
    pub open spec fn blocks(&self, id: Seq<char>) -> bool {
        self.ids matches Some(list) && listed(list@, id)
    }

    fn contains(&self, id: &str) -> (r: bool)
        ensures
            r == self.blocks(id@),
    {
        match &self.ids {
            None => false,
            Some(list) => lists(list, id),
        }
    }

    /// Decides whether anything is received from a device, before anything is:
    /// where it is blocked, what to tell the front end and the caller.
    pub fn screen(&self, peer_device_id: &[u8; 16]) -> (r: Result<(), (String, String)>)
        ensures
            r is Ok <==> !self.blocks(id_chars(peer_device_id@)),
            r matches Err((shown, error)) ==> shown@ == "设备 "@ + id_chars(peer_device_id@)
                + " 已被禁止接收"@ && error@ == "blocked device: "@ + id_chars(peer_device_id@),
    {
        let id: String = id_text(peer_device_id);
        if !self.contains(id.as_str()) {
            return Ok(());
        }
        let mut shown = "设备 ".to_owned();
        shown.append(id.as_str());
        shown.append(" 已被禁止接收");
        Err((shown, "blocked device: ".to_owned().concat(id.as_str())))
    }
}

// ---------------------------------------------------------------- events

/// What an event says of the file and the peer.
pub struct EventContext {
    pub file_name: Option<String>,
    pub peer_address: Option<String>,
}

fn copied(text: &Option<String>) -> (r: Option<String>)
    ensures
        shown(r) == shown(*text),
{
    match text {
        Some(s) => Some(string_copy(s.as_str())),
        None => None,
    }
}

/// Optional text as a value.
pub open spec fn shown(text: Option<String>) -> Option<Seq<char>> {
    match text {
        Some(s) => Some(s@),
        None => None,
    }
}

impl EventContext {
    /// Nothing is known yet, as on the receiving side before a peer connects.
    pub fn unknown() -> (r: Self)
        ensures
            r.file_name is None,
            r.peer_address is None,
    {
        EventContext { file_name: None, peer_address: None }
    }

    /// What the sending side knows from the start: the name of the file, and
    /// the peer's address as it was given.
    pub fn sending(path: &str, peer_address: &str, platform: Platform) -> (r: Self)
        ensures
            shown(r.file_name) == last_name(path@, platform),
            shown(r.peer_address) == Some(peer_address@),
    {
        EventContext {
            file_name: path_name(path, platform),
            peer_address: Some(string_copy(peer_address)),
        }
    }

    /// The receiving side learns the peer's address when it connects.
    pub fn on_accepted(&mut self, remote: &str)
        ensures
            shown(final(self).peer_address) == Some(remote@),
            final(self).file_name == old(self).file_name,
    {
        self.peer_address = Some(string_copy(remote));
    }

    /// The receiving side learns the name of the file from the offer.
    pub fn on_offer(&mut self, file_name: &str)
        ensures
            shown(final(self).file_name) == Some(file_name@),
            final(self).peer_address == old(self).peer_address,
    {
        self.file_name = Some(string_copy(file_name));
    }

    /// An event without progress.
    pub fn event(
        &self,
        direction: RsTransferDirection,
        phase: i32,
        status: RsTransferStatus,
        message: Option<String>,
    ) -> (r: RsProgressEvent)
        ensures
            r.direction == direction,
            r.phase == phase,
            r.transferred == 0,
            r.total == 0,
            r.speed == 0,
            r.status == status,
            r.message == message,
            r.peer_fingerprint is None,
            shown(r.file_name) == shown(self.file_name),
            shown(r.peer_address) == shown(self.peer_address),
    {
        RsProgressEvent {
            direction,
            phase,
            transferred: 0,
            total: 0,
            speed: 0,
            status,
            message,
            peer_fingerprint: None,
            file_name: copied(&self.file_name),
            peer_address: copied(&self.peer_address),
        }
    }

    /// The event that pairing has begun.
    pub fn pairing(&self, direction: RsTransferDirection) -> (r: RsProgressEvent)
        ensures
            r.direction == direction,
            r.phase == 0,
            r.transferred == 0,
            r.total == 0,
            r.speed == 0,
            r.status == RsTransferStatus::Pairing,
            r.message is None,
            r.peer_fingerprint is None,
            shown(r.file_name) == shown(self.file_name),
            shown(r.peer_address) == shown(self.peer_address),
    {
        self.event(direction, 0, RsTransferStatus::Pairing, None)
    }

    /// The event that a transfer is over: completed, or failed with an error.
    pub fn finished(&self, direction: RsTransferDirection, error: Option<String>) -> (r:
        RsProgressEvent)
        ensures
            r.direction == direction,
            r.phase == 2,
            r.transferred == 0,
            r.total == 0,
            r.speed == 0,
            r.status == (if error is None {
                RsTransferStatus::Completed
            } else {
                RsTransferStatus::Failed
            }),
            r.message == error,
            r.peer_fingerprint is None,
            shown(r.file_name) == shown(self.file_name),
            shown(r.peer_address) == shown(self.peer_address),
    {
        let status: RsTransferStatus = if error.is_none() {
            RsTransferStatus::Completed
        } else {
            RsTransferStatus::Failed
        };
        self.event(direction, 2, status, error)
    }

    /// The event of bytes transferred.
    pub fn progress(
        &self,
        direction: RsTransferDirection,
        transferred: u64,
        total: u64,
        speed: u64,
    ) -> (r: RsProgressEvent)
        ensures
            r.direction == direction,
            r.phase == 2,
            r.transferred == transferred,
            r.total == total,
            r.speed == speed,
            r.status == RsTransferStatus::Transferring,
            r.message is None,
            r.peer_fingerprint is None,
            shown(r.file_name) == shown(self.file_name),
            shown(r.peer_address) == shown(self.peer_address),
    {
        let mut e: RsProgressEvent = self.event(direction, 2, RsTransferStatus::Transferring, None);
        e.transferred = transferred;
        e.total = total;
        e.speed = speed;
        e
    }
}

/// The event that hands the fingerprint of a peer that was trusted on first use
/// to the front end, which keeps it for the next time.
pub fn fingerprint_event(fp: &Fingerprint) -> (r: RsProgressEvent)
    ensures
        r.direction == RsTransferDirection::Send,
        r.phase == 1,
        r.transferred == 0,
        r.total == 0,
        r.speed == 0,
        r.status == RsTransferStatus::Connecting,
        r.message is None,
        shown(r.peer_fingerprint) == Some(hex_chars(fp@)),
        r.file_name is None,
        r.peer_address is None,
{
    let mut e: RsProgressEvent = EventContext::unknown().event(
        RsTransferDirection::Send,
        1,
        RsTransferStatus::Connecting,
        None,
    );
    e.file_name = None;
    e.peer_address = None;
    e.peer_fingerprint = Some(encode_fingerprint_hex(fp));
    e
}

/// Shortest time between two progress events, in milliseconds.
pub const PROGRESS_INTERVAL_MS: u64 = 200;

/// Lets progress events through at most five times a second.
#[derive(Debug, Clone, Copy, PartialEq, Eq, Structural)]
pub struct ProgressThrottle {
    pub last_emit: u64,
    pub last_done: u64,
}

/// The speed between two events, in bytes per second.
pub open spec fn speed_between(before: u64, done: u64, elapsed_ms: int) -> nat {
    let bytes = if done > before {
        (done - before) as int
    } else {
        0
    };
    let speed = bytes * 1000 / elapsed_ms;
    if speed > u64::MAX {
        u64::MAX as nat
    } else {
        speed as nat
    }
}

impl ProgressThrottle {
    /// Whether it is time for an event.
    pub open spec fn shows(self, now: u64) -> bool {
        now - self.last_emit >= PROGRESS_INTERVAL_MS
    }

    /// The throttle after an update.
    pub open spec fn after(self, done: u64, now: u64) -> ProgressThrottle {
        if self.shows(now) {
            ProgressThrottle { last_emit: now, last_done: done }
        } else {
            self
        }
    }

    pub fn new(now: u64) -> (r: Self)
        ensures
            r == (ProgressThrottle { last_emit: now, last_done: 0 }),
    {
        ProgressThrottle { last_emit: now, last_done: 0 }
    }

    /// Takes the bytes done at `now`. Returns the speed since the last event
    /// where it is time for the next.
    pub fn on_update(&mut self, done: u64, now: u64) -> (r: Option<u64>)
        ensures
            r == (if old(self).shows(now) {
                Some(speed_between(old(self).last_done, done, now - old(self).last_emit) as u64)
            } else {
                None
            }),
            *final(self) == old(self).after(done, now),
    {
        let elapsed: u64 = now.saturating_sub(self.last_emit);
        if elapsed < PROGRESS_INTERVAL_MS {
            return None;
        }
        let bytes: u128 = done.saturating_sub(self.last_done) as u128;
        let speed: u128 = bytes * 1000 / elapsed as u128;
        self.last_emit = now;
        self.last_done = done;
        if speed > u64::MAX as u128 {
            Some(u64::MAX)
        } else {
            Some(speed as u64)
        }
    }
}

// ---------------------------------------------------------------- connecting

/// Where the way to a peer stands.
#[derive(Debug)]
pub enum ConnectStep {
    /// Resolve the address that was given.
    Resolve,
    /// Look for any peer.
    DiscoverAny,
    /// Look for the peer at this address, to learn its fingerprint.
    Discover { target: SocketAddr },
    /// Connect, and accept only this fingerprint.
    Pin { addr: SocketAddr, fingerprint: Fingerprint },
    /// Connect, and trust whatever fingerprint is shown.
    Trust { addr: SocketAddr },
    /// Send; the front end is told a fingerprint that was trusted on the way.
    Send { learned: Option<Fingerprint> },
    /// It failed.
    Failed { error: String },
}

/// What happened on the way to a peer.
#[derive(Debug)]
pub enum ConnectEvent {
    /// The address was resolved.
    Resolved(SocketAddr),
    /// A peer was found.
    Found(SocketAddr, Fingerprint),
    /// A connection stands; the peer showed this fingerprint.
    Connected(Fingerprint),
    /// The peer showed another fingerprint than the pinned one.
    Mismatch,
    /// Anything else went wrong.
    Error(String),
}

/// The fingerprint that the front end kept, where it is one.
pub open spec fn kept_fingerprint(cached: Option<Seq<char>>) -> Option<Seq<u8>> {
    match cached {
        Some(text) => fingerprint_written(text),
        None => None,
    }
}

/// Whether `s` is the step that follows `before` on `event`.
pub open spec fn follows(
    before: ConnectStep,
    event: ConnectEvent,
    cached: Option<Seq<char>>,
    s: ConnectStep,
) -> bool {
    match (before, event) {
        (ConnectStep::Resolve, ConnectEvent::Resolved(target)) => match kept_fingerprint(cached) {
            Some(fp) => s matches ConnectStep::Pin { addr, fingerprint } && addr == target
                && fingerprint@ == fp,
            None => s == (ConnectStep::Discover { target }),
        },
        (ConnectStep::DiscoverAny, ConnectEvent::Found(addr, fingerprint)) => s == (
        ConnectStep::Pin { addr, fingerprint }),
        (ConnectStep::Discover { .. }, ConnectEvent::Found(addr, fingerprint)) => s == (
        ConnectStep::Pin { addr, fingerprint }),
        (ConnectStep::Discover { target }, ConnectEvent::Error(_)) => s == (ConnectStep::Trust {
            addr: target,
        }),
        (ConnectStep::Pin { .. }, ConnectEvent::Connected(_)) => s == (ConnectStep::Send {
            learned: None,
        }),
        (ConnectStep::Pin { addr, .. }, ConnectEvent::Mismatch) => s == (ConnectStep::Trust {
            addr,
        }),
        (ConnectStep::Trust { .. }, ConnectEvent::Connected(fp)) => s == (ConnectStep::Send {
            learned: Some(fp),
        }),
        (ConnectStep::Send { learned }, _) => s == (ConnectStep::Send { learned }),
        (ConnectStep::Failed { error }, _) => s == (ConnectStep::Failed { error }),
        (_, ConnectEvent::Error(text)) => s == (ConnectStep::Failed { error: text }),
        (_, ConnectEvent::Mismatch) => s matches ConnectStep::Failed { error } && error@
            == "Peer fingerprint mismatch"@,
        (_, _) => s matches ConnectStep::Failed { error } && error@ == "unexpected event"@,
    }
}

impl ConnectStep {
    /// Where the way to a peer begins: with its address, or without one by
    /// looking for any peer.
    pub fn start(peer_address: &str) -> (r: Self)
        ensures
            peer_address@.len() == 0 ==> r is DiscoverAny,
            peer_address@.len() > 0 ==> r is Resolve,
    {
        if peer_address.unicode_len() == 0 {
            ConnectStep::DiscoverAny
        } else {
            ConnectStep::Resolve
        }
    }

    /// The step that follows. A fingerprint kept from an earlier connection is
    /// pinned at once; without one the peer is looked for to learn it; only
    /// where it is not found, or where it shows another than the pinned one,
    /// is it trusted unseen.
    pub fn next(self, event: ConnectEvent, cached: Option<&str>) -> (r: Self)
        ensures
            follows(
                self,
                event,
                match cached {
                    Some(c) => Some(c@),
                    None => None,
                },
                r,
            ),
    {
        match (self, event) {
            (ConnectStep::Resolve, ConnectEvent::Resolved(target)) => {
                let kept: Result<Fingerprint, ()> = match cached {
                    Some(text) => decode_fingerprint_hex(text),
                    None => Err(()),
                };
                match kept {
                    Ok(fingerprint) => ConnectStep::Pin { addr: target, fingerprint },
                    Err(()) => ConnectStep::Discover { target },
                }
            },
            (ConnectStep::DiscoverAny, ConnectEvent::Found(addr, fingerprint)) => ConnectStep::Pin {
                addr,
                fingerprint,
            },
            (ConnectStep::Discover { .. }, ConnectEvent::Found(addr, fingerprint)) =>
                ConnectStep::Pin { addr, fingerprint },
            (ConnectStep::Discover { target }, ConnectEvent::Error(_)) => ConnectStep::Trust {
                addr: target,
            },
            (ConnectStep::Pin { .. }, ConnectEvent::Connected(_)) => ConnectStep::Send {
                learned: None,
            },
            (ConnectStep::Pin { addr, .. }, ConnectEvent::Mismatch) => ConnectStep::Trust { addr },
            (ConnectStep::Trust { .. }, ConnectEvent::Connected(fp)) => ConnectStep::Send {
                learned: Some(fp),
            },
            (ConnectStep::Send { learned }, _) => ConnectStep::Send { learned },
            (ConnectStep::Failed { error }, _) => ConnectStep::Failed { error },
            (_, ConnectEvent::Error(text)) => ConnectStep::Failed { error: text },
            (_, ConnectEvent::Mismatch) => ConnectStep::Failed {
                error: "Peer fingerprint mismatch".to_owned(),
            },
            (_, _) => ConnectStep::Failed { error: "unexpected event".to_owned() },
        }
    }
}

/// A fingerprint is reported to the front end exactly where it was trusted
/// unseen: after a pinned connection none is.
pub proof fn law_learned_only_when_trusted(
    before: ConnectStep,
    event: ConnectEvent,
    cached: Option<Seq<char>>,
    s: ConnectStep,
)
    requires
        follows(before, event, cached, s),
        !(before is Send),
    ensures
        s matches ConnectStep::Send { learned } ==> (learned is Some <==> before is Trust) && (
        learned is None <==> before is Pin),
        s is Trust ==> (before is Discover && event is Error) || (before is Pin
            && event is Mismatch),
{
}

// ---------------------------------------------------------------- logging

/// The parts of a log line while they are collected.
pub struct FieldCollector {
    pub message: String,
    pub extras: Vec<String>,
}

/// Texts separated by spaces.
pub open spec fn spaced(parts: Seq<String>) -> Seq<char>
    decreases parts.len(),
{
    if parts.len() == 0 {
        Seq::empty()
    } else if parts.len() == 1 {
        parts[0]@
    } else {
        spaced(parts.drop_last()) + " "@ + parts.last()@
    }
}

impl FieldCollector {
    /// Nothing collected.
    pub fn new() -> (r: Self)
        ensures
            r.message@ == Seq::<char>::empty(),
            r.extras@ == Seq::<String>::empty(),
    {
        FieldCollector { message: String::new(), extras: Vec::new() }
    }

    /// Takes a field: the message itself, or another to be shown as
    /// `name=value`.
    pub fn record(&mut self, name: &str, value: &str)
        ensures
            name@ == "message"@ ==> final(self).message@ == value@ && final(self).extras@ == old(
                self,
            ).extras@,
            name@ != "message"@ ==> final(self).message@ == old(self).message@ && final(
                self).extras@.len() == old(self).extras@.len() + 1 && final(self).extras@.drop_last()
                == old(self).extras@ && final(self).extras@.last()@ == name@ + "="@ + value@,
    {
        if str_eq(name, "message") {
            self.message = string_copy(value);
        } else {
            let mut text: String = string_copy(name);
            text.append("=");
            text.append(value);
            self.extras.push(text);
            assert(self.extras@.drop_last() =~= old(self).extras@);
        }
    }

    /// The line: the message, then the other fields.
    pub fn finish(self) -> (r: String)
        ensures
            r@ == (if self.extras@.len() == 0 {
                self.message@
            } else if self.message@.len() == 0 {
                spaced(self.extras@)
            } else {
                self.message@ + " "@ + spaced(self.extras@)
            }),
    {
        let mut out = String::new();
        if self.extras.is_empty() {
            return self.message;
        }
        if self.message.as_str().unicode_len() > 0 {
            out.append(self.message.as_str());
            out.append(" ");
        }
        let ghost head = out@;
        let mut i: usize = 0;
        assert(self.extras@.take(0) =~= Seq::empty());
        assert(out@ =~= head + spaced(self.extras@.take(0)));
        while i < self.extras.len()
            invariant
                i <= self.extras@.len(),
                out@ == head + spaced(self.extras@.take(i as int)),
            decreases self.extras@.len() - i,
        {
            if i > 0 {
                out.append(" ");
            }
            out.append(self.extras[i].as_str());
            proof {
                let t = self.extras@.take(i + 1);
                assert(t.drop_last() =~= self.extras@.take(i as int));
                assert(t.last() == self.extras@[i as int]);
                if i == 0 {
                    assert(self.extras@.take(0) =~= Seq::empty());
                }
                assert(out@ =~= head + spaced(t));
            }
            i += 1;
        }
        assert(self.extras@.take(i as int) =~= self.extras@);
        assert(self.message@.len() == 0 ==> head =~= Seq::empty());
        assert(Seq::<char>::empty() + spaced(self.extras@) =~= spaced(self.extras@));
        out
    }
}

/// The speed shown is that of the bytes since the last event, to the byte per
/// second, where it fits into 64 bits; bytes that were taken back count as none.
pub proof fn law_speed_is_bytes_per_second(before: u64, done: u64, elapsed_ms: int)
    requires
        elapsed_ms > 0,
        done >= before,
    ensures
        ({
            let speed = speed_between(before, done, elapsed_ms);
            let bytes = done - before;
            &&& speed <= u64::MAX
            &&& speed * elapsed_ms <= bytes * 1000
            &&& speed < u64::MAX ==> bytes * 1000 < (speed + 1) * elapsed_ms
        }),
        speed_between(done, before, elapsed_ms) == 0,
{
    let n = (done - before) * 1000;
    let q = n / elapsed_ms;
    vstd::arithmetic::div_mod::lemma_fundamental_div_mod(n, elapsed_ms);
    assert(q * elapsed_ms <= n < (q + 1) * elapsed_ms) by (nonlinear_arith)
        requires
            n == elapsed_ms * q + n % elapsed_ms,
            0 <= n % elapsed_ms < elapsed_ms,
    ;
    if q > u64::MAX {
        let m = u64::MAX as int;
        assert(m * elapsed_ms <= q * elapsed_ms) by (nonlinear_arith)
            requires
                m <= q,
                elapsed_ms > 0,
        ;
    }
    assert(0int / elapsed_ms == 0) by (nonlinear_arith)
        requires
            elapsed_ms > 0,
    ;
}

/// Events come five times a second at most, and no update is held back for
/// longer: there is one exactly where the last is 200 milliseconds old or older,
/// and then the next is counted from there, in time and in bytes.
pub proof fn law_events_come_five_times_a_second(t: ProgressThrottle, done: u64, now: u64)
    ensures
        t.shows(now) <==> now >= t.last_emit + 200,
        t.shows(now) ==> t.after(done, now).last_emit == now && t.after(done, now).last_done == done,
        !t.shows(now) ==> t.after(done, now) == t,
        t.shows(now) ==> forall|later: u64|
            later < now + 200 ==> !(#[trigger] t.after(done, now).shows(later)),
{
}

/// A fingerprint that was kept is the only one accepted at first: it is pinned
/// as soon as the address is known. Without one that can be read the peer is
/// looked for, and the fingerprint that it announces is pinned; a peer that is
/// not found is connected to at the address that was given.
pub proof fn law_known_fingerprints_are_pinned(
    before: ConnectStep,
    event: ConnectEvent,
    cached: Option<Seq<char>>,
    s: ConnectStep,
    fp: Seq<u8>,
)
    requires
        follows(before, event, cached, s),
        fp.len() == 32,
    ensures
        before is Resolve && cached == Some(hex_chars(fp)) ==> (event matches ConnectEvent::Resolved(
            target,
        ) ==> (s matches ConnectStep::Pin { addr, fingerprint } && addr == target && fingerprint@
            == fp)),
        before is Resolve && cached is None ==> (event matches ConnectEvent::Resolved(target)
            ==> s == (ConnectStep::Discover { target })),
        before is Discover || before is DiscoverAny ==> (event matches ConnectEvent::Found(
            found,
            shown,
        ) ==> s == (ConnectStep::Pin { addr: found, fingerprint: shown })),
        before matches ConnectStep::Discover { target } ==> (event is Error ==> s == (
        ConnectStep::Trust { addr: target })),
        before matches ConnectStep::Pin { addr, .. } ==> (event is Mismatch ==> s == (
        ConnectStep::Trust { addr })),
        before is Trust ==> (event matches ConnectEvent::Connected(shown) ==> s == (
        ConnectStep::Send { learned: Some(shown) })),
        before is Pin && event is Connected ==> s == (ConnectStep::Send { learned: None }),
{
    law_fingerprints_are_read_back(fp, Seq::empty());
}

/// An error ends the way to a peer, in its own words, except where a peer that
/// is looked for is not found; and what has ended does not begin again.
pub proof fn law_errors_end_the_way(
    before: ConnectStep,
    event: ConnectEvent,
    cached: Option<Seq<char>>,
    s: ConnectStep,
)
    requires
        follows(before, event, cached, s),
    ensures
        before is Resolve || before is DiscoverAny || before is Pin || before is Trust ==> (
        event matches ConnectEvent::Error(text) ==> s == (ConnectStep::Failed { error: text })),
        before is Send ==> s == before,
        before is Failed ==> s == before,
        before is Trust && event is Mismatch ==> s is Failed,
        s is Send ==> before is Send || event is Connected,
{
}

/// The parameters of a transfer are as chosen: compression never for 0, always
/// for 2 and where it helps for anything else; chunks as large as chosen, but of
/// 64 KiB at least.
pub proof fn law_parameters_are_as_chosen(chunk_bytes: i32, compression: i32)
    ensures
        ({
            let c = config_for(chunk_bytes, compression);
            &&& compression == 0 <==> !c.compression_enabled
            &&& compression == 2 <==> !c.adaptive_compression
            &&& c.chunk_size >= 65536
            &&& chunk_bytes >= 65536 ==> c.chunk_size == chunk_bytes
            &&& 0 <= chunk_bytes < 65536 ==> c.chunk_size == 65536
            &&& c.compression_level == 3
            &&& c.bandwidth_limit == 0
        }),
{
}

/// Peers are listed one to a line: a list with one more peer is the list, a line
/// break, and the name of the peer, a tab and its address.
pub proof fn law_peers_are_listed_one_to_a_line(
    peers: Seq<(String, String)>,
    peer: (String, String),
)
    ensures
        peer_lines_text(Seq::empty()) == Seq::<char>::empty(),
        peer_lines_text(seq![peer]) == peer.0@ + seq!['\t'] + peer.1@,
        peers.len() > 0 ==> peer_lines_text(peers.push(peer)) == peer_lines_text(peers) + seq!['\n']
            + peer.0@ + seq!['\t'] + peer.1@,
{
    assert(peers.push(peer).drop_last() =~= peers);
    let line = peer.0@ + seq!['\t'] + peer.1@;
    assert(peer_lines_text(peers) + seq!['\n'] + peer.0@ + seq!['\t'] + peer.1@
        =~= peer_lines_text(peers) + seq!['\n'] + line);
}

/// A fingerprint that is handed to the front end and comes back is the same.
pub proof fn law_front_end_keeps_fingerprints(
    fp: Fingerprint,
    text: String,
    shown: &str,
    r: Result<Fingerprint, ()>,
    bytes: Vec<u8>,
    raw: Result<Fingerprint, String>,
)
    requires
        call_ensures(encode_fingerprint_hex, (&fp,), text),
        shown@ == text@,
        call_ensures(decode_fingerprint_hex, (shown,), r),
        call_ensures(fingerprint_from_bytes, (&bytes,), raw),
    ensures
        r is Ok && r->Ok_0@ == fp@,
        raw is Ok <==> bytes@.len() == 32,
        raw is Ok ==> raw->Ok_0@ == bytes@,
{
    law_fingerprints_are_read_back(fp@, text@);
}

/// A port that is given is used, and the default where none is.
pub proof fn law_given_ports_are_used(port: i32, default: u16, r: u16)
    requires
        call_ensures(port_or, (port, default), r),
    ensures
        0 < port <= 65535 ==> r == port,
        port <= 0 ==> r == default,
{
}

/// Nothing is received from a device that is on the list, and a device that is
/// not on it, or no list at all, stops nobody.
pub proof fn law_listed_devices_are_blocked(
    blocked: BlockedDevices,
    id: [u8; 16],
    r: Result<(), (String, String)>,
)
    requires
        call_ensures(BlockedDevices::screen, (&blocked, &id), r),
    ensures
        r is Err <==> blocked.ids is Some && exists|i: int|
            0 <= i < blocked.ids->0@.len() && (#[trigger] blocked.ids->0@[i])@ == id_chars(id@),
{
}

/// A log line has the message first and then the other fields in their order,
/// separated by single spaces, and nothing of it is lost.
pub proof fn law_log_lines_have_every_field(parts: Seq<String>, part: String)
    ensures
        spaced(Seq::empty()) == Seq::<char>::empty(),
        spaced(seq![part]) == part@,
        parts.len() > 0 ==> spaced(parts.push(part)) == spaced(parts) + seq![' '] + part@,
{
    reveal_strlit(" ");
    assert(parts.push(part).drop_last() =~= parts);
    assert(" "@ =~= seq![' ']);
}

/// Without an address any peer will do; with one it is resolved first. A log line
/// has its message first, and the message alone where there is nothing else.
pub proof fn law_ways_begin_with_the_address(
    address: &str,
    first: ConnectStep,
    fields: FieldCollector,
    line: String,
)
    requires
        call_ensures(ConnectStep::start, (address,), first),
        call_ensures(FieldCollector::finish, (fields,), line),
    ensures
        first is Resolve <==> address@.len() > 0,
        first is DiscoverAny <==> address@.len() == 0,
        fields.extras@.len() == 0 ==> line@ == fields.message@,
        fields.message@.len() == 0 ==> line@ == spaced(fields.extras@),
        fields.message@.len() > 0 && fields.extras@.len() > 0 ==> line@ == fields.message@ + seq![' ']
            + spaced(fields.extras@),
{
    reveal_strlit(" ");
    assert(" "@ =~= seq![' ']);
    if fields.extras@.len() == 0 && fields.message@.len() == 0 {
        assert(line@ =~= spaced(fields.extras@));
    }
}

} // verus!
