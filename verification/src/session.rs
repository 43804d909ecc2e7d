//! Sessions between two peers: who opens them, what they remember, and when a
//! broken one is tried again.

use vstd::prelude::*;
use vstd::string::*;

use crate::codec::be_value;
use crate::error::{Error, Result};
use crate::handshake::HandshakeResult;
use crate::identity::Fingerprint;
use crate::ids::{
    comes_before, id_less, law_identifiers_are_ordered_as_numbers, law_one_comes_first,
};
use crate::net::{IpAddr, SocketAddr};
use crate::protocol::{ConfigMessage, FileMetadata};
use crate::random::random_uuid;
use crate::reconnect::ReconnectConfig;
use crate::text::{bytes_eq, decimal, push_decimal, string_copy};
use crate::transfer_folder::{FolderTransferState, TransferSummary};

verus! {

/// How long a handshake may take, in seconds.
pub const HANDSHAKE_TIMEOUT_SECS: u64 = 30;

/// What a session remembers of its peer.
#[derive(Clone, Copy)]
pub struct P2PSession {
    pub session_id: [u8; 16],
    pub device_id: [u8; 16],
    pub handshake: HandshakeResult,
    /// Whom this side dialled; `None` where it was dialled, or where the two
    /// met through a rendezvous server, whose codes work only once.
    pub initiator_target: Option<(SocketAddr, Fingerprint)>,
}

impl P2PSession {
    /// A session of this side with the peer it dialled.
    pub fn dialled(
        session_id: [u8; 16],
        device_id: [u8; 16],
        handshake: HandshakeResult,
        peer_addr: SocketAddr,
        peer_fingerprint: Fingerprint,
    ) -> (r: Self)
        ensures
            r.session_id == session_id,
            r.device_id == device_id,
            r.handshake == handshake,
            r.initiator_target == Some((peer_addr, peer_fingerprint)),
    {
        P2PSession {
            session_id,
            device_id,
            handshake,
            initiator_target: Some((peer_addr, peer_fingerprint)),
        }
    }

    /// A session with a peer that dialled this side, or that was met through a
    /// rendezvous server.
    pub fn met(session_id: [u8; 16], device_id: [u8; 16], handshake: HandshakeResult) -> (r: Self)
        ensures
            r.session_id == session_id,
            r.device_id == device_id,
            r.handshake == handshake,
            r.initiator_target is None,
    {
        P2PSession { session_id, device_id, handshake, initiator_target: None }
    }

    pub fn session_id(&self) -> (r: [u8; 16])
        ensures
            r == self.session_id,
    {
        self.session_id
    }

    pub fn device_id(&self) -> (r: [u8; 16])
        ensures
            r == self.device_id,
    {
        self.device_id
    }

    pub fn peer_device_id(&self) -> (r: [u8; 16])
        ensures
            r == self.handshake.peer_device_id,
    {
        self.handshake.peer_device_id
    }

    pub fn peer_fingerprint(&self) -> (r: Fingerprint)
        ensures
            r == self.handshake.peer_fingerprint,
    {
        self.handshake.peer_fingerprint
    }

    pub fn config(&self) -> (r: &ConfigMessage)
        ensures
            *r == self.handshake.config,
    {
        &self.handshake.config
    }

    /// The address that a peer was given as: an address with a port, or one
    /// without that gets `port`. What the text reads as is told by the caller.
    pub fn parse_peer_addr(
        addr_str: &str,
        as_socket: Option<SocketAddr>,
        as_ip: Option<IpAddr>,
        port: u16,
    ) -> (r: Result<SocketAddr>)
        ensures
            match (as_socket, as_ip) {
                (Some(sa), _) => r == Ok::<SocketAddr, Error>(sa),
                (None, Some(ip)) => r == Ok::<SocketAddr, Error>(SocketAddr { ip, port }),
                (None, None) => r matches Err(Error::Protocol(m)) && m@ == "invalid peer address '"@
                    + addr_str@ + "'"@,
            },
    {
        match as_socket {
            Some(sa) => Ok(sa),
            None => match as_ip {
                Some(ip) => Ok(SocketAddr { ip, port }),
                None => {
                    let mut m = "invalid peer address '".to_owned();
                    m.append(addr_str);
                    m.append("'");
                    Err(Error::Protocol(m))
                },
            },
        }
    }

    /// The address that a peer's name resolved to: the first.
    pub fn resolve_peer_addr(addr_str: &str, hosts: &Vec<SocketAddr>) -> (r: Result<SocketAddr>)
        ensures
            if hosts@.len() > 0 {
                r == Ok::<SocketAddr, Error>(hosts@[0])
            } else {
                r matches Err(Error::Protocol(m)) && m@ == "could not resolve peer address '"@
                    + addr_str@ + "'"@
            },
    {
        if hosts.len() > 0 {
            Ok(hosts[0])
        } else {
            let mut m = "could not resolve peer address '".to_owned();
            m.append(addr_str);
            m.append("'");
            Err(Error::Protocol(m))
        }
    }

    /// Whom to dial again; only the side that dialled can.
    pub fn reconnect_target(&self) -> (r: Result<(SocketAddr, Fingerprint)>)
        ensures
            match self.initiator_target {
                Some(target) => r == Ok::<(SocketAddr, Fingerprint), Error>(target),
                None => r matches Err(Error::Protocol(m)) && m@
                    == "Only initiator sessions can reconnect"@,
            },
    {
        match self.initiator_target {
            Some(target) => Ok(target),
            None => Err(Error::Protocol("Only initiator sessions can reconnect".to_owned())),
        }
    }

    /// Whether this side may listen for the next peer; only the side that was
    /// dialled can.
    pub fn check_reaccept(&self) -> (r: Result<()>)
        ensures
            r is Ok <==> self.initiator_target is None,
            r matches Err(e) ==> e matches Error::Protocol(m) && m@
                == "reaccept() is only valid for responder sessions"@,
    {
        if self.initiator_target.is_some() {
            return Err(
                Error::Protocol("reaccept() is only valid for responder sessions".to_owned()),
            );
        }
        Ok(())
    }

    /// The session after its connection was replaced.
    pub fn renewed(&mut self, handshake: HandshakeResult)
        ensures
            *final(self) == (P2PSession { handshake, ..*old(self) }),
    {
        self.handshake = handshake;
    }
}

/// Whether this side opens the handshake: where its identifier comes first, or
/// where the two are the same and `tiebreak` says so.
pub open spec fn opens_handshake(
    device_id: Seq<u8>,
    peer_device_id: Seq<u8>,
    tiebreak: bool,
) -> bool {
    if device_id != peer_device_id {
        comes_before(device_id, peer_device_id)
    } else {
        tiebreak
    }
}

/// Whether this side opens the handshake with a peer met through a rendezvous
/// server, where `tiebreak` decides between two devices with the same
/// identifier.
pub fn initiates(device_id: &[u8; 16], peer_device_id: &[u8; 16], tiebreak: bool) -> (r: bool)
    ensures
        r == opens_handshake(device_id@, peer_device_id@, tiebreak),
{
    if bytes_eq(device_id.as_slice(), peer_device_id.as_slice()) {
        tiebreak
    } else {
        id_less(device_id, peer_device_id)
    }
}

/// Whether this side opens the handshake with a peer met through a rendezvous
/// server; a coin is tossed between two devices with the same identifier.
pub fn we_initiate(device_id: &[u8; 16], peer_device_id: &[u8; 16]) -> (r: bool)
    ensures
        device_id@ != peer_device_id@ ==> r == comes_before(device_id@, peer_device_id@),
{
    let first: [u8; 16] = random_uuid();
    let second: [u8; 16] = random_uuid();
    initiates(device_id, peer_device_id, id_less(&first, &second))
}

/// Of two devices with different identifiers that meet through a rendezvous
/// server exactly one opens the handshake, whatever the coins say.
pub proof fn law_exactly_one_initiates(a: Seq<u8>, b: Seq<u8>)
    requires
        a.len() == b.len(),
        a != b,
    ensures
        comes_before(a, b) <==> !comes_before(b, a),
{
    law_one_comes_first(a, b);
}

/// What follows from a failed attempt to send. In either case the progress is
/// saved first.
#[derive(Debug)]
pub enum AfterFailure {
    /// End with this error.
    GiveUp(Error),
    /// Wait, connect again, and send as this attempt.
    Retry { delay_secs: u64, attempt: u32 },
}

/// Whether `r` follows from a failed attempt.
pub open spec fn follows_failure(
    config: ReconnectConfig,
    attempt: u32,
    error: Error,
    shown: Seq<char>,
    r: AfterFailure,
) -> bool {
    if !error.recoverable() {
        r == AfterFailure::GiveUp(error)
    } else if config.retries_after(attempt as nat) {
        r == (AfterFailure::Retry {
            delay_secs: config.delay_after(attempt as nat) as u64,
            attempt: (attempt + 1) as u32,
        })
    } else {
        r matches AfterFailure::GiveUp(Error::Protocol(m)) && m@ == "Transfer failed after "@
            + decimal((attempt + 1) as nat) + " attempts: "@ + shown
    }
}

/// Decides on a failed attempt: an error that a new connection cannot cure
/// ends the transfer; another ends it once the attempts are used up. `shown`
/// is the error as it is shown.
pub fn after_failure(config: &ReconnectConfig, attempt: u32, error: Error, shown: &str) -> (r:
    AfterFailure)
    requires
        attempt < u32::MAX,
    ensures
        follows_failure(*config, attempt, error, shown@, r),
{
    if !error.is_recoverable() {
        return AfterFailure::GiveUp(error);
    }
    match config.next_delay(attempt) {
        Some(delay_secs) => AfterFailure::Retry { delay_secs, attempt: attempt + 1 },
        None => {
            let mut m = "Transfer failed after ".to_owned();
            push_decimal(&mut m, attempt as u64 + 1);
            m.append(" attempts: ");
            m.append(shown);
            AfterFailure::GiveUp(Error::Protocol(m))
        },
    }
}

/// The error for a path that is not there.
pub fn missing_path(shown: &str) -> (e: Error)
    ensures
        e matches Error::Protocol(m) && m@ == "Path does not exist: "@ + shown@,
{
    Error::Protocol("Path does not exist: ".to_owned().concat(shown))
}

/// Where a transfer starts: from the saved state where there is one, under its
/// identifier; else from nothing, under a new identifier.
pub fn starting_point(
    saved: Option<FolderTransferState>,
    fresh_id: [u8; 16],
    config: &ConfigMessage,
) -> (r: (FolderTransferState, [u8; 16]))
    ensures
        match saved {
            Some(state) => r.0 == state && r.1 == (if state.files@.len() == 0 {
                fresh_id
            } else {
                state.transfer_id
            }),
            None => {
                &&& r.0.transfer_id == fresh_id
                &&& r.0.files@.len() == 0
                &&& r.0.completed_files@.len() == 0
                &&& r.0.current_file is None
                &&& r.0.folder_name@.len() == 0
                &&& r.0.total_bytes == 0
                &&& r.0.transferred_bytes == 0
                &&& r.0.file_chunks@.len() == 0
                &&& r.0.config == *config
                &&& r.1 == fresh_id
            },
        },
{
    let state: FolderTransferState = match saved {
        Some(state) => state,
        None => FolderTransferState::new(fresh_id, String::new(), Vec::new(), config),
    };
    let id: [u8; 16] = if state.files.is_empty() {
        fresh_id
    } else {
        state.transfer_id
    };
    (state, id)
}

/// Sums a finished transfer up on the sending side; `sent_before` is what
/// earlier sessions sent.
pub fn sent_summary(state: &FolderTransferState, sent_before: u64) -> (r: TransferSummary)
    ensures
        r.root_name@ == state.folder_name@,
        r.files@.map_values(|p: String| p@) == state.files@.map_values(|f: FileMetadata| f.path@),
        r.bytes == (if sent_before <= state.total_bytes {
            state.total_bytes - sent_before
        } else {
            0
        }),
{
    let mut files: Vec<String> = Vec::new();
    let mut i: usize = 0;
    while i < state.files.len()
        invariant
            i <= state.files@.len(),
            files@.len() == i,
            forall|j: int| 0 <= j < i ==> (#[trigger] files@[j])@ == state.files@[j].path@,
        decreases state.files@.len() - i,
    {
        files.push(string_copy(state.files[i].path.as_str()));
        i += 1;
    }
    assert(files@.map_values(|p: String| p@) =~= state.files@.map_values(
        |f: FileMetadata| f.path@,
    ));
    TransferSummary {
        root_name: string_copy(state.folder_name.as_str()),
        files,
        bytes: state.total_bytes.saturating_sub(sent_before),
    }
}

/// Two devices settle who opens the handshake without talking: the coins do not
/// matter where their identifiers differ, and one of the two, the one whose
/// identifier is the smaller number, opens it. Where they are the same each
/// goes by its coin.
pub proof fn law_devices_settle_who_opens(a: Seq<u8>, b: Seq<u8>, coin: bool, other: bool)
    requires
        a.len() == b.len(),
    ensures
        a != b ==> opens_handshake(a, b, coin) == opens_handshake(a, b, other),
        a != b ==> opens_handshake(a, b, coin) != opens_handshake(b, a, other),
        a != b ==> (opens_handshake(a, b, coin) <==> be_value(a) < be_value(b)),
        opens_handshake(a, a, coin) == coin,
{
    law_one_comes_first(a, b);
    law_identifiers_are_ordered_as_numbers(a, b);
}

/// A transfer that fails is tried again as often as was allowed and no more:
/// of `n` attempts the last one that fails ends it, and only what a new
/// connection can cure is tried again at all. Each wait is the one configured
/// for that attempt, and the next attempt is counted.
pub proof fn law_attempts_end(
    config: ReconnectConfig,
    attempt: u32,
    error: Error,
    shown: Seq<char>,
    r: AfterFailure,
)
    requires
        follows_failure(config, attempt, error, shown, r),
        attempt < u32::MAX,
    ensures
        r is Retry <==> (error is Network || error is Timeout || error is Disconnected
            || error is Quic || error is HolePunchFailed) && (config.max_attempts == 0 || attempt + 1
            < config.max_attempts),
        r matches AfterFailure::Retry { delay_secs, attempt: next } ==> next == attempt + 1
            && delay_secs <= (if config.initial_backoff_secs > config.max_backoff_secs {
            config.initial_backoff_secs
        } else {
            config.max_backoff_secs
        }) && delay_secs == config.delay_after(attempt as nat),
        r is GiveUp && !(error is Network || error is Timeout || error is Disconnected
            || error is Quic || error is HolePunchFailed) ==> r == AfterFailure::GiveUp(error),
{
}

/// An address with a port is dialled as it is, one without at the port given,
/// and what is no address is refused.
pub proof fn law_peers_are_dialled_where_given(
    text: &str,
    as_socket: Option<SocketAddr>,
    as_ip: Option<IpAddr>,
    port: u16,
    r: Result<SocketAddr>,
)
    requires
        call_ensures(P2PSession::parse_peer_addr, (text, as_socket, as_ip, port), r),
    ensures
        as_socket is Some ==> r is Ok && r->Ok_0 == as_socket->0,
        as_socket is None && as_ip is Some ==> r is Ok && r->Ok_0.ip == as_ip->0 && r->Ok_0.port
            == port,
        as_socket is None && as_ip is None ==> r is Err,
{
}

/// After a session broke exactly one side calls the other again: the one that
/// dialled can dial the same peer, pinned to the same certificate, and cannot
/// listen; the other can listen and has nobody to dial.
pub proof fn law_one_side_calls_again(
    session: P2PSession,
    again: Result<(SocketAddr, Fingerprint)>,
    listen: Result<()>,
)
    requires
        call_ensures(P2PSession::reconnect_target, (&session,), again),
        call_ensures(P2PSession::check_reaccept, (&session,), listen),
    ensures
        again is Ok <==> listen is Err,
        again is Ok ==> session.initiator_target == Some(again->Ok_0),
{
}

/// A transfer goes on where it stopped: saved progress is taken up as it is and
/// under the identifier it has; without any a transfer begins with nothing done,
/// under the new identifier and with the parameters given.
pub proof fn law_saved_progress_is_taken_up(
    saved: Option<FolderTransferState>,
    fresh_id: [u8; 16],
    config: ConfigMessage,
    r: (FolderTransferState, [u8; 16]),
)
    requires
        call_ensures(starting_point, (saved, fresh_id, &config), r),
    ensures
        saved is Some ==> r.0 == saved->0,
        saved is Some && saved->0.files@.len() > 0 ==> r.1 == saved->0.transfer_id,
        saved is None ==> r.1 == fresh_id && r.0.transfer_id == fresh_id && r.0.config == config
            && r.0.files@.len() == 0 && r.0.completed_files@.len() == 0 && r.0.transferred_bytes
            == 0,
{
}

/// What was sent in this session and what was sent before are all there was to
/// send, and the summary names every file.
pub proof fn law_sent_bytes_add_up(state: FolderTransferState, sent_before: u64, r: TransferSummary)
    requires
        call_ensures(sent_summary, (&state, sent_before), r),
        sent_before <= state.total_bytes,
    ensures
        r.bytes + sent_before == state.total_bytes,
        r.files@.len() == state.files@.len(),
        forall|i: int|
            0 <= i < state.files@.len() ==> (#[trigger] r.files@[i])@ == state.files@[i].path@,
        r.root_name@ == state.folder_name@,
{
    let a = r.files@.map_values(|p: String| p@);
    let b = state.files@.map_values(|f: FileMetadata| f.path@);
    assert(a.len() == b.len());
    assert forall|i: int| 0 <= i < state.files@.len() implies (#[trigger] r.files@[i])@
        == state.files@[i].path@ by {
        assert(a[i] == b[i]);
    }
}

/// A name is dialled at the first address that it resolves to.
pub proof fn law_first_address_is_dialled(text: &str, hosts: Vec<SocketAddr>, r: Result<SocketAddr>)
    requires
        call_ensures(P2PSession::resolve_peer_addr, (text, &hosts), r),
    ensures
        r is Ok <==> hosts@.len() > 0,
        r is Ok ==> r->Ok_0 == hosts@[0],
{
}

/// Whoever dialled can dial the same peer again, and only the certificate it had
/// is accepted then; whoever was dialled, or met the peer elsewhere, waits for
/// the next.
pub proof fn law_dialled_peers_are_dialled_again(
    id: [u8; 16],
    device: [u8; 16],
    handshake: HandshakeResult,
    addr: SocketAddr,
    fingerprint: Fingerprint,
    dialled: P2PSession,
    met: P2PSession,
    again: Result<(SocketAddr, Fingerprint)>,
    listen: Result<()>,
)
    requires
        call_ensures(P2PSession::dialled, (id, device, handshake, addr, fingerprint), dialled),
        call_ensures(P2PSession::met, (id, device, handshake), met),
        call_ensures(P2PSession::reconnect_target, (&dialled,), again),
        call_ensures(P2PSession::check_reaccept, (&met,), listen),
    ensures
        again == Ok::<(SocketAddr, Fingerprint), Error>((addr, fingerprint)),
        listen is Ok,
        dialled.handshake == handshake,
        met.handshake == handshake,
{
}

} // verus!
