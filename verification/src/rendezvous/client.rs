//! The peer's side of the rendezvous: what the server's answer means.

use vstd::prelude::*;
use vstd::string::*;

use crate::net::SocketAddr;
use crate::rendezvous::protocol::Message;

verus! {

/// How to reach the other peer directly.
#[derive(Debug, Clone, Copy)]
pub struct PeerInfo {
    pub endpoint: SocketAddr,
    pub fingerprint: [u8; 32],
    pub device_id: [u8; 16],
}

/// How to reach the other peer through the relay.
#[derive(Debug, Clone, Copy)]
pub struct RelayInfo {
    pub relay_endpoint: SocketAddr,
    pub session_token: [u8; 16],
    pub peer_fingerprint: [u8; 32],
    pub peer_device_id: [u8; 16],
}

/// What the server answered.
#[derive(Debug, Clone, Copy)]
pub enum MatchOutcome {
    Direct(PeerInfo),
    Relay(RelayInfo),
}

/// Why no peer was found.
#[derive(Debug)]
pub enum ClientError {
    /// The server could not be reached.
    Connect(String),
    /// The connection to the server broke.
    Wire(String),
    /// The server did not answer in time.
    Timeout,
    /// No other peer came in time.
    Expired,
    /// The server refused the request.
    Rejected(String),
    /// The server sent something a server does not send.
    UnexpectedFromServer(String),
}

impl ClientError {
    /// The error as it is shown.
    pub open spec fn shown(self) -> Seq<char> {
        match self {
            ClientError::Connect(m) => "rendezvous connect failed: "@ + m@,
            ClientError::Wire(m) => "rendezvous wire: "@ + m@,
            ClientError::Timeout => "rendezvous timed out waiting for peer"@,
            ClientError::Expired => "rendezvous code expired before peer arrived"@,
            ClientError::Rejected(m) => "rendezvous rejected: "@ + m@,
            ClientError::UnexpectedFromServer(m) =>
                "unexpected message from rendezvous server: "@ + m@,
        }
    }

    /// The error as it is shown.
    pub fn message(&self) -> (r: String)
        ensures
            r@ == self.shown(),
    {
        match self {
            ClientError::Connect(m) => "rendezvous connect failed: ".to_owned().concat(m.as_str()),
            ClientError::Wire(m) => "rendezvous wire: ".to_owned().concat(m.as_str()),
            ClientError::Timeout => "rendezvous timed out waiting for peer".to_owned(),
            ClientError::Expired => "rendezvous code expired before peer arrived".to_owned(),
            ClientError::Rejected(m) => "rendezvous rejected: ".to_owned().concat(m.as_str()),
            ClientError::UnexpectedFromServer(m) =>
                "unexpected message from rendezvous server: ".to_owned().concat(m.as_str()),
        }
    }
}

/// What the server's answer to a registration means.
pub open spec fn means(response: Message, r: Result<MatchOutcome, ClientError>) -> bool {
    match response {
        Message::Match { peer_endpoint, peer_fingerprint, peer_device_id } => r == Ok::<
            MatchOutcome,
            ClientError,
        >(
            MatchOutcome::Direct(
                PeerInfo {
                    endpoint: peer_endpoint,
                    fingerprint: peer_fingerprint,
                    device_id: peer_device_id,
                },
            ),
        ),
        Message::RelayMatch {
            relay_endpoint,
            relay_session_token,
            peer_fingerprint,
            peer_device_id,
        } => r == Ok::<MatchOutcome, ClientError>(
            MatchOutcome::Relay(
                RelayInfo {
                    relay_endpoint,
                    session_token: relay_session_token,
                    peer_fingerprint,
                    peer_device_id,
                },
            ),
        ),
        Message::Expired => r == Err::<MatchOutcome, ClientError>(ClientError::Expired),
        Message::Rejected { reason } => r == Err::<MatchOutcome, ClientError>(
            ClientError::Rejected(reason),
        ),
        Message::Register(_) => r matches Err(ClientError::UnexpectedFromServer(m)) && m@
            == "Register frame from server"@,
    }
}

/// Takes the server's answer to a registration.
pub fn outcome_of(response: Message) -> (r: Result<MatchOutcome, ClientError>)
    ensures
        means(response, r),
{
    match response {
        Message::Match { peer_endpoint, peer_fingerprint, peer_device_id } => Ok(
            MatchOutcome::Direct(
                PeerInfo {
                    endpoint: peer_endpoint,
                    fingerprint: peer_fingerprint,
                    device_id: peer_device_id,
                },
            ),
        ),
        Message::RelayMatch {
            relay_endpoint,
            relay_session_token,
            peer_fingerprint,
            peer_device_id,
        } => Ok(
            MatchOutcome::Relay(
                RelayInfo {
                    relay_endpoint,
                    session_token: relay_session_token,
                    peer_fingerprint,
                    peer_device_id,
                },
            ),
        ),
        Message::Expired => Err(ClientError::Expired),
        Message::Rejected { reason } => Err(ClientError::Rejected(reason)),
        Message::Register(_) => Err(
            ClientError::UnexpectedFromServer("Register frame from server".to_owned()),
        ),
    }
}

/// Takes the outcome for a caller that can only connect directly.
pub fn direct_only(outcome: Result<MatchOutcome, ClientError>) -> (r: Result<PeerInfo, ClientError>)
    ensures
        match outcome {
            Ok(MatchOutcome::Direct(p)) => r == Ok::<PeerInfo, ClientError>(p),
            Ok(MatchOutcome::Relay(_)) => r matches Err(ClientError::UnexpectedFromServer(m)) && m@
                == "rendezvous returned RelayMatch but caller used the direct-only register() helper"@,
            Err(e) => r == Err::<PeerInfo, ClientError>(e),
        },
{
    match outcome {
        Ok(MatchOutcome::Direct(p)) => Ok(p),
        Ok(MatchOutcome::Relay(_)) => Err(
            ClientError::UnexpectedFromServer(
                "rendezvous returned RelayMatch but caller used the direct-only register() helper".to_owned(),
            ),
        ),
        Err(e) => Err(e),
    }
}

/// What a server answers is understood: a match is a peer to reach directly, a
/// relayed one a peer to reach through the relay, each with what it says of the
/// peer; everything else is an error. One who can only connect directly takes
/// only the first.
pub proof fn law_answers_are_understood(
    response: Message,
    r: Result<MatchOutcome, ClientError>,
    direct: Result<PeerInfo, ClientError>,
)
    requires
        means(response, r),
        call_ensures(direct_only, (r,), direct),
    ensures
        r is Ok <==> response is Match || response is RelayMatch,
        direct is Ok <==> response is Match,
        response matches Message::Match { peer_endpoint, peer_fingerprint, peer_device_id } ==> (
        direct matches Ok(p) && p.endpoint == peer_endpoint && p.fingerprint == peer_fingerprint
            && p.device_id == peer_device_id),
        response matches Message::RelayMatch {
            relay_endpoint,
            relay_session_token,
            peer_fingerprint,
            peer_device_id,
        } ==> (r matches Ok(MatchOutcome::Relay(i)) && i.relay_endpoint == relay_endpoint
            && i.session_token == relay_session_token && i.peer_fingerprint == peer_fingerprint
            && i.peer_device_id == peer_device_id),
        response is Expired ==> r->Err_0 is Expired,
        response is Rejected ==> r->Err_0 is Rejected,
{
}

} // verus!
