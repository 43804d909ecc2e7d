//! Messages between a peer and the rendezvous server.

use vstd::prelude::*;

use crate::net::SocketAddr;
use crate::text::string_copy;

verus! {

/// Rendezvous protocol version; both sides have to speak the same.
pub const PROTOCOL_VERSION: u8 = 1;

/// Default TCP port of the server.
pub const DEFAULT_PORT: u16 = 14570;

/// How long a code waits for its second peer, in milliseconds.
pub const DEFAULT_CODE_TTL_MS: u64 = 300_000;

/// Most connections handled at the same time.
pub const DEFAULT_MAX_CONCURRENT: usize = 1024;

/// A peer's wish to be paired with whoever uses the same code.
#[derive(Debug, Clone)]
pub struct RegisterRequest {
    pub protocol_version: u8,
    pub code: String,
    /// The UDP endpoint at which the peer believes it can be reached.
    pub public_endpoint: SocketAddr,
    pub cert_fingerprint: [u8; 32],
    pub device_id: [u8; 16],
    /// Set by a peer that cannot be reached directly.
    pub want_relay: bool,
}

/// A registration as a value.
pub ghost struct RegisterView {
    pub protocol_version: u8,
    pub code: Seq<char>,
    pub public_endpoint: SocketAddr,
    pub cert_fingerprint: Seq<u8>,
    pub device_id: Seq<u8>,
    pub want_relay: bool,
}

impl View for RegisterRequest {
    type V = RegisterView;

    open spec fn view(&self) -> RegisterView {
        RegisterView {
            protocol_version: self.protocol_version,
            code: self.code@,
            public_endpoint: self.public_endpoint,
            cert_fingerprint: self.cert_fingerprint@,
            device_id: self.device_id@,
            want_relay: self.want_relay,
        }
    }
}

impl RegisterRequest {
    /// A copy of this registration.
    pub fn copied(&self) -> (r: Self)
        ensures
            r@ == self@,
    {
        RegisterRequest {
            protocol_version: self.protocol_version,
            code: string_copy(self.code.as_str()),
            public_endpoint: self.public_endpoint,
            cert_fingerprint: self.cert_fingerprint,
            device_id: self.device_id,
            want_relay: self.want_relay,
        }
    }
}

/// A message between a peer and the server.
#[derive(Debug, Clone)]
pub enum Message {
    /// Peer to server.
    Register(RegisterRequest),
    /// Server to peer: how to reach the other peer.
    Match { peer_endpoint: SocketAddr, peer_fingerprint: [u8; 32], peer_device_id: [u8; 16] },
    /// Server to peer: how to reach the other peer through the relay.
    RelayMatch {
        relay_endpoint: SocketAddr,
        relay_session_token: [u8; 16],
        peer_fingerprint: [u8; 32],
        peer_device_id: [u8; 16],
    },
    /// Server to peer: no other peer came in time.
    Expired,
    /// Server to peer: the request was refused.
    Rejected { reason: String },
}

} // verus!
