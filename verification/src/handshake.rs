//! The handshake that opens a session.
//!
//! ```text
//! client            server
//!   Hello     ->
//!             <-    HelloAck
//!   Config    ->
//!             <-    ConfigAck
//! ```
//!
//! Each side checks the other's version, and that the fingerprint it claims
//! is the one of the certificate that the TLS layer saw.

use vstd::prelude::*;
use vstd::string::*;

use crate::error::{Error, Result};
use crate::identity::Fingerprint;
use crate::protocol::{
    unexpected, unexpected_text, ConfigMessage, HelloMessage, Message, TransferInfo,
    MIN_PROTOCOL_VERSION, PROTOCOL_VERSION,
};
use crate::text::bytes_eq;

verus! {

/// What both sides know once the handshake is done.
#[derive(Debug, Clone, Copy)]
pub struct HandshakeResult {
    pub peer_device_id: [u8; 16],
    pub peer_fingerprint: Fingerprint,
    pub config: ConfigMessage,
}

/// Whether the TLS layer saw a certificate, and the one that is claimed.
pub open spec fn fingerprint_confirmed(claimed: Seq<u8>, observed: Option<Fingerprint>) -> bool {
    observed matches Some(actual) && actual@ == claimed
}

/// Checks the fingerprint a peer claims against the one the TLS layer saw.
pub fn cross_check_fingerprint(claimed: Fingerprint, observed: Option<Fingerprint>) -> (r: Result<
    (),
>)
    ensures
        r is Ok <==> fingerprint_confirmed(claimed@, observed),
        r matches Err(e) ==> e is FingerprintMismatch,
{
    match observed {
        Some(actual) => if bytes_eq(actual.as_slice(), claimed.as_slice()) {
            Ok(())
        } else {
            Err(Error::FingerprintMismatch)
        },
        None => Err(Error::FingerprintMismatch),
    }
}

/// The introduction that a device sends.
pub open spec fn own_hello(device_id: Seq<u8>, fingerprint: Seq<u8>, h: HelloMessage) -> bool {
    &&& h.protocol_version == PROTOCOL_VERSION
    &&& h.min_version == MIN_PROTOCOL_VERSION
    &&& h.device_id@ == device_id
    &&& h.cert_fingerprint@ == fingerprint
}

/// Whether an introduction is accepted, and with which error it is not.
pub open spec fn hello_verdict(h: HelloMessage, observed: Option<Fingerprint>, r: Result<()>) -> bool {
    if h.protocol_version != PROTOCOL_VERSION {
        r matches Err(Error::VersionMismatch { peer, ours }) && peer == h.protocol_version && ours
            == PROTOCOL_VERSION
    } else if !fingerprint_confirmed(h.cert_fingerprint@, observed) {
        r matches Err(e) && e is FingerprintMismatch
    } else {
        r is Ok
    }
}

fn check_hello(h: &HelloMessage, observed: Option<Fingerprint>) -> (r: Result<()>)
    ensures
        hello_verdict(*h, observed, r),
{
    if h.protocol_version != PROTOCOL_VERSION {
        return Err(
            Error::VersionMismatch { peer: h.protocol_version, ours: PROTOCOL_VERSION },
        );
    }
    cross_check_fingerprint(h.cert_fingerprint, observed)
}

fn refused(what: &str, reason: &str) -> (e: Error)
    ensures
        e matches Error::Protocol(m) && m@ == what@ + reason@,
{
    let mut m = what.to_owned();
    m.append(reason);
    Error::Protocol(m)
}

/// What the connecting side makes of the answer to its first message.
pub open spec fn answer_taken(
    reply: Message,
    shown: Seq<char>,
    observed: Option<Fingerprint>,
    config: ConfigMessage,
    r: Result<(HelloMessage, Message)>,
) -> bool {
    match reply {
        Message::HelloAck(h) => match r {
            Ok((peer, next)) => hello_verdict(h, observed, Ok(())) && peer == h && next
                == Message::Config(config),
            Err(e) => hello_verdict(h, observed, Err(e)),
        },
        Message::Error(refusal) => r matches Err(Error::Protocol(m)) && m@
            == "Handshake error: "@ + refusal.message@,
        _ => r matches Err(Error::Protocol(m)) && m@ == unexpected_text(
            "HelloAck"@,
            shown,
        ),
    }
}

/// What the connecting side makes of the answer to its parameters.
pub open spec fn end_taken(
    reply: Message,
    shown: Seq<char>,
    peer: HelloMessage,
    config: ConfigMessage,
    r: Result<HandshakeResult>,
) -> bool {
    match reply {
        Message::ConfigAck => r matches Ok(done) && done.peer_device_id == peer.device_id
            && done.peer_fingerprint == peer.cert_fingerprint && done.config == config,
        Message::Error(refusal) => r matches Err(Error::Protocol(m)) && m@
            == "Config rejected: "@ + refusal.message@,
        _ => r matches Err(Error::Protocol(m)) && m@ == unexpected_text(
            "ConfigAck"@,
            shown,
        ),
    }
}

/// What the accepting side makes of a first message.
pub open spec fn hello_taken(
    device_id: Seq<u8>,
    fingerprint: Seq<u8>,
    msg: Message,
    shown: Seq<char>,
    observed: Option<Fingerprint>,
    r: Result<(HelloMessage, Message)>,
) -> bool {
    match msg {
        Message::Hello(h) => match r {
            Ok((peer, next)) => hello_verdict(h, observed, Ok(())) && peer == h && (
            next matches Message::HelloAck(ack) && own_hello(
                device_id,
                fingerprint,
                ack,
            )),
            Err(e) => hello_verdict(h, observed, Err(e)),
        },
        _ => r matches Err(Error::Protocol(m)) && m@ == unexpected_text("Hello"@, shown),
    }
}

/// What the accepting side makes of the parameters.
pub open spec fn config_taken(
    msg: Message,
    shown: Seq<char>,
    peer: HelloMessage,
    r: Result<(HandshakeResult, Message)>,
) -> bool {
    match msg {
        Message::Config(c) => r matches Ok((done, next)) && done.peer_device_id
            == peer.device_id && done.peer_fingerprint == peer.cert_fingerprint
            && done.config == c && next is ConfigAck,
        _ => r matches Err(Error::Protocol(m)) && m@ == unexpected_text("Config"@, shown),
    }
}

/// The connecting side of the handshake.
pub struct HandshakeClient {
    pub device_id: [u8; 16],
    pub fingerprint: Fingerprint,
}

impl HandshakeClient {
    pub fn new(device_id: [u8; 16], fingerprint: Fingerprint) -> (r: Self)
        ensures
            r.device_id == device_id,
            r.fingerprint == fingerprint,
    {
        Self { device_id, fingerprint }
    }

    /// The first message.
    pub fn hello(&self) -> (r: Message)
        ensures
            r matches Message::Hello(h) && own_hello(self.device_id@, self.fingerprint@, h),
    {
        Message::Hello(
            HelloMessage {
                protocol_version: PROTOCOL_VERSION,
                min_version: MIN_PROTOCOL_VERSION,
                device_id: self.device_id,
                cert_fingerprint: self.fingerprint,
            },
        )
    }

    /// Takes the answer to the first message; `shown` is how the program
    /// shows it. Returns the peer's introduction and what to send next.
    pub fn on_hello_ack(
        &self,
        reply: &Message,
        shown: &str,
        observed: Option<Fingerprint>,
        config: &ConfigMessage,
    ) -> (r: Result<(HelloMessage, Message)>)
        ensures
            answer_taken(*reply, shown@, observed, *config, r),
    {
        match reply {
            Message::HelloAck(h) => match check_hello(h, observed) {
                Ok(()) => Ok((*h, Message::Config(*config))),
                Err(e) => Err(e),
            },
            Message::Error(refusal) => Err(
                refused("Handshake error: ", refusal.message.as_str()),
            ),
            _ => Err(unexpected("HelloAck", shown)),
        }
    }

    /// Takes the answer to the parameters, which ends the handshake.
    pub fn on_config_ack(
        &self,
        reply: &Message,
        shown: &str,
        peer: &HelloMessage,
        config: &ConfigMessage,
    ) -> (r: Result<HandshakeResult>)
        ensures
            end_taken(*reply, shown@, *peer, *config, r),
    {
        match reply {
            Message::ConfigAck => Ok(
                HandshakeResult {
                    peer_device_id: peer.device_id,
                    peer_fingerprint: peer.cert_fingerprint,
                    config: *config,
                },
            ),
            Message::Error(refusal) => Err(
                refused("Config rejected: ", refusal.message.as_str()),
            ),
            _ => Err(unexpected("ConfigAck", shown)),
        }
    }

    /// Takes the answer to an offer.
    pub fn on_transfer_reply(&self, reply: &Message, shown: &str) -> (r: Result<()>)
        ensures
            match *reply {
                Message::Ready => r is Ok,
                Message::Error(refusal) => r matches Err(Error::Protocol(m)) && m@
                    == "Transfer rejected: "@ + refusal.message@,
                _ => r matches Err(Error::Protocol(m)) && m@ == unexpected_text("Ready"@, shown@),
            },
    {
        match reply {
            Message::Ready => Ok(()),
            Message::Error(refusal) => Err(
                refused("Transfer rejected: ", refusal.message.as_str()),
            ),
            _ => Err(unexpected("Ready", shown)),
        }
    }
}

/// The accepting side of the handshake.
pub struct HandshakeServer {
    pub device_id: [u8; 16],
    pub fingerprint: Fingerprint,
}

impl HandshakeServer {
    pub fn new(device_id: [u8; 16], fingerprint: Fingerprint) -> (r: Self)
        ensures
            r.device_id == device_id,
            r.fingerprint == fingerprint,
    {
        Self { device_id, fingerprint }
    }

    /// Takes the first message. Returns the peer's introduction and the
    /// answer.
    pub fn on_hello(&self, msg: &Message, shown: &str, observed: Option<Fingerprint>) -> (r: Result<
        (HelloMessage, Message),
    >)
        ensures
            hello_taken(
                self.device_id@,
                self.fingerprint@,
                *msg,
                shown@,
                observed,
                r,
            ),
    {
        match msg {
            Message::Hello(h) => match check_hello(h, observed) {
                Ok(()) => Ok(
                    (
                        *h,
                        Message::HelloAck(
                            HelloMessage {
                                protocol_version: PROTOCOL_VERSION,
                                min_version: MIN_PROTOCOL_VERSION,
                                device_id: self.device_id,
                                cert_fingerprint: self.fingerprint,
                            },
                        ),
                    ),
                ),
                Err(e) => Err(e),
            },
            _ => Err(unexpected("Hello", shown)),
        }
    }

    /// Takes the parameters, whatever they are. Returns the outcome and the
    /// answer.
    pub fn on_config(&self, msg: &Message, shown: &str, peer: &HelloMessage) -> (r: Result<
        (HandshakeResult, Message),
    >)
        ensures
            config_taken(*msg, shown@, *peer, r),
    {
        match msg {
            Message::Config(c) => Ok(
                (
                    HandshakeResult {
                        peer_device_id: peer.device_id,
                        peer_fingerprint: peer.cert_fingerprint,
                        config: *c,
                    },
                    Message::ConfigAck,
                ),
            ),
            _ => Err(unexpected("Config", shown)),
        }
    }

    /// Takes an offer. Returns it and the answer.
    pub fn on_transfer_info(&self, msg: Message, shown: &str) -> (r: Result<(TransferInfo, Message)>)
        ensures
            match msg {
                Message::TransferInfo(info) => r matches Ok((i, next)) && i == info && next is Ready,
                _ => r matches Err(Error::Protocol(m)) && m@ == unexpected_text(
                    "TransferInfo"@,
                    shown@,
                ),
            },
    {
        match msg {
            Message::TransferInfo(info) => Ok((info, Message::Ready)),
            _ => Err(unexpected("TransferInfo", shown)),
        }
    }
}

/// Two builds of the same version whose TLS layers see each other's real
/// certificates agree: the client accepts the answer that the server gives to
/// the client's introduction, the server accepts that introduction, and each
/// learns the other's fingerprint.
pub proof fn law_handshake_agrees(
    client: HelloMessage,
    server: HelloMessage,
    client_id: Seq<u8>,
    client_fp: Fingerprint,
    server_id: Seq<u8>,
    server_fp: Fingerprint,
)
    requires
        own_hello(client_id, client_fp@, client),
        own_hello(server_id, server_fp@, server),
    ensures
        hello_verdict(client, Some(client_fp), Ok(())),
        hello_verdict(server, Some(server_fp), Ok(())),
        client.cert_fingerprint@ == client_fp@,
        server.cert_fingerprint@ == server_fp@,
{
}

/// An introduction is accepted if and only if it speaks version 3 and claims the
/// fingerprint of the certificate that the TLS layer saw. Another version is
/// reported as such, whatever the fingerprint, and the versions are named; a
/// fingerprint that was not seen, or no certificate at all, is a mismatch.
pub proof fn law_impostors_are_refused(h: HelloMessage, observed: Option<Fingerprint>, e: Error)
    ensures
        hello_verdict(h, observed, Ok(())) <==> h.protocol_version == 3 && observed is Some
            && observed->0@ == h.cert_fingerprint@,
        hello_verdict(h, observed, Err(e)) && h.protocol_version == 3 ==> e is FingerprintMismatch,
        hello_verdict(h, observed, Err(e)) && h.protocol_version != 3 ==> (e
            matches Error::VersionMismatch { peer, ours } && peer == h.protocol_version && ours == 3),
        h.protocol_version == 3 && observed is None ==> !hello_verdict(h, observed, Ok(())),
{
}

/// A handshake between two devices of this version that see each other's real
/// certificates comes to its end on both sides, and both know the same: each the
/// device and the fingerprint of the other, and the parameters that the
/// connecting side proposed.
pub proof fn law_handshake_comes_to_its_end(
    client_id: Seq<u8>,
    client_fp: Fingerprint,
    server_id: Seq<u8>,
    server_fp: Fingerprint,
    config: ConfigMessage,
    hello: HelloMessage,
    shown: Seq<char>,
    met: Result<(HelloMessage, Message)>,
    answered: Result<(HelloMessage, Message)>,
    server_done: Result<(HandshakeResult, Message)>,
    client_done: Result<HandshakeResult>,
)
    requires
        own_hello(client_id, client_fp@, hello),
        hello_taken(server_id, server_fp@, Message::Hello(hello), shown, Some(client_fp), met),
        met matches Ok((_, ack)) ==> answer_taken(ack, shown, Some(server_fp), config, answered),
        answered matches Ok((_, next)) ==> (met matches Ok((peer, _)) ==> config_taken(
            next,
            shown,
            peer,
            server_done,
        )),
        server_done matches Ok((_, ack)) ==> (answered matches Ok((peer, _)) ==> end_taken(
            ack,
            shown,
            peer,
            config,
            client_done,
        )),
    ensures
        met is Ok,
        answered is Ok,
        server_done is Ok,
        client_done is Ok,
        client_done->Ok_0.peer_device_id@ == server_id,
        client_done->Ok_0.peer_fingerprint@ == server_fp@,
        client_done->Ok_0.config == config,
        (server_done->Ok_0).0.peer_device_id@ == client_id,
        (server_done->Ok_0).0.peer_fingerprint@ == client_fp@,
        (server_done->Ok_0).0.config == config,
{
    assert(hello_verdict(hello, Some(client_fp), Ok(())));
    assert(met is Ok);
    let ack = (met->Ok_0).1;
    assert(ack is HelloAck);
    assert(hello_verdict(ack->HelloAck_0, Some(server_fp), Ok(())));
    assert(answered is Ok);
}

/// A peer that does not show the certificate it claims gets no further: neither
/// side goes on, whatever else it says.
pub proof fn law_handshake_stops_impostors(
    device_id: Seq<u8>,
    fingerprint: Seq<u8>,
    hello: HelloMessage,
    shown: Seq<char>,
    observed: Option<Fingerprint>,
    config: ConfigMessage,
    met: Result<(HelloMessage, Message)>,
    answered: Result<(HelloMessage, Message)>,
)
    requires
        hello_taken(device_id, fingerprint, Message::Hello(hello), shown, observed, met),
        answer_taken(Message::HelloAck(hello), shown, observed, config, answered),
    ensures
        met is Ok <==> hello.protocol_version == 3 && observed is Some && observed->0@
            == hello.cert_fingerprint@,
        answered is Ok <==> hello.protocol_version == 3 && observed is Some && observed->0@
            == hello.cert_fingerprint@,
        met matches Ok((peer, _)) ==> peer == hello,
        answered matches Ok((peer, _)) ==> peer == hello,
{
}

/// A claimed fingerprint passes if and only if the TLS layer saw a certificate
/// and it has that fingerprint.
pub proof fn law_claims_are_checked(claimed: Fingerprint, observed: Option<Fingerprint>, r: Result<()>)
    requires
        call_ensures(cross_check_fingerprint, (claimed, observed), r),
    ensures
        r is Ok <==> observed is Some && observed->0@ == claimed@,
        r is Err ==> r->Err_0 is FingerprintMismatch,
{
}

/// An offer is answered with ready, and only ready lets the sender begin.
pub proof fn law_ready_answers_an_offer(
    server: HandshakeServer,
    client: HandshakeClient,
    msg: Message,
    shown: &str,
    taken: Result<(TransferInfo, Message)>,
    reply: Message,
    r: Result<()>,
)
    requires
        call_ensures(HandshakeServer::on_transfer_info, (&server, msg, shown), taken),
        call_ensures(HandshakeClient::on_transfer_reply, (&client, &reply, shown), r),
    ensures
        taken is Ok <==> msg is TransferInfo,
        taken is Ok ==> (taken->Ok_0).0 == msg->TransferInfo_0 && (taken->Ok_0).1 is Ready,
        r is Ok <==> reply is Ready,
{
}

} // verus!
