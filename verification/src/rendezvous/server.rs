//! The server's side of the rendezvous.
//!
//! The first peer with a code waits; the second is paired with it. Each
//! function here is one turn at the shared table of waiting peers: a
//! connection takes [`Server::arrive`], then either
//! [`Server::pair`] or [`Server::wait`] and, once its wait is over,
//! [`Server::leave`].

use vstd::prelude::*;
use vstd::string::*;

use crate::net::SocketAddr;
use crate::rendezvous::protocol::{Message, RegisterRequest, RegisterView, PROTOCOL_VERSION};
use crate::rendezvous::relay::{RelayState, RelayView, Session};
use crate::random::random_token;
use crate::table::{Table, TableKey};
use crate::text::{bytes_eq, chars_of, decimal, push_decimal, string_copy};

verus! {

/// Why the server stopped.
#[derive(Debug)]
pub enum ServerError {
    /// The listener failed.
    Bind(String),
    /// The connection to a peer broke.
    Wire(String),
}

impl ServerError {
    /// The error as it is shown.
    pub open spec fn shown(self) -> Seq<char> {
        match self {
            ServerError::Bind(m) => "rendezvous bind error: "@ + m@,
            ServerError::Wire(m) => "rendezvous wire error: "@ + m@,
        }
    }

    /// The error as it is shown.
    pub fn message(&self) -> (r: String)
        ensures
            r@ == self.shown(),
    {
        match self {
            ServerError::Bind(m) => "rendezvous bind error: ".to_owned().concat(m.as_str()),
            ServerError::Wire(m) => "rendezvous wire error: ".to_owned().concat(m.as_str()),
        }
    }
}

/// A letter or digit of the ASCII alphabet.
pub open spec fn is_ascii_alphanumeric(c: char) -> bool {
    ('0' <= c && c <= '9') || ('A' <= c && c <= 'Z') || ('a' <= c && c <= 'z')
}

/// A code: 4 to 32 letters and digits.
pub open spec fn valid_code(code: Seq<char>) -> bool {
    &&& 4 <= code.len() <= 32
    &&& forall|i: int| 0 <= i < code.len() ==> is_ascii_alphanumeric(#[trigger] code[i])
}

/// Whether a code is 4 to 32 letters and digits.
pub fn is_valid_code(code: &str) -> (r: bool)
    ensures
        r == valid_code(code@),
{
    let chars: Vec<char> = chars_of(code);
    if chars.len() < 4 || chars.len() > 32 {
        return false;
    }
    let mut i: usize = 0;
    while i < chars.len()
        invariant
            chars@ == code@,
            i <= chars@.len(),
            forall|j: int| 0 <= j < i ==> is_ascii_alphanumeric(#[trigger] code@[j]),
        decreases chars@.len() - i,
    {
        let c: char = chars[i];
        if !(('0' <= c && c <= '9') || ('A' <= c && c <= 'Z') || ('a' <= c && c <= 'z')) {
            assert(!is_ascii_alphanumeric(code@[i as int]));
            return false;
        }
        i += 1;
    }
    true
}

/// Why a first message is refused; `None` where it is not.
pub open spec fn refusal(msg: Message) -> Option<Seq<char>> {
    match msg {
        Message::Register(req) => if req.protocol_version != PROTOCOL_VERSION {
            Some(
                "unsupported rendezvous protocol version "@ + decimal(req.protocol_version as nat)
                    + " (server speaks "@ + decimal(PROTOCOL_VERSION as nat) + ")"@,
            )
        } else if !valid_code(req.code@) {
            Some("code must be 4..32 ascii-alphanumeric chars"@)
        } else {
            None
        },
        _ => Some("first frame must be Register"@),
    }
}

fn rejected(reason: &str) -> (r: Message)
    ensures
        r matches Message::Rejected { reason: m } && m@ == reason@,
{
    Message::Rejected { reason: reason.to_owned() }
}

/// Takes a peer's first message: the registration, or the answer to refuse it
/// with.
pub fn screen(msg: Message) -> (r: Result<RegisterRequest, Message>)
    ensures
        match refusal(msg) {
            Some(text) => r matches Err(Message::Rejected { reason }) && reason@ == text,
            None => msg matches Message::Register(req) && r == Ok::<RegisterRequest, Message>(req),
        },
{
    let req: RegisterRequest = match msg {
        Message::Register(req) => req,
        _ => {
            return Err(rejected("first frame must be Register"));
        },
    };
    if req.protocol_version != PROTOCOL_VERSION {
        let mut m = "unsupported rendezvous protocol version ".to_owned();
        push_decimal(&mut m, req.protocol_version as u64);
        m.append(" (server speaks ");
        push_decimal(&mut m, PROTOCOL_VERSION as u64);
        m.append(")");
        return Err(Message::Rejected { reason: m });
    }
    if !is_valid_code(req.code.as_str()) {
        return Err(rejected("code must be 4..32 ascii-alphanumeric chars"));
    }
    Ok(req)
}

/// The registration with the address that the peer really connects from; only
/// the port is taken from what the peer says.
pub open spec fn stamped(req: RegisterView, peer: SocketAddr) -> RegisterView {
    RegisterView {
        public_endpoint: SocketAddr { ip: peer.ip, port: req.public_endpoint.port },
        ..req
    }
}

/// A peer that waits for its partner.
pub struct Waiter {
    pub first: RegisterRequest,
    /// The connection to notify.
    pub connection: u64,
    /// When the wait ends, in milliseconds.
    pub expires_at: u64,
}

/// What the second peer's arrival tells the first.
#[derive(Debug)]
pub enum NotifyPayload {
    /// Connect directly.
    Direct(RegisterRequest),
    /// Connect through the relay.
    Relay {
        token: [u8; 16],
        relay_endpoint: SocketAddr,
        peer_fingerprint: [u8; 32],
        peer_device_id: [u8; 16],
    },
}

/// What follows from a pairing: the answer to the second peer, and what to
/// tell which first peer.
pub struct Pairing {
    pub to_second: Message,
    pub to_first: Option<(u64, NotifyPayload)>,
}

/// The peers that wait, by code.
pub struct Server {
    waiting: Table<String, Waiter>,
}

/// The waiting peers whose wait is not over.
pub open spec fn unexpired(m: Map<Seq<char>, Waiter>, now: u64) -> Map<Seq<char>, Waiter> {
    m.remove_keys(m.dom().filter(|code: Seq<char>| m[code].expires_at <= now))
}

impl View for Server {
    type V = Map<Seq<char>, Waiter>;

    closed spec fn view(&self) -> Map<Seq<char>, Waiter> {
        self.waiting@
    }
}

impl Server {
    pub closed spec fn wf(&self) -> bool {
        self.waiting.wf()
    }

    /// Nobody waits.
    pub fn new() -> (r: Self)
        ensures
            r.wf(),
            r@ == Map::<Seq<char>, Waiter>::empty(),
    {
        Server { waiting: Table::new() }
    }

    fn drop_expired(&mut self, now: u64)
        requires
            old(self).wf(),
        ensures
            final(self).wf(),
            final(self)@ == unexpired(old(self)@, now),
    {
        let ghost before = self@;
        let mut i: usize = 0;
        let mut codes: Vec<String> = Vec::new();
        while i < self.waiting.len()
            invariant
                self.wf(),
                self@ == before,
                i <= self.waiting.entries().len(),
                forall|j: int|
                    0 <= j < codes@.len() ==> before.contains_key((#[trigger] codes@[j])@)
                        && before[codes@[j]@].expires_at <= now,
                forall|j: int|
                    0 <= j < i && (#[trigger] self.waiting.entries()[j]).1.expires_at <= now
                        ==> exists|k: int|
                        0 <= k < codes@.len() && (#[trigger] codes@[k])@
                            == self.waiting.entries()[j].0@,
            decreases self.waiting.entries().len() - i,
        {
            proof {
                self.waiting.entries_are_map();
                assert(self.waiting.entries()[i as int].0.id()
                    == self.waiting.entries()[i as int].0@);
            }
            if self.waiting.value_at(i).expires_at <= now {
                let ghost list = codes@;
                codes.push(string_copy(self.waiting.key_at(i).as_str()));
                proof {
                    assert(codes@[list.len() as int]@ == self.waiting.entries()[i as int].0@);
                    assert forall|j: int|
                        0 <= j < i + 1 && (#[trigger] self.waiting.entries()[j]).1.expires_at
                            <= now implies exists|k: int|
                        0 <= k < codes@.len() && (#[trigger] codes@[k])@
                            == self.waiting.entries()[j].0@ by {
                        if j < i {
                            let k = choose|k: int|
                                0 <= k < list.len() && (#[trigger] list[k])@
                                    == self.waiting.entries()[j].0@;
                            assert(codes@[k] == list[k]);
                        }
                    }
                }
            }
            i += 1;
        }
        let mut n: usize = 0;
        proof {
            self.waiting.entries_are_map();
            assert forall|c: Seq<char>| #[trigger]
                before.contains_key(c) && before[c].expires_at <= now implies exists|k: int|
                0 <= k < codes@.len() && (#[trigger] codes@[k])@ == c by {
                let j = choose|j: int|
                    0 <= j < self.waiting.entries().len() && (
                    #[trigger] self.waiting.entries()[j]).0.id() == c;
                assert(self.waiting.entries()[j].1.expires_at <= now);
            }
        }
        while n < codes.len()
            invariant
                self.wf(),
                n <= codes@.len(),
                forall|j: int|
                    0 <= j < codes@.len() ==> before.contains_key((#[trigger] codes@[j])@)
                        && before[codes@[j]@].expires_at <= now,
                forall|c: Seq<char>| #[trigger]
                    self@.contains_key(c) <==> before.contains_key(c) && !exists|k: int|
                        0 <= k < n && (#[trigger] codes@[k])@ == c,
                forall|c: Seq<char>| #[trigger] self@.contains_key(c) ==> self@[c] == before[c],
            decreases codes@.len() - n,
        {
            let ghost mid = self@;
            self.waiting.remove(&codes[n]);
            proof {
                assert forall|c: Seq<char>| #[trigger]
                    self@.contains_key(c) <==> before.contains_key(c) && !exists|k: int|
                        0 <= k < n + 1 && (#[trigger] codes@[k])@ == c by {
                    assert(self@.contains_key(c) <==> mid.contains_key(c) && c != codes@[n as int]@);
                    if exists|k: int| 0 <= k < n && (#[trigger] codes@[k])@ == c {
                        let k = choose|k: int| 0 <= k < n && (#[trigger] codes@[k])@ == c;
                        assert(0 <= k < n + 1 && codes@[k]@ == c);
                    }
                }
            }
            n += 1;
        }
        assert(self@ =~= unexpired(before, now));
    }

    /// A peer arrives: waits that are over end, and whoever waits with the
    /// same code is taken out. The registration comes back with the address
    /// the peer really connects from.
    pub fn arrive(&mut self, req: RegisterRequest, peer: SocketAddr, now: u64) -> (r: (
        RegisterRequest,
        Option<Waiter>,
    ))
        requires
            old(self).wf(),
        ensures
            final(self).wf(),
            final(self)@ == unexpired(old(self)@, now).remove(req@.code),
            r.0@ == stamped(req@, peer),
            r.1 == (if unexpired(old(self)@, now).contains_key(req@.code) {
                Some(old(self)@[req@.code])
            } else {
                None
            }),
    {
        self.drop_expired(now);
        let waiter: Option<Waiter> = self.waiting.remove(&req.code);
        let mut req: RegisterRequest = req;
        req.public_endpoint = SocketAddr { ip: peer.ip, port: req.public_endpoint.port };
        (req, waiter)
    }

    /// Pairs the peer that arrived with the one that waited. Where either
    /// wants a relay and there is one, a session is reserved under `token`;
    /// where the relay refuses, the second peer is told so and the first goes
    /// on waiting, unless its place was taken meanwhile. Without a relay both
    /// are told to connect directly.
    pub fn pair(
        &mut self,
        relay: Option<(&mut RelayState, SocketAddr)>,
        waiter: Waiter,
        req: RegisterRequest,
        token: [u8; 16],
        now: u64,
    ) -> (r: Pairing)
        requires
            old(self).wf(),
            relay matches Some(p) ==> p.0.wf(),
        ensures
            final(self).wf(),
            relay matches Some(p) ==> final(p.0).wf(),
            pairing_follows(
                old(self)@,
                match relay {
                    Some((state, addr)) => Some((state@, addr)),
                    None => None,
                },
                waiter,
                req,
                token,
                now,
                final(self)@,
                match relay {
                    Some((state, _)) => Some(final(state)@),
                    None => None,
                },
                r,
            ),
    {
        let wants: bool = req.want_relay || waiter.first.want_relay;
        if let Some((state, addr)) = relay {
            if wants {
                match state.reserve(
                    token,
                    waiter.first.cert_fingerprint,
                    req.cert_fingerprint,
                    now,
                ) {
                    Err(_) => {
                        if !self.waiting.contains(&req.code) {
                            self.waiting.insert(string_copy(req.code.as_str()), waiter);
                        }
                        return Pairing {
                            to_second: rejected("relay refused session"),
                            to_first: None,
                        };
                    },
                    Ok(()) => {
                        return Pairing {
                            to_second: Message::RelayMatch {
                                relay_endpoint: addr,
                                relay_session_token: token,
                                peer_fingerprint: waiter.first.cert_fingerprint,
                                peer_device_id: waiter.first.device_id,
                            },
                            to_first: Some(
                                (
                                    waiter.connection,
                                    NotifyPayload::Relay {
                                        token,
                                        relay_endpoint: addr,
                                        peer_fingerprint: req.cert_fingerprint,
                                        peer_device_id: req.device_id,
                                    },
                                ),
                            ),
                        };
                    },
                }
            }
        }
        Pairing {
            to_second: Message::Match {
                peer_endpoint: waiter.first.public_endpoint,
                peer_fingerprint: waiter.first.cert_fingerprint,
                peer_device_id: waiter.first.device_id,
            },
            to_first: Some((waiter.connection, NotifyPayload::Direct(req))),
        }
    }

    /// Pairs the peer that arrived with the one that waited, under a token
    /// drawn for them.
    pub fn pair_with_fresh_token(
        &mut self,
        relay: Option<(&mut RelayState, SocketAddr)>,
        waiter: Waiter,
        req: RegisterRequest,
        now: u64,
    ) -> (r: Pairing)
        requires
            old(self).wf(),
            relay matches Some(p) ==> p.0.wf(),
        ensures
            final(self).wf(),
            relay matches Some(p) ==> final(p.0).wf(),
            exists|token: [u8; 16]|
                #![trigger token@]
                pairing_follows(
                    old(self)@,
                    match relay {
                        Some((state, addr)) => Some((state@, addr)),
                        None => None,
                    },
                    waiter,
                    req,
                    token,
                    now,
                    final(self)@,
                    match relay {
                        Some((state, _)) => Some(final(state)@),
                        None => None,
                    },
                    r,
                ),
    {
        let token: [u8; 16] = random_token();
        assert(token@.len() == 16);
        self.pair(relay, waiter, req, token, now)
    }

    /// The peer is the first with its code: it waits. Where another took the
    /// code meanwhile, it is refused.
    pub fn wait(&mut self, req: &RegisterRequest, connection: u64, now: u64, ttl: u64) -> (r: Result<
        (),
        Message,
    >)
        requires
            old(self).wf(),
            now + ttl <= u64::MAX,
        ensures
            final(self).wf(),
            waits(old(self)@, req@, connection, now, ttl, final(self)@, r),
    {
        self.drop_expired(now);
        if self.waiting.contains(&req.code) {
            return Err(rejected("code already in use, ask for a fresh one"));
        }
        let ghost before = self@;
        let waiter = Waiter { first: req.copied(), connection, expires_at: now + ttl };
        self.waiting.insert(string_copy(req.code.as_str()), waiter);
        assert(self@.remove(req@.code) =~= before);
        Ok(())
    }

    /// A wait is over: the peer's own entry goes, but not one that a later
    /// registration of another device put in its place.
    pub fn leave(&mut self, req: &RegisterRequest)
        requires
            old(self).wf(),
        ensures
            final(self).wf(),
            final(self)@ == left(old(self)@, req@),
    {
        let own: bool = match self.waiting.get(&req.code) {
            Some(w) => bytes_eq(w.first.device_id.as_slice(), req.device_id.as_slice()),
            None => false,
        };
        if own {
            self.waiting.remove(&req.code);
        }
    }
}

/// What follows where a peer is to wait.
pub open spec fn waits(
    before: Map<Seq<char>, Waiter>,
    req: RegisterView,
    connection: u64,
    now: u64,
    ttl: u64,
    after: Map<Seq<char>, Waiter>,
    r: Result<(), Message>,
) -> bool {
    if unexpired(before, now).contains_key(req.code) {
        &&& after == unexpired(before, now)
        &&& r matches Err(Message::Rejected { reason }) && reason@
            == "code already in use, ask for a fresh one"@
    } else {
        &&& r is Ok
        &&& after.contains_key(req.code)
        &&& after.remove(req.code) == unexpired(before, now)
        &&& after[req.code].first@ == req
        &&& after[req.code].connection == connection
        &&& after[req.code].expires_at == now + ttl
    }
}

/// The waiting peers once the wait of one is over.
pub open spec fn left(before: Map<Seq<char>, Waiter>, req: RegisterView) -> Map<Seq<char>, Waiter> {
    if before.contains_key(req.code) && before[req.code].first@.device_id == req.device_id {
        before.remove(req.code)
    } else {
        before
    }
}

/// What pairing does: to the waiting peers, to the relay, and what each peer is
/// told.
pub open spec fn pairing_follows(
    before: Map<Seq<char>, Waiter>,
    relay: Option<(RelayView, SocketAddr)>,
    waiter: Waiter,
    req: RegisterRequest,
    token: [u8; 16],
    now: u64,
    after: Map<Seq<char>, Waiter>,
    relay_after: Option<RelayView>,
    r: Pairing,
) -> bool {
    let first = waiter.first;
    match relay {
        Some((state, addr)) => if !(req.want_relay || first.want_relay) {
            &&& after == before
            &&& relay_after == Some(state)
            &&& is_direct_pairing(r, waiter, req)
        } else if relay_accepts(state, token@, first@, req@) {
            &&& after == before
            &&& relay_after == Some(reserved(state, token@, first, req, now))
            &&& is_relay_match(r.to_second, addr, token@, first@)
            &&& r.to_first matches Some((id, note)) && id == waiter.connection && is_relay_note(
                note,
                addr,
                token@,
                req@,
            )
        } else {
            &&& after == (if before.contains_key(req@.code) {
                before
            } else {
                before.insert(req@.code, waiter)
            })
            &&& relay_after == Some(state)
            &&& r.to_second matches Message::Rejected { reason } && reason@
                == "relay refused session"@
            &&& r.to_first is None
        },
        None => after == before && relay_after is None && is_direct_pairing(r, waiter, req),
    }
}

/// Whether the relay accepts a session for these peers.
pub open spec fn relay_accepts(
    relay: RelayView,
    token: Seq<u8>,
    first: RegisterView,
    second: RegisterView,
) -> bool {
    first.cert_fingerprint != second.cert_fingerprint && !relay.sessions.contains_key(token)
}

/// The relay with a session for these peers.
pub open spec fn reserved(
    relay: RelayView,
    token: Seq<u8>,
    first: RegisterRequest,
    second: RegisterRequest,
    now: u64,
) -> RelayView {
    RelayView {
        sessions: relay.sessions.insert(
            token,
            Session {
                peer_a: None,
                peer_b: None,
                created_at: now,
                last_active: now,
                peer_a_expected_fp: first.cert_fingerprint,
                peer_b_expected_fp: second.cert_fingerprint,
            },
        ),
        ..relay
    }
}

/// The answer that tells a peer to reach `other` through the relay.
pub open spec fn is_relay_match(
    msg: Message,
    relay: SocketAddr,
    token: Seq<u8>,
    other: RegisterView,
) -> bool {
    msg matches Message::RelayMatch {
        relay_endpoint,
        relay_session_token,
        peer_fingerprint,
        peer_device_id,
    } && relay_endpoint == relay && relay_session_token@ == token && peer_fingerprint@
        == other.cert_fingerprint && peer_device_id@ == other.device_id
}

/// The answer that tells a peer to reach `other` directly.
pub open spec fn is_match(msg: Message, other: RegisterView) -> bool {
    msg matches Message::Match { peer_endpoint, peer_fingerprint, peer_device_id } && peer_endpoint
        == other.public_endpoint && peer_fingerprint@ == other.cert_fingerprint && peer_device_id@
        == other.device_id
}

/// The note that tells the first peer to reach `other` through the relay.
pub open spec fn is_relay_note(
    note: NotifyPayload,
    relay: SocketAddr,
    session: Seq<u8>,
    other: RegisterView,
) -> bool {
    note matches NotifyPayload::Relay { token, relay_endpoint, peer_fingerprint, peer_device_id }
        && relay_endpoint == relay && token@ == session && peer_fingerprint@
        == other.cert_fingerprint && peer_device_id@ == other.device_id
}

/// Each peer is told to reach the other directly.
pub open spec fn is_direct_pairing(p: Pairing, waiter: Waiter, req: RegisterRequest) -> bool {
    &&& is_match(p.to_second, waiter.first@)
    &&& p.to_first == Some((waiter.connection, NotifyPayload::Direct(req)))
}

/// Two peers with the same code learn each other's endpoint, fingerprint and
/// device: the second from its answer, the first from the note it gets.
pub proof fn law_direct_pairing_is_mutual(
    p: Pairing,
    waiter: Waiter,
    req: RegisterRequest,
    answer: Message,
)
    requires
        is_direct_pairing(p, waiter, req),
        p.to_first matches Some((_, NotifyPayload::Direct(second))) && is_match(answer, second@),
    ensures
        is_match(p.to_second, waiter.first@),
        is_match(answer, req@),
{
}

/// A peer cannot direct another at a third party: the address it is announced
/// under is the one it connects from, whatever it claims, and only the port is
/// its own choice.
pub proof fn law_announced_address_is_observed(req: RegisterView, peer: SocketAddr)
    ensures
        stamped(req, peer).public_endpoint.ip == peer.ip,
        stamped(req, peer).public_endpoint.port == req.public_endpoint.port,
        stamped(req, peer).code == req.code,
        stamped(req, peer).cert_fingerprint == req.cert_fingerprint,
        stamped(req, peer).device_id == req.device_id,
        stamped(req, peer).want_relay == req.want_relay,
{
}

/// Whether `r` is the answer to a peer that waited.
pub open spec fn is_answer(note: Option<NotifyPayload>, r: Message) -> bool {
    match note {
        Some(NotifyPayload::Direct(second)) => is_match(r, second@),
        Some(
            NotifyPayload::Relay { token, relay_endpoint, peer_fingerprint, peer_device_id },
        ) => r == (Message::RelayMatch {
            relay_endpoint,
            relay_session_token: token,
            peer_fingerprint,
            peer_device_id,
        }),
        None => r is Expired,
    }
}

/// The answer to a peer that waited: what it was told, or that its wait is
/// over.
pub fn outcome_message(note: Option<NotifyPayload>) -> (r: Message)
    ensures
        is_answer(note, r),
{
    match note {
        Some(NotifyPayload::Direct(second)) => Message::Match {
            peer_endpoint: second.public_endpoint,
            peer_fingerprint: second.cert_fingerprint,
            peer_device_id: second.device_id,
        },
        Some(
            NotifyPayload::Relay { token, relay_endpoint, peer_fingerprint, peer_device_id },
        ) => Message::RelayMatch {
            relay_endpoint,
            relay_session_token: token,
            peer_fingerprint,
            peer_device_id,
        },
        None => Message::Expired,
    }
}

/// A peer waits until its time is up, and not longer: it is still there at `now`
/// if and only if its wait ends later, and then just as it came.
pub proof fn law_waits_end_on_time(m: Map<Seq<char>, Waiter>, now: u64, code: Seq<char>)
    ensures
        unexpired(m, now).contains_key(code) <==> m.contains_key(code) && now < m[code].expires_at,
        unexpired(m, now).contains_key(code) ==> unexpired(m, now)[code] == m[code],
{
}

/// A first message is let in if and only if it is a registration in version 1
/// with a code of 4 to 32 characters, each a digit or a letter from A to Z or
/// from a to z.
pub proof fn law_only_proper_registrations_are_let_in(msg: Message)
    ensures
        refusal(msg) is None <==> (msg matches Message::Register(req) && req.protocol_version == 1
            && 4 <= req.code@.len() <= 32 && forall|i: int|
            0 <= i < req.code@.len() ==> {
                let c = #[trigger] req.code@[i];
                '0' <= c <= '9' || 'A' <= c <= 'Z' || 'a' <= c <= 'z'
            }),
{
    if let Message::Register(req) = msg {
        if valid_code(req.code@) {
            assert forall|i: int| 0 <= i < req.code@.len() implies {
                let c = #[trigger] req.code@[i];
                '0' <= c <= '9' || 'A' <= c <= 'Z' || 'a' <= c <= 'z'
            } by {
                assert(is_ascii_alphanumeric(req.code@[i]));
            }
        }
    }
}

/// Without a relay, or where neither peer wants it, each of the two is told the
/// address, the fingerprint and the device of the other, and nothing else
/// changes.
pub proof fn law_direct_peers_learn_each_other(
    before: Map<Seq<char>, Waiter>,
    relay: Option<(RelayView, SocketAddr)>,
    waiter: Waiter,
    req: RegisterRequest,
    token: [u8; 16],
    now: u64,
    after: Map<Seq<char>, Waiter>,
    relay_after: Option<RelayView>,
    r: Pairing,
)
    requires
        pairing_follows(before, relay, waiter, req, token, now, after, relay_after, r),
        relay is None || !(req.want_relay || waiter.first.want_relay),
    ensures
        after == before,
        relay is Some ==> relay_after == Some((relay->0).0),
        r.to_second matches Message::Match { peer_endpoint, peer_fingerprint, peer_device_id }
            && peer_endpoint == waiter.first.public_endpoint && peer_fingerprint@
            == waiter.first.cert_fingerprint@ && peer_device_id@ == waiter.first.device_id@,
        r.to_first matches Some((connection, NotifyPayload::Direct(second))) && connection
            == waiter.connection && second == req,
{
}

/// Where a peer wants the relay and the relay has room for the two, both are
/// told the relay's address and the same token, each with the fingerprint and
/// the device of the other; under that token the relay then expects just these
/// two, and no other session changes.
pub proof fn law_relayed_peers_share_a_token(
    before: Map<Seq<char>, Waiter>,
    relay: Option<(RelayView, SocketAddr)>,
    waiter: Waiter,
    req: RegisterRequest,
    token: [u8; 16],
    now: u64,
    after: Map<Seq<char>, Waiter>,
    relay_after: Option<RelayView>,
    r: Pairing,
)
    requires
        pairing_follows(before, relay, waiter, req, token, now, after, relay_after, r),
        relay is Some,
        req.want_relay || waiter.first.want_relay,
        req.cert_fingerprint@ != waiter.first.cert_fingerprint@,
        !(relay->0).0.sessions.contains_key(token@),
    ensures
        after == before,
        r.to_second matches Message::RelayMatch {
            relay_endpoint,
            relay_session_token,
            peer_fingerprint,
            peer_device_id,
        } && relay_endpoint == (relay->0).1 && relay_session_token@ == token@ && peer_fingerprint@
            == waiter.first.cert_fingerprint@ && peer_device_id@ == waiter.first.device_id@,
        r.to_first matches Some((connection, note)) && connection == waiter.connection && (
        note matches NotifyPayload::Relay {
            token: told,
            relay_endpoint,
            peer_fingerprint,
            peer_device_id,
        } && relay_endpoint == (relay->0).1 && told@ == token@ && peer_fingerprint@
            == req.cert_fingerprint@ && peer_device_id@ == req.device_id@),
        relay_after is Some,
        relay_after->0.sessions.contains_key(token@),
        relay_after->0.sessions[token@].peer_a_expected_fp@ == waiter.first.cert_fingerprint@,
        relay_after->0.sessions[token@].peer_b_expected_fp@ == req.cert_fingerprint@,
        relay_after->0.sessions[token@].peer_a is None,
        relay_after->0.sessions[token@].peer_b is None,
        relay_after->0.sessions[token@].created_at == now,
        relay_after->0.sessions.remove(token@) == (relay->0).0.sessions,
        relay_after->0.addrs == (relay->0).0.addrs,
{
    assert(relay_after->0.sessions.remove(token@) =~= (relay->0).0.sessions);
}

/// Where the relay cannot take the two, since they have the same fingerprint or
/// the token is in use, the second peer is refused, the first is told nothing,
/// and its code still has someone waiting.
pub proof fn law_refused_relay_keeps_the_first_waiting(
    before: Map<Seq<char>, Waiter>,
    relay: Option<(RelayView, SocketAddr)>,
    waiter: Waiter,
    req: RegisterRequest,
    token: [u8; 16],
    now: u64,
    after: Map<Seq<char>, Waiter>,
    relay_after: Option<RelayView>,
    r: Pairing,
)
    requires
        pairing_follows(before, relay, waiter, req, token, now, after, relay_after, r),
        relay is Some,
        req.want_relay || waiter.first.want_relay,
        req.cert_fingerprint@ == waiter.first.cert_fingerprint@
            || (relay->0).0.sessions.contains_key(token@),
    ensures
        r.to_second is Rejected,
        r.to_first is None,
        relay_after == Some((relay->0).0),
        after.contains_key(req.code@),
        !before.contains_key(req.code@) ==> after[req.code@] == waiter,
        before.contains_key(req.code@) ==> after[req.code@] == before[req.code@],
        after.remove(req.code@) == before.remove(req.code@),
{
    assert(after.remove(req.code@) =~= before.remove(req.code@));
}

/// A peer that waits is found by whoever comes with its code before its time is
/// up, just as it registered, and not after; nobody else's wait is touched. A
/// code that somebody waits with is refused to the next.
pub proof fn law_waiting_peer_is_found_by_its_code(
    before: Map<Seq<char>, Waiter>,
    req: RegisterView,
    connection: u64,
    now: u64,
    ttl: u64,
    after: Map<Seq<char>, Waiter>,
    r: Result<(), Message>,
    later: u64,
    other: Seq<char>,
)
    requires
        waits(before, req, connection, now, ttl, after, r),
        now + ttl <= u64::MAX,
        now <= later,
    ensures
        r is Ok <==> !(before.contains_key(req.code) && now < before[req.code].expires_at),
        r is Ok ==> (unexpired(after, later).contains_key(req.code) <==> later < now + ttl),
        r is Ok ==> after[req.code].first@ == req && after[req.code].connection == connection,
        r is Err ==> after.contains_key(req.code) && after[req.code] == before[req.code],
        other != req.code ==> (after.contains_key(other) <==> before.contains_key(other) && now
            < before[other].expires_at),
        other != req.code && after.contains_key(other) ==> after[other] == before[other],
{
    if r is Ok {
        let rest = after.remove(req.code);
        assert(rest.contains_key(other) <==> unexpired(before, now).contains_key(other));
        if other != req.code && after.contains_key(other) {
            assert(rest.contains_key(other));
            assert(rest[other] == unexpired(before, now)[other]);
        }
    }
}

/// A peer that gives up takes only itself away: its own entry goes, one that
/// another device has put under the same code stays, and so does everyone else.
pub proof fn law_leaving_takes_only_oneself_away(
    before: Map<Seq<char>, Waiter>,
    req: RegisterView,
    code: Seq<char>,
)
    ensures
        left(before, req).contains_key(code) <==> before.contains_key(code) && !(code == req.code
            && before[code].first.device_id@ == req.device_id),
        left(before, req).contains_key(code) ==> left(before, req)[code] == before[code],
{
}

} // verus!
