//! The relay: forwards datagrams between the two peers of a session.
//!
//! A session is reserved under a random token for two certificate
//! fingerprints. Each peer joins it with a hello that carries the token and
//! its fingerprint; from then on what one sends goes to the other.

use vstd::prelude::*;
use vstd::string::*;

use crate::net::SocketAddr;
use crate::table::{Table, TableKey};
use crate::text::bytes_eq;

verus! {

/// First bytes of a hello.
pub const RELAY_HELLO_MAGIC: [u8; 4] = [0x50, 0x32, 0x52, 0x5A];

/// Bytes of a session token.
pub const SESSION_TOKEN_LEN: usize = 16;

/// Bytes of a certificate fingerprint.
pub const FINGERPRINT_LEN: usize = 32;

/// Milliseconds of silence after which a session is forgotten.
pub const SESSION_IDLE_TIMEOUT_MS: u64 = 120_000;

/// What a peer sends to join a session.
#[derive(Debug, Clone, Copy)]
pub struct RelayHello {
    pub token: [u8; 16],
    pub fingerprint: [u8; 32],
}

/// The first bytes of a hello.
pub open spec fn hello_magic() -> Seq<u8> {
    seq![0x50, 0x32, 0x52, 0x5A]
}

/// A hello on the wire: magic, version, a reserved byte, the two lengths, the
/// token and the fingerprint.
pub open spec fn hello_bytes(token: Seq<u8>, fingerprint: Seq<u8>) -> Seq<u8> {
    hello_magic() + seq![1u8, 0u8, 16u8, 32u8] + token + fingerprint
}

/// Whether a datagram starts with a hello. The reserved byte, and what follows
/// the fingerprint, are ignored.
pub open spec fn is_hello(data: Seq<u8>) -> bool {
    &&& data.len() >= 56
    &&& data.take(4) == hello_magic()
    &&& data[4] == 1
    &&& data[6] == 16
    &&& data[7] == 32
}

fn array16(data: &[u8], off: usize) -> (r: [u8; 16])
    requires
        off + 16 <= data@.len(),
    ensures
        r@ == data@.subrange(off as int, off + 16),
{
    let n: usize = data.len();
    let mut out: [u8; 16] = [0; 16];
    let mut i: usize = 0;
    while i < 16
        invariant
            i <= 16,
            n == data@.len(),
            off + 16 <= n,
            forall|j: int| 0 <= j < i ==> out@[j] == data@[off + j],
        decreases 16 - i,
    {
        out[i] = data[off + i];
        i += 1;
    }
    assert(out@ =~= data@.subrange(off as int, off + 16));
    out
}

fn array32(data: &[u8], off: usize) -> (r: [u8; 32])
    requires
        off + 32 <= data@.len(),
    ensures
        r@ == data@.subrange(off as int, off + 32),
{
    let n: usize = data.len();
    let mut out: [u8; 32] = [0; 32];
    let mut i: usize = 0;
    while i < 32
        invariant
            i <= 32,
            n == data@.len(),
            off + 32 <= n,
            forall|j: int| 0 <= j < i ==> out@[j] == data@[off + j],
        decreases 32 - i,
    {
        out[i] = data[off + i];
        i += 1;
    }
    assert(out@ =~= data@.subrange(off as int, off + 32));
    out
}

impl RelayHello {
    /// The hello on the wire.
    pub fn encode(&self) -> (r: Vec<u8>)
        ensures
            r@ == hello_bytes(self.token@, self.fingerprint@),
    {
        let mut out: Vec<u8> = Vec::new();
        out.extend_from_slice(RELAY_HELLO_MAGIC.as_slice());
        out.push(1);
        out.push(0);
        out.push(SESSION_TOKEN_LEN as u8);
        out.push(FINGERPRINT_LEN as u8);
        out.extend_from_slice(self.token.as_slice());
        out.extend_from_slice(self.fingerprint.as_slice());
        assert(out@ =~= hello_bytes(self.token@, self.fingerprint@));
        out
    }

    /// Reads a hello; `None` for any other datagram.
    pub fn try_decode(data: &[u8]) -> (r: Option<Self>)
        ensures
            r is Some <==> is_hello(data@),
            r matches Some(h) ==> h.token@ == data@.subrange(8, 24) && h.fingerprint@
                == data@.subrange(24, 56),
    {
        if data.len() < 8 {
            return None;
        }
        let magic: bool = data[0] == 0x50 && data[1] == 0x32 && data[2] == 0x52 && data[3] == 0x5A;
        assert(magic <==> data@.take(4) == hello_magic()) by {
            if magic {
                assert(data@.take(4) =~= hello_magic());
            } else if data@.take(4) == hello_magic() {
                assert(data@.take(4)[0] == data@[0] && data@.take(4)[1] == data@[1]
                    && data@.take(4)[2] == data@[2] && data@.take(4)[3] == data@[3]);
            }
        }
        if !magic || data[4] != 1 || data[6] as usize != SESSION_TOKEN_LEN || data[7] as usize
            != FINGERPRINT_LEN {
            return None;
        }
        if data.len() < 8 + SESSION_TOKEN_LEN + FINGERPRINT_LEN {
            return None;
        }
        Some(RelayHello { token: array16(data, 8), fingerprint: array32(data, 24) })
    }
}

/// Reading a hello gives back what was written, whatever follows it.
pub proof fn law_hello_roundtrip(token: Seq<u8>, fingerprint: Seq<u8>, rest: Seq<u8>)
    requires
        token.len() == 16,
        fingerprint.len() == 32,
    ensures
        is_hello(hello_bytes(token, fingerprint) + rest),
        (hello_bytes(token, fingerprint) + rest).subrange(8, 24) == token,
        (hello_bytes(token, fingerprint) + rest).subrange(24, 56) == fingerprint,
{
    let data = hello_bytes(token, fingerprint) + rest;
    assert(data.take(4) =~= hello_magic());
    assert(data.subrange(8, 24) =~= token);
    assert(data.subrange(24, 56) =~= fingerprint);
}

/// Why a session cannot be reserved, or the relay cannot start.
#[derive(Debug)]
pub enum RelayError {
    /// The socket could not be bound.
    Bind(String),
    /// Both peers have the same fingerprint, so that nothing would keep one
    /// from taking the other's place.
    DuplicateFingerprint,
    /// The token is that of another session.
    TokenInUse,
}

impl RelayError {
    /// The error as it is shown.
    pub open spec fn shown(self) -> Seq<char> {
        match self {
            RelayError::Bind(m) => "relay bind: "@ + m@,
            RelayError::DuplicateFingerprint =>
                "relay refused session: both peers share the same fingerprint"@,
            RelayError::TokenInUse => "relay refused session: session token already in use"@,
        }
    }

    /// The error as it is shown.
    pub fn message(&self) -> (r: String)
        ensures
            r@ == self.shown(),
    {
        match self {
            RelayError::Bind(m) => "relay bind: ".to_owned().concat(m.as_str()),
            RelayError::DuplicateFingerprint =>
                "relay refused session: both peers share the same fingerprint".to_owned(),
            RelayError::TokenInUse =>
                "relay refused session: session token already in use".to_owned(),
        }
    }
}

/// One session.
#[derive(Debug, Clone, Copy)]
pub struct Session {
    /// Where the first peer sends from, once it has joined.
    pub peer_a: Option<SocketAddr>,
    /// Where the second peer sends from, once it has joined.
    pub peer_b: Option<SocketAddr>,
    /// When the session was reserved, in milliseconds.
    pub created_at: u64,
    /// When the last packet came, in milliseconds.
    pub last_active: u64,
    /// The fingerprint the first peer has to show.
    pub peer_a_expected_fp: [u8; 32],
    /// The fingerprint the second peer has to show.
    pub peer_b_expected_fp: [u8; 32],
}

impl Session {
    /// Where what `src` sends goes: to the other peer, once both are here.
    pub open spec fn partner(self, src: SocketAddr) -> Option<SocketAddr> {
        match (self.peer_a, self.peer_b) {
            (Some(a), Some(b)) => if src == a {
                Some(b)
            } else if src == b {
                Some(a)
            } else {
                None
            },
            _ => None,
        }
    }

    /// Silent for too long: since it was reserved while a peer is missing,
    /// since the last packet once both are here.
    pub open spec fn is_stale(self, now: u64) -> bool {
        let since = if self.peer_a is None || self.peer_b is None {
            self.created_at
        } else {
            self.last_active
        };
        now - since > SESSION_IDLE_TIMEOUT_MS
    }

    fn stale(&self, now: u64) -> (r: bool)
        ensures
            r == self.is_stale(now),
    {
        let since: u64 = if self.peer_a.is_none() || self.peer_b.is_none() {
            self.created_at
        } else {
            self.last_active
        };
        now.saturating_sub(since) > SESSION_IDLE_TIMEOUT_MS
    }
}

/// What the relay does with a packet.
#[derive(Debug, Clone, Copy, PartialEq, Eq, Structural)]
pub enum RelayAction {
    /// Send it on.
    Forward(SocketAddr),
    /// The sender joined as the first peer; so many peers are here.
    JoinedA(u8),
    /// The sender joined as the second peer; so many peers are here.
    JoinedB(u8),
    /// The sender's partner is not here yet.
    Unpaired,
    /// Neither a hello nor from a known sender.
    Unsolicited,
    /// A hello for no session.
    UnknownToken,
    /// A hello for a place that is taken.
    DuplicateHello,
    /// A hello with a fingerprint that the session is not for.
    UnknownFingerprint,
}

/// The relay's state.
pub struct RelayState {
    sessions: Table<[u8; 16], Session>,
    addr_to_token: Table<SocketAddr, [u8; 16]>,
    bytes_forwarded: u64,
}

/// The relay's state as a value.
pub ghost struct RelayView {
    /// Sessions by token.
    pub sessions: Map<Seq<u8>, Session>,
    /// Tokens by the address a joined peer sends from.
    pub addrs: Map<SocketAddr, Seq<u8>>,
    /// Bytes forwarded, modulo 2 to the 64th.
    pub bytes: u64,
}

impl RelayView {
    /// Sessions and addresses agree: an address leads to the session of which
    /// it is a peer, every joined peer is found by its address, the two peers
    /// of a session differ in address and in fingerprint.
    pub open spec fn consistent(self) -> bool {
        &&& forall|a: SocketAddr| #[trigger]
            self.addrs.contains_key(a) ==> {
                let t = self.addrs[a];
                &&& self.sessions.contains_key(t)
                &&& self.sessions[t].peer_a == Some(a) || self.sessions[t].peer_b == Some(a)
            }
        &&& forall|t: Seq<u8>| #[trigger]
            self.sessions.contains_key(t) ==> {
                let s = self.sessions[t];
                &&& s.peer_a_expected_fp@ != s.peer_b_expected_fp@
                &&& s.peer_a matches Some(a) ==> self.addrs.contains_key(a) && self.addrs[a] == t
                &&& s.peer_b matches Some(b) ==> self.addrs.contains_key(b) && self.addrs[b] == t
                &&& s.peer_a is Some && s.peer_b is Some ==> s.peer_a != s.peer_b
            }
    }

    /// A packet from `src` at time `now`: the state after it, and what is done
    /// with it.
    pub open spec fn on_packet(self, src: SocketAddr, packet: Seq<u8>, now: u64) -> (
        RelayView,
        RelayAction,
    ) {
        if self.addrs.contains_key(src) {
            let t = self.addrs[src];
            let s = Session { last_active: now, ..self.sessions[t] };
            let sessions = self.sessions.insert(t, s);
            match s.partner(src) {
                Some(dest) => (
                    RelayView {
                        sessions,
                        bytes: ((self.bytes + packet.len()) % 0x1_0000_0000_0000_0000) as u64,
                        ..self
                    },
                    RelayAction::Forward(dest),
                ),
                None => (RelayView { sessions, ..self }, RelayAction::Unpaired),
            }
        } else if !is_hello(packet) {
            (self, RelayAction::Unsolicited)
        } else {
            self.on_hello(src, packet.subrange(8, 24), packet.subrange(24, 56), now)
        }
    }

    /// A hello from an address that is not known yet.
    pub open spec fn on_hello(
        self,
        src: SocketAddr,
        token: Seq<u8>,
        fingerprint: Seq<u8>,
        now: u64,
    ) -> (RelayView, RelayAction) {
        if !self.sessions.contains_key(token) {
            (self, RelayAction::UnknownToken)
        } else {
            let s = self.sessions[token];
            if fingerprint == s.peer_a_expected_fp@ {
                if s.peer_a is Some {
                    (self, RelayAction::DuplicateHello)
                } else {
                    (
                        self.joined(
                            src,
                            token,
                            Session { peer_a: Some(src), last_active: now, ..s },
                        ),
                        RelayAction::JoinedA(
                            if s.peer_b is Some {
                                2
                            } else {
                                1
                            },
                        ),
                    )
                }
            } else if fingerprint == s.peer_b_expected_fp@ {
                if s.peer_b is Some {
                    (self, RelayAction::DuplicateHello)
                } else {
                    (
                        self.joined(
                            src,
                            token,
                            Session { peer_b: Some(src), last_active: now, ..s },
                        ),
                        RelayAction::JoinedB(
                            if s.peer_a is Some {
                                2
                            } else {
                                1
                            },
                        ),
                    )
                }
            } else {
                (self, RelayAction::UnknownFingerprint)
            }
        }
    }

    /// A peer joined: its address leads to its session.
    pub open spec fn joined(self, src: SocketAddr, token: Seq<u8>, s: Session) -> RelayView {
        RelayView {
            sessions: self.sessions.insert(token, s),
            addrs: self.addrs.insert(src, token),
            ..self
        }
    }

    /// Without these sessions and the addresses of their peers.
    pub open spec fn without(self, gone: Set<Seq<u8>>) -> RelayView {
        RelayView {
            sessions: self.sessions.remove_keys(gone),
            addrs: self.addrs.remove_keys(
                self.addrs.dom().filter(|a: SocketAddr| gone.contains(self.addrs[a])),
            ),
            ..self
        }
    }

    /// The sessions that were silent for too long.
    pub open spec fn stale_tokens(self, now: u64) -> Set<Seq<u8>> {
        self.sessions.dom().filter(|t: Seq<u8>| self.sessions[t].is_stale(now))
    }
}

/// The tokens in a list.
spec fn token_set(list: Seq<[u8; 16]>) -> Set<Seq<u8>>
    decreases list.len(),
{
    if list.len() == 0 {
        Set::empty()
    } else {
        token_set(list.drop_last()).insert(list.last()@)
    }
}

/// Tokens as values.
pub open spec fn token_values(m: Map<SocketAddr, [u8; 16]>) -> Map<SocketAddr, Seq<u8>> {
    m.map_values(|t: [u8; 16]| t@)
}

impl View for RelayState {
    type V = RelayView;

    closed spec fn view(&self) -> RelayView {
        RelayView {
            sessions: self.sessions@,
            addrs: token_values(self.addr_to_token@),
            bytes: self.bytes_forwarded,
        }
    }
}

impl RelayState {
    pub closed spec fn wf(&self) -> bool {
        &&& self.sessions.wf()
        &&& self.addr_to_token.wf()
        &&& self@.consistent()
    }

    /// Sessions and addresses agree.
    pub proof fn is_consistent(&self)
        requires
            self.wf(),
        ensures
            self@.consistent(),
    {
    }

    /// A relay without sessions.
    pub fn new() -> (r: Self)
        ensures
            r.wf(),
            r@ == (RelayView { sessions: Map::empty(), addrs: Map::empty(), bytes: 0 }),
    {
        let r = RelayState {
            sessions: Table::new(),
            addr_to_token: Table::new(),
            bytes_forwarded: 0,
        };
        assert(r@.addrs =~= Map::empty());
        r
    }

    /// Bytes forwarded so far.
    pub fn bytes_forwarded(&self) -> (r: u64)
        ensures
            r == self@.bytes,
    {
        self.bytes_forwarded
    }

    /// Reserves a session for two peers. Peers with the same fingerprint, and
    /// a token that is in use, are refused, and nothing changes.
    pub fn reserve(
        &mut self,
        token: [u8; 16],
        peer_a_fp: [u8; 32],
        peer_b_fp: [u8; 32],
        now: u64,
    ) -> (r: Result<(), RelayError>)
        requires
            old(self).wf(),
        ensures
            final(self).wf(),
            if peer_a_fp@ == peer_b_fp@ {
                final(self)@ == old(self)@ && (r matches Err(e) && e is DuplicateFingerprint)
            } else if old(self)@.sessions.contains_key(token@) {
                final(self)@ == old(self)@ && (r matches Err(e) && e is TokenInUse)
            } else {
                r is Ok && final(self)@ == (RelayView {
                    sessions: old(self)@.sessions.insert(
                        token@,
                        Session {
                            peer_a: None,
                            peer_b: None,
                            created_at: now,
                            last_active: now,
                            peer_a_expected_fp: peer_a_fp,
                            peer_b_expected_fp: peer_b_fp,
                        },
                    ),
                    ..old(self)@
                })
            },
    {
        if bytes_eq(peer_a_fp.as_slice(), peer_b_fp.as_slice()) {
            return Err(RelayError::DuplicateFingerprint);
        }
        if self.sessions.contains(&token) {
            return Err(RelayError::TokenInUse);
        }
        self.sessions.insert(
            token,
            Session {
                peer_a: None,
                peer_b: None,
                created_at: now,
                last_active: now,
                peer_a_expected_fp: peer_a_fp,
                peer_b_expected_fp: peer_b_fp,
            },
        );
        Ok(())
    }

    /// Forgets a session and the addresses of its peers.
    pub fn forget(&mut self, token: &[u8; 16])
        requires
            old(self).wf(),
        ensures
            final(self).wf(),
            final(self)@ == old(self)@.without(Set::<Seq<u8>>::empty().insert(token@)),
    {
        let ghost before = self@;
        let ghost gone = Set::<Seq<u8>>::empty().insert(token@);
        match self.sessions.remove(token) {
            Some(s) => {
                let ghost addrs0 = self.addr_to_token@;
                if let Some(a) = s.peer_a {
                    self.addr_to_token.remove(&a);
                }
                if let Some(b) = s.peer_b {
                    self.addr_to_token.remove(&b);
                }
                proof {
                    assert forall|x: SocketAddr| #[trigger]
                        self@.addrs.contains_key(x) <==> before.without(gone).addrs.contains_key(x) by {
                        if before.addrs.contains_key(x) && before.addrs[x] == token@ {
                            assert(s.peer_a == Some(x) || s.peer_b == Some(x));
                        }
                    }
                }
            },
            None => {},
        }
        proof {
            assert(self@.sessions =~= before.without(gone).sessions);
            assert(self@.addrs =~= before.without(gone).addrs);
        }
    }

    /// Forgets every session that was silent for too long.
    pub fn evict_idle(&mut self, now: u64)
        requires
            old(self).wf(),
        ensures
            final(self).wf(),
            final(self)@ == old(self)@.without(old(self)@.stale_tokens(now)),
    {
        let ghost before = self@;
        let ghost gone = before.stale_tokens(now);
        let mut stale: Vec<[u8; 16]> = Vec::new();
        let mut i: usize = 0;
        while i < self.sessions.len()
            invariant
                self.wf(),
                self@ == before,
                gone == before.stale_tokens(now),
                i <= self.sessions.entries().len(),
                forall|t: Seq<u8>| #[trigger] token_set(stale@).contains(t) ==> gone.contains(t),
                forall|j: int|
                    0 <= j < i && gone.contains((#[trigger] self.sessions.entries()[j]).0@)
                        ==> token_set(stale@).contains(self.sessions.entries()[j].0@),
            decreases self.sessions.entries().len() - i,
        {
            proof {
                self.sessions.entries_are_map();
            }
            let ghost e = self.sessions.entries()[i as int];
            assert(e.0.id() == e.0@);
            if self.sessions.value_at(i).stale(now) {
                let ghost list = stale@;
                let token: [u8; 16] = *self.sessions.key_at(i);
                assert(before.sessions.contains_key(token@));
                assert(before.sessions[token@].is_stale(now));
                assert(gone.contains(token@));
                stale.push(token);
                proof {
                    assert(stale@.drop_last() =~= list);
                    assert(token_set(stale@) == token_set(list).insert(token@));
                    assert forall|t: Seq<u8>| #[trigger] token_set(stale@).contains(t) implies gone.contains(
                        t,
                    ) by {
                        if t != token@ {
                            assert(token_set(list).contains(t));
                        }
                    }
                }
            }
            i += 1;
        }
        proof {
            self.sessions.entries_are_map();
            assert(token_set(stale@) =~= gone) by {
                assert forall|t: Seq<u8>| #[trigger] gone.contains(t) implies token_set(
                    stale@,
                ).contains(t) by {
                    assert(self.sessions@.contains_key(t));
                }
            }
        }
        let mut n: usize = 0;
        proof {
            assert(stale@.take(0) =~= Seq::empty());
            let first = before.without(token_set(stale@.take(0)));
            assert(first.sessions =~= before.sessions);
            assert(first.addrs =~= before.addrs);
        }
        while n < stale.len()
            invariant
                self.wf(),
                n <= stale@.len(),
                self@ == before.without(token_set(stale@.take(n as int))),
            decreases stale@.len() - n,
        {
            let ghost mid = self@;
            self.forget(&stale[n]);
            proof {
                let one = Set::<Seq<u8>>::empty().insert(stale@[n as int]@);
                let next = token_set(stale@.take(n + 1));
                assert(stale@.take(n + 1).drop_last() =~= stale@.take(n as int));
                assert(mid.without(one).sessions =~= before.without(next).sessions);
                assert(mid.without(one).addrs =~= before.without(next).addrs);
            }
            n += 1;
        }
        assert(stale@.take(n as int) =~= stale@);
    }

    /// Takes a packet and says what to do with it.
    pub fn on_packet(&mut self, src: SocketAddr, packet: &[u8], now: u64) -> (r: RelayAction)
        requires
            old(self).wf(),
        ensures
            final(self).wf(),
            (final(self)@, r) == old(self)@.on_packet(src, packet@, now),
    {
        let ghost before = self@;
        let known: Option<[u8; 16]> = match self.addr_to_token.get(&src) {
            Some(t) => Some(*t),
            None => None,
        };
        if let Some(token) = known {
            assert(before.addrs.contains_key(src) && before.addrs[src] == token@);
            match self.sessions.remove(&token) {
                Some(session) => {
                    let mut s: Session = session;
                    s.last_active = now;
                    let dest: Option<SocketAddr> = match (s.peer_a, s.peer_b) {
                        (Some(a), Some(b)) => if src == a {
                            Some(b)
                        } else if src == b {
                            Some(a)
                        } else {
                            None
                        },
                        _ => None,
                    };
                    self.sessions.insert(token, s);
                    assert(self@.sessions =~= before.sessions.insert(token@, s));
                    match dest {
                        Some(dest) => {
                            self.bytes_forwarded = self.bytes_forwarded.wrapping_add(
                                packet.len() as u64,
                            );
                            RelayAction::Forward(dest)
                        },
                        None => RelayAction::Unpaired,
                    }
                },
                None => RelayAction::Unpaired,
            }
        } else {
            assert(!before.addrs.contains_key(src));
            match RelayHello::try_decode(packet) {
                Some(hello) => self.on_hello(src, &hello, now),
                None => RelayAction::Unsolicited,
            }
        }
    }

    fn on_hello(&mut self, src: SocketAddr, hello: &RelayHello, now: u64) -> (r: RelayAction)
        requires
            old(self).wf(),
            !old(self)@.addrs.contains_key(src),
        ensures
            final(self).wf(),
            (final(self)@, r) == old(self)@.on_hello(src, hello.token@, hello.fingerprint@, now),
    {
        let ghost before = self@;
        let token: [u8; 16] = hello.token;
        let mut s: Session = match self.sessions.get(&token) {
            Some(s) => *s,
            None => {
                return RelayAction::UnknownToken;
            },
        };
        let action: RelayAction;
        if bytes_eq(hello.fingerprint.as_slice(), s.peer_a_expected_fp.as_slice()) {
            if s.peer_a.is_some() {
                return RelayAction::DuplicateHello;
            }
            s.peer_a = Some(src);
            action =
            RelayAction::JoinedA(
                if s.peer_b.is_some() {
                    2
                } else {
                    1
                },
            );
        } else if bytes_eq(hello.fingerprint.as_slice(), s.peer_b_expected_fp.as_slice()) {
            if s.peer_b.is_some() {
                return RelayAction::DuplicateHello;
            }
            s.peer_b = Some(src);
            action =
            RelayAction::JoinedB(
                if s.peer_a.is_some() {
                    2
                } else {
                    1
                },
            );
        } else {
            return RelayAction::UnknownFingerprint;
        }
        s.last_active = now;
        self.sessions.insert(token, s);
        self.addr_to_token.insert(src, token);
        proof {
            assert(self@.addrs =~= before.addrs.insert(src, token@));
            assert(self@.sessions =~= before.sessions.insert(token@, s));
        }
        action
    }
}

/// The relay connects exactly the two peers of a session: what it forwards
/// from one goes to the other and to nobody else, and the answer comes back.
pub proof fn law_relay_connects_session_peers(
    v: RelayView,
    src: SocketAddr,
    packet: Seq<u8>,
    now: u64,
)
    requires
        v.consistent(),
    ensures
        v.on_packet(src, packet, now).0.consistent(),
        v.on_packet(src, packet, now).1 matches RelayAction::Forward(dest) ==> {
            let s = v.sessions[v.addrs[src]];
            &&& src != dest
            &&& (s.peer_a == Some(src) && s.peer_b == Some(dest)) || (s.peer_a == Some(dest)
                && s.peer_b == Some(src))
            &&& forall|answer: Seq<u8>, later: u64|
                (#[trigger] v.on_packet(src, packet, now).0.on_packet(dest, answer, later)).1
                    == RelayAction::Forward(src)
        },
{
}

/// Nobody joins a session without its token and a fingerprint that it was
/// reserved for, and no peer is ever replaced by another.
pub proof fn law_join_needs_token_and_fingerprint(
    v: RelayView,
    src: SocketAddr,
    packet: Seq<u8>,
    now: u64,
    token: Seq<u8>,
)
    requires
        v.consistent(),
        v.sessions.contains_key(token),
    ensures
        ({
            let s = v.sessions[token];
            let after = v.on_packet(src, packet, now).0;
            let t = after.sessions[token];
            &&& after.sessions.contains_key(token)
            &&& s.peer_a is Some ==> t.peer_a == s.peer_a
            &&& s.peer_b is Some ==> t.peer_b == s.peer_b
            &&& s.peer_a is None && t.peer_a is Some ==> is_hello(packet) && packet.subrange(8, 24)
                == token && packet.subrange(24, 56) == s.peer_a_expected_fp@
            &&& s.peer_b is None && t.peer_b is Some ==> is_hello(packet) && packet.subrange(8, 24)
                == token && packet.subrange(24, 56) == s.peer_b_expected_fp@
        }),
{
}

/// Two peers that send the hellos they were told to, one after the other in
/// either order, are connected: from then on what either sends goes to the
/// other.
pub proof fn law_two_hellos_connect(
    v: RelayView,
    token: Seq<u8>,
    a: SocketAddr,
    b: SocketAddr,
    t1: u64,
    t2: u64,
    packet: Seq<u8>,
    now: u64,
)
    requires
        v.consistent(),
        token.len() == 16,
        v.sessions.contains_key(token),
        v.sessions[token].peer_a is None,
        v.sessions[token].peer_b is None,
        !v.addrs.contains_key(a),
        !v.addrs.contains_key(b),
        a != b,
    ensures
        ({
            let s = v.sessions[token];
            let first = hello_bytes(token, s.peer_a_expected_fp@);
            let second = hello_bytes(token, s.peer_b_expected_fp@);
            let ab = v.on_packet(a, first, t1).0.on_packet(b, second, t2).0;
            let ba = v.on_packet(b, second, t1).0.on_packet(a, first, t2).0;
            &&& ab.on_packet(a, packet, now).1 == RelayAction::Forward(b)
            &&& ab.on_packet(b, packet, now).1 == RelayAction::Forward(a)
            &&& ba.on_packet(a, packet, now).1 == RelayAction::Forward(b)
            &&& ba.on_packet(b, packet, now).1 == RelayAction::Forward(a)
        }),
{
    let s = v.sessions[token];
    let first = hello_bytes(token, s.peer_a_expected_fp@);
    let second = hello_bytes(token, s.peer_b_expected_fp@);
    law_hello_roundtrip(token, s.peer_a_expected_fp@, Seq::empty());
    law_hello_roundtrip(token, s.peer_b_expected_fp@, Seq::empty());
    assert(first + Seq::<u8>::empty() =~= first);
    assert(second + Seq::<u8>::empty() =~= second);
}

/// A peer that joined can speak again only from where it joined: a hello from
/// elsewhere changes nothing, and what a stranger sends goes nowhere.
pub proof fn law_strangers_change_nothing(v: RelayView, src: SocketAddr, packet: Seq<u8>, now: u64)
    requires
        !v.addrs.contains_key(src),
    ensures
        !(v.on_packet(src, packet, now).1 is Forward),
        v.on_packet(src, packet, now).0.bytes == v.bytes,
        !(v.on_packet(src, packet, now).1 is JoinedA) && !(v.on_packet(src, packet, now).1
            is JoinedB) ==> v.on_packet(src, packet, now).0 == v,
        packet.len() < 56 ==> v.on_packet(src, packet, now).0 == v,
{
}

/// What is forwarded is counted, to the byte, and nothing else is.
pub proof fn law_forwarded_bytes_are_counted(
    v: RelayView,
    src: SocketAddr,
    packet: Seq<u8>,
    now: u64,
)
    requires
        v.bytes + packet.len() <= u64::MAX,
    ensures
        v.on_packet(src, packet, now).0.bytes == v.bytes + (if v.on_packet(src, packet, now).1
            is Forward {
            packet.len()
        } else {
            0
        }),
{
}

/// A session ends when it was silent for more than two minutes: counted from the
/// last packet of either peer once both are here, and from its reservation
/// before. The sessions that stay, stay as they are, and so do the addresses of
/// their peers.
pub proof fn law_silent_sessions_end(v: RelayView, now: u64, token: Seq<u8>, addr: SocketAddr)
    ensures
        ({
            let after = v.without(v.stale_tokens(now));
            let s = v.sessions[token];
            let since = if s.peer_a is Some && s.peer_b is Some {
                s.last_active
            } else {
                s.created_at
            };
            &&& after.sessions.contains_key(token) <==> v.sessions.contains_key(token) && now
                <= since + 120_000
            &&& after.sessions.contains_key(token) ==> after.sessions[token] == s
            &&& v.addrs.contains_key(addr) && v.addrs[addr] == token && v.sessions.contains_key(
                token,
            ) ==> (after.addrs.contains_key(addr) <==> after.sessions.contains_key(token))
            &&& after.addrs.contains_key(addr) ==> v.addrs.contains_key(addr) && after.addrs[addr]
                == v.addrs[addr]
            &&& after.bytes == v.bytes
        }),
{
}

/// Any packet of a peer that joined keeps its session alive: it counts as active
/// from then on.
pub proof fn law_packets_keep_a_session_alive(
    v: RelayView,
    src: SocketAddr,
    packet: Seq<u8>,
    now: u64,
)
    requires
        v.consistent(),
        v.addrs.contains_key(src),
    ensures
        ({
            let after = v.on_packet(src, packet, now).0;
            let token = v.addrs[src];
            &&& after.sessions.contains_key(token)
            &&& after.sessions[token].last_active == now
            &&& after.sessions[token].peer_a == v.sessions[token].peer_a
            &&& after.sessions[token].peer_b == v.sessions[token].peer_b
            &&& after.addrs == v.addrs
        }),
{
}

/// A hello has its magic, its version, and the lengths of token and fingerprint;
/// a datagram without them, or too short for them, is none.
pub proof fn law_only_hellos_are_taken_for_hellos(data: Seq<u8>)
    ensures
        is_hello(data) <==> data.len() >= 56 && data[0] == 0x50 && data[1] == 0x32 && data[2] == 0x52
            && data[3] == 0x5A && data[4] == 1 && data[6] == 16 && data[7] == 32,
{
    if data.len() >= 56 {
        if data[0] == 0x50 && data[1] == 0x32 && data[2] == 0x52 && data[3] == 0x5A {
            assert(data.take(4) =~= hello_magic());
        }
        if data.take(4) == hello_magic() {
            assert(data[0] == data.take(4)[0]);
            assert(data[1] == data.take(4)[1]);
            assert(data[2] == data.take(4)[2]);
            assert(data[3] == data.take(4)[3]);
        }
    }
}

/// A hello that one side writes the other side reads, token and fingerprint as
/// they are.
pub proof fn law_hellos_are_read_as_written(
    hello: RelayHello,
    bytes: Vec<u8>,
    data: &[u8],
    r: Option<RelayHello>,
)
    requires
        call_ensures(RelayHello::encode, (&hello,), bytes),
        data@ == bytes@,
        call_ensures(RelayHello::try_decode, (data,), r),
    ensures
        r is Some,
        r->0.token@ == hello.token@,
        r->0.fingerprint@ == hello.fingerprint@,
        bytes@.len() == 56,
{
    law_hello_roundtrip(hello.token@, hello.fingerprint@, Seq::empty());
    assert(bytes@ + Seq::<u8>::empty() =~= bytes@);
}

} // verus!
