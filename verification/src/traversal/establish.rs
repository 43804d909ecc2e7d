//! Establishing a session through a rendezvous server: what to register, and
//! whom to dial once the server has answered.

use vstd::prelude::*;
use vstd::string::*;

use crate::error::{Error, Result};
use crate::net::{is_loopback, loopback, IpAddr, SocketAddr};
use crate::random::random_below;
use crate::rendezvous::client::{means, ClientError, MatchOutcome};
use crate::rendezvous::protocol::{Message, RegisterRequest, PROTOCOL_VERSION};
use crate::rendezvous::relay::{
    hello_bytes, law_two_hellos_connect, RelayAction, RelayHello, RelayView,
};
use crate::rendezvous::server::{
    is_answer, is_ascii_alphanumeric, law_relayed_peers_share_a_token, pairing_follows, refusal,
    valid_code, Pairing, Waiter,
};
use crate::traversal::stun::NatClass;

verus! {

/// How often a hello is sent to the relay.
pub const RELAY_HELLO_ROUNDS: u32 = 3;

/// Milliseconds between two hellos.
pub const RELAY_HELLO_INTERVAL_MS: u64 = 50;

/// The endpoint to register and whether to ask for a relay. A server on the
/// machine itself is reached without a NAT, so the local address stands. A
/// symmetric NAT needs a relay.
pub open spec fn endpoint_to_register(
    rendezvous: SocketAddr,
    class: NatClass,
    local: SocketAddr,
    force_relay: bool,
) -> (SocketAddr, bool) {
    if loopback(rendezvous.ip) {
        (local, force_relay)
    } else {
        match class {
            NatClass::Cone { public } => (public, force_relay),
            NatClass::Symmetric => (local, true),
        }
    }
}

/// The registration to send. The class of the NAT only matters where the
/// server is not on the machine itself.
pub fn registration(
    rendezvous: SocketAddr,
    class: NatClass,
    local: SocketAddr,
    force_relay: bool,
    code: String,
    fingerprint: [u8; 32],
    device_id: [u8; 16],
) -> (r: RegisterRequest)
    ensures
        (r.public_endpoint, r.want_relay) == endpoint_to_register(
            rendezvous,
            class,
            local,
            force_relay,
        ),
        r.protocol_version == PROTOCOL_VERSION,
        r.code == code,
        r.cert_fingerprint == fingerprint,
        r.device_id == device_id,
{
    let (public_endpoint, want_relay): (SocketAddr, bool) = if is_loopback(&rendezvous.ip) {
        (local, force_relay)
    } else {
        match class {
            NatClass::Cone { public } => (public, force_relay),
            NatClass::Symmetric => (local, true),
        }
    };
    RegisterRequest {
        protocol_version: PROTOCOL_VERSION,
        code,
        public_endpoint,
        cert_fingerprint: fingerprint,
        device_id,
        want_relay,
    }
}

/// Whom to dial.
pub struct DialPlan {
    /// The peer, or the relay in its place.
    pub endpoint: SocketAddr,
    pub peer_fingerprint: [u8; 32],
    pub peer_device_id: [u8; 16],
    /// What to send to the relay first.
    pub hello: Option<Vec<u8>>,
}

/// Whether `r` is whom to dial for what the server answered.
pub open spec fn dials(outcome: MatchOutcome, our_fingerprint: [u8; 32], r: DialPlan) -> bool {
    match outcome {
        MatchOutcome::Direct(peer) => r.endpoint == peer.endpoint && r.peer_fingerprint
            == peer.fingerprint && r.peer_device_id == peer.device_id && r.hello is None,
        MatchOutcome::Relay(relay) => r.endpoint == relay.relay_endpoint && r.peer_fingerprint
            == relay.peer_fingerprint && r.peer_device_id == relay.peer_device_id && (
        r.hello matches Some(h) && h@ == hello_bytes(relay.session_token@, our_fingerprint@)),
    }
}

/// Whom to dial for what the server answered.
pub fn dial_plan(outcome: &MatchOutcome, our_fingerprint: [u8; 32]) -> (r: DialPlan)
    ensures
        dials(*outcome, our_fingerprint, r),
{
    match outcome {
        MatchOutcome::Direct(peer) => DialPlan {
            endpoint: peer.endpoint,
            peer_fingerprint: peer.fingerprint,
            peer_device_id: peer.device_id,
            hello: None,
        },
        MatchOutcome::Relay(relay) => {
            let hello = RelayHello { token: relay.session_token, fingerprint: our_fingerprint };
            DialPlan {
                endpoint: relay.relay_endpoint,
                peer_fingerprint: relay.peer_fingerprint,
                peer_device_id: relay.peer_device_id,
                hello: Some(hello.encode()),
            }
        },
    }
}

/// The first IPv4 address of those a name resolved to: the socket is an IPv4
/// one, so no other can be used.
pub open spec fn first_v4(addrs: Seq<SocketAddr>) -> Option<SocketAddr>
    decreases addrs.len(),
{
    if addrs.len() == 0 {
        None
    } else if addrs[0].ip is V4 {
        Some(addrs[0])
    } else {
        first_v4(addrs.skip(1))
    }
}

/// Picks the server's address from those its name resolved to.
pub fn resolve_first(addrs: &Vec<SocketAddr>, host_port: &str) -> (r: Result<SocketAddr>)
    ensures
        match first_v4(addrs@) {
            Some(a) => r == Ok::<SocketAddr, Error>(a),
            None => r matches Err(Error::Rendezvous(m)) && m@
                == "could not resolve an IPv4 address for STUN server '"@ + host_port@ + "'"@,
        },
{
    let mut i: usize = 0;
    assert(addrs@.skip(0) =~= addrs@);
    while i < addrs.len()
        invariant
            i <= addrs@.len(),
            first_v4(addrs@) == first_v4(addrs@.skip(i as int)),
        decreases addrs@.len() - i,
    {
        assert(addrs@.skip(i as int).skip(1) =~= addrs@.skip(i + 1));
        if let IpAddr::V4(_) = addrs[i].ip {
            return Ok(addrs[i]);
        }
        i += 1;
    }
    let mut m = "could not resolve an IPv4 address for STUN server '".to_owned();
    m.append(host_port);
    m.append("'");
    Err(Error::Rendezvous(m))
}

/// The two STUN servers to ask: a chosen one in place of the first.
pub fn stun_servers(custom: Option<&str>) -> (r: (String, String))
    ensures
        r.0@ == (match custom {
            Some(server) => server@,
            None => "stun.l.google.com:19302"@,
        }),
        r.1@ == "stun1.l.google.com:19302"@,
{
    let first: String = match custom {
        Some(server) => server.to_owned(),
        None => "stun.l.google.com:19302".to_owned(),
    };
    (first, "stun1.l.google.com:19302".to_owned())
}

/// The letters and digits of a pairing code, without those that are easily
/// mistaken for another.
pub const CODE_ALPHABET: [char; 30] = [
    'A', 'B', 'C', 'D', 'E', 'F', 'G', 'H', 'J', 'K', 'M', 'N', 'P', 'Q', 'R', 'S', 'T', 'V', 'W',
    'X', 'Y', 'Z', '2', '3', '4', '5', '6', '7', '8', '9',
];

/// The code that a row of picks from the alphabet spells.
pub open spec fn code_spelled(picks: Seq<usize>) -> Seq<char> {
    Seq::new(picks.len(), |i: int| CODE_ALPHABET@[picks[i] as int])
}

/// Spells the code of a row of picks from the alphabet.
pub fn code_of(picks: &[usize]) -> (r: String)
    requires
        forall|i: int| 0 <= i < picks@.len() ==> (#[trigger] picks@[i]) < 30,
    ensures
        r@ == code_spelled(picks@),
{
    let mut code = String::new();
    let mut i: usize = 0;
    while i < picks.len()
        invariant
            i <= picks@.len(),
            forall|i: int| 0 <= i < picks@.len() ==> (#[trigger] picks@[i]) < 30,
            code@.len() == i,
            forall|j: int| 0 <= j < i ==> #[trigger] code@[j] == CODE_ALPHABET@[picks@[j] as int],
        decreases picks@.len() - i,
    {
        assert(picks@[i as int] < 30);
        let pick: usize = picks[i];
        code.push(CODE_ALPHABET[pick]);
        i += 1;
    }
    assert(code@ =~= code_spelled(picks@));
    code
}

/// Draws a fresh pairing code of six characters. It is one that every
/// rendezvous server accepts.
pub fn generate_code() -> (r: String)
    ensures
        r@.len() == 6,
        exists|picks: Seq<usize>|
            picks.len() == 6 && r@ == #[trigger] code_spelled(picks) && forall|i: int|
                0 <= i < 6 ==> (#[trigger] picks[i]) < 30,
        valid_code(r@),
{
    let mut picks: Vec<usize> = Vec::new();
    let mut i: usize = 0;
    while i < 6
        invariant
            i <= 6,
            picks@.len() == i,
            forall|j: int| 0 <= j < i ==> (#[trigger] picks@[j]) < 30,
        decreases 6 - i,
    {
        picks.push(random_below(30));
        i += 1;
    }
    let code: String = code_of(picks.as_slice());
    proof {
        assert forall|j: int| 0 <= j < code@.len() implies is_ascii_alphanumeric(
            #[trigger] code@[j],
        ) by {
            assert(picks@[j] < 30);
            lemma_alphabet(picks@[j] as int);
        }
    }
    code
}

proof fn lemma_alphabet(k: int)
    requires
        0 <= k < 30,
    ensures
        is_ascii_alphanumeric(CODE_ALPHABET@[k]),
{
}

/// A relay is asked for where the user wants one or the NAT cannot be punched;
/// the address registered is the one that the NAT shows where there is one, and
/// the local one otherwise. With a server on the machine itself, at 127.0.0.0
/// to 127.255.255.255 or ::1, there is no NAT.
pub proof fn law_registration_fits_the_nat(
    rendezvous: SocketAddr,
    class: NatClass,
    local: SocketAddr,
    force_relay: bool,
)
    ensures
        ({
            let (endpoint, want_relay) = endpoint_to_register(rendezvous, class, local, force_relay);
            let here = match rendezvous.ip {
                IpAddr::V4(a) => 0x7F00_0000 <= a <= 0x7FFF_FFFF,
                IpAddr::V6(a) => a == 1,
            };
            &&& want_relay <==> force_relay || (class is Symmetric && !here)
            &&& !here && class is Cone ==> endpoint == class->public
            &&& here || class is Symmetric ==> endpoint == local
        }),
{
}

/// The address picked is the first IPv4 one, and none is picked only where there
/// is none.
pub proof fn law_first_v4_is_picked(addrs: Seq<SocketAddr>)
    ensures
        match first_v4(addrs) {
            Some(a) => exists|i: int|
                0 <= i < addrs.len() && #[trigger] addrs[i] == a && a.ip is V4 && forall|j: int|
                    0 <= j < i ==> !((#[trigger] addrs[j]).ip is V4),
            None => forall|j: int| 0 <= j < addrs.len() ==> !((#[trigger] addrs[j]).ip is V4),
        },
    decreases addrs.len(),
{
    if addrs.len() > 0 && !(addrs[0].ip is V4) {
        let rest = addrs.skip(1);
        law_first_v4_is_picked(rest);
        match first_v4(rest) {
            Some(a) => {
                let i = choose|i: int|
                    0 <= i < rest.len() && #[trigger] rest[i] == a && a.ip is V4 && forall|j: int|
                        0 <= j < i ==> !((#[trigger] rest[j]).ip is V4);
                assert(addrs[i + 1] == a);
                assert forall|j: int| 0 <= j < i + 1 implies !((#[trigger] addrs[j]).ip is V4) by {
                    if j > 0 {
                        assert(rest[j - 1] == addrs[j]);
                    }
                }
            },
            None => {
                assert forall|j: int| 0 <= j < addrs.len() implies !((#[trigger] addrs[j]).ip is V4) by {
                    if j > 0 {
                        assert(rest[j - 1] == addrs[j]);
                    }
                }
            },
        }
    } else if addrs.len() > 0 {
        assert(addrs[0].ip is V4);
    }
}

/// A code is easy to read out: it has a character for every pick, each a capital
/// letter or a digit, and none of those that are easily mistaken: no I, L, O or
/// U, no nought and no one. Different picks give different characters.
pub proof fn law_codes_are_easy_to_read(picks: Seq<usize>)
    requires
        forall|i: int| 0 <= i < picks.len() ==> (#[trigger] picks[i]) < 30,
    ensures
        code_spelled(picks).len() == picks.len(),
        forall|i: int|
            0 <= i < picks.len() ==> {
                let c = #[trigger] code_spelled(picks)[i];
                &&& 'A' <= c <= 'Z' || '2' <= c <= '9'
                &&& c != 'I' && c != 'L' && c != 'O' && c != 'U'
            },
        forall|i: int, j: int|
            0 <= i < picks.len() && 0 <= j < picks.len() && #[trigger] code_spelled(picks)[i]
                == #[trigger] code_spelled(picks)[j] ==> picks[i] == picks[j],
{
    assert forall|i: int| 0 <= i < picks.len() implies {
        let c = #[trigger] code_spelled(picks)[i];
        &&& 'A' <= c <= 'Z' || '2' <= c <= '9'
        &&& c != 'I' && c != 'L' && c != 'O' && c != 'U'
    } by {
        assert(picks[i] < 30);
        lemma_alphabet(picks[i] as int);
    }
    assert forall|i: int, j: int|
        0 <= i < picks.len() && 0 <= j < picks.len() && #[trigger] code_spelled(picks)[i]
            == #[trigger] code_spelled(picks)[j] implies picks[i] == picks[j] by {
        assert(picks[i] < 30 && picks[j] < 30);
    }
}

/// Two peers that are paired for a direct connection dial each other: each the
/// address that the other is registered under, and each accepts only the other's
/// certificate.
pub proof fn law_paired_peers_dial_each_other(
    pairing: Pairing,
    before: Map<Seq<char>, Waiter>,
    relay: Option<(RelayView, SocketAddr)>,
    waiter: Waiter,
    req: RegisterRequest,
    token: [u8; 16],
    now: u64,
    after: Map<Seq<char>, Waiter>,
    relay_after: Option<RelayView>,
    to_first: Message,
    first: core::result::Result<MatchOutcome, ClientError>,
    second: core::result::Result<MatchOutcome, ClientError>,
    first_plan: DialPlan,
    second_plan: DialPlan,
)
    requires
        pairing_follows(before, relay, waiter, req, token, now, after, relay_after, pairing),
        relay is None || !(req.want_relay || waiter.first.want_relay),
        pairing.to_first matches Some((_, note)) ==> is_answer(Some(note), to_first),
        means(to_first, first),
        means(pairing.to_second, second),
        first matches Ok(outcome) ==> dials(outcome, waiter.first.cert_fingerprint, first_plan),
        second matches Ok(outcome) ==> dials(outcome, req.cert_fingerprint, second_plan),
    ensures
        first is Ok,
        second is Ok,
        first_plan.endpoint == req.public_endpoint,
        first_plan.peer_fingerprint@ == req.cert_fingerprint@,
        first_plan.peer_device_id@ == req.device_id@,
        first_plan.hello is None,
        second_plan.endpoint == waiter.first.public_endpoint,
        second_plan.peer_fingerprint@ == waiter.first.cert_fingerprint@,
        second_plan.peer_device_id@ == waiter.first.device_id@,
        second_plan.hello is None,
{
}

/// Two peers that are paired through the relay both dial it, each accepts only
/// the other's certificate, and the hellos that they are to send first open the
/// session that was reserved for them: once both have come, what one sends goes
/// to the other.
pub proof fn law_relayed_peers_meet_at_the_relay(
    pairing: Pairing,
    before: Map<Seq<char>, Waiter>,
    relay: RelayView,
    relay_addr: SocketAddr,
    waiter: Waiter,
    req: RegisterRequest,
    token: [u8; 16],
    now: u64,
    after: Map<Seq<char>, Waiter>,
    relay_after: RelayView,
    to_first: Message,
    first: core::result::Result<MatchOutcome, ClientError>,
    second: core::result::Result<MatchOutcome, ClientError>,
    first_plan: DialPlan,
    second_plan: DialPlan,
    a: SocketAddr,
    b: SocketAddr,
    packet: Seq<u8>,
    later: u64,
)
    requires
        pairing_follows(
            before,
            Some((relay, relay_addr)),
            waiter,
            req,
            token,
            now,
            after,
            Some(relay_after),
            pairing,
        ),
        req.want_relay || waiter.first.want_relay,
        req.cert_fingerprint@ != waiter.first.cert_fingerprint@,
        !relay.sessions.contains_key(token@),
        pairing.to_first matches Some((_, note)) ==> is_answer(Some(note), to_first),
        means(to_first, first),
        means(pairing.to_second, second),
        first matches Ok(outcome) ==> dials(outcome, waiter.first.cert_fingerprint, first_plan),
        second matches Ok(outcome) ==> dials(outcome, req.cert_fingerprint, second_plan),
        relay_after.consistent(),
        !relay_after.addrs.contains_key(a),
        !relay_after.addrs.contains_key(b),
        a != b,
    ensures
        first is Ok,
        second is Ok,
        first_plan.endpoint == relay_addr,
        second_plan.endpoint == relay_addr,
        first_plan.peer_fingerprint@ == req.cert_fingerprint@,
        second_plan.peer_fingerprint@ == waiter.first.cert_fingerprint@,
        first_plan.peer_device_id@ == req.device_id@,
        second_plan.peer_device_id@ == waiter.first.device_id@,
        first_plan.hello is Some,
        second_plan.hello is Some,
        ({
            let met = relay_after.on_packet(a, first_plan.hello->0@, later).0.on_packet(
                b,
                second_plan.hello->0@,
                later,
            ).0;
            &&& met.on_packet(a, packet, later).1 == RelayAction::Forward(b)
            &&& met.on_packet(b, packet, later).1 == RelayAction::Forward(a)
        }),
{
    law_relayed_peers_share_a_token(
        before,
        Some((relay, relay_addr)),
        waiter,
        req,
        token,
        now,
        after,
        Some(relay_after),
        pairing,
    );
    law_two_hellos_connect(relay_after, token@, a, b, later, later, packet, later);
}

/// A registration is the device's own: under the code that was agreed on, with
/// its own fingerprint and identifier, in the version that servers let in, and
/// with the address and the wish for a relay that fit the NAT.
pub proof fn law_registrations_are_let_in(
    rendezvous: SocketAddr,
    class: NatClass,
    local: SocketAddr,
    force_relay: bool,
    code: String,
    fingerprint: [u8; 32],
    device_id: [u8; 16],
    r: RegisterRequest,
)
    requires
        call_ensures(
            registration,
            (rendezvous, class, local, force_relay, code, fingerprint, device_id),
            r,
        ),
        valid_code(code@),
    ensures
        refusal(Message::Register(r)) is None,
        r.code@ == code@,
        r.cert_fingerprint == fingerprint,
        r.device_id == device_id,
        force_relay ==> r.want_relay,
        r.public_endpoint == endpoint_to_register(rendezvous, class, local, force_relay).0,
        r.want_relay == endpoint_to_register(rendezvous, class, local, force_relay).1,
{
}

/// Two servers are asked, never the same one by default, and a server that the
/// user chose is one of them.
pub proof fn law_chosen_server_is_asked(custom: Option<&str>, r: (String, String))
    requires
        call_ensures(stun_servers, (custom,), r),
    ensures
        custom is Some ==> r.0@ == custom->0@,
        custom is None ==> r.0@ != r.1@,
{
    reveal_strlit("stun.l.google.com:19302");
    reveal_strlit("stun1.l.google.com:19302");
    assert("stun.l.google.com:19302"@.len() != "stun1.l.google.com:19302"@.len());
}

} // verus!
