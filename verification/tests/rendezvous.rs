//! Pairing, relaying, STUN and hole punching.

use hyx::net::{is_loopback, IpAddr, SocketAddr};
use hyx::rendezvous::client::{direct_only, outcome_of, ClientError, MatchOutcome, PeerInfo, RelayInfo};
use hyx::rendezvous::framing::{decode_length, encode_frame, FrameTooLarge, MAX_FRAME_BYTES};
use hyx::rendezvous::protocol::{Message, RegisterRequest, PROTOCOL_VERSION};
use hyx::rendezvous::relay::{
    RelayAction, RelayError, RelayHello, RelayState, FINGERPRINT_LEN, SESSION_IDLE_TIMEOUT_MS,
    SESSION_TOKEN_LEN,
};
use hyx::rendezvous::server::{is_valid_code, outcome_message, screen, Server, ServerError};
use hyx::traversal::establish::{code_of, dial_plan, generate_code, registration, resolve_first, stun_servers};
use hyx::traversal::punch::{connect_delay_ms, peer_matches, punch_timed_out};
use hyx::traversal::stun::{
    build_binding_request, classify, on_datagram, parse_binding_response, parse_mapped,
    parse_xor_mapped, NatClass, ATTR_XOR_MAPPED_ADDRESS, BINDING_REQUEST, BINDING_RESPONSE, MAGIC_COOKIE,
};

fn v4(a: u8, b: u8, c: u8, d: u8, port: u16) -> SocketAddr {
    SocketAddr {
        ip: IpAddr::V4(u32::from_be_bytes([a, b, c, d])),
        port,
    }
}

fn request(code: &str, device: u8, want_relay: bool) -> RegisterRequest {
    RegisterRequest {
        protocol_version: PROTOCOL_VERSION,
        code: code.to_string(),
        public_endpoint: v4(1, 2, 3, 4, 5000 + device as u16),
        cert_fingerprint: [device; 32],
        device_id: [device; 16],
        want_relay,
    }
}

fn peer(code: &str, endpoint: SocketAddr, fingerprint: u8, device: u8) -> RegisterRequest {
    RegisterRequest {
        protocol_version: PROTOCOL_VERSION,
        code: code.to_string(),
        public_endpoint: endpoint,
        cert_fingerprint: [fingerprint; 32],
        device_id: [device; 16],
        want_relay: false,
    }
}

/// Two peers register one after the other from this machine; what each is told.
fn pair_from_loopback(a: RegisterRequest, b: RegisterRequest) -> (PeerInfo, PeerInfo) {
    let mut server = Server::new();
    let (a, waiter) = server.arrive(a, v4(127, 0, 0, 1, 40001), 0);
    assert!(waiter.is_none());
    server.wait(&a, 77, 0, 300_000).unwrap();
    let (b, waiter) = server.arrive(b, v4(127, 0, 0, 1, 40002), 50);
    let pairing = server.pair(None, waiter.unwrap(), b, [0; 16], 50);
    let (connection, note) = pairing.to_first.unwrap();
    assert_eq!(connection, 77);
    let to_first = direct_only(outcome_of(outcome_message(Some(note)))).unwrap();
    let to_second = direct_only(outcome_of(pairing.to_second)).unwrap();
    server.leave(&a);
    (to_first, to_second)
}

#[test]
fn hello_roundtrip() {
    let h = RelayHello {
        token: [0x42; SESSION_TOKEN_LEN],
        fingerprint: [0xCD; FINGERPRINT_LEN],
    };
    let enc = h.encode();
    let dec = RelayHello::try_decode(&enc).unwrap();
    assert_eq!(dec.token, h.token);
    assert_eq!(dec.fingerprint, h.fingerprint);
}

#[test]
fn hello_rejects_bad_magic() {
    let mut enc = RelayHello {
        token: [0; SESSION_TOKEN_LEN],
        fingerprint: [0; FINGERPRINT_LEN],
    }
    .encode();
    enc[0] = b'X';
    assert!(RelayHello::try_decode(&enc).is_none());
}

#[test]
fn hello_rejects_short() {
    let bytes = b"P2RZ";
    assert!(RelayHello::try_decode(bytes).is_none());
}

#[test]
fn hello_rejects_other_versions_and_lengths() {
    let enc = RelayHello { token: [1; 16], fingerprint: [2; 32] }.encode();
    assert_eq!(enc.len(), 56);
    for (at, value) in [(4, 2u8), (6, 15), (7, 31)] {
        let mut bad = enc.clone();
        bad[at] = value;
        assert!(RelayHello::try_decode(&bad).is_none());
    }
    assert!(RelayHello::try_decode(&enc[..55]).is_none());
    let mut reserved = enc.clone();
    reserved[5] = 77;
    reserved.push(1);
    assert!(RelayHello::try_decode(&reserved).is_some());
}

#[test]
fn the_relay_connects_two_peers() {
    let mut relay = RelayState::new();
    let token = [9; 16];
    relay.reserve(token, [1; 32], [2; 32], 0).unwrap();
    let a = v4(10, 0, 0, 1, 1000);
    let b = v4(10, 0, 0, 2, 2000);
    let hello = |fp: u8| RelayHello { token, fingerprint: [fp; 32] }.encode();

    assert_eq!(relay.on_packet(a, b"quic", 1), RelayAction::Unsolicited);
    assert_eq!(relay.on_packet(a, &hello(1), 1), RelayAction::JoinedA(1));
    assert_eq!(relay.on_packet(a, b"quic", 2), RelayAction::Unpaired);
    assert_eq!(relay.on_packet(v4(6, 6, 6, 6, 6), &hello(1), 2), RelayAction::DuplicateHello);
    assert_eq!(relay.on_packet(v4(6, 6, 6, 6, 6), &hello(3), 2), RelayAction::UnknownFingerprint);
    assert_eq!(relay.on_packet(b, &hello(2), 3), RelayAction::JoinedB(2));
    assert_eq!(relay.on_packet(a, b"quic", 4), RelayAction::Forward(b));
    assert_eq!(relay.on_packet(b, b"answer", 5), RelayAction::Forward(a));
    assert_eq!(relay.bytes_forwarded(), 10);
    let stranger = RelayHello { token: [8; 16], fingerprint: [1; 32] }.encode();
    assert_eq!(relay.on_packet(v4(7, 7, 7, 7, 7), &stranger, 6), RelayAction::UnknownToken);
}

#[test]
fn the_relay_refuses_what_it_cannot_tell_apart() {
    let mut relay = RelayState::new();
    assert!(matches!(
        relay.reserve([1; 16], [5; 32], [5; 32], 0),
        Err(RelayError::DuplicateFingerprint)
    ));
    relay.reserve([1; 16], [5; 32], [6; 32], 0).unwrap();
    assert!(matches!(
        relay.reserve([1; 16], [7; 32], [8; 32], 0),
        Err(RelayError::TokenInUse)
    ));
}

#[test]
fn silent_sessions_are_forgotten() {
    let mut relay = RelayState::new();
    let a = v4(10, 0, 0, 1, 1);
    let b = v4(10, 0, 0, 2, 2);
    relay.reserve([1; 16], [1; 32], [2; 32], 0).unwrap();
    relay.reserve([2; 16], [3; 32], [4; 32], 0).unwrap();
    relay.on_packet(a, &RelayHello { token: [1; 16], fingerprint: [1; 32] }.encode(), 10);
    relay.on_packet(b, &RelayHello { token: [1; 16], fingerprint: [2; 32] }.encode(), 10);
    relay.on_packet(a, b"x", 100_000);
    relay.evict_idle(SESSION_IDLE_TIMEOUT_MS);
    assert_eq!(relay.on_packet(a, b"x", 120_000), RelayAction::Forward(b));
    relay.evict_idle(SESSION_IDLE_TIMEOUT_MS + 1);
    let late = RelayHello { token: [2; 16], fingerprint: [3; 32] }.encode();
    assert_eq!(relay.on_packet(v4(9, 9, 9, 9, 9), &late, 0), RelayAction::UnknownToken);
    assert_eq!(relay.on_packet(b, b"x", 130_000), RelayAction::Forward(a));
    relay.evict_idle(130_000 + SESSION_IDLE_TIMEOUT_MS + 1);
    assert_eq!(relay.on_packet(a, b"x", 1), RelayAction::Unsolicited);
    relay.reserve([1; 16], [1; 32], [2; 32], 0).unwrap();
    relay.forget(&[1; 16]);
    relay.reserve([1; 16], [1; 32], [2; 32], 0).unwrap();
}

#[test]
fn matches_two_peers_with_same_code() {
    let a = peer("ABC123", v4(1, 2, 3, 4, 5678), 0xAA, 0x01);
    let b = peer("ABC123", v4(5, 6, 7, 8, 9012), 0xBB, 0x02);
    let (a_match, b_match) = pair_from_loopback(a.clone(), b.clone());
    assert!(is_loopback(&a_match.endpoint.ip));
    assert_eq!(a_match.endpoint.port, b.public_endpoint.port);
    assert_eq!(a_match.fingerprint, b.cert_fingerprint);
    assert_eq!(a_match.device_id, b.device_id);
    assert!(is_loopback(&b_match.endpoint.ip));
    assert_eq!(b_match.endpoint.port, a.public_endpoint.port);
    assert_eq!(b_match.fingerprint, a.cert_fingerprint);
    assert_eq!(b_match.device_id, a.device_id);
    assert!(matches!(outcome_message(None), Message::Expired));
}

#[test]
fn rewrites_public_endpoint_ip_to_tcp_source() {
    let a = peer("SPF000", v4(99, 99, 99, 99, 5555), 0xAA, 0x01);
    let b = peer("SPF000", v4(88, 88, 88, 88, 6666), 0xBB, 0x02);
    let (a_match, b_match) = pair_from_loopback(a, b);
    assert!(is_loopback(&a_match.endpoint.ip));
    assert_eq!(a_match.endpoint.port, 6666);
    assert!(is_loopback(&b_match.endpoint.ip));
    assert_eq!(b_match.endpoint.port, 5555);
}

#[test]
fn rejects_bad_code() {
    let reason = |msg| match screen(msg) {
        Err(Message::Rejected { reason }) => reason,
        other => panic!("unexpected {other:?}"),
    };
    let bad = reason(Message::Register(peer("!", v4(1, 2, 3, 4, 5678), 0, 0)));
    assert!(bad.contains("code"));
    assert_eq!(bad, "code must be 4..32 ascii-alphanumeric chars");
    let mut old = request("ABC123", 1, false);
    old.protocol_version = 9;
    assert_eq!(
        reason(Message::Register(old)),
        "unsupported rendezvous protocol version 9 (server speaks 1)"
    );
    assert_eq!(reason(Message::Expired), "first frame must be Register");
    assert_eq!(screen(Message::Register(request("ABC123", 1, false))).unwrap().code, "ABC123");
    assert!(is_valid_code("aB3d"));
    assert!(!is_valid_code("abc"));
    assert!(is_valid_code(&"a".repeat(32)));
    assert!(!is_valid_code(&"a".repeat(33)));
    assert!(!is_valid_code("abé12"));
}

#[test]
fn pairs_through_the_relay_when_either_wants_it() {
    let mut table = Server::new();
    let mut relay = RelayState::new();
    let relay_addr = v4(192, 0, 2, 1, 14571);
    let source = v4(127, 0, 0, 1, 1);
    let (a, _) = table.arrive(request("RLPAIR", 1, true), source, 0);
    table.wait(&a, 5, 0, 1000).unwrap();
    let (b, waiter) = table.arrive(request("RLPAIR", 2, false), source, 1);
    let pairing = table.pair(Some((&mut relay, relay_addr)), waiter.unwrap(), b, [7; 16], 1);
    match outcome_of(pairing.to_second).unwrap() {
        MatchOutcome::Relay(info) => {
            assert_eq!(info.relay_endpoint, relay_addr);
            assert_eq!(info.session_token, [7; 16]);
            assert_eq!(info.peer_fingerprint, [1; 32]);
        }
        other => panic!("unexpected {other:?}"),
    }
    match outcome_of(outcome_message(Some(pairing.to_first.unwrap().1))).unwrap() {
        MatchOutcome::Relay(info) => {
            assert_eq!(info.session_token, [7; 16]);
            assert_eq!(info.peer_fingerprint, [2; 32]);
            assert_eq!(info.peer_device_id, [2; 16]);
        }
        other => panic!("unexpected {other:?}"),
    }
    let hello = RelayHello { token: [7; 16], fingerprint: [2; 32] }.encode();
    assert_eq!(relay.on_packet(source, &hello, 2), RelayAction::JoinedB(1));
}

#[test]
fn a_refusal_of_the_relay_leaves_the_first_peer_waiting() {
    let mut table = Server::new();
    let mut relay = RelayState::new();
    let source = v4(127, 0, 0, 1, 1);
    let (a, _) = table.arrive(request("SAMEFP", 1, true), source, 0);
    table.wait(&a, 5, 0, 1000).unwrap();
    let (twin, waiter) = table.arrive(request("SAMEFP", 1, true), source, 1);
    let pairing = table.pair_with_fresh_token(Some((&mut relay, source)), waiter.unwrap(), twin, 1);
    assert!(pairing.to_first.is_none());
    match pairing.to_second {
        Message::Rejected { reason } => assert_eq!(reason, "relay refused session"),
        other => panic!("unexpected {other:?}"),
    }
    let (_, waiter) = table.arrive(request("SAMEFP", 2, true), source, 2);
    assert_eq!(waiter.unwrap().connection, 5);
}

#[test]
fn codes_expire_and_are_taken_once() {
    let mut table = Server::new();
    let source = v4(127, 0, 0, 1, 1);
    let (a, _) = table.arrive(request("CODE", 1, false), source, 0);
    table.wait(&a, 1, 0, 100).unwrap();
    let (b, _) = table.arrive(request("OTHER", 2, false), source, 99);
    match table.wait(&request("CODE", 3, false), 3, 99, 100) {
        Err(Message::Rejected { reason }) => {
            assert_eq!(reason, "code already in use, ask for a fresh one")
        }
        other => panic!("unexpected {other:?}"),
    }
    table.wait(&b, 2, 99, 100).unwrap();
    let (c, waiter) = table.arrive(request("CODE", 3, false), source, 100);
    assert!(waiter.is_none(), "the wait of the first is over");
    table.wait(&c, 3, 100, 100).unwrap();
    table.leave(&a);
    let (_, waiter) = table.arrive(request("CODE", 4, false), source, 101);
    assert_eq!(waiter.unwrap().connection, 3, "another device's entry stays");
    let (_, waiter) = table.arrive(request("OTHER", 4, false), source, 101);
    assert!(waiter.is_some());
}

#[test]
fn answers_of_the_server() {
    let text = |m| match outcome_of(m) {
        Err(ClientError::UnexpectedFromServer(t)) => t,
        other => panic!("unexpected {other:?}"),
    };
    assert!(matches!(outcome_of(Message::Expired), Err(ClientError::Expired)));
    match outcome_of(Message::Rejected { reason: "no".into() }) {
        Err(ClientError::Rejected(r)) => assert_eq!(r, "no"),
        other => panic!("unexpected {other:?}"),
    }
    assert_eq!(text(Message::Register(request("ABCD", 1, false))), "Register frame from server");
    let relay = MatchOutcome::Relay(RelayInfo {
        relay_endpoint: v4(1, 1, 1, 1, 1),
        session_token: [4; 16],
        peer_fingerprint: [5; 32],
        peer_device_id: [6; 16],
    });
    assert!(direct_only(Ok(relay)).is_err());
    let plan = dial_plan(&relay, [9; 32]);
    assert_eq!(plan.endpoint, v4(1, 1, 1, 1, 1));
    let hello = RelayHello::try_decode(&plan.hello.unwrap()).unwrap();
    assert_eq!((hello.token, hello.fingerprint), ([4; 16], [9; 32]));
    let direct = MatchOutcome::Direct(PeerInfo {
        endpoint: v4(2, 2, 2, 2, 2),
        fingerprint: [1; 32],
        device_id: [2; 16],
    });
    assert!(dial_plan(&direct, [9; 32]).hello.is_none());
    assert_eq!(direct_only(Ok(direct)).unwrap().endpoint, v4(2, 2, 2, 2, 2));
}

#[test]
fn frames_carry_their_length() {
    let frame = encode_frame(b"hello").unwrap();
    assert_eq!(frame, [0, 0, 0, 5, b'h', b'e', b'l', b'l', b'o']);
    assert_eq!(decode_length(&[0, 0, 0, 5]), Ok(5));
    assert_eq!(
        encode_frame(&vec![0; 4097]),
        Err(FrameTooLarge { size: 4097, cap: MAX_FRAME_BYTES })
    );
    assert_eq!(
        decode_length(&[1, 0, 0, 0]),
        Err(FrameTooLarge { size: 0x0100_0000, cap: 4096 })
    );
}

#[test]
fn generated_code_shape() {
    for _ in 0..50 {
        let c = generate_code();
        assert_eq!(c.len(), 6);
        assert!(c.chars().all(|c| c.is_ascii_alphanumeric()));
    }
}

#[test]
fn codes_are_spelled_from_the_alphabet() {
    assert_eq!(code_of(&[0, 7, 8, 21, 22, 29]), "AHJZ29");
    assert!(is_valid_code(&generate_code()));
}

#[test]
fn peer_matches_exact() {
    let a = v4(192, 0, 2, 1, 5555);
    let b = v4(192, 0, 2, 1, 5555);
    assert!(peer_matches(a, b));
}

#[test]
fn peer_matches_rejects_port_change() {
    let a = v4(192, 0, 2, 1, 5555);
    let b = v4(192, 0, 2, 1, 6666);
    assert!(!peer_matches(a, b));
}

#[test]
fn peer_matches_rejects_ip_change() {
    let a = v4(192, 0, 2, 1, 5555);
    let b = v4(192, 0, 2, 2, 5555);
    assert!(!peer_matches(a, b));
}

#[test]
fn exactly_one_side_connects_at_once() {
    assert_eq!(connect_delay_ms(&[0xA1; 16], &[0xB2; 16]), 0);
    assert_eq!(connect_delay_ms(&[0xB2; 16], &[0xA1; 16]), 50);
    match punch_timed_out("1.2.3.4:5") {
        hyx::error::Error::HolePunchFailed(m) => assert_eq!(
            m,
            "no QUIC handshake completed with 1.2.3.4:5 within 30s \
             (peer down, strict firewall, or symmetric NAT)"
        ),
        other => panic!("unexpected {other:?}"),
    }
}

#[test]
fn binding_request_has_correct_header() {
    let (req, tx) = build_binding_request();
    assert_eq!(u16::from_be_bytes([req[0], req[1]]), BINDING_REQUEST);
    assert_eq!(
        u32::from_be_bytes([req[4], req[5], req[6], req[7]]),
        MAGIC_COOKIE
    );
    assert_eq!(&req[8..20], &tx[..]);
}

fn response() -> [u8; 32] {
    let mut response = [0u8; 32];
    response[0..2].copy_from_slice(&BINDING_RESPONSE.to_be_bytes());
    response[2..4].copy_from_slice(&12u16.to_be_bytes());
    response[4..8].copy_from_slice(&MAGIC_COOKIE.to_be_bytes());
    response[20..22].copy_from_slice(&ATTR_XOR_MAPPED_ADDRESS.to_be_bytes());
    response[22..24].copy_from_slice(&8u16.to_be_bytes());
    response[25] = 0x01;
    response
}

#[test]
fn rejects_response_with_wrong_tx_id() {
    let response = response();
    let parsed = parse_binding_response(&response).unwrap();
    let expected_tx: [u8; 12] = [0x42; 12];
    let response_tx = &response[8..20];
    assert_ne!(response_tx, &expected_tx[..]);
    let _ = parsed;

    let server = v4(9, 9, 9, 9, 3478);
    assert!(on_datagram(server, server, &response, &expected_tx).is_none());
    assert!(on_datagram(v4(8, 8, 8, 8, 1), server, &response, &[0; 12]).is_none());
    assert_eq!(on_datagram(server, server, &response, &[0; 12]).unwrap().unwrap(), parsed);
}

#[test]
fn parses_xor_mapped_ipv4() {
    let port: u16 = 32853;
    let xor_port = port ^ ((MAGIC_COOKIE >> 16) as u16);
    let ip = 0xC000_0201u32;
    let xor_ip = ip ^ MAGIC_COOKIE;
    let mut data = vec![0u8, 0x01];
    data.extend_from_slice(&xor_port.to_be_bytes());
    data.extend_from_slice(&xor_ip.to_be_bytes());
    let tx = [0u8; 12];
    let addr = parse_xor_mapped(&data, &tx).unwrap();
    assert_eq!(addr.port, port);
    assert_eq!(addr.ip, IpAddr::V4(u32::from_be_bytes([192, 0, 2, 1])));
}

#[test]
fn parses_ipv6_addresses() {
    let mut plain = vec![0u8, 2, 0x12, 0x34];
    let octets: Vec<u8> = (1..=16).collect();
    plain.extend_from_slice(&octets);
    let addr = parse_mapped(&plain).unwrap();
    assert_eq!(addr.ip, IpAddr::V6(0x0102_0304_0506_0708_090A_0B0C_0D0E_0F10));
    assert_eq!(addr.port, 0x1234);
    let tx = [0xFFu8; 12];
    let masked = parse_xor_mapped(&plain, &tx).unwrap();
    assert_eq!(masked.port, 0x1234 ^ 0x2112);
    assert_eq!(
        masked.ip,
        IpAddr::V6(0x0102_0304_0506_0708_090A_0B0C_0D0E_0F10 ^ 0x2112_A442_FFFF_FFFF_FFFF_FFFF_FFFF_FFFF)
    );
}

#[test]
fn responses_that_cannot_be_read() {
    let text = |data: &[u8]| match parse_binding_response(data).unwrap_err() {
        hyx::error::Error::Protocol(m) => m,
        other => panic!("unexpected {other:?}"),
    };
    assert_eq!(text(&[0; 19]), "STUN response too short");
    assert_eq!(text(&[0x01; 20]), "invalid STUN magic cookie");
    let mut odd = response();
    odd[0] = 0;
    odd[1] = 0xAB;
    assert_eq!(text(&odd), "unexpected STUN message type: 0x00ab");
    let mut cookie = response();
    cookie[4] ^= 1;
    assert_eq!(text(&cookie), "invalid STUN magic cookie");
    let mut family = response();
    family[25] = 9;
    assert_eq!(text(&family), "no mapped-address attribute in STUN response");
    match parse_mapped(&[0, 9, 0, 0, 0, 0, 0, 0]).unwrap_err() {
        hyx::error::Error::Protocol(m) => assert_eq!(m, "unknown address family: 9"),
        other => panic!("unexpected {other:?}"),
    }
    assert!(parse_mapped(&[0, 1]).is_err());
    assert!(parse_mapped(&[0, 2, 0, 0, 0, 0, 0, 0]).is_err());
    assert!(parse_xor_mapped(&[0, 1], &[0; 12]).is_err());
}

#[test]
fn nat_classes_and_what_is_registered() {
    let a = v4(5, 5, 5, 5, 700);
    let b = v4(5, 5, 5, 5, 701);
    let local = v4(0, 0, 0, 0, 9);
    assert_eq!(classify(a, a), NatClass::Cone { public: a });
    assert_eq!(classify(a, b), NatClass::Symmetric);
    let server = v4(6, 6, 6, 6, 14570);
    let req = registration(server, NatClass::Cone { public: a }, local, false, "C0DE".into(), [1; 32], [2; 16]);
    assert_eq!((req.public_endpoint, req.want_relay), (a, false));
    let req = registration(server, NatClass::Symmetric, local, false, "C0DE".into(), [1; 32], [2; 16]);
    assert_eq!((req.public_endpoint, req.want_relay), (local, true));
    let req = registration(v4(127, 0, 0, 1, 1), NatClass::Symmetric, local, false, "C0DE".into(), [1; 32], [2; 16]);
    assert_eq!((req.public_endpoint, req.want_relay), (local, false));
    assert_eq!(req.protocol_version, PROTOCOL_VERSION);
}

#[test]
fn stun_servers_have_to_have_an_ipv4_address() {
    let six = SocketAddr { ip: IpAddr::V6(5), port: 1 };
    let four = v4(1, 1, 1, 1, 1);
    assert_eq!(resolve_first(&vec![six, four], "s").unwrap(), four);
    match resolve_first(&vec![six], "s:1").unwrap_err() {
        hyx::error::Error::Rendezvous(m) => {
            assert_eq!(m, "could not resolve an IPv4 address for STUN server 's:1'")
        }
        other => panic!("unexpected {other:?}"),
    }
}

#[test]
fn a_chosen_stun_server_replaces_the_first() {
    assert_eq!(
        stun_servers(None),
        ("stun.l.google.com:19302".to_string(), "stun1.l.google.com:19302".to_string())
    );
    assert_eq!(
        stun_servers(Some("stun.example:3478")),
        ("stun.example:3478".to_string(), "stun1.l.google.com:19302".to_string())
    );
}

#[test]
fn rendezvous_errors_are_shown_with_their_kind() {
    assert_eq!(
        FrameTooLarge { size: 70_000, cap: 65_536 }.message(),
        "rendezvous frame too large: 70000 > 65536"
    );
    assert_eq!(ClientError::Timeout.message(), "rendezvous timed out waiting for peer");
    assert_eq!(
        ClientError::Expired.message(),
        "rendezvous code expired before peer arrived"
    );
    assert_eq!(ClientError::Rejected("x".to_string()).message(), "rendezvous rejected: x");
    assert_eq!(
        RelayError::TokenInUse.message(),
        "relay refused session: session token already in use"
    );
    assert_eq!(ServerError::Bind("x".to_string()).message(), "rendezvous bind error: x");
}
