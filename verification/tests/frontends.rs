//! History, command line, discovery and graphical front ends.

use hyx::bridge::{
    config_from, create_device, decode_fingerprint_hex, default_device_name, encode_fingerprint_hex,
    fingerprint_event, fingerprint_from_bytes, peer_lines, port_or, to_peer, to_rs_peer, BlockedDevices,
    ConnectEvent, ConnectStep, EventContext, FieldCollector, ProgressThrottle, RsTransferDirection,
    RsTransferStatus,
};
use hyx::cli::{
    accept_decision, derive_base_name, on_received, resolve_state_file, self_loop, sent_files,
    transfer_config, ReceiveOutcome, SessionParams, SessionPlan, TransferParams,
};
use hyx::discovery::{
    check_beacon_size, check_beacon_version, contains_text, create_beacon,
    list_multicast_interfaces_ipv4, local_ipv4, looks_virtual, pick_peer, require_sockets, short_device_name,
    BeaconOutcome, DiscoveryBeacon, Interface, PeerInfo, DiscoveryManager, Probe, ProbeBackoff,
};
use hyx::error::Error;
use hyx::history::{
    direction_from_lowercase, direction_label, history_source, parse_direction, quarantine_path,
    record_onto, sibling_path, status_label, HistoryFilter, HistorySource, TransferDirection, TransferHistory,
    TransferRecord, TransferStatus,
};
use hyx::net::{IpAddr, SocketAddr};
use hyx::paths::Platform;
use hyx::protocol::{DEFAULT_TRANSFER_PORT, PROTOCOL_VERSION};
use hyx::rendezvous::client::{MatchOutcome, PeerInfo as DirectPeer, RelayInfo};
use hyx::transfer_folder::{AcceptDecision, TransferSummary};

const LOCALHOST: IpAddr = IpAddr::V4(0x7F00_0001);

fn record(direction: TransferDirection, start: u64, id: u8) -> TransferRecord {
    TransferRecord::new_at([id; 16], direction, "127.0.0.1".to_string(), start)
}

#[test]
fn test_transfer_record_creation() {
    let record = TransferRecord::new([1; 16], TransferDirection::Send, "127.0.0.1".to_string());

    assert_eq!(record.direction, TransferDirection::Send);
    assert_eq!(record.status, TransferStatus::Interrupted);
    assert_eq!(record.bytes_transferred, 0);
}

#[test]
fn test_transfer_completion() {
    let mut record = TransferRecord::new([1; 16], TransferDirection::Send, "127.0.0.1".to_string());

    let files = vec!["file1.txt".to_string(), "file2.txt".to_string()];
    record.complete(files.clone(), 1024);

    assert_eq!(record.status, TransferStatus::Completed);
    assert_eq!(record.bytes_transferred, 1024);
    assert_eq!(record.files, files);
    assert!(record.duration_secs > 0 || record.end_time == record.start_time);
}

#[test]
fn test_history_management() {
    let mut history = TransferHistory::new();

    let record1 = TransferRecord::new([1; 16], TransferDirection::Send, "127.0.0.1".to_string());
    let record2 = TransferRecord::new([2; 16], TransferDirection::Receive, "127.0.0.1".to_string());

    history.add_record(record1.clone());
    history.add_record(record2.clone());

    assert_eq!(history.records().len(), 2);
    assert_eq!(
        history.filter_by_direction(TransferDirection::Send).len(),
        1
    );
    assert_eq!(
        history
            .filter_by_direction(TransferDirection::Receive)
            .len(),
        1
    );
    assert!(history.get_by_id(&record1.transfer_id).is_some());
    assert!(history.get_by_id(&[9; 16]).is_none());
}

#[test]
fn timestamp_helpers_never_panic() {
    let mut r = TransferRecord::new([1; 16], TransferDirection::Send, "127.0.0.1:1".into());
    r.complete(vec!["a".into()], 1);
    r.interrupt(vec!["a".into()], 1);
    r.fail("err".into());
    assert_eq!(r.files, vec!["a".to_string(), "Error: err".to_string()]);
    assert_eq!(r.status, TransferStatus::Failed);
}

#[test]
fn a_clock_set_back_gives_no_negative_duration() {
    let mut r = record(TransferDirection::Send, 100, 1);
    r.end_at(vec![], 5, TransferStatus::Interrupted, 90);
    assert_eq!((r.end_time, r.duration_secs), (90, 0));
    r.fail_at("late".into(), 160);
    assert_eq!(r.duration_secs, 60);
}

#[test]
fn the_latest_transfers_come_first() {
    let mut history = TransferHistory::default();
    for (start, id) in [(5, 1u8), (9, 2), (5, 3), (7, 4)] {
        history.add_record(record(TransferDirection::Send, start, id));
    }
    let ids = |list: Vec<&TransferRecord>| list.iter().map(|r| r.transfer_id[0]).collect::<Vec<_>>();
    assert_eq!(ids(history.recent(10)), [2, 4, 1, 3], "ties stay in order");
    assert_eq!(ids(history.recent(2)), [2, 4]);
    assert_eq!(ids(history.recent(0)), [0u8; 0]);
}

#[test]
fn history_filters() {
    let mut history = TransferHistory::new();
    let mut done = record(TransferDirection::Receive, 1, 1);
    done.end_at(vec![], 0, TransferStatus::Completed, 2);
    history.add_record(done);
    history.add_record(record(TransferDirection::Receive, 2, 2));
    let mut failed = record(TransferDirection::Send, 3, 3);
    failed.fail_at("x".into(), 4);
    history.add_record(failed);
    let select = |direction, completed, failed| {
        let filter = HistoryFilter { direction, completed, failed, limit: 10 };
        history.select(&filter).iter().map(|r| r.transfer_id[0]).collect::<Vec<_>>()
    };
    assert_eq!(select(None, false, false), [3, 2, 1]);
    assert_eq!(select(Some(TransferDirection::Receive), false, false), [2, 1]);
    assert_eq!(select(Some(TransferDirection::Receive), true, false), [1]);
    assert_eq!(select(None, true, true), [1], "completed goes before failed");
    assert_eq!(select(None, false, true), [3]);
    assert_eq!(history.filter_by_status(TransferStatus::Interrupted).len(), 1);
}

#[test]
fn words_of_the_history_command() {
    assert_eq!(parse_direction("SEND").unwrap(), TransferDirection::Send);
    assert_eq!(parse_direction("Recv").unwrap(), TransferDirection::Receive);
    assert_eq!(direction_from_lowercase("receive").unwrap(), TransferDirection::Receive);
    assert_eq!(
        parse_direction("up").unwrap_err(),
        "Invalid direction. Use 'send' or 'receive'"
    );
    assert_eq!(direction_label(TransferDirection::Receive), "RECV");
    assert_eq!(status_label(TransferStatus::Completed), "OK ");
    assert_eq!(status_label(TransferStatus::Failed), "ERR");
}

#[test]
fn a_broken_history_is_moved_aside() {
    assert_eq!(sibling_path("h.json", ".lock"), "h.json.lock");
    assert_eq!(quarantine_path("h.json", 170), "h.json.corrupt-170");
    assert_eq!(history_source(None, false), HistorySource::Fresh);
    assert_eq!(history_source(Some(0), false), HistorySource::Fresh);
    assert_eq!(history_source(Some(9), true), HistorySource::Loaded);
    assert_eq!(history_source(Some(9), false), HistorySource::Quarantine);
}

#[test]
fn derive_base_name_handles_dot_and_dotdot() {
    let name = derive_base_name(".", Some("/home/user/project"), Platform::Unix).expect("dot must resolve");
    assert!(
        !name.is_empty(),
        "dot path should resolve to current dir's basename"
    );
    assert_eq!(name, "project");

    let dotdot = derive_base_name("..", Some("/home/user"), Platform::Unix);
    assert!(dotdot.is_ok(), "double-dot must not panic, got {dotdot:?}");
}

#[test]
fn derive_base_name_handles_plain_file_name() {
    let name = derive_base_name("hello.bin", None, Platform::Unix).unwrap();
    assert_eq!(name, "hello.bin");
}

#[test]
fn base_names_of_last_resort() {
    assert_eq!(derive_base_name("/", Some("/"), Platform::Unix).unwrap(), "/");
    assert_eq!(
        derive_base_name("..", None, Platform::Unix).unwrap_err(),
        "path has no file name and cannot be canonicalised: .."
    );
}

#[test]
fn resolve_state_file_honours_explicit_state_dir() {
    let path = resolve_state_file(Some("/tmp/nested/subdir"), "abc-123", Platform::Unix);
    assert_eq!(path, "/tmp/nested/subdir/transfer_abc-123.json");
    assert_eq!(resolve_state_file(Some("d/"), "x", Platform::Unix), "d/transfer_x.json");
}

#[test]
fn windows_paths_have_windows_names() {
    let name = |p: &str, c| derive_base_name(p, c, Platform::Windows);
    assert_eq!(name("C:\\data\\x.bin", None).unwrap(), "x.bin");
    assert_eq!(name("..", Some("C:\\")).unwrap(), "C:\\");
    let state = |d: &str| resolve_state_file(Some(d), "x", Platform::Windows);
    assert_eq!(state("C:\\t"), "C:\\t\\transfer_x.json");
    assert_eq!(state("C:\\t/"), "C:\\t/transfer_x.json");
    assert_eq!(state("C:"), "C:transfer_x.json");
    assert_eq!(state(""), "transfer_x.json");
    let sending = EventContext::sending("C:\\a.bin", "10.0.0.1:1", Platform::Windows);
    assert_eq!(sending.file_name.as_deref(), Some("a.bin"));
}

#[test]
fn resolve_state_file_defaults_to_cwd_when_state_dir_absent() {
    let path = resolve_state_file(None, "abc-123", Platform::Unix);
    assert_eq!(path, "transfer_abc-123.json");
}

fn params() -> SessionParams {
    SessionParams {
        role: None,
        peer: None,
        peer_fingerprint: None,
        port: 14567,
        discover: false,
        rendezvous: None,
        code: None,
        force_relay: false,
    }
}

#[test]
fn roles_and_fingerprints() {
    let mut p = params();
    assert_eq!(p.get_role("client"), "client");
    assert!(p.is_client("client"));
    assert!(p.is_server("server"));
    p.role = Some("server".into());
    assert!(p.is_server("client"));
    assert!(!p.is_client("client"));
    assert_eq!(p.parsed_fingerprint(), Ok(None));
    p.peer_fingerprint = Some("aB".repeat(32));
    assert_eq!(p.parsed_fingerprint(), Ok(Some([0xAB; 32])));
    p.peer_fingerprint = Some("ab".into());
    assert_eq!(
        p.parsed_fingerprint().unwrap_err(),
        "--peer-fingerprint must be 64 hex chars, got 2 chars"
    );
    p.peer_fingerprint = Some("zz".repeat(32));
    assert!(p.parsed_fingerprint().unwrap_err().starts_with("--peer-fingerprint hex decode: "));
}

#[test]
fn ways_to_a_session() {
    let mut p = params();
    assert!(matches!(p.session_plan("server"), Ok(SessionPlan::Listen)));
    assert!(p.session_plan("client").is_err());
    p.discover = true;
    assert!(matches!(p.session_plan("client"), Ok(SessionPlan::Discover)));
    p.discover = false;
    p.peer = Some("10.0.0.1".into());
    assert!(p.session_plan("client").is_err());
    p.peer_fingerprint = Some("00".repeat(32));
    match p.session_plan("client").unwrap() {
        SessionPlan::Dial { peer, fingerprint } => {
            assert_eq!((peer.as_str(), fingerprint), ("10.0.0.1", [0; 32]));
        }
        other => panic!("unexpected {other:?}"),
    }
    assert!(!p.is_rendezvous_mode());
    p.rendezvous = Some("r".into());
    assert!(p.is_rendezvous_mode());
    assert!(p.session_plan("client").is_err());
    p.code = Some("ABCDEF".into());
    assert!(matches!(p.session_plan("client"), Ok(SessionPlan::Rendezvous { .. })));
}

#[test]
fn transfer_options_become_parameters() {
    let config = transfer_config(&TransferParams {
        compress: false,
        compress_level: 9,
        adaptive: false,
        chunk_size: 1024,
        max_speed: 77,
        max_reconnect_attempts: 0,
    });
    assert_eq!(config.chunk_size, 1024 * 1024);
    assert_eq!((config.compression_level, config.bandwidth_limit), (9, 77));
    assert!(!config.compression_enabled && !config.adaptive_compression);
}

#[test]
fn results_of_receiving() {
    let summary = |files: Vec<String>| TransferSummary { root_name: String::new(), files, bytes: 9 };
    let mut r = record(TransferDirection::Receive, 10, 1);
    assert!(matches!(
        on_received(&mut r, Ok(summary(vec!["a".into()])), "", 12),
        ReceiveOutcome::Completed
    ));
    assert_eq!((r.status, r.bytes_transferred, r.duration_secs), (TransferStatus::Completed, 9, 2));
    on_received(&mut r, Ok(summary(vec![])), "", 13);
    assert_eq!((r.status, r.bytes_transferred), (TransferStatus::Interrupted, 0));
    assert!(matches!(
        on_received(&mut r, Err(Error::Quic("x".into())), "", 14),
        ReceiveOutcome::PeerDisconnected
    ));
    assert_eq!(r.end_time, 13);
    assert!(matches!(
        on_received(&mut r, Err(Error::Network("disk".into())), "Network error: disk", 15),
        ReceiveOutcome::Fatal(Error::Network(_))
    ));
    assert_eq!(r.files, vec!["Error: Network error: disk".to_string()]);
    assert_eq!(sent_files(summary(vec![]), "base".into()), vec!["base".to_string()]);
    assert_eq!(sent_files(summary(vec!["a".into()]), "base".into()), vec!["a".to_string()]);
}

#[test]
fn offers_are_accepted_on_request() {
    assert_eq!(accept_decision(true, false, None), AcceptDecision::Accept);
    assert_eq!(accept_decision(false, false, Some("y")), AcceptDecision::Reject);
    assert_eq!(accept_decision(false, true, Some(" Yes\n")), AcceptDecision::Accept);
    assert_eq!(accept_decision(false, true, Some("Y")), AcceptDecision::Accept);
    assert_eq!(accept_decision(false, true, Some("yep")), AcceptDecision::Reject);
    assert_eq!(accept_decision(false, true, None), AcceptDecision::Reject);
}

#[test]
fn both_ends_of_a_self_loop_go_the_same_way() {
    let at = |port| SocketAddr { ip: LOCALHOST, port };
    let direct = |port| {
        MatchOutcome::Direct(DirectPeer { endpoint: at(port), fingerprint: [0; 32], device_id: [0; 16] })
    };
    let relay = MatchOutcome::Relay(RelayInfo {
        relay_endpoint: at(9),
        session_token: [0; 16],
        peer_fingerprint: [0; 32],
        peer_device_id: [0; 16],
    });
    let plan = self_loop(&direct(1), &direct(2)).unwrap();
    assert_eq!((plan.relayed, plan.peer_of_a, plan.peer_of_b), (false, at(1), at(2)));
    assert!(self_loop(&relay, &relay).unwrap().relayed);
    assert_eq!(
        self_loop(&relay, &direct(1)).unwrap_err(),
        "rendezvous returned mixed Direct/Relay outcomes (unsupported)"
    );
}

fn sample_beacon(id: u8, name: &str) -> DiscoveryBeacon {
    DiscoveryBeacon {
        version: PROTOCOL_VERSION,
        device_id: [id; 16],
        device_name: name.to_string(),
        port: DEFAULT_TRANSFER_PORT,
        cert_fingerprint: [0u8; 32],
    }
}

#[test]
fn peer_info_lifetime() {
    let mut peer = PeerInfo::from_beacon(&sample_beacon(1, "Test"), LOCALHOST, 1_000);
    assert!(peer.is_alive(60_000, 1_000));
    peer.update_last_seen(5_000);
    assert!(peer.is_alive(60_000, 5_000));
    assert!(!peer.is_alive(60_000, 65_000));
    assert!(!peer.is_alive(60_000, 4_999), "a clock set back");
}

#[test]
fn peer_socket_addr_matches_beacon_port() {
    let peer = PeerInfo::from_beacon(&sample_beacon(1, "Test"), LOCALHOST, 0);
    let addr = peer.socket_addr();
    assert_eq!(addr.port, DEFAULT_TRANSFER_PORT);
    assert_eq!(addr.ip, LOCALHOST);
}

#[test]
fn beacons_fill_the_list_of_peers() {
    let mut table = DiscoveryManager::new("me".into(), 1, [0; 32], [9; 16], 10_000);
    assert_eq!(table.on_beacon(&sample_beacon(9, "me"), LOCALHOST, 0), None);
    assert_eq!(
        table.on_beacon(&sample_beacon(1, "Alpha"), LOCALHOST, 0),
        Some(BeaconOutcome { echo: true, is_new: true })
    );
    assert_eq!(
        table.on_beacon(&sample_beacon(1, "Renamed"), LOCALHOST, 1_999),
        Some(BeaconOutcome { echo: false, is_new: false })
    );
    assert_eq!(
        table.on_beacon(&sample_beacon(2, "ÉTÉ"), LOCALHOST, 2_000),
        Some(BeaconOutcome { echo: true, is_new: true })
    );
    assert_eq!(table.peer_count(), 2);
    assert_eq!(table.get_peer(&[1; 16]).unwrap().device_name, "Alpha");
    assert_eq!(table.get_peer(&[1; 16]).unwrap().last_seen, 1_999);
    assert!(table.get_peer(&[7; 16]).is_none());
    assert_eq!(table.find_peer_by_name("LPH").unwrap().device_id, [1; 16]);
    assert_eq!(table.find_peer_by_name("été").unwrap().device_id, [2; 16]);
    assert!(table.find_peer_by_name("zeta").is_none());
    assert!(table.find_peer_by_address(LOCALHOST).is_some());
    assert!(table.find_peer_by_address(IpAddr::V6(1)).is_none());
    table.cleanup(11_999);
    assert_eq!(table.peer_count(), 1);
    assert_eq!(table.get_peers()[0].device_id, [2; 16]);
    assert!(contains_text("abcabd", "abd"));
    assert!(contains_text("x", ""));
}

#[test]
fn picking_a_discovered_peer() {
    let at = |id, ip| PeerInfo::from_beacon(&sample_beacon(id, "p"), IpAddr::V4(ip), 0);
    let peers = vec![at(1, 10), at(2, 20)];
    assert_eq!(pick_peer(&peers, None).unwrap().device_id, [1; 16]);
    let target = SocketAddr { ip: IpAddr::V4(20), port: DEFAULT_TRANSFER_PORT };
    assert_eq!(pick_peer(&peers, Some(target)).unwrap().device_id, [2; 16]);
    let other = SocketAddr { ip: IpAddr::V4(20), port: 1 };
    match pick_peer(&peers, Some(other)).unwrap_err() {
        Error::Protocol(m) => assert_eq!(
            m,
            "No peers discovered. Make sure a peer is running in server mode."
        ),
        e => panic!("unexpected {e:?}"),
    }
    assert_eq!(short_device_name(&[0xAB; 16]), "p2p-abababab");
}

fn manager(device_name: &str) -> DiscoveryManager {
    DiscoveryManager::new(
        device_name.to_string(),
        DEFAULT_TRANSFER_PORT,
        [0u8; 32],
        [0xA5; 16],
        10_000,
    )
}

#[test]
fn test_discovery_manager_creation() {
    let mgr = manager("Test Device");
    assert_eq!(mgr.device_name(), "Test Device");
    assert_eq!(mgr.peer_count(), 0);
}

#[test]
fn test_peer_operations() {
    let mgr = manager("Test");
    assert_eq!(mgr.get_peers().len(), 0);
    let random_id = [0x5A; 16];
    assert!(mgr.get_peer(&random_id).is_none());
}

#[test]
fn the_chosen_name_goes_before_the_given_one() {
    let mgr = manager("given");
    let beacon = mgr.beacon(&None);
    assert_eq!(beacon.device_name, "given");
    assert_eq!((beacon.port, beacon.device_id), (DEFAULT_TRANSFER_PORT, [0xA5; 16]));
    assert_eq!(mgr.beacon(&Some("chosen".into())).device_name, "chosen");
    assert_eq!(mgr.device_name(), "given");
}

/// Probes a peer that never answers: how long that takes, in milliseconds.
fn probe_in_vain(mgr: &DiscoveryManager, backoff: &mut ProbeBackoff, target: IpAddr, now: u64) -> u64 {
    if !backoff.may_probe(target, now) {
        return 0;
    }
    let mut elapsed = 0;
    let mut step = Probe::start();
    while step != Probe::Lost {
        assert_ne!(step, Probe::Found);
        elapsed += match step {
            Probe::Poll { .. } => 150,
            Probe::Pause { delay_ms, .. } => delay_ms,
            _ => 0,
        };
        step = step.next(mgr.find_peer_by_address(target).is_some());
    }
    backoff.record_failure(target, now + elapsed);
    elapsed
}

#[test]
fn test_probe_failure_enters_backoff() {
    let mgr = manager("Probe");
    let mut backoff = ProbeBackoff::new();
    let first_elapsed = probe_in_vain(&mgr, &mut backoff, LOCALHOST, 0);
    assert!(mgr.find_peer_by_address(LOCALHOST).is_none());
    assert!(!backoff.may_probe(LOCALHOST, first_elapsed));
    let second_elapsed = probe_in_vain(&mgr, &mut backoff, LOCALHOST, first_elapsed);
    assert!(mgr.find_peer_by_address(LOCALHOST).is_none());
    assert!(second_elapsed < first_elapsed);
}

#[test]
fn probes_end_and_cool_down() {
    let mut step = Probe::start();
    let mut sends = 0;
    let mut pauses = Vec::new();
    let mut polls = 0;
    while step != Probe::Lost {
        match step {
            Probe::Send { .. } => sends += 1,
            Probe::Poll { .. } => polls += 1,
            Probe::Pause { delay_ms, .. } => pauses.push(delay_ms),
            _ => {}
        }
        step = step.next(false);
    }
    assert_eq!((sends, polls, pauses), (3, 9, vec![100, 200, 400]));
    assert_eq!(Probe::start().next(false).next(true), Probe::Found);

    let mut backoff = ProbeBackoff::new();
    assert!(backoff.may_probe(LOCALHOST, 0));
    backoff.record_failure(LOCALHOST, 0);
    assert!(!backoff.may_probe(LOCALHOST, 9_999));
    assert!(backoff.may_probe(IpAddr::V4(5), 0));
    assert!(backoff.may_probe(LOCALHOST, 10_000));
}

#[test]
fn beacons_and_interfaces() {
    let b = create_beacon(&Some("chosen".into()), "given", [1; 16], 9, [2; 32]);
    assert_eq!((b.device_name.as_str(), b.version), ("chosen", PROTOCOL_VERSION));
    assert!(check_beacon_version(&b).is_ok());
    let mut old = b.clone();
    old.version = 1;
    assert!(matches!(check_beacon_version(&old), Err(Error::VersionMismatch { peer: 1, ours: 3 })));
    assert!(check_beacon_size(1500).is_ok());
    assert!(matches!(check_beacon_size(1501), Err(Error::Protocol(m)) if m == "Beacon too large: 1501 bytes"));
    for name in ["docker0", "VETHabc", "vboxnet1", "vmnet8", "virbr0", "br-12", "tap0", "lo", "LO"] {
        assert!(looks_virtual(name), "{name}");
    }
    for name in ["eth0", "wlan0", "lo0", "bridge", "en0"] {
        assert!(!looks_virtual(name), "{name}");
    }
    let iface = |name: &str, ip| Interface { name: name.to_string(), ip };
    let list = vec![
        iface("lo", LOCALHOST),
        iface("docker0", IpAddr::V4(1)),
        iface("eth0", IpAddr::V6(7)),
        iface("eth0", IpAddr::V4(0xC0A8_0001)),
        iface("wlan0", IpAddr::V4(0xC0A8_0002)),
    ];
    assert_eq!(list_multicast_interfaces_ipv4(&list), vec![0xC0A8_0001, 0xC0A8_0002]);
    assert_eq!(local_ipv4(&list), Some(0xC0A8_0001));
    assert_eq!(local_ipv4(&vec![iface("lo", LOCALHOST)]), None);
}

#[test]
fn knobs_of_the_front_ends() {
    assert_eq!(config_from(1, 0).chunk_size, 65536);
    assert!(!config_from(1, 0).compression_enabled);
    assert_eq!(config_from(1 << 20, 1).chunk_size, 1 << 20);
    assert_eq!(config_from(-1, 1).chunk_size, u32::MAX);
    let always = config_from(0, 2);
    assert!(always.compression_enabled && !always.adaptive_compression);
    let adaptive = config_from(0, 7);
    assert!(adaptive.compression_enabled && adaptive.adaptive_compression);
    assert_eq!(port_or(0, 14567), 14567);
    assert_eq!(port_or(-4, 14567), 14567);
    assert_eq!(port_or(80, 14567), 80);
}

#[test]
fn fingerprints_as_text() {
    let mut fp = [0u8; 32];
    fp[0] = 0x0F;
    fp[31] = 0xA0;
    let text = encode_fingerprint_hex(&fp);
    assert_eq!(text.len(), 64);
    assert!(text.starts_with("0f00") && text.ends_with("00a0"));
    assert_eq!(decode_fingerprint_hex(&text), Ok(fp));
    assert_eq!(decode_fingerprint_hex(&text.to_uppercase()), Ok(fp));
    assert_eq!(decode_fingerprint_hex(&text[1..]), Err(()));
    assert_eq!(decode_fingerprint_hex(&"g".repeat(64)), Err(()));
    assert_eq!(decode_fingerprint_hex(&"é".repeat(32)), Err(()));
    assert_eq!(fingerprint_from_bytes(&fp.to_vec()), Ok(fp));
    assert_eq!(fingerprint_from_bytes(&vec![1]).unwrap_err(), "invalid fingerprint length");
}

#[test]
fn blocked_devices_are_turned_away() {
    let mut blocked = BlockedDevices::new();
    let id = [0x11; 16];
    assert!(blocked.screen(&id).is_ok());
    blocked.set_blocked_devices(vec!["11111111-1111-1111-1111-111111111111".to_string()]);
    let (shown, error) = blocked.screen(&id).unwrap_err();
    assert_eq!(shown, "设备 11111111-1111-1111-1111-111111111111 已被禁止接收");
    assert_eq!(error, "blocked device: 11111111-1111-1111-1111-111111111111");
    assert!(blocked.screen(&[0x22; 16]).is_ok());
    blocked.set_blocked_devices(vec![]);
    assert!(blocked.screen(&id).is_ok());
}

#[test]
fn events_carry_file_and_peer() {
    let sending = EventContext::sending("/tmp/a.bin", "10.0.0.1:1", Platform::Unix);
    let e = sending.progress(RsTransferDirection::Send, 5, 10, 3);
    assert_eq!((e.phase, e.transferred, e.total, e.speed), (2, 5, 10, 3));
    assert_eq!(e.status, RsTransferStatus::Transferring);
    assert_eq!(e.file_name.as_deref(), Some("a.bin"));
    assert_eq!(e.peer_address.as_deref(), Some("10.0.0.1:1"));

    let mut receiving = EventContext::unknown();
    let e = receiving.pairing(RsTransferDirection::Receive);
    assert_eq!((e.phase, e.status), (0, RsTransferStatus::Pairing));
    assert!(e.file_name.is_none() && e.peer_address.is_none());
    receiving.on_accepted("9.9.9.9:9");
    receiving.on_offer("b.bin");
    let e = receiving.finished(RsTransferDirection::Receive, Some("boom".into()));
    assert_eq!((e.status, e.message.as_deref()), (RsTransferStatus::Failed, Some("boom")));
    assert_eq!(e.file_name.as_deref(), Some("b.bin"));
    assert_eq!(e.peer_address.as_deref(), Some("9.9.9.9:9"));
    assert_eq!(receiving.finished(RsTransferDirection::Receive, None).status, RsTransferStatus::Completed);

    let e = fingerprint_event(&[0xEE; 32]);
    assert_eq!((e.phase, e.status), (1, RsTransferStatus::Connecting));
    assert_eq!(e.peer_fingerprint, Some("ee".repeat(32)));
    assert!(e.file_name.is_none());
}

#[test]
fn progress_events_are_throttled() {
    let mut throttle = ProgressThrottle::new(0);
    assert_eq!(throttle.on_update(10, 199), None);
    assert_eq!(throttle.on_update(1000, 200), Some(5000));
    assert_eq!(throttle.on_update(1500, 399), None);
    assert_eq!(throttle.on_update(1500, 700), Some(1000));
    assert_eq!(throttle.on_update(0, 1000), Some(0));
}

#[test]
fn the_way_to_a_peer() {
    let addr = SocketAddr { ip: LOCALHOST, port: 1 };
    let kept = "ab".repeat(32);
    let step = ConnectStep::start("host").next(ConnectEvent::Resolved(addr), Some(&kept));
    match step {
        ConnectStep::Pin { addr: a, fingerprint } => assert_eq!((a, fingerprint), (addr, [0xAB; 32])),
        other => panic!("unexpected {other:?}"),
    }
    let pin = |fp| ConnectStep::Pin { addr, fingerprint: fp };
    assert!(matches!(pin([1; 32]).next(ConnectEvent::Mismatch, None), ConnectStep::Trust { .. }));
    assert!(matches!(
        pin([1; 32]).next(ConnectEvent::Connected([1; 32]), None),
        ConnectStep::Send { learned: None }
    ));
    match pin([1; 32]).next(ConnectEvent::Error("down".into()), None) {
        ConnectStep::Failed { error } => assert_eq!(error, "down"),
        other => panic!("unexpected {other:?}"),
    }
    for cached in [None, Some(""), Some("nonsense")] {
        let step = ConnectStep::start("host").next(ConnectEvent::Resolved(addr), cached);
        assert!(matches!(step, ConnectStep::Discover { .. }));
        let step = step.next(ConnectEvent::Error("none".into()), cached);
        assert!(matches!(step, ConnectStep::Trust { .. }));
        let step = step.next(ConnectEvent::Connected([4; 32]), cached);
        assert!(matches!(step, ConnectStep::Send { learned: Some([4, ..]) }));
    }
    let any = ConnectStep::start("");
    assert!(matches!(any, ConnectStep::DiscoverAny));
    assert!(matches!(
        any.next(ConnectEvent::Error("nobody".into()), None),
        ConnectStep::Failed { .. }
    ));
    assert!(matches!(
        ConnectStep::start("").next(ConnectEvent::Found(addr, [3; 32]), None),
        ConnectStep::Pin { .. }
    ));
    assert!(matches!(
        ConnectStep::start("h").next(ConnectEvent::Error("dns".into()), None),
        ConnectStep::Failed { .. }
    ));
}

#[test]
fn devices_and_peers_as_they_are_shown() {
    let id = [0xA1, 0xB2, 0xC3, 0xD4, 5, 6, 7, 8, 9, 10, 11, 12, 13, 14, 15, 16];
    assert_eq!(default_device_name(&id), "hyx-a1b2c3");
    let device = create_device(id, "n".into());
    assert!(device.address.is_empty() && !device.online && device.allow_transfer);
    let mut beacon = sample_beacon(1, "p");
    beacon.device_id = id;
    beacon.cert_fingerprint = [0xCC; 32];
    let peer = PeerInfo::from_beacon(&beacon, LOCALHOST, 0);
    let shown = to_rs_peer(&peer, "127.0.0.1:14567".into());
    assert_eq!(shown.fingerprint, "cc".repeat(32));
    assert_eq!(shown.cert_fingerprint, vec![0xCC; 32]);
    assert_eq!(
        to_peer(&peer, "x".into()).device_id,
        "a1b2c3d4-0506-0708-090a-0b0c0d0e0f10"
    );
    let lines = vec![("a".to_string(), "1:1".to_string()), ("b".to_string(), "2:2".to_string())];
    assert_eq!(peer_lines(&lines), "a\t1:1\nb\t2:2");
    assert_eq!(peer_lines(&vec![]), "");
}

#[test]
fn log_lines() {
    let mut fields = FieldCollector::new();
    fields.record("message", "connected");
    fields.record("peer", "a");
    fields.record("n", "3");
    assert_eq!(fields.finish(), "connected peer=a n=3");
    let mut bare = FieldCollector::new();
    bare.record("k", "v");
    assert_eq!(bare.finish(), "k=v");
    let mut only = FieldCollector::new();
    only.record("message", "m");
    assert_eq!(only.finish(), "m");
}

#[test]
fn discovery_needs_a_socket() {
    assert!(require_sockets(1).is_ok());
    match require_sockets(0) {
        Err(Error::Protocol(m)) => {
            assert_eq!(m, "未能为任何网络接口创建多播 socket，多播发现无法工作")
        }
        _ => panic!("no socket is an error"),
    }
}

#[test]
fn errors_are_shown_with_their_kind() {
    let text = || "x".to_string();
    let shown = vec![
        (Error::Network(text()), "Network error: x"),
        (Error::Protocol(text()), "Protocol error: x"),
        (
            Error::VersionMismatch { peer: 1, ours: 2 },
            "Protocol version mismatch: peer version 1, our version 2",
        ),
        (Error::Compression(text()), "Compression error: x"),
        (Error::Decompression(text()), "Decompression error: x"),
        (Error::Verification(text()), "Verification failed: x"),
        (Error::FileSystem(text()), "File system error: x"),
        (Error::Config(text()), "Configuration error: x"),
        (Error::Serialization(text()), "Serialization error: x"),
        (Error::Deserialization(text()), "Deserialization error: x"),
        (Error::Disconnected, "Peer disconnected"),
        (Error::Timeout, "Connection timeout"),
        (Error::Cancelled, "Transfer cancelled by user"),
        (Error::TransferNotFound(text()), "Transfer not found: x"),
        (Error::InvalidChunk(text()), "Invalid chunk: x"),
        (Error::UnsupportedCapability(text()), "Capability not supported: x"),
        (Error::Quic(text()), "QUIC error: x"),
        (Error::Tls(text()), "TLS error: x"),
        (Error::Rendezvous(text()), "Rendezvous error: x"),
        (Error::HolePunchFailed(text()), "Hole punch failed: x"),
        (Error::FingerprintMismatch, "Peer fingerprint mismatch"),
        (Error::Other(text()), "x"),
    ];
    for (error, message) in shown {
        assert_eq!(error.message(), message);
    }
}

#[test]
fn recording_appends_and_keeps_unreadable_bytes_aside() {
    let record = |id: u8| {
        TransferRecord::new_at([id; 16], TransferDirection::Send, "peer".to_string(), id as u64)
    };
    let ids = |h: &TransferHistory| -> Vec<u8> {
        h.records().iter().map(|r| r.transfer_id[0]).collect()
    };
    let (first, aside) = record_onto(None, None, record(1));
    assert_eq!((ids(&first), aside), (vec![1], false));
    let (second, aside) = record_onto(Some(80), Some(first), record(2));
    assert_eq!((ids(&second), aside), (vec![1, 2], false));
    let (fresh, aside) = record_onto(Some(80), None, record(3));
    assert_eq!((ids(&fresh), aside), (vec![3], true));
    let (empty, aside) = record_onto(Some(0), None, record(4));
    assert_eq!((ids(&empty), aside), (vec![4], false));
}
