//! Folder transfers, paths and transfer state.

use hyx::error::Error;
use hyx::paths::{path_name, resume_state_path, sanitize_relative_path, Platform};
use hyx::progress::{ProgressState, TotalChange, Update};
use hyx::protocol::{
    check_control_magic, CompleteMessage, ConfigMessage, FileChecksumMessage, FileMetadata, Message,
    PROTOCOL_MAGIC,
};
use hyx::reconnect::ReconnectConfig;
use hyx::session::{after_failure, sent_summary, starting_point, AfterFailure};
use hyx::state::{FileStatus, TransferState};
use hyx::transfer_file::FileReceiver;
use hyx::transfer_folder::{
    checked_total_size, complete_message, on_checksum_as_receiver, on_checksum_as_sender,
    on_offer_reply, sent_so_far, source_files, transfer_info, AcceptDecision, EntryKind,
    FolderReceive, FolderScan, FolderSend, FolderTransferState, ReceiveAction, ReceiveEvent,
    SendAction, SendEvent, Source, TransferSummary,
};
use hyx::verification::sha256;
use hyx::whole_file::send_file;

fn file(path: &str, size: u64) -> FileMetadata {
    FileMetadata {
        path: path.to_string(),
        size,
        modified: 0,
        checksum: [0u8; 32],
    }
}

fn config(chunk_size: u32) -> ConfigMessage {
    ConfigMessage {
        compression_enabled: false,
        compression_level: 3,
        adaptive_compression: false,
        chunk_size,
        bandwidth_limit: 0,
    }
}

/// Runs a transfer from one side to the other, with `bodies` as the files that
/// are sent and nothing on the receiver's disk. Gives back what each side ends
/// with, and the files that the receiver wrote.
fn run_transfer(
    state: &mut FolderTransferState,
    bodies: &[Vec<u8>],
    decision: AcceptDecision,
) -> (Result<(), Error>, Result<TransferSummary, Error>, Vec<(String, Vec<u8>)>) {
    let cfg = state.config;
    let mut written = Vec::new();
    let (mut sender, action) = FolderSend::start(state, state.transfer_id);
    let SendAction::Offer(info) = action else { panic!("an offer comes first") };
    let mut receiver =
        FolderReceive::on_offer(cfg.chunk_size, Platform::Unix, Message::TransferInfo(info), "").ok().unwrap();
    let mut next = match receiver.next(ReceiveEvent::Decided(decision), "").unwrap() {
        ReceiveAction::Reject(answer, summary) => {
            let sent = sender.next(state, SendEvent::Reply(Ok(answer)), "", 0);
            return (sent.map(|_| ()), Ok(summary), written);
        }
        ReceiveAction::Accept(answer) => {
            let action = sender.next(state, SendEvent::Reply(Ok(answer)), "", 0).unwrap();
            (action, receiver.next(ReceiveEvent::Answered, ""))
        }
        other => panic!("unexpected {other:?}"),
    };
    loop {
        let (sending, receiving) = next;
        match (sending, receiving) {
            (sending, Err(e)) => {
                drop(sending);
                return (Ok(()), Err(e), written);
            }
            (sending, Ok(ReceiveAction::Look { .. })) => {
                let found = ReceiveEvent::Found { file_len: None, partial_len: None };
                next = (sending, receiver.next(found, ""));
            }
            (
                SendAction::SendFile { index, completed_chunks, .. },
                Ok(ReceiveAction::Receive { index: at, path, total_chunks, streams, .. }),
            ) => {
                assert_eq!(index, at, "both sides are at the same file");
                let (sent, ours) = send_file(&cfg, &bodies[index], &completed_chunks).unwrap();
                let mut file = FileReceiver::new(total_chunks, streams, &cfg).unwrap();
                let (chunks, fault) = file.take_streams(&sent);
                assert!(fault.is_none() && file.is_complete());
                let content: Vec<u8> = chunks.into_iter().flat_map(|c| c.1).collect();
                let theirs = sha256(&content);
                written.push((path, content));
                let to_receiver = sender.next(state, SendEvent::FileSent(ours), "", 0).unwrap();
                let to_sender = receiver.next(ReceiveEvent::Received(theirs), "").unwrap();
                let (SendAction::ExchangeChecksum(a), ReceiveAction::ExchangeChecksum(b)) =
                    (to_receiver, to_sender)
                else {
                    panic!("checksums are exchanged")
                };
                let sending = sender
                    .next(state, SendEvent::Checksum(Message::FileChecksum(b)), "", 0)
                    .unwrap();
                next = (
                    sending,
                    receiver.next(ReceiveEvent::Checksum(Message::FileChecksum(a)), ""),
                );
            }
            (SendAction::Complete(end), Ok(ReceiveAction::AwaitComplete)) => {
                let sent = sender.next(state, SendEvent::Completed, "", 0).map(|_| ());
                return match receiver.next(ReceiveEvent::Ended(Message::Complete(end)), "") {
                    Ok(ReceiveAction::Finished(summary)) => (sent, Ok(summary), written),
                    other => panic!("unexpected {other:?}"),
                };
            }
            other => panic!("the two sides are out of step: {other:?}"),
        }
    }
}

fn protocol_text(e: Error) -> String {
    match e {
        Error::Protocol(m) => m,
        other => panic!("unexpected {other:?}"),
    }
}

#[test]
fn sanitize_accepts_normal_relative_paths() {
    let ok = sanitize_relative_path("dir/sub/file.txt", Platform::Unix).unwrap();
    assert_eq!(ok, "dir/sub/file.txt");
    let plain = sanitize_relative_path("file.txt", Platform::Unix).unwrap();
    assert_eq!(plain, "file.txt");
}

#[test]
fn sanitize_rejects_parent_dir() {
    let err = sanitize_relative_path("../evil", Platform::Unix).unwrap_err();
    assert!(matches!(err, Error::Protocol(_)));
    let err = sanitize_relative_path("a/../../evil", Platform::Unix).unwrap_err();
    assert!(matches!(err, Error::Protocol(_)));
}

#[test]
fn sanitize_rejects_current_dir_marker() {
    let err = sanitize_relative_path("./evil", Platform::Unix).unwrap_err();
    assert!(matches!(err, Error::Protocol(_)));
}

#[test]
fn sanitize_rejects_absolute_path() {
    let abs = "/etc/passwd";
    let err = sanitize_relative_path(abs, Platform::Unix).unwrap_err();
    assert!(matches!(err, Error::Protocol(_)));
    let abs = r"C:\Windows\System32\evil.dll";
    let err = sanitize_relative_path(abs, Platform::Windows).unwrap_err();
    assert!(matches!(err, Error::Protocol(_)));
}

#[test]
fn sanitize_rejects_empty_path() {
    let err = sanitize_relative_path("", Platform::Unix).unwrap_err();
    assert!(matches!(err, Error::Protocol(_)));
}

#[test]
fn sanitize_names_the_reason_and_plainest_form() {
    assert_eq!(sanitize_relative_path("a//b/./c/", Platform::Unix).unwrap(), "a/b/c");
    assert_eq!(sanitize_relative_path("..a/b..", Platform::Unix).unwrap(), "..a/b..");
    assert_eq!(sanitize_relative_path("a/b/c", Platform::Unix).unwrap(), "a/b/c", "once is enough");
    assert_eq!(
        protocol_text(sanitize_relative_path("/x", Platform::Unix).unwrap_err()),
        "rejecting absolute path in transfer: /x"
    );
    assert_eq!(
        protocol_text(sanitize_relative_path("./x", Platform::Unix).unwrap_err()),
        "rejecting `.` component in transfer path: ./x"
    );
    assert_eq!(
        protocol_text(sanitize_relative_path("x/..", Platform::Unix).unwrap_err()),
        "rejecting `..` component in transfer path: x/.."
    );
    assert_eq!(
        protocol_text(sanitize_relative_path("", Platform::Unix).unwrap_err()),
        "transfer path is empty"
    );
}

#[test]
fn windows_paths_are_read_as_windows_does() {
    let clean = |p: &str| sanitize_relative_path(p, Platform::Windows);
    assert_eq!(clean("a/b\\c").unwrap(), "a\\b\\c");
    assert_eq!(clean("a\\\\.\\b\\").unwrap(), "a\\b");
    assert_eq!(clean("a\\b").unwrap(), "a\\b", "once is enough");
    assert_eq!(clean("ab:c").unwrap(), "ab:c");
    assert_eq!(sanitize_relative_path("a\\..\\C:", Platform::Unix).unwrap(), "a\\..\\C:");
    let refused = |p: &str| protocol_text(clean(p).unwrap_err());
    let parent = "rejecting `..` component in transfer path: ";
    let root = "rejecting drive/root component in transfer path: ";
    let absolute = "rejecting absolute path in transfer: ";
    for (path, why) in [
        ("..\\evil", parent),
        ("a\\..\\..\\evil", parent),
        ("\\evil", root),
        ("/evil", root),
        ("\\\\server", root),
        ("C:", root),
        ("C:evil", root),
        ("a/z:evil", root),
        ("C:\\evil", absolute),
        ("c:/evil", absolute),
        ("\\\\server\\share", absolute),
        ("//server/share/evil", absolute),
        ("\\\\?\\C:\\evil", absolute),
        ("\\\\?\\UNC\\server\\share\\evil", absolute),
        ("\\\\.\\COM42", absolute),
    ] {
        assert_eq!(refused(path), format!("{why}{path}"));
    }
    assert_eq!(refused(".\\x"), "rejecting `.` component in transfer path: .\\x");
    assert_eq!(refused(""), "transfer path is empty");
}

#[test]
fn names_at_the_end_of_windows_paths() {
    let name = |p: &str| path_name(p, Platform::Windows);
    assert_eq!(name("C:\\data\\b.txt").as_deref(), Some("b.txt"));
    assert_eq!(name("C:b.txt").as_deref(), Some("b.txt"));
    assert_eq!(name("a/b\\.\\").as_deref(), Some("b"));
    assert_eq!(name("\\\\server\\share\\dir\\f").as_deref(), Some("f"));
    assert_eq!(name("\\\\?\\C:\\a/b").as_deref(), Some("a/b"));
    assert_eq!(name("\\\\?\\UNC\\server\\share\\f").as_deref(), Some("f"));
    assert_eq!(name("C:\\"), None);
    assert_eq!(name("C:"), None);
    assert_eq!(name("\\\\server\\share"), None);
    assert_eq!(name("\\\\?\\UNC\\server\\share"), None);
    assert_eq!(name("\\\\.\\COM42"), None);
    assert_eq!(name("a\\.."), None);
    let resume = |p: &str| resume_state_path(p, Platform::Windows);
    assert_eq!(resume("C:\\data\\f").as_deref(), Some("C:\\data\\.f.hyx-resume"));
    assert_eq!(resume("C:f").as_deref(), Some("C:.f.hyx-resume"));
    assert_eq!(
        resume("\\\\server\\share\\f").as_deref(),
        Some("\\\\server\\share\\.f.hyx-resume")
    );
    assert_eq!(resume("C:\\"), None);
}

#[test]
fn names_at_the_end_of_paths() {
    assert_eq!(path_name("a/b.txt", Platform::Unix).as_deref(), Some("b.txt"));
    assert_eq!(path_name("a/b/", Platform::Unix).as_deref(), Some("b"));
    assert_eq!(path_name("a/b/.", Platform::Unix).as_deref(), Some("b"));
    assert_eq!(path_name("a/..", Platform::Unix), None);
    assert_eq!(path_name(".", Platform::Unix), None);
    assert_eq!(path_name("/", Platform::Unix), None);
    assert_eq!(path_name("", Platform::Unix), None);
}

#[test]
fn resume_state_lies_next_to_the_file() {
    assert_eq!(
        resume_state_path("/data/movie.mkv", Platform::Unix).as_deref(),
        Some("/data/.movie.mkv.hyx-resume")
    );
    assert_eq!(resume_state_path("f", Platform::Unix).as_deref(), Some(".f.hyx-resume"));
    assert_eq!(resume_state_path("/", Platform::Unix), None);
    assert_eq!(resume_state_path("..", Platform::Unix), Some("..".to_string()));
}

#[test]
fn folder_transfer_state_tracks_files() {
    let files = vec![file("a.txt", 100), file("b.txt", 200)];
    let mut state = FolderTransferState::new([7; 16], "x".to_string(), files, &config(65536));
    assert_eq!(state.total_bytes, 300);
    assert_eq!(state.next_file(), Some(0));

    state.mark_file_complete(0);
    assert_eq!(state.transferred_bytes, 100);
    assert_eq!(state.next_file(), Some(1));

    state.mark_chunk_complete(1, 7);
    assert_eq!(state.get_completed_chunks(1), &[7u64]);

    state.mark_file_complete(1);
    assert!(state.is_complete());
    assert_eq!(state.transferred_bytes, state.total_bytes);
    state.mark_file_complete(1);
    assert_eq!(state.transferred_bytes, 300, "a file counts once");
    assert_eq!(state.next_file(), None);
}

#[test]
fn finishing_a_file_moves_on_to_the_next() {
    let files = vec![file("a", 1), file("b", 2), file("c", 3)];
    let mut state = FolderTransferState::new([1; 16], "x".into(), files, &config(64));
    state.finish_file(1);
    assert_eq!(state.current_file, Some(0));
    assert_eq!(state.next_file_from(1), Some(2));
    state.finish_file(0);
    assert_eq!(state.current_file, Some(2));
    state.finish_file(2);
    assert_eq!(state.current_file, None);
}

#[test]
fn state_remembers_negotiated_chunk_size_across_serde_roundtrip() {
    let cfg = config(1024 * 1024);
    let files = vec![file("x.bin", 4 * 1024 * 1024)];
    let state = FolderTransferState::new([0; 16], "f".into(), files, &cfg);
    assert_eq!(state.config.chunk_size, 1024 * 1024);

    // The parameters as a program stores them.
    let mut stored = serde_json::Map::new();
    stored.insert("compression_enabled".into(), state.config.compression_enabled.into());
    stored.insert("compression_level".into(), state.config.compression_level.into());
    stored.insert("adaptive_compression".into(), state.config.adaptive_compression.into());
    stored.insert("chunk_size".into(), state.config.chunk_size.into());
    stored.insert("bandwidth_limit".into(), state.config.bandwidth_limit.into());
    let json = serde_json::to_string(&stored).unwrap();
    let read: serde_json::Value = serde_json::from_str(&json).unwrap();
    let round = ConfigMessage {
        compression_enabled: read["compression_enabled"].as_bool().unwrap(),
        compression_level: read["compression_level"].as_i64().unwrap() as i32,
        adaptive_compression: read["adaptive_compression"].as_bool().unwrap(),
        chunk_size: read["chunk_size"].as_u64().unwrap() as u32,
        bandwidth_limit: read["bandwidth_limit"].as_u64().unwrap(),
    };
    assert_eq!(round.chunk_size, 1024 * 1024);
    assert_eq!(round.compression_enabled, cfg.compression_enabled);
    assert_eq!(round.compression_level, cfg.compression_level);
    assert_eq!(round.adaptive_compression, cfg.adaptive_compression);
    assert_eq!(round.bandwidth_limit, cfg.bandwidth_limit);
}

#[test]
fn an_offer_names_what_is_done_already() {
    let files = vec![file("a", 64), file("b", 128), file("c", 64)];
    let mut state = FolderTransferState::new([1; 16], "x".into(), files, &config(64));
    let info = transfer_info(&state, [9; 16]);
    assert!(info.resume_from.is_none());
    assert!(info.completed_files.is_empty());
    state.mark_file_complete(0);
    state.mark_chunk_complete(1, 0);
    state.mark_chunk_complete(1, 0);
    let info = transfer_info(&state, [9; 16]);
    assert_eq!(info.completed_files, vec![0]);
    assert_eq!(info.items.len(), 3);
    assert_eq!(info.items[1].path, "b");
    let point = info.resume_from.unwrap();
    assert_eq!(point.transfer_id, [9; 16]);
    assert_eq!(point.file_index, 1);
    assert_eq!(point.completed_chunks, vec![0, 0]);
    assert_eq!(complete_message(&state, [9; 16], 5).total_bytes, 256);
}

#[test]
fn multi_file_resume_with_completed_files_does_not_deadlock() {
    let names = ["a.bin", "b.bin", "c.bin"];
    let bodies: Vec<Vec<u8>> = (0..names.len()).map(|i| vec![i as u8; 64]).collect();
    let files = names.iter().map(|n| file(&format!("src/{n}"), 64)).collect();
    let mut state = FolderTransferState::new([1; 16], "src".into(), files, &config(64));
    state.mark_file_complete(0);
    // The receiver has no copy of file 0.
    let (sent, received, written) = run_transfer(&mut state, &bodies, AcceptDecision::Accept);
    sent.unwrap();
    let summary = received.unwrap();
    assert_eq!(
        written,
        vec![
            ("src/b.bin".to_string(), bodies[1].clone()),
            ("src/c.bin".to_string(), bodies[2].clone()),
        ],
        "nothing is waited for that the sender skipped"
    );
    assert_eq!(summary.bytes, 128, "only what came in this session counts");
    assert!(state.is_complete());
}

#[test]
fn repeated_chunks_in_a_resume_point_count_once() {
    let files = vec![file("e", 10), file("f", 250)];
    let mut state = FolderTransferState::new([1; 16], "x".into(), files, &config(64));
    state.mark_file_complete(0);
    for chunk in [0, 0, 3, 77] {
        state.mark_chunk_complete(1, chunk);
    }
    // The last chunk has 58 bytes, and there is no chunk 77.
    assert_eq!(sent_so_far(&state), 10 + 64 + 58);
    let mut info = transfer_info(&state, [1; 16]);
    info.resume_from.as_mut().unwrap().completed_chunks.pop();
    let mut receive =
        FolderReceive::on_offer(64, Platform::Unix, Message::TransferInfo(info), "").ok().unwrap();
    assert!(receive.next(ReceiveEvent::Decided(AcceptDecision::Accept), "").is_ok());
    assert_eq!((receive.total_bytes(), receive.already()), (260, 10 + 64 + 58));
    assert!(matches!(
        receive.next(ReceiveEvent::Answered, ""),
        Ok(ReceiveAction::Look { index: 0, size: 10, .. })
    ));
    let found = ReceiveEvent::Found { file_len: Some(10), partial_len: None };
    match receive.next(found, "").unwrap() {
        ReceiveAction::Receive { index, total_chunks, streams, .. } => {
            assert_eq!((index, total_chunks, streams), (1, 4, 2));
        }
        other => panic!("unexpected {other:?}"),
    }
}

#[test]
fn receive_folder_reject_sends_cancel_and_returns_empty_summary() {
    let files = vec![file("src/only.bin", 32)];
    let mut state = FolderTransferState::new([1; 16], "src".into(), files, &config(64));
    let (sent, received, written) =
        run_transfer(&mut state, &[vec![7u8; 32]], AcceptDecision::Reject);
    assert!(matches!(sent, Err(Error::Cancelled)));
    let summary = received.unwrap();
    assert!(summary.files.is_empty());
    assert_eq!((summary.bytes, summary.root_name.as_str()), (0, ""));
    assert!(written.is_empty());
}

#[test]
fn answers_to_an_offer() {
    assert!(matches!(on_offer_reply(Ok(Message::Cancel), ""), Err(Error::Cancelled)));
    assert!(matches!(
        on_offer_reply(Err(Error::Disconnected), ""),
        Err(Error::Cancelled)
    ));
    assert!(matches!(
        on_offer_reply(Err(Error::Quic("gone".into())), ""),
        Err(Error::Cancelled)
    ));
    assert!(matches!(on_offer_reply(Err(Error::Timeout), ""), Err(Error::Timeout)));
    assert!(on_offer_reply(Ok(Message::Ready), "").is_ok());
    assert_eq!(
        protocol_text(on_offer_reply(Ok(Message::Ping), "Ping").unwrap_err()),
        "Expected Ready, got Ping"
    );
}

#[test]
fn receive_folder_accept_returns_summary_with_per_file_list() {
    let bodies = [vec![1u8; 64], vec![2u8; 64]];
    let files = vec![file("src/alpha.bin", 64), file("src/beta.bin", 64)];
    let mut state = FolderTransferState::new([1; 16], "src".into(), files, &config(64));
    let (sent, received, written) = run_transfer(&mut state, &bodies, AcceptDecision::Accept);
    sent.unwrap();
    let result = received.unwrap();
    assert_eq!(result.files, vec!["src/alpha.bin", "src/beta.bin"]);
    assert_eq!(result.root_name, "src/alpha.bin");
    assert_eq!(result.bytes, 128);
    assert_eq!(written[0].1, bodies[0]);
    assert_eq!(written[1].1, bodies[1]);
}

/// A receiver that waits for the checksum of its only file.
fn first_action(path: &str, platform: Platform) -> Result<ReceiveAction, Error> {
    let state = FolderTransferState::new([4; 16], "x".into(), vec![file(path, 10)], &config(64));
    let info = Message::TransferInfo(transfer_info(&state, [4; 16]));
    let mut receive = FolderReceive::on_offer(64, platform, info, "").ok().unwrap();
    receive.next(ReceiveEvent::Decided(AcceptDecision::Accept), "").unwrap();
    receive.next(ReceiveEvent::Answered, "")
}

#[test]
fn an_offered_path_that_leads_out_is_refused() {
    for (path, platform) in [
        ("../evil", Platform::Unix),
        ("/evil", Platform::Unix),
        ("..\\evil", Platform::Windows),
        ("a\\C:evil", Platform::Windows),
    ] {
        assert!(matches!(first_action(path, platform), Err(Error::Protocol(_))), "{path}");
    }
    match first_action("a/b\\c", Platform::Windows).unwrap() {
        ReceiveAction::Receive { path, .. } => assert_eq!(path, "a\\b\\c"),
        other => panic!("unexpected {other:?}"),
    }
}

fn receiver_at_checksum(ours: [u8; 32]) -> FolderReceive {
    let state = FolderTransferState::new([4; 16], "x".into(), vec![file("f", 10)], &config(64));
    let info = transfer_info(&state, [4; 16]);
    let mut receive = FolderReceive::on_offer(64, Platform::Unix, Message::TransferInfo(info), "").ok().unwrap();
    receive.next(ReceiveEvent::Decided(AcceptDecision::Accept), "").unwrap();
    assert!(matches!(
        receive.next(ReceiveEvent::Answered, ""),
        Ok(ReceiveAction::Receive { index: 0, total_chunks: 1, streams: 1, .. })
    ));
    match receive.next(ReceiveEvent::Received(ours), "").unwrap() {
        ReceiveAction::ExchangeChecksum(m) => {
            assert_eq!((m.transfer_id, m.file_index, m.checksum), ([4; 16], 0, ours));
        }
        other => panic!("unexpected {other:?}"),
    }
    receive
}

#[test]
fn a_receive_ends_only_when_every_checksum_agrees() {
    let reply = |file_index, checksum| {
        let m = FileChecksumMessage { transfer_id: [4; 16], file_index, checksum };
        ReceiveEvent::Checksum(Message::FileChecksum(m))
    };
    let mut receive = receiver_at_checksum([1; 32]);
    assert!(matches!(receive.next(reply(0, [2; 32]), ""), Err(Error::Verification(_))));
    assert_eq!(
        protocol_text(receive.next(reply(3, [1; 32]), "").unwrap_err()),
        "File index mismatch: expected 0, got 3"
    );
    assert_eq!(
        protocol_text(receive.next(ReceiveEvent::Checksum(Message::Ping), "Ping").unwrap_err()),
        "Expected FileChecksum, got Ping"
    );
    assert!(matches!(receive.next(reply(0, [1; 32]), ""), Ok(ReceiveAction::AwaitComplete)));
    assert_eq!(
        protocol_text(receive.next(ReceiveEvent::Ended(Message::Ping), "Ping").unwrap_err()),
        "Expected Complete message, got Ping"
    );
    let done = CompleteMessage { transfer_id: [4; 16], total_bytes: 10, duration_ms: 3 };
    match receive.next(ReceiveEvent::Ended(Message::Complete(done)), "").unwrap() {
        ReceiveAction::Finished(summary) => {
            assert_eq!((summary.files, summary.bytes), (vec!["f".to_string()], 10));
        }
        other => panic!("unexpected {other:?}"),
    }
}

#[test]
fn offers_that_cannot_be_taken() {
    let offer = |files: Vec<FileMetadata>| {
        let state = FolderTransferState::new([1; 16], "x".into(), files, &config(64));
        FolderReceive::on_offer(64, Platform::Unix, Message::TransferInfo(transfer_info(&state, [1; 16])), "")
    };
    assert_eq!(protocol_text(offer(vec![]).err().unwrap()), "No files in transfer");
    assert!(protocol_text(offer(vec![file("a", 1), file("b", u64::MAX - 1)]).err().unwrap())
        .starts_with("peer-supplied file size 18446744073709551614 exceeds"));
    assert_eq!(
        protocol_text(FolderReceive::on_offer(64, Platform::Unix, Message::Ping, "Ping").err().unwrap()),
        "Expected TransferInfo, got Ping"
    );
    let mut evil = offer(vec![file("../x", 1)]).ok().unwrap();
    evil.next(ReceiveEvent::Decided(AcceptDecision::Accept), "").unwrap();
    assert_eq!(
        protocol_text(evil.next(ReceiveEvent::Answered, "").unwrap_err()),
        "rejecting `..` component in transfer path: ../x"
    );
    assert_eq!(checked_total_size(&vec![file("a", u64::MAX), file("b", 1)]), None);
    assert_eq!(checked_total_size(&vec![file("a", 2), file("b", 1)]), Some(3));
}

#[test]
fn a_copy_of_a_file_left_out_has_to_fit() {
    assert!(FolderReceive::check_present(2, "a/b", 10, Some(10), None).is_ok());
    assert!(FolderReceive::check_present(2, "a/b", 10, None, Some(10)).is_ok());
    assert!(FolderReceive::check_present(2, "a/b", 10, None, None).is_ok());
    assert!(FolderReceive::check_present(2, "a/b", 10, None, Some(9)).is_err());
    let err = FolderReceive::check_present(2, "a/b", 10, Some(9), Some(10)).unwrap_err();
    match err {
        Error::Verification(m) => assert_eq!(
            m,
            "Sender marked file 2 complete but local copy is missing or wrong size: a/b"
        ),
        other => panic!("unexpected {other:?}"),
    }
}

#[test]
fn checksums_have_to_agree() {
    let mut other = [0x11u8; 32];
    other[1] = 0x0a;
    let reply = |index, checksum| {
        Message::FileChecksum(FileChecksumMessage {
            transfer_id: [0; 16],
            file_index: index,
            checksum,
        })
    };
    let ours = [0x11u8; 32];
    assert!(on_checksum_as_sender(4, &ours, &reply(4, ours), "").is_ok());
    assert!(on_checksum_as_sender(4, &ours, &reply(9, ours), "").is_ok());
    match on_checksum_as_sender(4, &ours, &reply(4, other), "").unwrap_err() {
        Error::Verification(m) => assert_eq!(
            m,
            "File checksum mismatch for file 4: sender=[11, 11, 11, 11, 11, 11, 11, 11], \
             receiver=[11, 0a, 11, 11, 11, 11, 11, 11]"
        ),
        e => panic!("unexpected {e:?}"),
    }
    assert!(on_checksum_as_receiver(4, &ours, &reply(4, ours), "").is_ok());
    assert_eq!(
        protocol_text(on_checksum_as_receiver(4, &ours, &reply(5, ours), "").unwrap_err()),
        "File index mismatch: expected 4, got 5"
    );
    match on_checksum_as_receiver(4, &ours, &reply(4, other), "").unwrap_err() {
        Error::Verification(m) => assert_eq!(
            m,
            "File 4 checksum mismatch: sender=[11, 0a, 11, 11, 11, 11, 11, 11], \
             receiver=[11, 11, 11, 11, 11, 11, 11, 11]"
        ),
        e => panic!("unexpected {e:?}"),
    }
    assert_eq!(
        protocol_text(on_checksum_as_receiver(4, &ours, &Message::Ready, "Ready").unwrap_err()),
        "Expected FileChecksum, got Ready"
    );
}

#[test]
fn sources_that_can_be_sent() {
    assert_eq!(source_files(Source::SingleFile(file("a", 1))).unwrap().len(), 1);
    assert_eq!(source_files(Source::Folder(vec![file("a", 1), file("b", 1)])).unwrap().len(), 2);
    let text = |s| protocol_text(source_files(s).unwrap_err());
    assert_eq!(text(Source::Folder(vec![])), "Folder is empty");
    assert_eq!(text(Source::Nameless), "Invalid path");
    assert_eq!(text(Source::Neither), "Path is neither a file nor a directory");
}

#[test]
fn scanning_a_folder_skips_links() {
    let mut scan = FolderScan::new("/data/f".into());
    assert_eq!(scan.next_directory().as_deref(), Some("/data/f"));
    scan.on_entry("/data/f/a".into(), "f/a", EntryKind::File, 5, 6, Platform::Unix).unwrap();
    scan.on_entry("/data/f/l".into(), "f/l", EntryKind::Symlink, 0, 0, Platform::Unix).unwrap();
    scan.on_entry("/data/f/d1".into(), "f/d1", EntryKind::Directory, 0, 0, Platform::Unix).unwrap();
    scan.on_entry("/data/f/d2".into(), "f/d2", EntryKind::Directory, 0, 0, Platform::Unix).unwrap();
    scan.on_entry("/data/f/s".into(), "f/s", EntryKind::Other, 0, 0, Platform::Unix).unwrap();
    assert_eq!(scan.next_directory().as_deref(), Some("/data/f/d1"));
    assert_eq!(scan.next_directory().as_deref(), Some("/data/f/d2"));
    assert_eq!(scan.next_directory(), None);
    assert_eq!(scan.files.len(), 1);
    assert_eq!(scan.files[0].path, "f/a");
    assert_eq!((scan.files[0].size, scan.files[0].modified), (5, 6));
    assert!(scan.on_entry("x".into(), "../x", EntryKind::File, 1, 1, Platform::Unix).is_err());
}

#[test]
fn failed_attempts_are_tried_again_while_they_may() {
    let config = ReconnectConfig::with_max_attempts(2);
    match after_failure(&config, 0, Error::Timeout, "Connection timeout") {
        AfterFailure::Retry { delay_secs, attempt } => assert_eq!((delay_secs, attempt), (3, 1)),
        other => panic!("unexpected {other:?}"),
    }
    match after_failure(&config, 1, Error::Timeout, "Connection timeout") {
        AfterFailure::GiveUp(e) => assert_eq!(
            protocol_text(e),
            "Transfer failed after 2 attempts: Connection timeout"
        ),
        other => panic!("unexpected {other:?}"),
    }
    match after_failure(&config, 0, Error::Cancelled, "") {
        AfterFailure::GiveUp(Error::Cancelled) => {}
        other => panic!("unexpected {other:?}"),
    }
}

#[test]
fn transfers_start_from_saved_state() {
    let cfg = config(64);
    let saved = FolderTransferState::new([5; 16], "x".into(), vec![file("a", 1)], &cfg);
    let (state, id) = starting_point(Some(saved), [9; 16], &cfg);
    assert_eq!(id, [5; 16]);
    let summary = sent_summary(&state, sent_so_far(&state));
    assert_eq!(summary.files, vec!["a".to_string()]);
    assert_eq!((summary.root_name.as_str(), summary.bytes), ("x", 1));
    let files = vec![file("a", 64), file("b", 200)];
    let mut resumed = FolderTransferState::new([5; 16], "x".into(), files, &cfg);
    resumed.mark_file_complete(0);
    resumed.mark_chunk_complete(1, 3);
    let before = sent_so_far(&resumed);
    assert_eq!(before, 64 + 8);
    assert_eq!(sent_summary(&resumed, before).bytes, 192, "without what was sent before");
    let (state, id) = starting_point(None, [9; 16], &cfg);
    assert_eq!(id, [9; 16]);
    assert!(state.files.is_empty());
}

#[test]
fn test_progress_state() {
    let mut state = ProgressState::new(1000);
    let percent = |s: &ProgressState| s.transferred_bytes() as f64 / s.total_bytes() as f64 * 100.0;

    assert_eq!(state.total_bytes(), 1000);
    assert_eq!(state.transferred_bytes(), 0);
    assert_eq!(percent(&state), 0.0);
    assert!(!state.is_complete());

    state.add_bytes(250);
    assert_eq!(state.transferred_bytes(), 250);
    assert_eq!(percent(&state), 25.0);
    assert!(!state.is_complete());

    state.add_bytes(750);
    assert_eq!(state.transferred_bytes(), 1000);
    assert_eq!(percent(&state), 100.0);
    assert!(state.is_complete());
}

#[test]
fn test_progress_updates() {
    let mut state = ProgressState::new(500);
    let percent = |s: &ProgressState| s.transferred_bytes() as f64 / s.total_bytes() as f64 * 100.0;

    state.add_bytes(100);
    assert_eq!(state.transferred_bytes(), 100);
    assert_eq!(percent(&state), 20.0);

    state.add_bytes(200);
    assert_eq!(state.transferred_bytes(), 300);
    assert_eq!(percent(&state), 60.0);

    state.add_bytes(200);
    assert_eq!(state.transferred_bytes(), 500);
    assert_eq!(percent(&state), 100.0);
    assert!(state.is_complete());
}

#[test]
fn a_first_total_reveals_the_bar() {
    let mut state = ProgressState::new(0);
    assert_eq!(state.set_total_bytes(0).0, TotalChange::Unchanged);
    assert_eq!(state.set_total_bytes(10).0, TotalChange::Reveal);
    assert_eq!(state.set_total_bytes(10).0, TotalChange::Unchanged);
    assert_eq!(state.set_total_bytes(20).0, TotalChange::Changed);
    assert_eq!(state.total_bytes(), 20);
}

#[test]
fn every_step_of_the_progress_is_told() {
    let mut state = ProgressState::new(100);
    assert_eq!(state.set_total_bytes(100).1, Update { transferred: 0, total: 100 });
    assert_eq!(state.add_bytes(30), Update { transferred: 30, total: 100 });
    assert_eq!(state.set_total_bytes(120).1, Update { transferred: 30, total: 120 });
    assert_eq!(state.finish(), Update { transferred: 30, total: 120 });
}

fn share((done, all): (u64, u64)) -> f64 {
    done as f64 / all as f64
}

#[test]
fn a_transfer_of_nothing_is_all_done() {
    let state = TransferState::new([3; 16], "p".into(), vec![file("empty", 0)], 100);
    assert_eq!(state.progress(), (1, 1));
}

#[test]
fn a_mark_sets_the_time_of_the_last_update() {
    let mut state = TransferState::new_at([3; 16], "p".into(), vec![file("a", 300)], 100, 77);
    assert_eq!(state.progress(), (0, 300));
    state.mark_chunk_complete_at(0, 1, 100, 80);
    assert_eq!((state.timestamp, state.progress()), (80, (100, 300)));
    state.mark_chunk_complete_at(0, 3, 100, 90);
    state.mark_chunk_complete_at(1, 0, 100, 91);
    assert_eq!(state.timestamp, 80, "what is not part of the transfer changes nothing");
    state.mark_chunk_complete(0, 0, 100);
    assert!(state.timestamp > 1_700_000_000);
}

#[test]
fn test_transfer_state_creation() {
    let metadata = file("test.txt", 1000);
    let state = TransferState::new([3; 16], "127.0.0.1".to_string(), vec![metadata], 100);

    assert_eq!(state.files.len(), 1);
    assert_eq!(state.files[0].total_chunks, 10);
    assert_eq!(share(state.progress()), 0.0);
}

#[test]
fn test_chunk_completion() {
    let metadata = file("test.txt", 300);
    let mut state = TransferState::new([3; 16], "127.0.0.1".to_string(), vec![metadata], 100);

    state.mark_chunk_complete(0, 0, 100);
    assert_eq!(share(state.progress()), 100.0 / 300.0);

    state.mark_chunk_complete(0, 1, 100);
    state.mark_chunk_complete(0, 2, 100);
    assert_eq!(share(state.progress()), 1.0);
    assert_eq!(state.files[0].status, FileStatus::Complete);
}

#[test]
fn test_next_chunk() {
    let metadata = file("test.txt", 300);
    let mut state = TransferState::new([3; 16], "127.0.0.1".to_string(), vec![metadata], 100);

    assert_eq!(state.next_chunk(), Some((0, 0)));

    state.mark_chunk_complete(0, 0, 100);
    assert_eq!(state.next_chunk(), Some((0, 1)));

    state.mark_chunk_complete(0, 1, 100);
    state.mark_chunk_complete(0, 2, 100);
    assert_eq!(state.next_chunk(), None);
}

#[test]
fn chunk_bitmaps_know_what_came() {
    let mut state = TransferState::new_at([3; 16], "p".into(), vec![file("a", 300), file("b", 50)], 100, 77);
    assert_eq!(state.timestamp, 77);
    state.mark_chunk_complete(0, 2, 100);
    state.mark_chunk_complete(0, 0, 100);
    state.mark_chunk_complete(0, 99, 100);
    state.mark_chunk_complete(9, 0, 100);
    assert_eq!(state.files[0].completed_chunks.completed(), vec![0, 2]);
    assert_eq!(state.transferred_bytes, 200);
    state.mark_chunk_complete(0, 0, 100);
    assert_eq!(state.transferred_bytes, 200, "a chunk counts once");
    assert_eq!(state.files[0].status, FileStatus::InProgress);
    assert_eq!(state.files[1].status, FileStatus::Pending);
    state.mark_chunk_complete(1, 0, 50);
    assert_eq!(state.files[1].status, FileStatus::Complete, "its only chunk came");
    assert_eq!(state.next_chunk(), Some((0, 1)));
    assert!(!state.is_complete());
    state.files[0].status = FileStatus::Verified;
    state.files[1].status = FileStatus::Verified;
    assert!(state.is_complete());
    assert_eq!(state.next_chunk(), None);
}

#[test]
fn control_streams_begin_with_the_magic() {
    assert_eq!(&PROTOCOL_MAGIC, b"P2PF");
    assert!(check_control_magic(b"P2PF").is_ok());
    assert_eq!(
        protocol_text(check_control_magic(&[1, 2, 30, 255]).unwrap_err()),
        "control stream priming magic mismatch: got [1, 2, 30, 255]"
    );
}

fn checksum_reply(checksum: [u8; 32]) -> SendEvent {
    SendEvent::Checksum(Message::FileChecksum(FileChecksumMessage {
        transfer_id: [9; 16],
        file_index: 0,
        checksum,
    }))
}

#[test]
fn the_sender_sends_what_is_missing_and_ends() {
    let files = vec![file("a", 10), file("b", 20), file("c", 30)];
    let mut state = FolderTransferState::new([1; 16], "d".into(), files, &config(8));
    state.mark_file_complete(1);
    state.mark_chunk_complete(2, 0);
    let (mut sender, action) = FolderSend::start(&state, [9; 16]);
    match action {
        SendAction::Offer(info) => {
            assert_eq!(info.items.len(), 3);
            assert_eq!(info.completed_files, vec![1]);
        }
        other => panic!("unexpected {other:?}"),
    }
    let mut action = sender.next(&mut state, SendEvent::Reply(Ok(Message::Ready)), "", 1).unwrap();
    for (expected, path, chunks) in [(0, "a", vec![]), (2, "c", vec![0u64])] {
        match action {
            SendAction::SendFile { index, path: p, completed_chunks } => {
                assert_eq!((index, p.as_str(), completed_chunks), (expected, path, chunks));
            }
            other => panic!("unexpected {other:?}"),
        }
        match sender.next(&mut state, SendEvent::FileSent([7; 32]), "", 2).unwrap() {
            SendAction::ExchangeChecksum(m) => {
                assert_eq!((m.transfer_id, m.file_index), ([9; 16], expected as u32));
                assert_eq!(m.checksum, [7; 32]);
            }
            other => panic!("unexpected {other:?}"),
        }
        action = sender.next(&mut state, checksum_reply([7; 32]), "", 3).unwrap();
    }
    match action {
        SendAction::Complete(m) => {
            assert_eq!((m.transfer_id, m.total_bytes, m.duration_ms), ([9; 16], 60, 3));
        }
        other => panic!("unexpected {other:?}"),
    }
    assert!(state.is_complete());
    assert_eq!(state.transferred_bytes, 60);
    assert!(matches!(
        sender.next(&mut state, SendEvent::Completed, "", 4),
        Ok(SendAction::Finished)
    ));
}

#[test]
fn a_file_with_another_checksum_is_not_marked() {
    let mut state =
        FolderTransferState::new([1; 16], "d".into(), vec![file("a", 10)], &config(8));
    let (mut sender, _) = FolderSend::start(&state, [9; 16]);
    sender.next(&mut state, SendEvent::Reply(Ok(Message::Ready)), "", 0).unwrap();
    sender.next(&mut state, SendEvent::FileSent([7; 32]), "", 0).unwrap();
    assert!(matches!(
        sender.next(&mut state, checksum_reply([8; 32]), "", 0),
        Err(Error::Verification(_))
    ));
    assert_eq!(state.next_file(), Some(0));
}

#[test]
fn a_refused_offer_sends_nothing() {
    for reply in [Ok(Message::Cancel), Err(Error::Disconnected)] {
        let mut state =
            FolderTransferState::new([1; 16], "d".into(), vec![file("a", 10)], &config(8));
        let (mut sender, _) = FolderSend::start(&state, [9; 16]);
        assert!(matches!(
            sender.next(&mut state, SendEvent::Reply(reply), "", 0),
            Err(Error::Cancelled)
        ));
    }
}
