//! Frames, chunks, compression and checksums.

use hyx::chunk_io::{partial_path, plan_writes, ChunkReader, ChunkWriter, WriteBatcher, WriteGroup};
use hyx::codec::{push_be, push_le, read_be, read_le};
use hyx::compression::{compress, decompress, AdaptiveCompressor, Compressor, Decompressor};
use hyx::error::Error;
use hyx::protocol::{ConfigMessage, DEFAULT_CHUNK_SIZE};
use hyx::transfer_file::{
    chunk_count, validate_file_size, FileReceiver, FileSender, FrameStep, SendStep, BATCH_MAX_BYTES,
    FLUSH_BATCH_BYTES, MAX_TRANSFER_FILE_SIZE,
};
use hyx::whole_file::send_file;
use hyx::verification::{sha256, verify_sha256};

fn plain(chunk_size: u32) -> ConfigMessage {
    ConfigMessage {
        compression_enabled: false,
        compression_level: 3,
        adaptive_compression: false,
        chunk_size,
        bandwidth_limit: 0,
    }
}

/// Writes chunks into a file, and gives back the checksum that the receiver
/// ends with: the running one, or that of the file where it has to be read
/// again.
fn write_and_hash(file: &mut [u8], chunks: &Vec<(u64, Vec<u8>)>, chunk_size: u32) -> [u8; 32] {
    let mut writer = ChunkWriter::new(chunk_size, file.len() as u64);
    for (offset, data) in plan_writes(chunks, chunk_size) {
        file[offset as usize..offset as usize + data.len()].copy_from_slice(&data);
    }
    for (index, data) in chunks {
        writer.record_hash(*index, data);
    }
    writer.finalize().unwrap_or_else(|| sha256(file))
}

fn frame(index: u64, flags: u8, payload: &[u8]) -> Vec<u8> {
    let mut out = index.to_le_bytes().to_vec();
    out.push(flags);
    out.extend_from_slice(&(payload.len() as u32).to_le_bytes());
    out.extend_from_slice(payload);
    out
}

#[test]
fn test_compress_decompress() {
    let data = b"Hello, World! This is a test of zstd compression. ".repeat(100);
    let compressed = compress(&data, 3).unwrap();
    assert!(compressed.len() < data.len());

    let decompressed = decompress(&compressed).unwrap();
    assert_eq!(data, decompressed.as_slice());
}

#[test]
fn test_compressor() {
    let compressor = Compressor::new(5);
    let data = b"Test data for compression";
    let compressed = compressor.compress(data).unwrap();

    let decompressor = Decompressor::new();
    let decompressed = decompressor.decompress(&compressed).unwrap();
    assert_eq!(data, decompressed.as_slice());
}

#[test]
fn garbage_does_not_decompress() {
    let err = decompress(b"this is no zstd frame").unwrap_err();
    assert!(matches!(err, Error::Decompression(_)));
    assert!(Decompressor::default().decompress(&[1, 2, 3]).is_err());
}

#[test]
fn test_adaptive_compression_compressible_data() {
    let chunk1 = b"AAAAAAAAAAAAAAAAAAAAAAAAAAAAAAAAAAAAAAAA".repeat(100);
    let chunk2 = b"BBBBBBBBBBBBBBBBBBBBBBBBBBBBBBBBBBBBBBBB".repeat(100);
    let chunk3 = b"CCCCCCCCCCCCCCCCCCCCCCCCCCCCCCCCCCCCCCCC".repeat(100);

    let mut compressor = AdaptiveCompressor::default();

    let (compressed1, used1, changed1) = compressor.compress(&chunk1).unwrap();
    assert!(used1, "Should compress during sampling");
    assert!(!changed1, "Should not change decision yet");
    assert!(!compressor.is_decided(), "Should not be decided yet");

    let (compressed2, used2, changed2) = compressor.compress(&chunk2).unwrap();
    assert!(used2, "Should compress during sampling");
    assert!(!changed2, "Should not change decision yet");

    let (compressed3, used3, changed3) = compressor.compress(&chunk3).unwrap();
    assert!(used3, "Should compress this chunk");
    assert!(!changed3, "Should keep compression enabled");
    assert!(compressor.is_decided(), "Should be decided now");
    assert!(
        compressor.is_compression_enabled(),
        "Compression should stay enabled"
    );

    assert!(compressed1.len() < chunk1.len());
    assert!(compressed2.len() < chunk2.len());
    assert!(compressed3.len() < chunk3.len());

    let chunk4 = b"DDDDDDDDDDDDDDDDDDDDDDDDDDDDDDDDDDDDDDDD".repeat(100);
    let (_compressed4, used4, changed4) = compressor.compress(&chunk4).unwrap();
    assert!(used4, "Should still compress");
    assert!(!changed4, "Decision already made");
}

#[test]
fn test_adaptive_compression_incompressible_data() {
    let random_data = b"Random text that will be pre-compressed ".repeat(100);
    let pre_compressed = compress(&random_data, 3).unwrap();

    let chunk_size = pre_compressed.len() / 3;
    let chunk1 = &pre_compressed[0..chunk_size];
    let chunk2 = &pre_compressed[chunk_size..chunk_size * 2];
    let chunk3 = &pre_compressed[chunk_size * 2..];

    let mut compressor = AdaptiveCompressor::default();

    compressor.compress(chunk1).unwrap();
    compressor.compress(chunk2).unwrap();
    let (_, _, changed) = compressor.compress(chunk3).unwrap();

    assert!(changed, "Should change decision to disable");
    assert!(compressor.is_decided(), "Should be decided");
    assert!(
        !compressor.is_compression_enabled(),
        "Should disable compression"
    );

    let chunk4 = &pre_compressed[0..chunk_size];
    let (result, used, _) = compressor.compress(chunk4).unwrap();
    assert!(!used, "Should not compress");
    assert_eq!(result, chunk4, "Should return original data");
}

#[test]
fn test_adaptive_compression_stats() {
    let chunk = b"Test data ".repeat(100);
    let mut compressor = AdaptiveCompressor::default();

    compressor.compress(&chunk).unwrap();
    compressor.compress(&chunk).unwrap();
    compressor.compress(&chunk).unwrap();

    let stats = compressor.stats();
    assert_eq!(stats.chunks_sampled, 3);
    assert!(stats.decided);
    assert_eq!(stats.original_size, (chunk.len() * 3) as u128);
    let ratio = stats.original_size as f64 / stats.compressed_size as f64;
    assert!(ratio > 1.0, "Should have positive compression ratio");
}

#[test]
fn always_compressing_never_gives_up() {
    let noise: Vec<u8> = (0..200u32).map(|i| (i * 167 + 13) as u8).collect();
    let mut compressor = AdaptiveCompressor::new(3, 0);
    assert!(compressor.is_decided());
    for _ in 0..5 {
        let (out, used, changed) = compressor.compress(&noise).unwrap();
        assert!(used);
        assert!(!changed);
        assert_eq!(decompress(&out).unwrap(), noise);
    }
    assert_eq!(compressor.stats().chunks_sampled, 0);
}

#[test]
fn test_sha256_roundtrip() {
    let data = b"Hello, World!";
    let checksum = sha256(data);
    assert!(verify_sha256(data, &checksum).is_ok());

    let mut wrong = checksum;
    wrong[0] ^= 1;
    assert!(verify_sha256(data, &wrong).is_err());
}

#[test]
fn sha256_of_nothing_is_the_known_digest() {
    let digest = sha256(b"");
    assert_eq!(digest[..4], [0xe3, 0xb0, 0xc4, 0x42]);
    match verify_sha256(b"", &[0u8; 32]) {
        Err(Error::Verification(m)) => {
            let zeros = "0".repeat(64);
            assert_eq!(
                m,
                format!(
                    "SHA256 mismatch: expected {zeros}, got \
                     e3b0c44298fc1c149afbf4c8996fb92427ae41e4649b934ca495991b7852b855"
                )
            );
        }
        other => panic!("unexpected {other:?}"),
    }
}

#[test]
fn numbers_read_back_from_their_bytes() {
    let mut out = Vec::new();
    push_le(&mut out, 0x0102_0304_0506_0708, 8);
    assert_eq!(out, 0x0102_0304_0506_0708u64.to_le_bytes());
    assert_eq!(read_le(&out, 0, 8), 0x0102_0304_0506_0708);
    let mut out = Vec::new();
    push_be(&mut out, 0xBEEF, 2);
    assert_eq!(out, [0xBE, 0xEF]);
    assert_eq!(read_be(&out, 0, 2), 0xBEEF);
}

#[test]
fn config_message_default_matches_default_chunk_size() {
    assert_eq!(ConfigMessage::default().chunk_size, DEFAULT_CHUNK_SIZE);
}

#[test]
fn validate_file_size_rejects_absurd_values() {
    assert!(validate_file_size(0).is_ok());
    assert!(validate_file_size(MAX_TRANSFER_FILE_SIZE).is_ok());
    assert!(validate_file_size(MAX_TRANSFER_FILE_SIZE + 1).is_err());
    assert!(validate_file_size(u64::MAX).is_err());
}

#[test]
fn oversized_files_are_named_in_the_error() {
    match validate_file_size(1_099_511_627_777) {
        Err(Error::Protocol(m)) => assert_eq!(
            m,
            "peer-supplied file size 1099511627777 exceeds maximum 1099511627776"
        ),
        other => panic!("unexpected {other:?}"),
    }
}

#[test]
fn chunk_count_is_the_least_that_covers() {
    assert_eq!(chunk_count(0, 64), 0);
    assert_eq!(chunk_count(1, 64), 1);
    assert_eq!(chunk_count(64, 64), 1);
    assert_eq!(chunk_count(65, 64), 2);
    assert_eq!(chunk_count(200, 64), 4);
    assert_eq!(chunk_count(u64::MAX, u32::MAX), (1 << 32) + 1);
    assert_eq!(chunk_count(u64::MAX, 1), u64::MAX);
}

#[test]
fn chunk_reader_reads_and_hashes() {
    let data = vec![0x42u8; 200];
    let mut reader = ChunkReader::new(data.len() as u64, 64);
    assert_eq!(reader.total_chunks(), 4u64);

    for i in 0..reader.total_chunks() {
        let (offset, len) = reader.chunk_span(i);
        reader.absorb(&data[offset as usize..offset as usize + len]);
    }
    assert_eq!(reader.chunk_span(3), (192, 8));
    assert_eq!(reader.finalize_checksum(), sha256(&data));
}

#[test]
fn chunk_writer_assembles_out_of_order() {
    let mut file = vec![0u8; 200];
    let chunks = vec![
        (2u64, vec![0x02u8; 64]),
        (0u64, vec![0x00u8; 64]),
        (1u64, vec![0x01u8; 64]),
        (3u64, vec![0x03u8; 8]),
    ];
    let sha = write_and_hash(&mut file, &chunks, 64);
    let mut expected = vec![0u8; 64];
    expected.extend(vec![1u8; 64]);
    expected.extend(vec![2u8; 64]);
    expected.extend(vec![3u8; 8]);
    assert_eq!(file, expected);
    assert_eq!(sha, sha256(&expected));

    let mut writer = ChunkWriter::new(64, 200);
    for (index, data) in &chunks {
        writer.record_hash(*index, data);
    }
    assert!(writer.finalize().is_none(), "out of order: the file is read again");
}

#[test]
fn running_hash_covers_a_file_written_in_order() {
    let data: Vec<u8> = (0..150u8).collect();
    let mut writer = ChunkWriter::new(64, 150);
    writer.record_hash(0, &data[..64]);
    writer.record_hash(0, &data[..64]);
    writer.record_hash(1, &data[64..128]);
    writer.record_hash(2, &data[128..]);
    assert_eq!(writer.finalize(), Some(sha256(&data)));

    let mut partial = ChunkWriter::new(64, 150);
    partial.record_hash(0, &data[..64]);
    assert_eq!(partial.finalize(), None);
}

#[test]
fn chunk_writer_truncates_oversized_partial() {
    let expected_size = 64u64 * 2;
    let writer = ChunkWriter::new(64, expected_size);
    assert_eq!(writer.truncate_to(64 * 4), Some(expected_size));
    assert_eq!(writer.truncate_to(expected_size), None);
    assert_eq!(writer.truncate_to(10), None);
    assert_eq!(partial_path("/tmp/out.bin"), "/tmp/out.bin.partial");
}

#[test]
fn consecutive_chunks_become_one_write() {
    let chunks = vec![(3u64, vec![1u8; 4]), (4, vec![2u8; 4]), (5, vec![3u8; 1])];
    let writes = plan_writes(&chunks, 4);
    assert_eq!(writes, vec![(12u64, vec![1, 1, 1, 1, 2, 2, 2, 2, 3])]);
    assert!(plan_writes(&Vec::new(), 4).is_empty());
    // A chunk that is short in the middle leaves a gap behind it.
    let gap = vec![(3u64, vec![1u8; 2]), (4, vec![2u8; 4])];
    assert_eq!(plan_writes(&gap, 4), vec![(12, vec![1, 1]), (16, vec![2, 2, 2, 2])]);
}

#[test]
fn write_group_ends_with_the_first_gap() {
    let mut group = WriteGroup::new();
    assert!(group.push(0, vec![0]).is_empty());
    assert!(group.push(1, vec![1]).is_empty());
    assert_eq!(group.push(5, vec![5]), vec![(0, vec![0]), (1, vec![1])]);
    assert_eq!(group.push(0, vec![9]), vec![(5, vec![5])]);
    assert_eq!(group.finish(), vec![(0, vec![9])]);
}

#[test]
fn write_batches_are_bounded() {
    let mut batcher = WriteBatcher::new();
    let half = vec![7u8; FLUSH_BATCH_BYTES / 2];
    assert!(batcher.push(0, half.clone()).is_none());
    let batch = batcher.push(1, half).unwrap();
    assert_eq!(batch.len(), 2);
    assert!(batcher.end_stream().is_none());
    assert!(batcher.push(2, vec![1]).is_none());
    assert_eq!(batcher.end_stream(), Some(vec![(2, vec![1])]));
}

#[test]
fn receive_file_dedups_duplicate_chunk_streams() {
    let config = plain(64);
    let payload: Vec<u8> = (0..64 * 3).map(|i| (i % 251) as u8).collect();
    let streams: Vec<Vec<u8>> = [0u64, 0, 1, 2]
        .iter()
        .map(|i| frame(*i, 0, &payload[*i as usize * 64..][..64]))
        .collect();
    let mut receiver = FileReceiver::new(3, 3, &config).unwrap();
    let (chunks, error) = receiver.take_streams(&streams);
    assert!(error.is_none() && receiver.is_complete());
    assert_eq!(chunks.iter().map(|c| c.0).collect::<Vec<_>>(), vec![0, 1, 2]);
    let mut file = vec![0u8; payload.len()];
    assert_eq!(write_and_hash(&mut file, &chunks, 64), sha256(&payload));
    assert_eq!(file, payload);

    let mut early = FileReceiver::new(3, 3, &config).unwrap();
    assert_eq!(early.take_streams(&streams[..2].to_vec()).0.len(), 1);
    assert!(!early.is_complete(), "a duplicate must not stand in for a chunk");
}

#[test]
fn streams_are_refused_with_the_reason() {
    let config = plain(64);
    match FileReceiver::new(2, 3, &config) {
        Err(Error::Protocol(m)) => assert_eq!(m, "streams_to_receive 3 > total_chunks 2"),
        _ => panic!("expected a refusal"),
    }
    let reason = |raw: &[u8]| {
        let mut receiver = FileReceiver::new(2, 2, &plain(64)).unwrap();
        match receiver.take_stream(raw).1 {
            Some(Error::Protocol(m)) => m,
            other => panic!("unexpected {other:?}"),
        }
    };
    assert_eq!(reason(&[1, 2, 3]), "truncated frame header at byte 0 of 3");
    assert_eq!(reason(&frame(2, 0, b"x")), "chunk_index 2 >= total_chunks 2");
    let mut long = frame(0, 0, b"abc");
    long.pop();
    assert_eq!(reason(&long), "frame payload_len 3 exceeds stream remainder 2");
    assert_eq!(
        reason(&frame(0, 1, b"abc")),
        "compressed chunk but compression disabled in config"
    );

    let mut receiver = FileReceiver::new(2, 2, &ConfigMessage::default()).unwrap();
    let (_, error) = receiver.take_stream(&frame(0, 1, b"no zstd"));
    assert!(matches!(error, Some(Error::Decompression(_))));
}

#[test]
fn frames_before_a_fault_are_kept() {
    let mut receiver = FileReceiver::new(4, 4, &plain(64)).unwrap();
    let mut raw = frame(1, 0, b"one");
    raw.extend(frame(9, 0, b"bad"));
    let (chunks, error) = receiver.take_stream(&raw);
    assert_eq!(chunks, vec![(1, b"one".to_vec())]);
    assert!(error.is_some());
    match receiver.take_frame(&frame(1, 0, b"one"), 0).unwrap() {
        FrameStep::Duplicate { index, next } => assert_eq!((index, next), (1, 16)),
        other => panic!("unexpected {other:?}"),
    }
}

fn send_all(config: &ConfigMessage, data: &[u8], completed: &[u64]) -> (Vec<Vec<u8>>, [u8; 32]) {
    let mut reader = ChunkReader::new(data.len() as u64, config.chunk_size);
    let mut sender = FileSender::new(config, reader.total_chunks(), completed);
    let mut streams = Vec::new();
    loop {
        match sender.next_step() {
            SendStep::Fold(i) => {
                let (offset, len) = reader.chunk_span(i);
                reader.absorb(&data[offset as usize..offset as usize + len]);
            }
            SendStep::Send(i) => {
                let (offset, len) = reader.chunk_span(i);
                let chunk = &data[offset as usize..offset as usize + len];
                reader.absorb(chunk);
                if let Some(stream) = sender.push_chunk(i, chunk).unwrap() {
                    streams.push(stream);
                }
            }
            SendStep::Done => break,
        }
    }
    if let Some(stream) = sender.finish() {
        streams.push(stream);
    }
    (streams, reader.finalize_checksum())
}

#[test]
fn a_file_arrives_as_it_was_sent() {
    for compressed in [false, true] {
        let config = ConfigMessage {
            compression_enabled: compressed,
            chunk_size: 1000,
            ..ConfigMessage::default()
        };
        let data: Vec<u8> = (0..10_500u32).map(|i| (i / 7) as u8).collect();
        let (streams, sent) = send_all(&config, &data, &[]);
        let mut receiver = FileReceiver::new(11, 11, &config).unwrap();
        let mut file = vec![0u8; data.len()];
        let mut writer = ChunkWriter::new(1000, data.len() as u64);
        for raw in &streams {
            let (chunks, error) = receiver.take_stream(raw);
            assert!(error.is_none());
            for (offset, bytes) in plan_writes(&chunks, 1000) {
                file[offset as usize..offset as usize + bytes.len()].copy_from_slice(&bytes);
            }
            for (index, bytes) in &chunks {
                writer.record_hash(*index, bytes);
            }
        }
        assert!(receiver.is_complete());
        assert_eq!(file, data);
        assert_eq!(writer.finalize(), Some(sent));
        assert_eq!(sent, sha256(&data));
    }
}

#[test]
fn resume_with_skipped_chunks_does_not_deadlock() {
    let config = plain(64);
    let data: Vec<u8> = (0..64 * 4).map(|i| (i % 251) as u8).collect();
    let completed = [0u64, 1];
    let (streams, sent) = send_all(&config, &data, &completed);
    let mut receiver = FileReceiver::new(4, 2, &config).unwrap();
    let (chunks, error) = receiver.take_streams(&streams);
    assert!(error.is_none());
    assert!(receiver.is_complete(), "two chunks were left to come");
    assert_eq!(
        chunks,
        vec![(2, data[128..192].to_vec()), (3, data[192..].to_vec())]
    );
    let mut partial = vec![0u8; data.len()];
    partial[..128].copy_from_slice(&data[..128]);
    assert_eq!(write_and_hash(&mut partial, &chunks, 64), sent, "checksums must match");
    assert_eq!(partial, data);
    assert_eq!(sent, sha256(&data), "skipped chunks still count for the checksum");
    assert_eq!(send_all(&config, &data, &[0, 1, 1]), (streams, sent));
}

#[test]
fn a_stream_is_handed_out_before_it_grows_too_large() {
    let size = 12 * 1024 * 1024;
    let config = plain(size);
    let mut sender = FileSender::new(&config, 3, &[]);
    let chunk = vec![5u8; size as usize];
    assert!(sender.push_chunk(0, &chunk).unwrap().is_none());
    assert!(sender.push_chunk(1, &chunk).unwrap().is_none());
    let full = sender.push_chunk(2, &chunk).unwrap().unwrap();
    assert_eq!(full.len(), 2 * (13 + size as usize));
    assert!(full.len() as u64 <= BATCH_MAX_BYTES);
    assert_eq!(sender.finish().unwrap().len(), 13 + size as usize);
    assert!(sender.finish().is_none());
    assert_eq!(sender.compressed_bytes_sent(), 3 * size as u64);
    assert_eq!(sender.uncompressed_bytes_sent(), 3 * size as u64);
}

#[test]
fn a_chunk_may_be_encoded_before_it_is_queued() {
    let config = ConfigMessage { compression_enabled: true, chunk_size: 4096, ..ConfigMessage::default() };
    let mut sender = FileSender::new(&config, 1, &[]);
    let chunk = vec![0u8; 4096];
    let (payload, compressed) = sender.encode_chunk(&chunk).unwrap();
    assert!(compressed && payload.len() < chunk.len());
    assert_eq!(sender.compressed_bytes_sent(), 0);
    assert!(sender.push_frame(0, &payload, compressed, chunk.len()).is_none());
    assert_eq!(sender.compressed_bytes_sent(), payload.len() as u64);
    assert_eq!(sender.uncompressed_bytes_sent(), 4096);
    let stream = sender.finish().unwrap();
    let mut receiver = FileReceiver::new(1, 1, &config).unwrap();
    assert_eq!(receiver.take_stream(&stream).0, vec![(0, chunk)]);
}

#[test]
fn a_file_sent_as_a_whole_is_taken_as_a_whole() {
    for (compressed, adaptive) in [(false, false), (true, false), (true, true)] {
        let config = ConfigMessage {
            compression_enabled: compressed,
            adaptive_compression: adaptive,
            chunk_size: 700,
            ..ConfigMessage::default()
        };
        let data: Vec<u8> = (0..5_000u32).map(|i| (i.wrapping_mul(i) >> 3) as u8).collect();
        let (streams, checksum) = send_file(&config, &data, &[2, 5]).unwrap();
        assert_eq!(checksum, sha256(&data));
        let mut receiver = FileReceiver::new(8, 6, &config).unwrap();
        let (chunks, error) = receiver.take_streams(&streams);
        assert!(error.is_none() && receiver.is_complete());
        let indices: Vec<u64> = chunks.iter().map(|c| c.0).collect();
        assert_eq!(indices, vec![0, 1, 3, 4, 6, 7]);
        // The chunks that were left out are in the partial file.
        let mut file = vec![0u8; 4_200];
        file[1_400..2_100].copy_from_slice(&data[1_400..2_100]);
        file[3_500..4_200].copy_from_slice(&data[3_500..4_200]);
        for (index, chunk) in &chunks {
            let start = *index as usize * 700;
            file.resize(file.len().max(start + chunk.len()), 0);
            file[start..start + chunk.len()].copy_from_slice(chunk);
        }
        assert_eq!(file, data);
    }
}

#[test]
fn frames_that_do_not_fit_start_the_next_stream() {
    let size = 12 * 1024 * 1024;
    let config = plain(size);
    let data = vec![7u8; 5 * size as usize];
    let (streams, _) = send_file(&config, &data, &[]).unwrap();
    let lengths: Vec<usize> = streams.iter().map(Vec::len).collect();
    let frame = 13 + size as usize;
    assert_eq!(lengths, vec![2 * frame, 2 * frame, frame]);
    let mut receiver = FileReceiver::new(5, 5, &config).unwrap();
    let (chunks, error) = receiver.take_streams(&streams);
    assert!(error.is_none());
    assert_eq!(chunks.len(), 5);
    // Streams behind the last expected chunk are left alone.
    let mut early = FileReceiver::new(5, 2, &config).unwrap();
    assert_eq!(early.take_streams(&streams).0.len(), 2);
}

#[test]
fn nothing_is_sent_for_an_empty_file() {
    let (streams, checksum) = send_file(&plain(64), &[], &[]).unwrap();
    assert!(streams.is_empty());
    assert_eq!(checksum, sha256(&[]));
}
