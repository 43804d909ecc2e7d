//! Single-file transfer.
//!
//! A file travels as frames, many to a stream, each of them
//!
//! ```text
//! [chunk_index : u64 LE | flags : u8 | payload_len : u32 LE | payload]
//! ```
//!
//! The sender fills a stream up to [`BATCH_MAX_BYTES`] before it opens the
//! next. The receiver takes every chunk once, in whatever order it comes.
//! Both sides hash the file as it passes; the receiver falls back to reading
//! the file again where chunks came out of order.

use std::collections::HashSet;

use vstd::arithmetic::div_mod::{lemma_fundamental_div_mod, lemma_fundamental_div_mod_converse};
use vstd::prelude::*;
use vstd::string::*;

use crate::codec::{
    law_le_roundtrip, le_bytes, le_value, lemma_le_bytes_len, lemma_pow256_values, pow256, push_le, read_le,
};
use crate::compression::{
    undecided, zstd_decoded, zstd_encoded, AdaptiveCompressor, AdaptiveView, Decompressor,
};
use crate::error::{Error, Result};
use crate::protocol::ConfigMessage;
use crate::text::{bytes_copy, decimal, push_decimal};

verus! {

broadcast use vstd::std_specs::hash::group_hash_axioms;

/// Most bytes of frames, headers included, that one stream carries, unless a
/// single frame is larger than that.
pub const BATCH_MAX_BYTES: u64 = 32 * 1024 * 1024;

/// Most bytes that the receiver reads from one stream.
pub const MAX_STREAM_BYTES: usize = 64 * 1024 * 1024;

/// Decompressed bytes after which the receiver hands a batch to the disk
/// writer.
pub const FLUSH_BATCH_BYTES: usize = 64 * 1024 * 1024;

/// Largest file size accepted from a peer: 1 TiB.
pub const MAX_TRANSFER_FILE_SIZE: u64 = 1024 * 1024 * 1024 * 1024;

/// Bytes of a frame header.
pub const CHUNK_HEADER_BYTES: usize = 13;

/// Flag of a frame whose payload is compressed.
pub const FLAG_COMPRESSED: u8 = 1;

/// What an oversized file is reported as.
pub open spec fn oversize_text(size: u64) -> Seq<char> {
    "peer-supplied file size "@ + decimal(size as nat) + " exceeds maximum "@ + decimal(
        MAX_TRANSFER_FILE_SIZE as nat,
    )
}

/// Rejects a file size announced by the peer that no plausible file has.
pub fn validate_file_size(size: u64) -> (r: Result<()>)
    ensures
        r is Ok <==> size <= MAX_TRANSFER_FILE_SIZE,
        r matches Err(e) ==> e matches Error::Protocol(m) && m@ == oversize_text(size),
{
    if size > MAX_TRANSFER_FILE_SIZE {
        let mut m = "peer-supplied file size ".to_owned();
        push_decimal(&mut m, size);
        m.append(" exceeds maximum ");
        push_decimal(&mut m, MAX_TRANSFER_FILE_SIZE);
        return Err(Error::Protocol(m));
    }
    Ok(())
}

/// The least number of chunks of `chunk_size` bytes that cover `file_size`.
pub open spec fn chunks_covering(file_size: nat, chunk_size: nat) -> nat {
    ((file_size + chunk_size - 1) / (chunk_size as int)) as nat
}

proof fn lemma_whole_and_rest(file_size: nat, chunk_size: nat)
    requires
        chunk_size > 0,
    ensures
        chunks_covering(file_size, chunk_size) == file_size / chunk_size + (if file_size % chunk_size
            == 0 {
            0nat
        } else {
            1nat
        }),
        file_size % chunk_size != 0 ==> file_size / chunk_size < file_size,
{
    let q = file_size / chunk_size;
    let rest = file_size % chunk_size;
    lemma_fundamental_div_mod(file_size as int, chunk_size as int);
    assert(chunk_size * q == q * chunk_size) by (nonlinear_arith);
    if rest == 0 {
        lemma_fundamental_div_mod_converse(
            file_size + chunk_size - 1,
            chunk_size as int,
            q as int,
            chunk_size - 1,
        );
    } else {
        assert((q + 1) * chunk_size == q * chunk_size + chunk_size) by (nonlinear_arith);
        lemma_fundamental_div_mod_converse(
            file_size + chunk_size - 1,
            chunk_size as int,
            (q + 1) as int,
            rest - 1,
        );
        assert(q <= q * chunk_size) by (nonlinear_arith)
            requires
                chunk_size > 0,
        ;
    }
}

/// Number of chunks a file is cut into; the last one may be short.
pub fn chunk_count(file_size: u64, chunk_size: u32) -> (r: u64)
    requires
        chunk_size > 0,
    ensures
        r == chunks_covering(file_size as nat, chunk_size as nat),
        r * chunk_size >= file_size,
        r > 0 ==> (r - 1) * chunk_size < file_size,
{
    let cs: u64 = chunk_size as u64;
    proof {
        law_chunks_cover_exactly(file_size as nat, chunk_size as nat);
        let q = chunks_covering(file_size as nat, chunk_size as nat);
        if q > 0 {
            let k = (q - 1) as nat;
            assert(k * (chunk_size as nat) < file_size);
        }
        lemma_whole_and_rest(file_size as nat, chunk_size as nat);
    }
    let whole: u64 = file_size / cs;
    if file_size % cs == 0 {
        whole
    } else {
        whole + 1
    }
}

/// The chunk count is the least one that covers the file.
pub proof fn law_chunks_cover_exactly(file_size: nat, chunk_size: nat)
    requires
        chunk_size > 0,
    ensures
        chunks_covering(file_size, chunk_size) * chunk_size >= file_size,
        forall|n: nat|
            #![trigger n * chunk_size]
            n * chunk_size >= file_size <==> n >= chunks_covering(file_size, chunk_size),
{
    let n = file_size + chunk_size - 1;
    let cs = chunk_size as int;
    lemma_fundamental_div_mod(n as int, cs);
    let q = chunks_covering(file_size, chunk_size);
    assert(q * cs >= file_size) by (nonlinear_arith)
        requires
            n == cs * q + n % cs,
            0 <= n % cs < cs,
            n == file_size + cs - 1,
    ;
    assert forall|k: nat| #![trigger k * chunk_size] k * chunk_size >= file_size <==> k >= q by {
        if k >= q {
            assert(k * cs >= q * cs) by (nonlinear_arith)
                requires
                    k >= q,
                    cs > 0,
            ;
        } else {
            assert(k * cs <= (q - 1) * cs) by (nonlinear_arith)
                requires
                    k <= q - 1,
                    cs > 0,
            ;
            assert((q - 1) * cs < file_size) by (nonlinear_arith)
                requires
                    n == cs * q + n % cs,
                    0 <= n % cs < cs,
                    n == file_size + cs - 1,
            ;
        }
    }
}

// ---------------------------------------------------------------- frames

/// One frame as a value.
pub ghost struct Frame {
    pub index: u64,
    pub flags: u8,
    pub payload: Seq<u8>,
}

/// A frame on the wire.
pub open spec fn frame_bytes(f: Frame) -> Seq<u8> {
    le_bytes(f.index as nat, 8) + seq![f.flags] + le_bytes(f.payload.len(), 4) + f.payload
}

/// A run of frames on the wire: one after the other.
pub open spec fn frames_bytes(fs: Seq<Frame>) -> Seq<u8>
    decreases fs.len(),
{
    if fs.len() == 0 {
        Seq::empty()
    } else {
        frame_bytes(fs[0]) + frames_bytes(fs.skip(1))
    }
}

/// Appending a frame to a stream appends its bytes.
pub proof fn law_frames_append(fs: Seq<Frame>, f: Frame)
    ensures
        frames_bytes(fs.push(f)) == frames_bytes(fs) + frame_bytes(f),
    decreases fs.len(),
{
    reveal_with_fuel(frames_bytes, 2);
    if fs.len() == 0 {
        assert(fs.push(f).skip(1) =~= Seq::<Frame>::empty());
        assert(frames_bytes(fs.push(f)) =~= frames_bytes(fs) + frame_bytes(f));
    } else {
        law_frames_append(fs.skip(1), f);
        assert(fs.push(f).skip(1) =~= fs.skip(1).push(f));
        assert(frames_bytes(fs.push(f)) =~= frames_bytes(fs) + frame_bytes(f));
    }
}

/// Why a stream is refused.
#[derive(Debug, Clone, Copy, PartialEq, Eq, Structural)]
pub enum FrameFault {
    /// More chunks are expected than the file has.
    StreamCount { streams: u64, total: u64 },
    /// The stream ends inside a frame header.
    TruncatedHeader { offset: usize, len: usize },
    /// The chunk index is past the end of the file.
    IndexOutOfRange { index: u64, total: u64 },
    /// The payload is longer than what is left of the stream.
    PayloadOverrun { payload_len: usize, remainder: usize },
    /// A compressed chunk came although compression is off.
    CompressionDisabled,
    /// The payload does not decompress.
    Corrupt,
}

impl FrameFault {
    /// What the fault is reported as; a payload that does not decompress is
    /// reported in the decoder's own words.
    pub open spec fn text(self) -> Seq<char> {
        match self {
            FrameFault::StreamCount { streams, total } => "streams_to_receive "@ + decimal(
                streams as nat,
            ) + " > total_chunks "@ + decimal(total as nat),
            FrameFault::TruncatedHeader { offset, len } => "truncated frame header at byte "@
                + decimal(offset as nat) + " of "@ + decimal(len as nat),
            FrameFault::IndexOutOfRange { index, total } => "chunk_index "@ + decimal(index as nat)
                + " >= total_chunks "@ + decimal(total as nat),
            FrameFault::PayloadOverrun { payload_len, remainder } => "frame payload_len "@
                + decimal(payload_len as nat) + " exceeds stream remainder "@ + decimal(
                remainder as nat,
            ),
            FrameFault::CompressionDisabled =>
                "compressed chunk but compression disabled in config"@,
            FrameFault::Corrupt => Seq::empty(),
        }
    }

    /// Whether `e` is the error that reports this fault.
    pub open spec fn reported_by(self, e: Error) -> bool {
        if self is Corrupt {
            e is Decompression
        } else {
            e matches Error::Protocol(m) && m@ == self.text()
        }
    }

    /// The error that reports a fault of the framing.
    pub fn to_error(self) -> (e: Error)
        requires
            !(self is Corrupt),
        ensures
            self.reported_by(e),
    {
        let mut m = String::new();
        assert(m@ =~= Seq::<char>::empty());
        match self {
            FrameFault::StreamCount { streams, total } => {
                m.append("streams_to_receive ");
                push_decimal(&mut m, streams);
                m.append(" > total_chunks ");
                push_decimal(&mut m, total);
            },
            FrameFault::TruncatedHeader { offset, len } => {
                m.append("truncated frame header at byte ");
                push_decimal(&mut m, offset as u64);
                m.append(" of ");
                push_decimal(&mut m, len as u64);
            },
            FrameFault::IndexOutOfRange { index, total } => {
                m.append("chunk_index ");
                push_decimal(&mut m, index);
                m.append(" >= total_chunks ");
                push_decimal(&mut m, total);
            },
            FrameFault::PayloadOverrun { payload_len, remainder } => {
                m.append("frame payload_len ");
                push_decimal(&mut m, payload_len as u64);
                m.append(" exceeds stream remainder ");
                push_decimal(&mut m, remainder as u64);
            },
            FrameFault::CompressionDisabled => {
                m.append("compressed chunk but compression disabled in config");
            },
            FrameFault::Corrupt => {},
        }
        assert(m@ =~= self.text());
        Error::Protocol(m)
    }
}

/// The frame at `off` and the offset behind it.
pub open spec fn frame_at(raw: Seq<u8>, off: int, total: u64) -> core::result::Result<
    (Frame, int),
    FrameFault,
> {
    if raw.len() - off < CHUNK_HEADER_BYTES {
        Err(FrameFault::TruncatedHeader { offset: off as usize, len: raw.len() as usize })
    } else {
        let index = le_value(raw.subrange(off, off + 8)) as u64;
        let payload_len = le_value(raw.subrange(off + 9, off + 13)) as int;
        let start = off + CHUNK_HEADER_BYTES;
        if index >= total {
            Err(FrameFault::IndexOutOfRange { index, total })
        } else if payload_len > raw.len() - start {
            Err(
                FrameFault::PayloadOverrun {
                    payload_len: payload_len as usize,
                    remainder: (raw.len() - start) as usize,
                },
            )
        } else {
            Ok(
                (
                    Frame {
                        index,
                        flags: raw[off + 8],
                        payload: raw.subrange(start, start + payload_len),
                    },
                    start + payload_len,
                ),
            )
        }
    }
}

/// What a frame carries once its payload is decompressed.
pub open spec fn chunk_of(f: Frame, compression: bool) -> core::result::Result<
    Seq<u8>,
    FrameFault,
> {
    if f.flags % 2 == 0 {
        Ok(f.payload)
    } else if !compression {
        Err(FrameFault::CompressionDisabled)
    } else {
        match zstd_decoded(f.payload) {
            Some(data) => Ok(data),
            None => Err(FrameFault::Corrupt),
        }
    }
}

/// What a receiver takes from one stream.
pub ghost struct StreamOutcome {
    /// The indices received so far, earlier streams included.
    pub seen: Set<u64>,
    /// The chunks taken from this stream, in order.
    pub chunks: Seq<(u64, Seq<u8>)>,
    /// The fault that ended it early.
    pub fault: Option<FrameFault>,
}

/// What a receiver that has `seen` takes from `raw` from `off` on: the frames
/// in order, those whose index was seen before left out, up to the first
/// fault.
pub open spec fn take_stream(
    raw: Seq<u8>,
    off: int,
    total: u64,
    compression: bool,
    seen: Set<u64>,
) -> StreamOutcome
    decreases raw.len() - off,
{
    if off >= raw.len() {
        StreamOutcome { seen, chunks: Seq::empty(), fault: None }
    } else {
        match frame_at(raw, off, total) {
            Err(fault) => StreamOutcome { seen, chunks: Seq::empty(), fault: Some(fault) },
            Ok((f, next)) => if next <= off {
                StreamOutcome { seen, chunks: Seq::empty(), fault: None }
            } else if seen.contains(f.index) {
                take_stream(raw, next, total, compression, seen)
            } else {
                match chunk_of(f, compression) {
                    Err(fault) => StreamOutcome {
                        seen: seen.insert(f.index),
                        chunks: Seq::empty(),
                        fault: Some(fault),
                    },
                    Ok(data) => {
                        let rest = take_stream(raw, next, total, compression, seen.insert(f.index));
                        StreamOutcome { chunks: seq![(f.index, data)] + rest.chunks, ..rest }
                    },
                }
            },
        }
    }
}

/// What a receiver takes from streams, one after the other, until it has as
/// many chunks as it expects or a stream has a fault.
pub open spec fn take_streams(
    streams: Seq<Seq<u8>>,
    total: u64,
    compression: bool,
    seen: Set<u64>,
    expected: u64,
) -> StreamOutcome
    decreases streams.len(),
{
    if seen.len() >= expected || streams.len() == 0 {
        StreamOutcome { seen, chunks: Seq::empty(), fault: None }
    } else {
        let first = take_stream(streams[0], 0, total, compression, seen);
        if first.fault is Some {
            first
        } else {
            let rest = take_streams(streams.skip(1), total, compression, first.seen, expected);
            StreamOutcome { chunks: first.chunks + rest.chunks, ..rest }
        }
    }
}

/// What a receiver that has `seen` takes from a run of well-formed frames.
pub open spec fn take_frames(fs: Seq<Frame>, compression: bool, seen: Set<u64>) -> StreamOutcome
    decreases fs.len(),
{
    if fs.len() == 0 {
        StreamOutcome { seen, chunks: Seq::empty(), fault: None }
    } else if seen.contains(fs[0].index) {
        take_frames(fs.skip(1), compression, seen)
    } else {
        match chunk_of(fs[0], compression) {
            Err(fault) => StreamOutcome {
                seen: seen.insert(fs[0].index),
                chunks: Seq::empty(),
                fault: Some(fault),
            },
            Ok(data) => {
                let rest = take_frames(fs.skip(1), compression, seen.insert(fs[0].index));
                StreamOutcome { chunks: seq![(fs[0].index, data)] + rest.chunks, ..rest }
            },
        }
    }
}

/// A frame that can be sent for a file of `total` chunks.
pub open spec fn sendable(f: Frame, total: u64) -> bool {
    f.index < total && f.payload.len() < pow256(4)
}

proof fn lemma_frame_at(pre: Seq<u8>, f: Frame, post: Seq<u8>, total: u64)
    requires
        sendable(f, total),
    ensures
        frame_at(pre + frame_bytes(f) + post, pre.len() as int, total) == Ok::<
            (Frame, int),
            FrameFault,
        >((f, (pre.len() + frame_bytes(f).len()) as int)),
        frame_bytes(f).len() == CHUNK_HEADER_BYTES + f.payload.len(),
{
    let raw = pre + frame_bytes(f) + post;
    let off = pre.len() as int;
    lemma_le_bytes_len(f.index as nat, 8);
    lemma_le_bytes_len(f.payload.len(), 4);
    lemma_pow256_values();
    law_le_roundtrip(f.index as nat, 8);
    law_le_roundtrip(f.payload.len(), 4);
    assert(raw.subrange(off, off + 8) =~= le_bytes(f.index as nat, 8));
    assert(raw.subrange(off + 9, off + 13) =~= le_bytes(f.payload.len(), 4));
    assert(raw[off + 8] == f.flags);
    assert(raw.subrange(off + 13, off + 13 + f.payload.len()) =~= f.payload);
}

proof fn lemma_take_frames(
    pre: Seq<u8>,
    fs: Seq<Frame>,
    total: u64,
    compression: bool,
    seen: Set<u64>,
)
    requires
        forall|i: int| 0 <= i < fs.len() ==> sendable(#[trigger] fs[i], total),
    ensures
        take_stream(pre + frames_bytes(fs), pre.len() as int, total, compression, seen)
            == take_frames(fs, compression, seen),
    decreases fs.len(),
{
    let raw = pre + frames_bytes(fs);
    if fs.len() > 0 {
        let f = fs[0];
        let rest = fs.skip(1);
        let pre2 = pre + frame_bytes(f);
        lemma_frame_at(pre, f, frames_bytes(rest), total);
        assert(raw =~= pre + frame_bytes(f) + frames_bytes(rest));
        assert(raw =~= pre2 + frames_bytes(rest));
        assert forall|i: int| 0 <= i < rest.len() implies sendable(#[trigger] rest[i], total) by {
            assert(rest[i] == fs[i + 1]);
        }
        if seen.contains(f.index) {
            lemma_take_frames(pre2, rest, total, compression, seen);
        } else {
            lemma_take_frames(pre2, rest, total, compression, seen.insert(f.index));
        }
    }
}

/// What the receiver takes from a stream is what the sender put on it: the
/// frames in order, each chunk decompressed, repeated indices left out.
pub proof fn law_stream_roundtrip(fs: Seq<Frame>, total: u64, compression: bool, seen: Set<u64>)
    requires
        forall|i: int| 0 <= i < fs.len() ==> sendable(#[trigger] fs[i], total),
    ensures
        take_stream(frames_bytes(fs), 0, total, compression, seen) == take_frames(
            fs,
            compression,
            seen,
        ),
{
    lemma_take_frames(Seq::empty(), fs, total, compression, seen);
    assert(Seq::<u8>::empty() + frames_bytes(fs) =~= frames_bytes(fs));
}

/// Frames with distinct new indices that carry `data` deliver exactly `data`,
/// in order and without a fault, and mark exactly those indices as seen.
pub proof fn law_distinct_frames_deliver_all(
    fs: Seq<Frame>,
    data: Seq<Seq<u8>>,
    compression: bool,
    seen: Set<u64>,
)
    requires
        fs.len() == data.len(),
        forall|i: int|
            0 <= i < fs.len() ==> chunk_of(#[trigger] fs[i], compression) == Ok::<
                Seq<u8>,
                FrameFault,
            >(data[i]),
        forall|i: int| 0 <= i < fs.len() ==> !seen.contains(#[trigger] fs[i].index),
        forall|i: int, j: int| 0 <= i < j < fs.len() ==> fs[i].index != fs[j].index,
    ensures
        ({
            let out = take_frames(fs, compression, seen);
            &&& out.fault is None
            &&& out.chunks.len() == fs.len()
            &&& forall|i: int| 0 <= i < fs.len() ==> #[trigger] out.chunks[i] == (fs[i].index, data[i])
            &&& forall|k: u64|
                #[trigger] out.seen.contains(k) <==> seen.contains(k) || exists|i: int|
                    0 <= i < fs.len() && #[trigger] fs[i].index == k
        }),
    decreases fs.len(),
{
    if fs.len() > 0 {
        let rest = fs.skip(1);
        let seen2 = seen.insert(fs[0].index);
        assert forall|i: int| 0 <= i < rest.len() implies chunk_of(#[trigger] rest[i], compression)
            == Ok::<Seq<u8>, FrameFault>(data.skip(1)[i]) by {
            assert(rest[i] == fs[i + 1]);
        }
        assert forall|i: int| 0 <= i < rest.len() implies !seen2.contains(
            #[trigger] rest[i].index,
        ) by {
            assert(rest[i] == fs[i + 1]);
        }
        law_distinct_frames_deliver_all(rest, data.skip(1), compression, seen2);
        let out = take_frames(fs, compression, seen);
        let out2 = take_frames(rest, compression, seen2);
        assert forall|i: int| 0 <= i < fs.len() implies #[trigger] out.chunks[i] == (
            fs[i].index,
            data[i],
        ) by {
            if i > 0 {
                assert(out.chunks[i] == out2.chunks[i - 1]);
            }
        }
        assert forall|k: u64| #[trigger] out.seen.contains(k) <==> seen.contains(k) || exists|i: int|
            0 <= i < fs.len() && #[trigger] fs[i].index == k by {
            if exists|i: int| 0 <= i < rest.len() && #[trigger] rest[i].index == k {
                let i = choose|i: int| 0 <= i < rest.len() && #[trigger] rest[i].index == k;
                assert(fs[i + 1].index == k);
            }
            if exists|i: int| 0 <= i < fs.len() && #[trigger] fs[i].index == k {
                let i = choose|i: int| 0 <= i < fs.len() && #[trigger] fs[i].index == k;
                if i > 0 {
                    assert(rest[i - 1].index == k);
                }
            }
        }
    }
}

/// Once as many distinct chunks came as the file has, none is missing: a
/// repeated index never stands in for a chunk that did not come.
pub proof fn law_complete_means_every_chunk(seen: Set<u64>, total: u64)
    requires
        forall|k: u64| #[trigger] seen.contains(k) ==> k < total,
        seen.len() >= total,
    ensures
        forall|k: u64| k < total <==> #[trigger] seen.contains(k),
{
    let all = Set::<u64>::range(0, total);
    broadcast use vstd::set_lib::range_set_properties;
    assert(seen.subset_of(all));
    vstd::set_lib::lemma_len_subset(seen, all);
    vstd::set_lib::lemma_subset_equality(seen, all);
}

/// A step of the receiver through a stream.
#[derive(Debug)]
pub enum FrameStep {
    /// The chunk came before; the frame is skipped.
    Duplicate { index: u64, next: usize },
    /// A new chunk, decompressed.
    Chunk { index: u64, data: Vec<u8>, next: usize },
}

/// The receiving side of one file.
pub struct FileReceiver {
    total_chunks: u64,
    streams_to_receive: u64,
    compression: bool,
    seen: HashSet<u64>,
}

impl FileReceiver {
    /// Number of chunks of the file.
    pub closed spec fn total(&self) -> u64 {
        self.total_chunks
    }

    /// Number of distinct chunks the sender is going to deliver.
    pub closed spec fn expected(&self) -> u64 {
        self.streams_to_receive
    }

    /// Whether compressed chunks are accepted.
    pub closed spec fn compression(&self) -> bool {
        self.compression
    }

    /// The indices received so far.
    pub closed spec fn seen(&self) -> Set<u64> {
        self.seen@
    }

    /// Only chunks of the file are ever counted, and no more are waited for
    /// than the file has.
    pub closed spec fn wf(&self) -> bool {
        &&& self.streams_to_receive <= self.total_chunks
        &&& forall|k: u64| #[trigger] self.seen@.contains(k) ==> k < self.total_chunks
    }

    /// A receiver that waits for `streams_to_receive` distinct chunks of a
    /// file of `total_chunks`.
    pub fn new(total_chunks: u64, streams_to_receive: u64, config: &ConfigMessage) -> (r: Result<
        Self,
    >)
        ensures
            r is Ok <==> streams_to_receive <= total_chunks,
            r matches Ok(v) ==> v.wf() && v.total() == total_chunks && v.expected() == streams_to_receive
                && v.compression() == config.compression_enabled && v.seen() == Set::<u64>::empty(),
            r matches Err(e) ==> (FrameFault::StreamCount {
                streams: streams_to_receive,
                total: total_chunks,
            }).reported_by(e),
    {
        if streams_to_receive > total_chunks {
            return Err(
                FrameFault::StreamCount {
                    streams: streams_to_receive,
                    total: total_chunks,
                }.to_error(),
            );
        }
        Ok(
            FileReceiver {
                total_chunks,
                streams_to_receive,
                compression: config.compression_enabled,
                seen: HashSet::new(),
            },
        )
    }

    /// Only chunks of the file are counted.
    pub proof fn seen_in_file(&self)
        requires
            self.wf(),
        ensures
            self.expected() <= self.total(),
            forall|k: u64| #[trigger] self.seen().contains(k) ==> k < self.total(),
    {
    }

    /// Whether every expected chunk came.
    pub fn is_complete(&self) -> (r: bool)
        ensures
            r == (self.seen().len() >= self.expected()),
    {
        self.seen.len() as u64 >= self.streams_to_receive
    }

    /// Takes the frame at `off` from a stream.
    pub fn take_frame(&mut self, raw: &[u8], off: usize) -> (r: Result<FrameStep>)
        requires
            old(self).wf(),
            off < raw@.len(),
        ensures
            final(self).wf(),
            final(self).total() == old(self).total(),
            final(self).expected() == old(self).expected(),
            final(self).compression() == old(self).compression(),
            match frame_at(raw@, off as int, old(self).total()) {
                Err(fault) => final(self).seen() == old(self).seen() && (r matches Err(e)
                    && fault.reported_by(e)),
                Ok((f, next)) => if old(self).seen().contains(f.index) {
                    final(self).seen() == old(self).seen() && r == Ok::<FrameStep, Error>(
                        FrameStep::Duplicate { index: f.index, next: next as usize },
                    )
                } else {
                    &&& final(self).seen() == old(self).seen().insert(f.index)
                    &&& match chunk_of(f, old(self).compression()) {
                        Err(fault) => r matches Err(e) && fault.reported_by(e),
                        Ok(data) => r matches Ok(FrameStep::Chunk { index, data: d, next: n })
                            && index == f.index && d@ == data && n == next,
                    }
                },
            },
    {
        let len: usize = raw.len();
        if len - off < CHUNK_HEADER_BYTES {
            return Err(FrameFault::TruncatedHeader { offset: off, len }.to_error());
        }
        proof {
            lemma_pow256_values();
        }
        let index: u64 = read_le(raw, off, 8);
        let flags: u8 = raw[off + 8];
        let payload_len: usize = read_le(raw, off + 9, 4) as usize;
        if index >= self.total_chunks {
            return Err(
                FrameFault::IndexOutOfRange { index, total: self.total_chunks }.to_error(),
            );
        }
        let start: usize = off + CHUNK_HEADER_BYTES;
        if payload_len > len - start {
            return Err(
                FrameFault::PayloadOverrun { payload_len, remainder: len - start }.to_error(),
            );
        }
        let next: usize = start + payload_len;
        let payload: &[u8] = vstd::slice::slice_subrange(raw, start, next);
        if self.seen.contains(&index) {
            return Ok(FrameStep::Duplicate { index, next });
        }
        self.seen.insert(index);
        assert(flags & FLAG_COMPRESSED == flags % 2) by (bit_vector)
            requires
                FLAG_COMPRESSED == 1u8,
        ;
        if flags & FLAG_COMPRESSED != 0 {
            if !self.compression {
                return Err(FrameFault::CompressionDisabled.to_error());
            }
            match Decompressor::new().decompress(payload) {
                Ok(data) => Ok(FrameStep::Chunk { index, data, next }),
                Err(e) => Err(e),
            }
        } else {
            Ok(FrameStep::Chunk { index, data: bytes_copy(payload), next })
        }
    }

    /// Takes every frame of a stream. Returns the new chunks in order, and
    /// the error that ended the stream early if there was one.
    pub fn take_stream(&mut self, raw: &[u8]) -> (r: (Vec<(u64, Vec<u8>)>, Option<Error>))
        requires
            old(self).wf(),
        ensures
            final(self).wf(),
            final(self).total() == old(self).total(),
            final(self).expected() == old(self).expected(),
            final(self).compression() == old(self).compression(),
            ({
                let out = take_stream(
                    raw@,
                    0,
                    old(self).total(),
                    old(self).compression(),
                    old(self).seen(),
                );
                &&& final(self).seen() == out.seen
                &&& chunk_values(r.0@) == out.chunks
                &&& match out.fault {
                    None => r.1 is None,
                    Some(fault) => r.1 matches Some(e) && fault.reported_by(e),
                }
            }),
    {
        let mut chunks: Vec<(u64, Vec<u8>)> = Vec::new();
        let mut off: usize = 0;
        let ghost out = take_stream(
            raw@,
            0,
            old(self).total(),
            old(self).compression(),
            old(self).seen(),
        );
        assert(chunk_values(chunks@) =~= Seq::empty());
        assert(Seq::<(u64, Seq<u8>)>::empty() + out.chunks =~= out.chunks);
        while off < raw.len()
            invariant
                self.wf(),
                self.total() == old(self).total(),
                self.expected() == old(self).expected(),
                self.compression() == old(self).compression(),
                off <= raw@.len(),
                out == take_stream(
                    raw@,
                    0,
                    old(self).total(),
                    old(self).compression(),
                    old(self).seen(),
                ),
                ({
                    let rest = take_stream(
                        raw@,
                        off as int,
                        self.total(),
                        self.compression(),
                        self.seen(),
                    );
                    &&& out.seen == rest.seen
                    &&& out.chunks == chunk_values(chunks@) + rest.chunks
                    &&& out.fault == rest.fault
                }),
            decreases raw@.len() - off,
        {
            let ghost rest = take_stream(
                raw@,
                off as int,
                self.total(),
                self.compression(),
                self.seen(),
            );
            match self.take_frame(raw, off) {
                Err(e) => {
                    assert(out.chunks =~= chunk_values(chunks@));
                    return (chunks, Some(e));
                },
                Ok(FrameStep::Duplicate { next, .. }) => {
                    off = next;
                },
                Ok(FrameStep::Chunk { index, data, next }) => {
                    let ghost before = chunks@;
                    chunks.push((index, data));
                    proof {
                        let rest2 = take_stream(
                            raw@,
                            next as int,
                            self.total(),
                            self.compression(),
                            self.seen(),
                        );
                        assert(rest.chunks == seq![(index, data@)] + rest2.chunks);
                        assert(chunk_values(chunks@) =~= chunk_values(before).push((index, data@)));
                        assert(out.chunks =~= chunk_values(chunks@) + rest2.chunks);
                    }
                    off = next;
                },
            }
        }
        assert(out.chunks =~= chunk_values(chunks@));
        (chunks, None)
    }

    /// Takes streams until every expected chunk came. Returns the new chunks
    /// in order, and the error that ended it early if there was one.
    pub fn take_streams(&mut self, streams: &Vec<Vec<u8>>) -> (r: (
        Vec<(u64, Vec<u8>)>,
        Option<Error>,
    ))
        requires
            old(self).wf(),
        ensures
            final(self).wf(),
            final(self).total() == old(self).total(),
            final(self).expected() == old(self).expected(),
            final(self).compression() == old(self).compression(),
            ({
                let out = take_streams(
                    stream_values(streams@),
                    old(self).total(),
                    old(self).compression(),
                    old(self).seen(),
                    old(self).expected(),
                );
                &&& final(self).seen() == out.seen
                &&& chunk_values(r.0@) == out.chunks
                &&& match out.fault {
                    None => r.1 is None,
                    Some(fault) => r.1 matches Some(e) && fault.reported_by(e),
                }
            }),
    {
        let mut chunks: Vec<(u64, Vec<u8>)> = Vec::new();
        let mut i: usize = 0;
        let ghost values = stream_values(streams@);
        let ghost out = take_streams(
            values,
            old(self).total(),
            old(self).compression(),
            old(self).seen(),
            old(self).expected(),
        );
        assert(chunk_values(chunks@) + out.chunks =~= out.chunks);
        assert(values.skip(0) =~= values);
        while !self.is_complete() && i < streams.len()
            invariant
                self.wf(),
                self.total() == old(self).total(),
                self.expected() == old(self).expected(),
                self.compression() == old(self).compression(),
                i <= streams@.len(),
                values == stream_values(streams@),
                out == take_streams(
                    values,
                    old(self).total(),
                    old(self).compression(),
                    old(self).seen(),
                    old(self).expected(),
                ),
                ({
                    let rest = take_streams(
                        values.skip(i as int),
                        self.total(),
                        self.compression(),
                        self.seen(),
                        self.expected(),
                    );
                    &&& out.seen == rest.seen
                    &&& out.chunks == chunk_values(chunks@) + rest.chunks
                    &&& out.fault == rest.fault
                }),
            decreases streams@.len() - i,
        {
            let ghost before = chunks@;
            let ghost left = values.skip(i as int);
            let (mut more, error) = self.take_stream(streams[i].as_slice());
            assert(left[0] == streams@[i as int]@);
            assert(left.skip(1) =~= values.skip(i + 1));
            let ghost new = more@;
            chunks.append(&mut more);
            assert(chunk_values(chunks@) =~= chunk_values(before) + chunk_values(new));
            if let Some(e) = error {
                assert(out.chunks =~= chunk_values(chunks@));
                return (chunks, Some(e));
            }
            proof {
                let rest2 = take_streams(
                    left.skip(1),
                    self.total(),
                    self.compression(),
                    self.seen(),
                    self.expected(),
                );
                assert(out.chunks =~= chunk_values(chunks@) + rest2.chunks);
            }
            i += 1;
        }
        assert(out.chunks =~= chunk_values(chunks@));
        (chunks, None)
    }
}

/// Streams as values.
pub open spec fn stream_values(streams: Seq<Vec<u8>>) -> Seq<Seq<u8>> {
    streams.map_values(|s: Vec<u8>| s@)
}

/// Chunks as values.
pub open spec fn chunk_values(chunks: Seq<(u64, Vec<u8>)>) -> Seq<(u64, Seq<u8>)> {
    chunks.map_values(|c: (u64, Vec<u8>)| (c.0, c.1@))
}

pub(crate) proof fn lemma_take_to_set(list: Seq<u64>, i: int)
    requires
        0 <= i < list.len(),
    ensures
        list.take(i + 1).to_set() == list.take(i).to_set().insert(list[i]),
{
    let a = list.take(i);
    let b = list.take(i + 1);
    let k = list[i];
    assert(b =~= a.push(k));
    assert forall|x: u64| #[trigger] b.to_set().contains(x) <==> a.to_set().insert(k).contains(x) by {
        if a.contains(x) {
            let j = choose|j: int| 0 <= j < a.len() && a[j] == x;
            assert(b[j] == x);
        }
        if x == k {
            assert(b[i] == x);
        }
        if b.contains(x) && x != k {
            let j = choose|j: int| 0 <= j < b.len() && b[j] == x;
            assert(a[j] == x);
        }
    }
    assert(b.to_set() =~= a.to_set().insert(k));
}

/// The distinct numbers in a list.
pub(crate) fn set_of(list: &[u64]) -> (r: HashSet<u64>)
    ensures
        r@ == list@.to_set(),
{
    let mut set: HashSet<u64> = HashSet::new();
    let mut i: usize = 0;
    assert(list@.take(0).to_set() =~= Set::<u64>::empty());
    while i < list.len()
        invariant
            i <= list@.len(),
            set@ == list@.take(i as int).to_set(),
        decreases list@.len() - i,
    {
        set.insert(list[i]);
        proof {
            lemma_take_to_set(list@, i as int);
        }
        i += 1;
    }
    assert(list@.take(i as int) =~= list@);
    set
}

// ---------------------------------------------------------------- sender

/// What the sender puts into a frame for a chunk: the payload and whether it
/// is compressed; `None` where the compressor fails.
pub open spec fn encoded_chunk(adaptive: Option<AdaptiveView>, data: Seq<u8>) -> Option<
    (Seq<u8>, bool),
> {
    match adaptive {
        None => Some((data, false)),
        Some(a) => if a.decided && !a.enabled {
            Some((data, false))
        } else {
            match zstd_encoded(data, a.level) {
                Some(out) => Some((out, true)),
                None => None,
            }
        },
    }
}

/// The compressor's state before the first chunk; `None` where compression is
/// off.
pub open spec fn fresh_adaptive(config: ConfigMessage) -> Option<AdaptiveView> {
    if config.compression_enabled {
        let sample_size: nat = if config.adaptive_compression {
            3
        } else {
            0
        };
        Some(
            AdaptiveView {
                level: config.compression_level,
                sample_size,
                chunks_sampled: 0,
                original: 0,
                compressed: 0,
                enabled: true,
                decided: sample_size == 0,
            },
        )
    } else {
        None
    }
}

/// The compressor's state after a chunk.
pub open spec fn adaptive_after(adaptive: Option<AdaptiveView>, data: Seq<u8>) -> Option<
    AdaptiveView,
> {
    match adaptive {
        None => None,
        Some(a) => if a.decided && !a.enabled {
            Some(a)
        } else {
            match zstd_encoded(data, a.level) {
                Some(out) => Some(a.after(data.len(), out.len())),
                None => Some(a),
            }
        },
    }
}

/// The frame of a chunk.
pub open spec fn frame_of(index: u64, payload: Seq<u8>, compressed: bool) -> Frame {
    Frame {
        index,
        flags: if compressed {
            FLAG_COMPRESSED
        } else {
            0
        },
        payload,
    }
}

/// The sum of two counts, capped at the largest `u64`.
pub open spec fn capped_sum(a: u64, b: nat) -> nat {
    if a + b > u64::MAX {
        u64::MAX as nat
    } else {
        a as nat + b
    }
}

/// What the sender does next.
#[derive(Debug, Clone, Copy, PartialEq, Eq, Structural)]
pub enum SendStep {
    /// The peer has this chunk: read it for the checksum only.
    Fold(u64),
    /// Read this chunk and send it.
    Send(u64),
    /// Every chunk was visited.
    Done,
}

/// The sending side of one file.
pub struct FileSender {
    compressor: Option<AdaptiveCompressor>,
    completed: HashSet<u64>,
    total_chunks: u64,
    next_index: u64,
    batch: Vec<u8>,
    compressed_bytes_sent: u64,
    uncompressed_bytes_sent: u64,
}

impl FileSender {
    /// Number of chunks of the file.
    pub closed spec fn total(&self) -> u64 {
        self.total_chunks
    }

    /// The next chunk to visit.
    pub closed spec fn next(&self) -> u64 {
        self.next_index
    }

    /// The chunks the peer already has.
    pub closed spec fn completed(&self) -> Set<u64> {
        self.completed@
    }

    /// The frames not handed out yet.
    pub closed spec fn batch(&self) -> Seq<u8> {
        self.batch@
    }

    /// Payload bytes sent.
    pub closed spec fn payload_bytes(&self) -> u64 {
        self.compressed_bytes_sent
    }

    /// Chunk bytes sent, before compression.
    pub closed spec fn chunk_bytes(&self) -> u64 {
        self.uncompressed_bytes_sent
    }

    /// Payload bytes sent.
    pub fn compressed_bytes_sent(&self) -> (r: u64)
        ensures
            r == self.payload_bytes(),
    {
        self.compressed_bytes_sent
    }

    /// Chunk bytes sent, before compression.
    pub fn uncompressed_bytes_sent(&self) -> (r: u64)
        ensures
            r == self.chunk_bytes(),
    {
        self.uncompressed_bytes_sent
    }

    /// The compressor's state; `None` where compression is off.
    pub closed spec fn adaptive(&self) -> Option<AdaptiveView> {
        match self.compressor {
            Some(c) => Some(c@),
            None => None,
        }
    }

    /// A sender for a file of `total_chunks` of which the peer already has
    /// `completed_chunks`.
    pub fn new(config: &ConfigMessage, total_chunks: u64, completed_chunks: &[u64]) -> (r: Self)
        ensures
            r.total() == total_chunks,
            r.next() == 0,
            r.completed() == completed_chunks@.to_set(),
            r.batch() == Seq::<u8>::empty(),
            r.payload_bytes() == 0,
            r.chunk_bytes() == 0,
            r.adaptive() == fresh_adaptive(*config),
    {
        let compressor: Option<AdaptiveCompressor> = if config.compression_enabled {
            let sample_size: usize = if config.adaptive_compression {
                3
            } else {
                0
            };
            Some(AdaptiveCompressor::new(config.compression_level, sample_size))
        } else {
            None
        };
        let completed: HashSet<u64> = set_of(completed_chunks);
        FileSender {
            compressor,
            completed,
            total_chunks,
            next_index: 0,
            batch: Vec::new(),
            compressed_bytes_sent: 0,
            uncompressed_bytes_sent: 0,
        }
    }

    /// Moves on to the next chunk: chunks are visited once each, in order.
    pub fn next_step(&mut self) -> (r: SendStep)
        ensures
            final(self).total() == old(self).total(),
            final(self).completed() == old(self).completed(),
            final(self).batch() == old(self).batch(),
            final(self).adaptive() == old(self).adaptive(),
            final(self).payload_bytes() == old(self).payload_bytes(),
            final(self).chunk_bytes() == old(self).chunk_bytes(),
            old(self).next() >= old(self).total() ==> r is Done && final(self).next() == old(
                self,
            ).next(),
            old(self).next() < old(self).total() ==> {
                &&& final(self).next() == old(self).next() + 1
                &&& r == (if old(self).completed().contains(old(self).next()) {
                    SendStep::Fold(old(self).next())
                } else {
                    SendStep::Send(old(self).next())
                })
            },
    {
        if self.next_index >= self.total_chunks {
            return SendStep::Done;
        }
        let index: u64 = self.next_index;
        self.next_index = index + 1;
        if self.completed.contains(&index) {
            SendStep::Fold(index)
        } else {
            SendStep::Send(index)
        }
    }

    /// Compresses a chunk, where that is on. The receiver gets back from the
    /// result exactly the chunk. Where the compressor fails nothing changes.
    pub fn encode_chunk(&mut self, data: &[u8]) -> (r: Result<(Vec<u8>, bool)>)
        ensures
            final(self).total() == old(self).total(),
            final(self).next() == old(self).next(),
            final(self).completed() == old(self).completed(),
            final(self).batch() == old(self).batch(),
            final(self).payload_bytes() == old(self).payload_bytes(),
            final(self).chunk_bytes() == old(self).chunk_bytes(),
            final(self).adaptive() == adaptive_after(old(self).adaptive(), data@),
            match encoded_chunk(old(self).adaptive(), data@) {
                None => r matches Err(e) && e is Compression,
                Some((payload, compressed)) => {
                    &&& r matches Ok(t) && t.0@ == payload && t.1 == compressed
                    &&& forall|index: u64|
                        chunk_of(
                            #[trigger] frame_of(index, payload, compressed),
                            old(self).adaptive() is Some,
                        ) == Ok::<Seq<u8>, FrameFault>(data@)
                },
            },
    {
        match &mut self.compressor {
            None => Ok((bytes_copy(data), false)),
            Some(c) => match c.compress(data) {
                Ok((bytes, used, _)) => Ok((bytes, used)),
                Err(e) => Err(e),
            },
        }
    }

    /// Adds the frame of a chunk to the stream being filled. Where it no longer
    /// fits, the stream so far is handed out and the frame starts the next.
    pub fn push_frame(&mut self, index: u64, payload: &[u8], compressed: bool, chunk_len: usize) -> (r:
        Option<Vec<u8>>)
        ensures
            final(self).total() == old(self).total(),
            final(self).next() == old(self).next(),
            final(self).completed() == old(self).completed(),
            final(self).adaptive() == old(self).adaptive(),
            final(self).payload_bytes() == capped_sum(old(self).payload_bytes(), payload@.len()),
            final(self).chunk_bytes() == capped_sum(old(self).chunk_bytes(), chunk_len as nat),
            ({
                let frame = frame_bytes(frame_of(index, payload@, compressed));
                &&& final(self).batch().len() <= BATCH_MAX_BYTES || final(self).batch() == frame
                &&& if old(self).batch().len() + frame.len() > BATCH_MAX_BYTES {
                    &&& r matches Some(stream) && stream@ == old(self).batch()
                    &&& final(self).batch() == frame
                } else {
                    &&& r is None
                    &&& final(self).batch() == old(self).batch() + frame
                }
            }),
    {
        let ghost f = frame_of(index, payload@, compressed);
        proof {
            lemma_le_bytes_len(index as nat, 8);
            lemma_le_bytes_len(payload@.len(), 4);
        }
        let len: u64 = payload.len() as u64;
        let mut flushed: Option<Vec<u8>> = None;
        if self.batch.len() as u128 + CHUNK_HEADER_BYTES as u128 + len as u128
            > BATCH_MAX_BYTES as u128 {
            let mut full: Vec<u8> = Vec::new();
            full.append(&mut self.batch);
            assert(full@ =~= old(self).batch());
            flushed = Some(full);
        }
        let ghost before = self.batch@;
        push_le(&mut self.batch, index, 8);
        self.batch.push(
            if compressed {
                FLAG_COMPRESSED
            } else {
                0
            },
        );
        push_le(&mut self.batch, len, 4);
        self.batch.extend_from_slice(payload);
        assert(self.batch@ =~= before + frame_bytes(f));
        self.compressed_bytes_sent = self.compressed_bytes_sent.saturating_add(len);
        self.uncompressed_bytes_sent = self.uncompressed_bytes_sent.saturating_add(
            chunk_len as u64,
        );
        flushed
    }

    /// Compresses a chunk and adds its frame to the stream being filled.
    pub fn push_chunk(&mut self, index: u64, data: &[u8]) -> (r: Result<Option<Vec<u8>>>)
        ensures
            final(self).total() == old(self).total(),
            final(self).next() == old(self).next(),
            final(self).completed() == old(self).completed(),
            final(self).adaptive() == adaptive_after(old(self).adaptive(), data@),
            match encoded_chunk(old(self).adaptive(), data@) {
                None => {
                    &&& r matches Err(e) && e is Compression
                    &&& final(self).batch() == old(self).batch()
                    &&& final(self).payload_bytes() == old(self).payload_bytes()
                    &&& final(self).chunk_bytes() == old(self).chunk_bytes()
                },
                Some((payload, compressed)) => {
                    let f = frame_of(index, payload, compressed);
                    &&& chunk_of(f, old(self).adaptive() is Some) == Ok::<Seq<u8>, FrameFault>(data@)
                    &&& final(self).payload_bytes() == capped_sum(
                        old(self).payload_bytes(),
                        payload.len(),
                    )
                    &&& final(self).chunk_bytes() == capped_sum(
                        old(self).chunk_bytes(),
                        data@.len(),
                    )
                    &&& final(self).batch().len() <= BATCH_MAX_BYTES || final(self).batch()
                        == frame_bytes(f)
                    &&& if old(self).batch().len() + frame_bytes(f).len() > BATCH_MAX_BYTES {
                        &&& r matches Ok(Some(stream)) && stream@ == old(self).batch()
                        &&& final(self).batch() == frame_bytes(f)
                    } else {
                        &&& r == Ok::<Option<Vec<u8>>, Error>(None)
                        &&& final(self).batch() == old(self).batch() + frame_bytes(f)
                    }
                },
            },
    {
        match self.encode_chunk(data) {
            Ok((payload, compressed)) => Ok(
                self.push_frame(index, payload.as_slice(), compressed, data.len()),
            ),
            Err(e) => Err(e),
        }
    }

    /// Hands out the last stream; `None` where nothing is left to send.
    pub fn finish(&mut self) -> (r: Option<Vec<u8>>)
        ensures
            final(self).total() == old(self).total(),
            final(self).next() == old(self).next(),
            final(self).completed() == old(self).completed(),
            final(self).adaptive() == old(self).adaptive(),
            final(self).batch() == Seq::<u8>::empty(),
            match r {
                Some(stream) => stream@ == old(self).batch() && stream@.len() > 0,
                None => old(self).batch() == Seq::<u8>::empty(),
            },
            final(self).payload_bytes() == old(self).payload_bytes(),
            final(self).chunk_bytes() == old(self).chunk_bytes(),
    {
        if self.batch.is_empty() {
            assert(self.batch@ =~= Seq::<u8>::empty());
            return None;
        }
        let mut full: Vec<u8> = Vec::new();
        full.append(&mut self.batch);
        assert(full@ =~= old(self).batch());
        Some(full)
    }
}

/// Compression is as configured. Where it is off every chunk goes out as it is.
/// Where it is on a chunk goes out compressed at the level configured; in
/// adaptive mode three chunks decide whether that goes on, and otherwise it goes
/// on whatever comes.
pub proof fn law_compression_is_as_configured(config: ConfigMessage, data: Seq<u8>)
    ensures
        !config.compression_enabled ==> fresh_adaptive(config) is None,
        encoded_chunk(None, data) == Some((data, false)),
        adaptive_after(None, data) is None,
        config.compression_enabled ==> {
            &&& fresh_adaptive(config) is Some
            &&& fresh_adaptive(config)->0.level == config.compression_level
            &&& encoded_chunk(fresh_adaptive(config), data) == match zstd_encoded(
                data,
                config.compression_level,
            ) {
                Some(out) => Some((out, true)),
                None => None,
            }
            &&& config.adaptive_compression ==> undecided(fresh_adaptive(config)->0, 3)
            &&& !config.adaptive_compression ==> adaptive_after(fresh_adaptive(config), data)
                == fresh_adaptive(config)
        },
{
}

/// A chunk goes out compressed exactly as long as compression was not given up,
/// and the receiver gets the chunk back either way.
pub proof fn law_chunks_survive_compression(v: AdaptiveView, data: Seq<u8>, index: u64)
    requires
        zstd_encoded(data, v.level) is Some,
        zstd_decoded(zstd_encoded(data, v.level)->0) == Some(data),
        !v.enabled ==> v.decided,
    ensures
        encoded_chunk(Some(v), data) matches Some((payload, compressed)) && {
            &&& compressed <==> v.enabled
            &&& !compressed ==> payload == data
            &&& chunk_of(frame_of(index, payload, compressed), true) == Ok::<Seq<u8>, FrameFault>(
                data,
            )
            &&& frame_of(index, payload, compressed).index == index
        },
{
}

/// A frame is taken if and only if its header is complete, it is for a chunk of
/// the file, and its payload ends with the stream at the latest.
pub proof fn law_only_whole_frames_are_taken(raw: Seq<u8>, off: int, total: u64)
    requires
        0 <= off <= raw.len(),
        raw.len() <= usize::MAX,
    ensures
        frame_at(raw, off, total) is Ok <==> {
            &&& off + 13 <= raw.len()
            &&& le_value(raw.subrange(off, off + 8)) < total
            &&& off + 13 + le_value(raw.subrange(off + 9, off + 13)) <= raw.len()
        },
        frame_at(raw, off, total) matches Ok((f, next)) ==> {
            &&& f.index == le_value(raw.subrange(off, off + 8))
            &&& f.flags == raw[off + 8]
            &&& f.payload == raw.subrange(off + 13, next)
            &&& next == off + 13 + le_value(raw.subrange(off + 9, off + 13))
        },
{
    if off + 13 <= raw.len() {
        lemma_pow256_values();
        crate::codec::lemma_le_value_bound(raw.subrange(off, off + 8));
        crate::codec::lemma_le_value_bound(raw.subrange(off + 9, off + 13));
    }
}

/// The lowest flag says that a payload is compressed: without it the payload is
/// the chunk; with it the payload is decompressed, or refused where compression
/// is off.
pub proof fn law_flag_tells_compression(f: Frame, compression: bool)
    ensures
        f.flags % 2 == 0 ==> chunk_of(f, compression) == Ok::<Seq<u8>, FrameFault>(f.payload),
        f.flags % 2 == 1 && !compression ==> chunk_of(f, compression) is Err,
        f.flags % 2 == 1 && compression ==> match zstd_decoded(f.payload) {
            Some(data) => chunk_of(f, compression) == Ok::<Seq<u8>, FrameFault>(data),
            None => chunk_of(f, compression) is Err,
        },
{
}

/// No chunk is taken twice: of whatever a stream holds, each chunk that is taken
/// is one of the file, was not taken before, and is taken once; and it counts as
/// taken from then on.
pub proof fn law_no_chunk_is_taken_twice(
    raw: Seq<u8>,
    off: int,
    total: u64,
    compression: bool,
    seen: Set<u64>,
)
    requires
        0 <= off,
    ensures
        ({
            let out = take_stream(raw, off, total, compression, seen);
            &&& forall|i: int|
                0 <= i < out.chunks.len() ==> (#[trigger] out.chunks[i]).0 < total && !seen.contains(
                    out.chunks[i].0,
                ) && out.seen.contains(out.chunks[i].0)
            &&& forall|i: int, j: int|
                0 <= i < j < out.chunks.len() ==> (#[trigger] out.chunks[i]).0 != (
                #[trigger] out.chunks[j]).0
            &&& forall|k: u64| #[trigger] seen.contains(k) ==> out.seen.contains(k)
            &&& out.fault is None ==> forall|k: u64|
                #[trigger] out.seen.contains(k) ==> seen.contains(k) || exists|i: int|
                    0 <= i < out.chunks.len() && (#[trigger] out.chunks[i]).0 == k
        }),
    decreases raw.len() - off,
{
    let out = take_stream(raw, off, total, compression, seen);
    if off < raw.len() {
        if let Ok((f, next)) = frame_at(raw, off, total) {
            if next > off {
                if seen.contains(f.index) {
                    law_no_chunk_is_taken_twice(raw, next, total, compression, seen);
                } else if let Ok(data) = chunk_of(f, compression) {
                    let more = seen.insert(f.index);
                    law_no_chunk_is_taken_twice(raw, next, total, compression, more);
                    let rest = take_stream(raw, next, total, compression, more);
                    assert(more.contains(f.index));
                    assert forall|i: int| 0 < i < out.chunks.len() implies #[trigger] out.chunks[i]
                        == rest.chunks[i - 1] by {}
                    assert forall|k: u64| #[trigger] seen.contains(k) implies out.seen.contains(
                        k,
                    ) by {
                        assert(more.contains(k));
                    }
                    if out.fault is None {
                        assert forall|k: u64| #[trigger] out.seen.contains(k) implies seen.contains(
                            k,
                        ) || exists|i: int|
                            0 <= i < out.chunks.len() && (#[trigger] out.chunks[i]).0 == k by {
                            if !seen.contains(k) {
                                if k == f.index {
                                    assert(out.chunks[0].0 == k);
                                } else {
                                    assert(!more.contains(k));
                                    let i = choose|i: int|
                                        0 <= i < rest.chunks.len() && (
                                        #[trigger] rest.chunks[i]).0 == k;
                                    assert(out.chunks[i + 1].0 == k);
                                }
                            }
                        }
                    }
                } else {
                    assert(seen.insert(f.index).contains(f.index));
                }
            }
        }
    }
}

/// A receiver stops when it has what it waits for, and not before, as long as
/// streams come without a fault.
pub proof fn law_receiver_stops_when_it_has_enough(
    streams: Seq<Seq<u8>>,
    total: u64,
    compression: bool,
    seen: Set<u64>,
    expected: u64,
)
    ensures
        ({
            let out = take_streams(streams, total, compression, seen, expected);
            &&& seen.len() >= expected ==> out.seen == seen && out.chunks.len() == 0
                && out.fault is None
            &&& seen.len() < expected && streams.len() > 0 ==> {
                let first = take_stream(streams[0], 0, total, compression, seen);
                &&& first.chunks == out.chunks.take(first.chunks.len() as int)
                &&& first.fault is Some ==> out.fault == first.fault
                &&& first.fault is None && first.seen.len() < expected && streams.len() > 1
                    ==> take_stream(streams[1], 0, total, compression, first.seen).chunks
                    == out.chunks.subrange(
                    first.chunks.len() as int,
                    (first.chunks.len() + take_stream(
                        streams[1],
                        0,
                        total,
                        compression,
                        first.seen,
                    ).chunks.len()) as int,
                )
            }
        }),
{
    let out = take_streams(streams, total, compression, seen, expected);
    if seen.len() < expected && streams.len() > 0 {
        let first = take_stream(streams[0], 0, total, compression, seen);
        if first.fault is None {
            let rest = take_streams(streams.skip(1), total, compression, first.seen, expected);
            assert(out.chunks.take(first.chunks.len() as int) =~= first.chunks);
            if first.seen.len() < expected && streams.len() > 1 {
                let second = take_stream(streams[1], 0, total, compression, first.seen);
                let n = first.chunks.len() as int;
                assert(streams.skip(1)[0] == streams[1]);
                if second.fault is None {
                    let last = take_streams(
                        streams.skip(1).skip(1),
                        total,
                        compression,
                        second.seen,
                        expected,
                    );
                    assert(rest.chunks == second.chunks + last.chunks);
                }
                assert(out.chunks.subrange(n, n + second.chunks.len()) =~= second.chunks);
            }
        } else {
            assert(out.chunks.take(first.chunks.len() as int) =~= first.chunks);
        }
    }
}

/// A size from a peer is accepted up to a tebibyte and no further.
pub proof fn law_sizes_up_to_a_tebibyte_are_accepted(size: u64, r: Result<()>)
    requires
        call_ensures(validate_file_size, (size,), r),
    ensures
        r is Ok <==> size <= 0x100_0000_0000,
{
}

/// A receiver waits for as many chunks as it is told, which is no more than the
/// file has, and takes compressed chunks exactly where that was agreed on; it
/// begins with none, and is complete once it has them.
pub proof fn law_receiver_waits_for_what_it_is_told(
    total: u64,
    streams: u64,
    config: ConfigMessage,
    r: Result<FileReceiver>,
    done: bool,
)
    requires
        call_ensures(FileReceiver::new, (total, streams, &config), r),
        r matches Ok(v) ==> call_ensures(FileReceiver::is_complete, (&v,), done),
    ensures
        r is Ok <==> streams <= total,
        r matches Ok(v) ==> v.expected() == streams && v.total() == total && v.seen().len() == 0
            && v.compression() == config.compression_enabled && (done <==> streams == 0),
{
}

/// The bytes that are counted as sent are all that were, as long as they can be
/// counted.
pub proof fn law_sent_bytes_are_counted(a: u64, b: nat)
    ensures
        a + b <= u64::MAX ==> capped_sum(a, b) == a + b,
        a + b > u64::MAX ==> capped_sum(a, b) == u64::MAX,
{
}

} // verus!
