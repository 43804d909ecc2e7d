//! A file sent and received as a whole: which frames it travels as, how they
//! are packed into streams, and that the receiver ends up with the file.

use vstd::prelude::*;

use crate::chunk_io::{
    all_written, chunk_at, chunk_writes, file_writes, fresh_ledger, in_place,
    law_all_chunks_restore_file, law_chunks_make_up_file, law_running_hash_is_file_hash,
    leading_chunks, lemma_chunk_bounds, lemma_fewer_chunks_than_bytes, ChunkReader, LedgerView,
};
use crate::codec::lemma_pow256_values;
use crate::compression::AdaptiveView;
use crate::error::Result;
use crate::protocol::ConfigMessage;
use crate::transfer_file::{
    adaptive_after, chunk_of, chunks_covering, encoded_chunk, frame_bytes, frame_of, frames_bytes,
    fresh_adaptive, law_distinct_frames_deliver_all, law_frames_append, law_stream_roundtrip,
    sendable, stream_values, take_frames, take_stream, take_streams, FileSender, Frame, FrameFault,
    SendStep, StreamOutcome, BATCH_MAX_BYTES,
};
use crate::verification::sha256_of;

verus! {

/// The frames that chunks `from` and later travel as, in order, those that the
/// receiver has left out; `None` where the compressor fails.
pub open spec fn sent_frames(
    adaptive: Option<AdaptiveView>,
    content: Seq<u8>,
    chunk_size: nat,
    completed: Set<u64>,
    from: nat,
) -> Option<Seq<Frame>>
    decreases chunks_covering(content.len(), chunk_size) - from,
{
    if from >= chunks_covering(content.len(), chunk_size) {
        Some(Seq::empty())
    } else if completed.contains(from as u64) {
        sent_frames(adaptive, content, chunk_size, completed, from + 1)
    } else {
        let data = chunk_at(content, from, chunk_size);
        match encoded_chunk(adaptive, data) {
            None => None,
            Some((payload, compressed)) => match sent_frames(
                adaptive_after(adaptive, data),
                content,
                chunk_size,
                completed,
                from + 1,
            ) {
                None => None,
                Some(rest) => Some(seq![frame_of(from as u64, payload, compressed)] + rest),
            },
        }
    }
}

/// The streams that frames are packed into, behind what the first stream
/// already holds: a frame that no longer fits starts the next stream.
pub open spec fn packed(frames: Seq<Frame>, batch: Seq<u8>) -> Seq<Seq<u8>>
    decreases frames.len(),
{
    if frames.len() == 0 {
        if batch.len() > 0 {
            seq![batch]
        } else {
            Seq::empty()
        }
    } else {
        let bytes = frame_bytes(frames[0]);
        if batch.len() + bytes.len() > BATCH_MAX_BYTES {
            seq![batch] + packed(frames.skip(1), bytes)
        } else {
            packed(frames.skip(1), batch + bytes)
        }
    }
}

/// Frames that carry the chunks before `end` which the receiver does not have:
/// each once, in order, and readable.
pub open spec fn carries(
    frames: Seq<Frame>,
    content: Seq<u8>,
    chunk_size: nat,
    completed: Set<u64>,
    compression: bool,
    end: nat,
) -> bool {
    &&& forall|i: int|
        0 <= i < frames.len() ==> {
            let f = #[trigger] frames[i];
            &&& f.index < end
            &&& !completed.contains(f.index)
            &&& chunk_of(f, compression) == Ok::<Seq<u8>, FrameFault>(
                chunk_at(content, f.index as nat, chunk_size),
            )
        }
    &&& forall|i: int, j: int| 0 <= i < j < frames.len() ==> frames[i].index < frames[j].index
    &&& forall|k: u64|
        k < end && !(#[trigger] completed.contains(k)) ==> exists|i: int|
            0 <= i < frames.len() && (#[trigger] frames[i]).index == k
}

/// Turns a file into streams. The chunks in `completed` are left out, but
/// count for the checksum.
pub fn send_file(config: &ConfigMessage, content: &[u8], completed: &[u64]) -> (r: Result<
    (Vec<Vec<u8>>, [u8; 32]),
>)
    requires
        config.chunk_size > 0,
    ensures
        match sent_frames(
            fresh_adaptive(*config),
            content@,
            config.chunk_size as nat,
            completed@.to_set(),
            0,
        ) {
            None => r matches Err(e) && e is Compression,
            Some(frames) => {
                &&& r matches Ok(out) && stream_values(out.0@) == packed(frames, Seq::empty())
                    && out.1@ == sha256_of(content@)
                &&& carries(
                    frames,
                    content@,
                    config.chunk_size as nat,
                    completed@.to_set(),
                    config.compression_enabled,
                    chunks_covering(content@.len(), config.chunk_size as nat),
                )
            },
        },
{
    let ghost cs = config.chunk_size as nat;
    let ghost total = chunks_covering(content@.len(), cs);
    let ghost done_before = completed@.to_set();
    let ghost all = sent_frames(fresh_adaptive(*config), content@, cs, done_before, 0);
    let size: usize = content.len();
    let mut reader = ChunkReader::new(size as u64, config.chunk_size);
    let mut sender = FileSender::new(config, reader.total_chunks(), completed);
    let mut streams: Vec<Vec<u8>> = Vec::new();
    let ghost mut frames: Seq<Frame> = Seq::empty();
    proof {
        assert(stream_values(streams@) =~= Seq::empty());
        if all is Some {
            assert(frames + all->0 =~= all->0);
            assert(Seq::<Seq<u8>>::empty() + packed(all->0, Seq::empty()) =~= packed(
                all->0,
                Seq::empty(),
            ));
        }
    }
    loop
        invariant
            cs == config.chunk_size,
            cs > 0,
            size == content@.len(),
            total == chunks_covering(content@.len(), cs),
            total <= u64::MAX,
            done_before == completed@.to_set(),
            all == sent_frames(fresh_adaptive(*config), content@, cs, done_before, 0),
            reader.wf(),
            reader.spec_file_size() == content@.len(),
            reader.spec_chunk_size() == cs,
            reader.absorbed() == leading_chunks(content@, cs, sender.next() as nat),
            sender.total() == total,
            sender.next() <= total,
            sender.completed() == done_before,
            sender.adaptive() is Some == config.compression_enabled,
            carries(
                frames,
                content@,
                cs,
                done_before,
                config.compression_enabled,
                sender.next() as nat,
            ),
            ({
                let rest = sent_frames(
                    sender.adaptive(),
                    content@,
                    cs,
                    done_before,
                    sender.next() as nat,
                );
                &&& all is Some <==> rest is Some
                &&& all is Some ==> all->0 == frames + rest->0 && packed(all->0, Seq::empty())
                    == stream_values(streams@) + packed(rest->0, sender.batch())
            }),
        ensures
            sender.next() == total,
        decreases total - sender.next(),
    {
        let ghost at = sender.next() as nat;
        let ghost rest = sent_frames(sender.adaptive(), content@, cs, done_before, at);
        let step: SendStep = sender.next_step();
        let index: u64 = match step {
            SendStep::Done => {
                break;
            },
            SendStep::Fold(index) => index,
            SendStep::Send(index) => index,
        };
        proof {
            lemma_chunk_bounds(content@.len(), cs, at);
        }
        let (offset, len): (u64, usize) = reader.chunk_span(index);
        let start: usize = offset as usize;
        let data: &[u8] = vstd::slice::slice_subrange(content, start, start + len);
        assert(data@ =~= chunk_at(content@, at, cs));
        reader.absorb(data);
        if let SendStep::Fold(_) = step {
            continue;
        }
        let ghost before = stream_values(streams@);
        let ghost batch = sender.batch();
        let ghost adaptive = sender.adaptive();
        match sender.push_chunk(index, data) {
            Err(e) => {
                return Err(e);
            },
            Ok(None) => {},
            Ok(Some(stream)) => {
                streams.push(stream);
                assert(stream_values(streams@) =~= before.push(batch));
            },
        }
        proof {
            let (payload, compressed) = encoded_chunk(adaptive, data@)->0;
            let f = frame_of(index, payload, compressed);
            let old_frames = frames;
            frames = frames.push(f);
            let later = sent_frames(sender.adaptive(), content@, cs, done_before, at + 1);
            assert(chunk_of(f, config.compression_enabled) == Ok::<Seq<u8>, FrameFault>(
                chunk_at(content@, index as nat, cs),
            ));
            assert forall|k: u64| k < at + 1 && !(#[trigger] done_before.contains(k)) implies exists|
                i: int,
            | 0 <= i < frames.len() && (#[trigger] frames[i]).index == k by {
                if k < at {
                    let i = choose|i: int|
                        0 <= i < old_frames.len() && (#[trigger] old_frames[i]).index == k;
                    assert(frames[i].index == k);
                } else {
                    assert(frames[old_frames.len() as int].index == k);
                }
            }
            if all is Some {
                let a = rest->0;
                let b = later->0;
                assert(a =~= seq![f] + b);
                assert(a.skip(1) =~= b);
                assert(old_frames + a =~= frames + b);
                assert(packed(all->0, Seq::empty()) =~= stream_values(streams@) + packed(
                    b,
                    sender.batch(),
                ));
            }
        }
    }
    let ghost before = stream_values(streams@);
    let ghost batch = sender.batch();
    if let Some(stream) = sender.finish() {
        streams.push(stream);
        assert(stream_values(streams@) =~= before.push(batch));
    }
    proof {
        law_chunks_make_up_file(content@, cs);
        assert(all is Some);
        assert(all->0 =~= frames);
        assert(stream_values(streams@) =~= packed(all->0, Seq::empty()));
    }
    Ok((streams, reader.finalize_checksum()))
}

/// Readable frames with distinct indices that were not seen before.
pub open spec fn fresh_frames(
    frames: Seq<Frame>,
    total: u64,
    compression: bool,
    seen: Set<u64>,
) -> bool {
    &&& forall|i: int|
        0 <= i < frames.len() ==> {
            let f = #[trigger] frames[i];
            &&& sendable(f, total)
            &&& !seen.contains(f.index)
            &&& chunk_of(f, compression) is Ok
        }
    &&& forall|i: int, j: int| 0 <= i < j < frames.len() ==> frames[i].index != frames[j].index
}

proof fn lemma_fresh_split(
    a: Seq<Frame>,
    b: Seq<Frame>,
    total: u64,
    compression: bool,
    seen: Set<u64>,
)
    requires
        fresh_frames(a + b, total, compression, seen),
        seen.finite(),
    ensures
        ({
            let first = take_frames(a, compression, seen);
            let rest = take_frames(b, compression, first.seen);
            &&& first.fault is None
            &&& first.seen.finite()
            &&& first.seen.len() == seen.len() + a.len()
            &&& fresh_frames(a, total, compression, seen)
            &&& fresh_frames(b, total, compression, first.seen)
            &&& take_frames(a + b, compression, seen) == (StreamOutcome {
                chunks: first.chunks + rest.chunks,
                ..rest
            })
        }),
    decreases a.len(),
{
    let ab = a + b;
    assert forall|i: int| 0 <= i < a.len() implies ab[i] == #[trigger] a[i] by {}
    assert forall|i: int| 0 <= i < b.len() implies ab[a.len() + i] == #[trigger] b[i] by {}
    if a.len() == 0 {
        assert(ab =~= b);
        let rest = take_frames(b, compression, seen);
        assert(Seq::<(u64, Seq<u8>)>::empty() + rest.chunks =~= rest.chunks);
    } else {
        let f = a[0];
        let seen2 = seen.insert(f.index);
        let tail = a.skip(1);
        assert(ab[0] == f);
        assert(ab.skip(1) =~= tail + b);
        assert forall|i: int| 0 <= i < (tail + b).len() implies (tail + b)[i] == #[trigger] ab[i + 1] by {}
        assert(fresh_frames(tail + b, total, compression, seen2)) by {
            assert forall|i: int| 0 <= i < (tail + b).len() implies {
                let g = #[trigger] (tail + b)[i];
                &&& sendable(g, total)
                &&& !seen2.contains(g.index)
                &&& chunk_of(g, compression) is Ok
            } by {
                assert((tail + b)[i] == ab[i + 1]);
            }
            assert forall|i: int, j: int| 0 <= i < j < (tail + b).len() implies (tail + b)[i].index
                != (tail + b)[j].index by {
                assert((tail + b)[i] == ab[i + 1]);
                assert((tail + b)[j] == ab[j + 1]);
            }
        }
        lemma_fresh_split(tail, b, total, compression, seen2);
        let first = take_frames(a, compression, seen);
        let first2 = take_frames(tail, compression, seen2);
        let rest = take_frames(b, compression, first.seen);
        assert(first.seen == first2.seen);
        assert(take_frames(ab, compression, seen).chunks =~= first.chunks + rest.chunks);
    }
}

/// However frames are packed into streams, the receiver that takes the streams
/// one after the other takes the same chunks as from one run of frames, and
/// stops when it has them all.
pub proof fn law_packing_keeps_chunks(
    held: Seq<Frame>,
    frames: Seq<Frame>,
    total: u64,
    compression: bool,
    seen: Set<u64>,
    expected: u64,
)
    requires
        fresh_frames(held + frames, total, compression, seen),
        seen.finite(),
        seen.len() + held.len() + frames.len() == expected,
    ensures
        take_streams(packed(frames, frames_bytes(held)), total, compression, seen, expected)
            == take_frames(held + frames, compression, seen),
    decreases frames.len(),
{
    let batch = frames_bytes(held);
    let streams = packed(frames, batch);
    let first = take_frames(held, compression, seen);
    lemma_fresh_split(held, frames, total, compression, seen);
    law_stream_roundtrip(held, total, compression, seen);
    assert(take_stream(batch, 0, total, compression, seen) == first);
    if frames.len() == 0 {
        assert(held + frames =~= held);
        if held.len() > 0 {
            assert(frame_bytes(held[0]).len() > 0);
            assert(streams =~= seq![batch]);
            assert(streams.skip(1) =~= Seq::empty());
            reveal_with_fuel(take_streams, 2);
            assert(first.chunks + Seq::empty() =~= first.chunks);
        }
    } else {
        let f = frames[0];
        let rest = frames.skip(1);
        if batch.len() + frame_bytes(f).len() > BATCH_MAX_BYTES {
            assert(frames =~= seq![f] + rest);
            assert(frames_bytes(seq![f]) =~= frame_bytes(f)) by {
                reveal_with_fuel(frames_bytes, 2);
                assert(seq![f].skip(1) =~= Seq::empty());
            }
            law_packing_keeps_chunks(seq![f], rest, total, compression, first.seen, expected);
            assert(streams[0] == batch);
            assert(streams.skip(1) =~= packed(rest, frame_bytes(f)));
            assert(take_streams(streams, total, compression, seen, expected).chunks
                =~= first.chunks + take_frames(frames, compression, first.seen).chunks);
        } else {
            law_frames_append(held, f);
            assert(held.push(f) + rest =~= held + frames);
            law_packing_keeps_chunks(held.push(f), rest, total, compression, seen, expected);
        }
    }
}

/// A file arrives as it was sent. The receiver takes the streams without a
/// fault and stops once every chunk that it did not have came; writing what it
/// took over its partial file restores the file.
pub proof fn law_file_arrives(
    content: Seq<u8>,
    chunk_size: nat,
    completed: Set<u64>,
    frames: Seq<Frame>,
    compression: bool,
    partial: Seq<u8>,
)
    requires
        chunk_size > 0,
        content.len() <= u64::MAX,
        partial.len() <= content.len(),
        carries(
            frames,
            content,
            chunk_size,
            completed,
            compression,
            chunks_covering(content.len(), chunk_size),
        ),
        forall|i: int| 0 <= i < frames.len() ==> (#[trigger] frames[i]).payload.len() <= u32::MAX,
        forall|k: u64|
            k < chunks_covering(content.len(), chunk_size) && #[trigger] completed.contains(k)
                ==> in_place(partial, content, k as nat, chunk_size),
    ensures
        frames.len() <= u64::MAX,
        ({
            let total = chunks_covering(content.len(), chunk_size) as u64;
            let expected = frames.len() as u64;
            let out = take_streams(
                packed(frames, Seq::empty()),
                total,
                compression,
                Set::empty(),
                expected,
            );
            &&& out.fault is None
            &&& out.seen.len() == expected
            &&& out.chunks.len() == frames.len()
            &&& all_written(partial, chunk_writes(out.chunks, chunk_size)) == content
        }),
{
    let count = chunks_covering(content.len(), chunk_size);
    let total = count as u64;
    lemma_pow256_values();
    lemma_fewer_chunks_than_bytes(content.len(), chunk_size);
    lemma_ascending_are_few(frames, count);
    let data = Seq::new(
        frames.len(),
        |i: int| chunk_at(content, frames[i].index as nat, chunk_size),
    );
    let none = Seq::<Frame>::empty();
    assert(none + frames =~= frames);
    assert(fresh_frames(frames, total, compression, Set::empty()));
    law_packing_keeps_chunks(none, frames, total, compression, Set::empty(), frames.len() as u64);
    lemma_fresh_split(frames, none, total, compression, Set::empty());
    assert(frames + none =~= frames);
    assert(frames_bytes(none) =~= Seq::<u8>::empty());
    law_distinct_frames_deliver_all(frames, data, compression, Set::empty());
    let out = take_frames(frames, compression, Set::empty());
    let order = Seq::new(frames.len(), |i: int| frames[i].index);
    assert forall|i: int| 0 <= i < order.len() implies (#[trigger] order[i]) < count by {
        assert(order[i] == frames[i].index);
    }
    assert forall|k: nat| k < count implies (#[trigger] in_place(partial, content, k, chunk_size))
        || exists|i: int| 0 <= i < order.len() && #[trigger] order[i] == k by {
        if !completed.contains(k as u64) {
            let i = choose|i: int| 0 <= i < frames.len() && (#[trigger] frames[i]).index == k as u64;
            assert(order[i] == k);
        }
    }
    law_all_chunks_restore_file(partial, content, chunk_size, order);
    assert(chunk_writes(out.chunks, chunk_size) =~= file_writes(content, chunk_size, order)) by {
        assert forall|i: int| 0 <= i < frames.len() implies chunk_writes(
            out.chunks,
            chunk_size,
        )[i] == file_writes(content, chunk_size, order)[i] by {
            assert(out.chunks[i] == (frames[i].index, data[i]));
        }
    }
}

/// The receiver's record after each of the chunks, in order.
pub open spec fn all_recorded(v: LedgerView, chunks: Seq<(u64, Seq<u8>)>) -> LedgerView
    decreases chunks.len(),
{
    if chunks.len() == 0 {
        v
    } else {
        all_recorded(v, chunks.drop_last()).recorded(chunks.last().0 as nat, chunks.last().1)
    }
}

/// Both sides compute the same checksum. Where the receiver's running hash
/// covers the file after chunks of it came, in any order and however often, it
/// hashed exactly the file, as the sender did.
pub proof fn law_checksums_agree(content: Seq<u8>, chunk_size: nat, chunks: Seq<(u64, Seq<u8>)>)
    requires
        chunk_size > 0,
        content.len() <= u64::MAX,
        forall|i: int|
            0 <= i < chunks.len() ==> (#[trigger] chunks[i]).0 < chunks_covering(
                content.len(),
                chunk_size,
            ) && chunks[i].1 == chunk_at(content, chunks[i].0 as nat, chunk_size),
    ensures
        ({
            let v = all_recorded(fresh_ledger(chunk_size, content.len()), chunks);
            &&& v.tracks(content)
            &&& v.covers_file() ==> v.absorbed == content
        }),
    decreases chunks.len(),
{
    let start = fresh_ledger(chunk_size, content.len());
    let v = all_recorded(start, chunks);
    if chunks.len() == 0 {
        assert(content.take(0) =~= Seq::empty());
    } else {
        let last = chunks.last();
        assert(last == chunks[chunks.len() - 1]);
        law_checksums_agree(content, chunk_size, chunks.drop_last());
        lemma_record_keeps_sizes(start, chunks.drop_last());
        law_running_hash_is_file_hash(
            all_recorded(start, chunks.drop_last()),
            content,
            last.0 as nat,
        );
    }
    if v.covers_file() {
        assert(content.take(content.len() as int) =~= content);
    }
}

/// The chunks of a file that `order` names, in that order.
pub open spec fn chunks_in_order(content: Seq<u8>, chunk_size: nat, order: Seq<u64>) -> Seq<
    (u64, Seq<u8>),
> {
    order.map_values(|k: u64| (k, chunk_at(content, k as nat, chunk_size)))
}

/// Whatever the order that the chunks of a file are written in, and however
/// often, once all of them are in place the file has its content, and the
/// checksum is that of the content: the running one where it covers the file,
/// else that of the file as it is read again.
pub proof fn law_any_order_gives_content_and_checksum(
    partial: Seq<u8>,
    content: Seq<u8>,
    chunk_size: nat,
    order: Seq<u64>,
)
    requires
        chunk_size > 0,
        content.len() <= u64::MAX,
        partial.len() <= content.len(),
        forall|i: int|
            0 <= i < order.len() ==> (#[trigger] order[i]) < chunks_covering(
                content.len(),
                chunk_size,
            ),
        forall|k: nat|
            k < chunks_covering(content.len(), chunk_size) ==> (#[trigger] in_place(
                partial,
                content,
                k,
                chunk_size,
            )) || exists|i: int| 0 <= i < order.len() && #[trigger] order[i] == k,
    ensures
        ({
            let chunks = chunks_in_order(content, chunk_size, order);
            let file = all_written(partial, chunk_writes(chunks, chunk_size));
            let record = all_recorded(fresh_ledger(chunk_size, content.len()), chunks);
            &&& file == content
            &&& record.checksum(file) == sha256_of(content)
        }),
{
    let chunks = chunks_in_order(content, chunk_size, order);
    assert(chunk_writes(chunks, chunk_size) =~= file_writes(content, chunk_size, order));
    law_all_chunks_restore_file(partial, content, chunk_size, order);
    assert forall|i: int| 0 <= i < chunks.len() implies (#[trigger] chunks[i]).0
        < chunks_covering(content.len(), chunk_size) && chunks[i].1 == chunk_at(
        content,
        chunks[i].0 as nat,
        chunk_size,
    ) by {
        assert(chunks[i].0 == order[i]);
    }
    law_checksums_agree(content, chunk_size, chunks);
}

proof fn lemma_record_keeps_sizes(v: LedgerView, chunks: Seq<(u64, Seq<u8>)>)
    ensures
        all_recorded(v, chunks).chunk_size == v.chunk_size,
        all_recorded(v, chunks).file_size == v.file_size,
    decreases chunks.len(),
{
    if chunks.len() > 0 {
        lemma_record_keeps_sizes(v, chunks.drop_last());
    }
}

proof fn lemma_ascending_are_few(frames: Seq<Frame>, end: nat)
    requires
        forall|i: int| 0 <= i < frames.len() ==> (#[trigger] frames[i]).index < end,
        forall|i: int, j: int| 0 <= i < j < frames.len() ==> frames[i].index < frames[j].index,
    ensures
        frames.len() <= end,
    decreases frames.len(),
{
    if frames.len() > 0 {
        let last = frames.len() - 1;
        assert(frames[last].index < end);
        lemma_ascending_are_few(frames.drop_last(), frames[last].index as nat);
    }
}

/// No stream grows too large: as long as each frame fits into 32 MiB, so does
/// every stream that they are packed into, and none is empty.
pub proof fn law_streams_stay_small(frames: Seq<Frame>, batch: Seq<u8>)
    requires
        batch.len() <= 0x200_0000,
        forall|i: int| 0 <= i < frames.len() ==> frame_bytes(#[trigger] frames[i]).len() <= 0x200_0000,
    ensures
        forall|k: int|
            0 <= k < packed(frames, batch).len() ==> 0 < (#[trigger] packed(frames, batch)[k]).len()
                <= 0x200_0000,
    decreases frames.len(),
{
    if frames.len() > 0 {
        let rest = frames.skip(1);
        let bytes = frame_bytes(frames[0]);
        assert(bytes.len() <= 0x200_0000);
        assert(bytes.len() > 0) by {
            crate::codec::lemma_le_bytes_len(frames[0].index as nat, 8);
        }
        assert forall|i: int| 0 <= i < rest.len() implies frame_bytes(#[trigger] rest[i]).len()
            <= 0x200_0000 by {
            assert(rest[i] == frames[i + 1]);
        }
        if batch.len() + bytes.len() > BATCH_MAX_BYTES {
            law_streams_stay_small(rest, bytes);
            let more = packed(rest, bytes);
            assert forall|k: int| 0 <= k < packed(frames, batch).len() implies 0 < (
            #[trigger] packed(frames, batch)[k]).len() <= 0x200_0000 by {
                if k > 0 {
                    assert(packed(frames, batch)[k] == more[k - 1]);
                }
            }
        } else {
            law_streams_stay_small(rest, batch + bytes);
            assert(packed(frames, batch) == packed(rest, batch + bytes));
        }
    } else if batch.len() > 0 {
        assert(packed(frames, batch) == seq![batch]);
    } else {
        assert(packed(frames, batch).len() == 0);
    }
}

} // verus!
