//! Zstandard compression, with an adaptive mode that switches itself off for
//! data that does not shrink.

use vstd::prelude::*;

use crate::error::{Error, Result};
use crate::text::bytes_copy;

verus! {

/// What `zstd::encode_all` makes of a byte string at a level; `None` where it
/// reports an error.
pub uninterp spec fn zstd_encoded(data: Seq<u8>, level: i32) -> Option<Seq<u8>>;

/// What `zstd::decode_all` makes of a byte string; `None` where it reports an
/// error.
pub uninterp spec fn zstd_decoded(data: Seq<u8>) -> Option<Seq<u8>>;

/// `zstd::encode_all`. Its output is a zstd frame, from which
/// `zstd::decode_all` restores the input. What the text of an error says is
/// left open.
#[verifier::external_body]
fn zstd_encode_all(data: &[u8], level: i32) -> (r: core::result::Result<Vec<u8>, String>)
    ensures
        r is Ok <==> zstd_encoded(data@, level) is Some,
        r matches Ok(out) ==> zstd_encoded(data@, level) == Some(out@) && zstd_decoded(out@)
            == Some(data@),
{
    zstd::encode_all(data, level).map_err(|e| e.to_string())
}

/// `zstd::decode_all`. What the text of an error says is left open.
#[verifier::external_body]
fn zstd_decode_all(data: &[u8]) -> (r: core::result::Result<Vec<u8>, String>)
    ensures
        r is Ok <==> zstd_decoded(data@) is Some,
        r matches Ok(out) ==> zstd_decoded(data@) == Some(out@),
{
    zstd::decode_all(data).map_err(|e| e.to_string())
}

/// Compresses a byte string. What comes out decompresses to what went in.
pub fn compress(data: &[u8], level: i32) -> (r: Result<Vec<u8>>)
    ensures
        r is Ok <==> zstd_encoded(data@, level) is Some,
        r matches Ok(out) ==> zstd_encoded(data@, level) == Some(out@) && zstd_decoded(out@)
            == Some(data@),
        r matches Err(e) ==> e is Compression,
{
    match zstd_encode_all(data, level) {
        Ok(out) => Ok(out),
        Err(text) => Err(Error::Compression(text)),
    }
}

/// Decompresses a byte string.
pub fn decompress(data: &[u8]) -> (r: Result<Vec<u8>>)
    ensures
        r is Ok <==> zstd_decoded(data@) is Some,
        r matches Ok(out) ==> zstd_decoded(data@) == Some(out@),
        r matches Err(e) ==> e is Decompression,
{
    match zstd_decode_all(data) {
        Ok(out) => Ok(out),
        Err(text) => Err(Error::Decompression(text)),
    }
}

/// A compressor with a fixed level.
pub struct Compressor {
    level: i32,
}

impl Compressor {
    pub closed spec fn spec_level(&self) -> i32 {
        self.level
    }

    /// A compressor with the given level.
    pub fn new(level: i32) -> (r: Self)
        ensures
            r.spec_level() == level,
    {
        Self { level }
    }

    /// Compresses one chunk.
    pub fn compress(&self, data: &[u8]) -> (r: Result<Vec<u8>>)
        ensures
            r is Ok <==> zstd_encoded(data@, self.spec_level()) is Some,
            r matches Ok(out) ==> zstd_encoded(data@, self.spec_level()) == Some(out@)
                && zstd_decoded(out@) == Some(data@),
            r matches Err(e) ==> e is Compression,
    {
        compress(data, self.level)
    }
}

/// A decompressor.
pub struct Decompressor;

impl Decompressor {
    /// A decompressor.
    pub fn new() -> (r: Self)
        ensures
            r == Decompressor,
    {
        Self
    }

    /// Decompresses one chunk.
    pub fn decompress(&self, data: &[u8]) -> (r: Result<Vec<u8>>)
        ensures
            r is Ok <==> zstd_decoded(data@) is Some,
            r matches Ok(out) ==> zstd_decoded(data@) == Some(out@),
            r matches Err(e) ==> e is Decompression,
    {
        decompress(data)
    }
}

impl Default for Decompressor {
    fn default() -> (r: Self)
        ensures
            r == Decompressor,
    {
        Self::new()
    }
}

/// Compression is worth keeping when it shrinks the sample by at least five
/// per cent: when `original / compressed` is no less than 1.05.
pub open spec fn poor_ratio(original: nat, compressed: nat) -> bool {
    20 * original < 21 * compressed
}

fn is_poor_ratio(original: u128, compressed: u128) -> (r: bool)
    ensures
        r == poor_ratio(original as nat, compressed as nat),
{
    if original <= compressed {
        compressed > 0
    } else {
        let excess: u128 = original - compressed;
        let twentieth: u128 = compressed / 20;
        excess < twentieth || (excess == twentieth && compressed % 20 != 0)
    }
}

/// The observable state of an [`AdaptiveCompressor`].
pub ghost struct AdaptiveView {
    pub level: i32,
    pub sample_size: nat,
    pub chunks_sampled: nat,
    pub original: nat,
    pub compressed: nat,
    pub enabled: bool,
    pub decided: bool,
}

impl AdaptiveView {
    /// The state after a chunk of `original` bytes was compressed to
    /// `compressed` bytes: sampling adds it up, and the last sample decides.
    pub open spec fn after(self, original: nat, compressed: nat) -> AdaptiveView {
        if self.decided {
            self
        } else {
            let sampled = AdaptiveView {
                chunks_sampled: self.chunks_sampled + 1,
                original: self.original + original,
                compressed: self.compressed + compressed,
                ..self
            };
            if sampled.chunks_sampled >= self.sample_size {
                AdaptiveView {
                    decided: true,
                    enabled: self.enabled && !poor_ratio(sampled.original, sampled.compressed),
                    ..sampled
                }
            } else {
                sampled
            }
        }
    }
}

/// A compressor that samples the first chunks and gives up on data that does
/// not shrink.
pub struct AdaptiveCompressor {
    compressor: Compressor,
    sample_size: usize,
    chunks_sampled: usize,
    total_original_size: u128,
    total_compressed_size: u128,
    compression_enabled: bool,
    compression_decided: bool,
}

impl View for AdaptiveCompressor {
    type V = AdaptiveView;

    closed spec fn view(&self) -> AdaptiveView {
        AdaptiveView {
            level: self.compressor.spec_level(),
            sample_size: self.sample_size as nat,
            chunks_sampled: self.chunks_sampled as nat,
            original: self.total_original_size as nat,
            compressed: self.total_compressed_size as nat,
            enabled: self.compression_enabled,
            decided: self.compression_decided,
        }
    }
}

impl AdaptiveCompressor {
    /// While no decision is made, compression is on, fewer chunks than asked
    /// for were sampled, and the totals are sums of that many chunk sizes.
    #[verifier::type_invariant]
    closed spec fn wf(self) -> bool {
        !self.compression_decided ==> {
            &&& self.compression_enabled
            &&& self.chunks_sampled < self.sample_size
            &&& self.total_original_size <= self.chunks_sampled * usize::MAX
            &&& self.total_compressed_size <= self.chunks_sampled * usize::MAX
        }
    }

    /// A compressor that samples `sample_size` chunks before it decides;
    /// with a sample size of 0 it compresses every chunk.
    pub fn new(level: i32, sample_size: usize) -> (r: Self)
        ensures
            r@ == (AdaptiveView {
                level,
                sample_size: sample_size as nat,
                chunks_sampled: 0,
                original: 0,
                compressed: 0,
                enabled: true,
                decided: sample_size == 0,
            }),
    {
        Self {
            compressor: Compressor::new(level),
            sample_size,
            chunks_sampled: 0,
            total_original_size: 0,
            total_compressed_size: 0,
            compression_enabled: true,
            compression_decided: sample_size == 0,
        }
    }

    /// Takes in the size of a chunk and of its compressed form. Returns
    /// whether compression was switched off by it.
    fn record(&mut self, original: usize, compressed: usize) -> (changed: bool)
        ensures
            !old(self)@.decided && final(self)@.decided ==> (final(self)@.enabled <==> 100 * (old(
                self,
            )@.original + original) >= 105 * (old(self)@.compressed + compressed)),
            final(self)@ == old(self)@.after(original as nat, compressed as nat),
            changed == (old(self)@.enabled && !final(self)@.enabled),
    {
        proof {
            use_type_invariant(&*self);
        }
        if self.compression_decided {
            return false;
        }
        proof {
            let n = self.chunks_sampled as int;
            let m = usize::MAX as int;
            assert((n + 1) * m == n * m + m) by (nonlinear_arith);
            assert((n + 1) * m <= m * m) by (nonlinear_arith)
                requires
                    0 <= n < m,
            ;
            assert(usize::MAX as int * usize::MAX as int <= u128::MAX) by (nonlinear_arith)
                requires
                    usize::MAX <= 0xffff_ffff_ffff_ffff,
            ;
        }
        let sampled: usize = self.chunks_sampled + 1;
        let total_original: u128 = self.total_original_size + original as u128;
        let total_compressed: u128 = self.total_compressed_size + compressed as u128;
        let decided: bool = sampled >= self.sample_size;
        let poor: bool = decided && is_poor_ratio(total_original, total_compressed);
        let level: i32 = self.compressor.level;
        *self = AdaptiveCompressor {
            compressor: Compressor { level },
            sample_size: self.sample_size,
            chunks_sampled: sampled,
            total_original_size: total_original,
            total_compressed_size: total_compressed,
            compression_enabled: !poor,
            compression_decided: decided,
        };
        poor
    }

    /// Compresses a chunk. Returns the bytes to send, whether they are
    /// compressed, and whether this chunk switched compression off.
    pub fn compress(&mut self, data: &[u8]) -> (r: Result<(Vec<u8>, bool, bool)>)
        ensures
            old(self)@.decided && !old(self)@.enabled ==> final(self)@ == old(self)@ && (r matches Ok(
                t,
            ) && t.0@ == data@ && t.1 == false && t.2 == false),
            !(old(self)@.decided && !old(self)@.enabled) ==> match zstd_encoded(
                data@,
                old(self)@.level,
            ) {
                Some(out) => {
                    &&& final(self)@ == old(self)@.after(data@.len(), out.len())
                    &&& r matches Ok(t) && t.0@ == out && t.1 == true && t.2 == (old(self)@.enabled
                        && !final(self)@.enabled)
                    &&& zstd_decoded(out) == Some(data@)
                    &&& final(self)@.decided && !old(self)@.decided ==> (final(self)@.enabled <==> 100
                        * final(self)@.original >= 105 * final(self)@.compressed)
                },
                None => final(self)@ == old(self)@ && (r matches Err(e) && e is Compression),
            },
    {
        if self.compression_decided && !self.compression_enabled {
            return Ok((bytes_copy(data), false, false));
        }
        match self.compressor.compress(data) {
            Ok(compressed) => {
                let changed: bool = self.record(data.len(), compressed.len());
                Ok((compressed, true, changed))
            },
            Err(e) => Err(e),
        }
    }

    /// Whether compression is currently on.
    pub fn is_compression_enabled(&self) -> (r: bool)
        ensures
            r == self@.enabled,
    {
        self.compression_enabled
    }

    /// Whether the decision has been made.
    pub fn is_decided(&self) -> (r: bool)
        ensures
            r == self@.decided,
    {
        self.compression_decided
    }

    /// The figures gathered so far.
    pub fn stats(&self) -> (r: CompressionStats)
        ensures
            r.chunks_sampled == self@.chunks_sampled,
            r.original_size == self@.original,
            r.compressed_size == self@.compressed,
            r.enabled == self@.enabled,
            r.decided == self@.decided,
    {
        CompressionStats {
            chunks_sampled: self.chunks_sampled,
            original_size: self.total_original_size,
            compressed_size: self.total_compressed_size,
            enabled: self.compression_enabled,
            decided: self.compression_decided,
        }
    }
}

impl Default for AdaptiveCompressor {
    fn default() -> (r: Self)
        ensures
            r@ == (AdaptiveView {
                level: 3,
                sample_size: 3,
                chunks_sampled: 0,
                original: 0,
                compressed: 0,
                enabled: true,
                decided: false,
            }),
    {
        AdaptiveCompressor::new(3, 3)
    }
}

/// Compression statistics. The ratio is `original_size / compressed_size`.
#[derive(Debug, Clone, Copy)]
pub struct CompressionStats {
    pub chunks_sampled: usize,
    pub original_size: u128,
    pub compressed_size: u128,
    pub enabled: bool,
    pub decided: bool,
}

/// The decision falls with the last sample and is final: no later chunk
/// changes the state, so compression that was switched off stays off.
pub proof fn law_decision_is_final(v: AdaptiveView, original: nat, compressed: nat)
    requires
        v.decided || v.chunks_sampled + 1 == v.sample_size,
    ensures
        v.after(original, compressed).decided,
        forall|o: nat, c: nat|
            #[trigger] v.after(original, compressed).after(o, c) == v.after(original, compressed),
{
}

/// A state after each of a run of chunks: their sizes, and those of their
/// compressed forms.
pub open spec fn after_all(v: AdaptiveView, chunks: Seq<(nat, nat)>) -> AdaptiveView
    decreases chunks.len(),
{
    if chunks.len() == 0 {
        v
    } else {
        after_all(v, chunks.drop_last()).after(chunks.last().0, chunks.last().1)
    }
}

/// The sizes of a run of chunks together, as they are and compressed.
pub open spec fn sizes_together(chunks: Seq<(nat, nat)>) -> (nat, nat)
    decreases chunks.len(),
{
    if chunks.len() == 0 {
        (0, 0)
    } else {
        let rest = sizes_together(chunks.skip(1));
        (chunks[0].0 + rest.0, chunks[0].1 + rest.1)
    }
}

proof fn lemma_sizes_push(chunks: Seq<(nat, nat)>)
    requires
        chunks.len() > 0,
    ensures
        sizes_together(chunks).0 == sizes_together(chunks.drop_last()).0 + chunks.last().0,
        sizes_together(chunks).1 == sizes_together(chunks.drop_last()).1 + chunks.last().1,
    decreases chunks.len(),
{
    if chunks.len() == 1 {
        assert(chunks.skip(1) =~= Seq::empty());
        assert(chunks.drop_last() =~= Seq::empty());
    } else {
        lemma_sizes_push(chunks.skip(1));
        assert(chunks.skip(1).drop_last() =~= chunks.drop_last().skip(1));
    }
}

/// A compressor that looks at `n` chunks before it decides, as it begins.
pub open spec fn undecided(v: AdaptiveView, n: nat) -> bool {
    &&& v.sample_size == n
    &&& v.chunks_sampled == 0
    &&& v.original == 0
    &&& v.compressed == 0
    &&& v.enabled
    &&& !v.decided
}

/// While fewer chunks came than are looked at nothing is decided, and all of
/// them count.
proof fn lemma_sampling(v: AdaptiveView, n: nat, chunks: Seq<(nat, nat)>)
    requires
        undecided(v, n),
        chunks.len() < n,
    ensures
        ({
            let w = after_all(v, chunks);
            &&& w.enabled
            &&& !w.decided
            &&& w.level == v.level
            &&& w.sample_size == n
            &&& w.chunks_sampled == chunks.len()
            &&& w.original == sizes_together(chunks).0
            &&& w.compressed == sizes_together(chunks).1
        }),
    decreases chunks.len(),
{
    if chunks.len() > 0 {
        lemma_sampling(v, n, chunks.drop_last());
        lemma_sizes_push(chunks);
    }
}

/// Compression stays on while the first `n` chunks are looked at, and after
/// them if and only if they, taken together, divided by their compressed forms,
/// taken together, give at least 1.05. What comes later changes nothing.
pub proof fn law_samples_decide(
    v: AdaptiveView,
    n: nat,
    samples: Seq<(nat, nat)>,
    later: Seq<(nat, nat)>,
)
    requires
        undecided(v, n),
        n > 0,
        samples.len() == n,
    ensures
        forall|k: int|
            0 <= k < n ==> (#[trigger] after_all(v, samples.take(k))).enabled && !after_all(
                v,
                samples.take(k),
            ).decided,
        after_all(v, samples + later).decided,
        after_all(v, samples + later).enabled <==> 100 * sizes_together(samples).0 >= 105
            * sizes_together(samples).1,
        after_all(v, samples + later).level == v.level,
    decreases later.len(),
{
    assert forall|k: int| 0 <= k < n implies (#[trigger] after_all(v, samples.take(k))).enabled
        && !after_all(v, samples.take(k)).decided by {
        lemma_sampling(v, n, samples.take(k));
    }
    if later.len() == 0 {
        assert(samples + later =~= samples);
        lemma_sampling(v, n, samples.drop_last());
        lemma_sizes_push(samples);
    } else {
        law_samples_decide(v, n, samples, later.drop_last());
        assert((samples + later).drop_last() =~= samples + later.drop_last());
    }
}

/// Data that shrinks to nine tenths or less stays compressed, and compression
/// is given up on data that does not shrink, whatever the sizes of the chunks
/// looked at.
pub proof fn law_shrinking_data_stays_compressed(v: AdaptiveView, n: nat, samples: Seq<(nat, nat)>)
    requires
        undecided(v, n),
        n > 0,
        samples.len() == n,
    ensures
        (forall|i: int|
            0 <= i < n ==> 10 * (#[trigger] samples[i]).1 <= 9 * samples[i].0) ==> after_all(
            v,
            samples,
        ).enabled,
        (forall|i: int|
            0 <= i < n ==> (#[trigger] samples[i]).1 >= samples[i].0) && sizes_together(samples).1
            > 0 ==> !after_all(v, samples).enabled,
{
    law_samples_decide(v, n, samples, Seq::empty());
    assert(samples + Seq::<(nat, nat)>::empty() =~= samples);
    if forall|i: int| 0 <= i < n ==> 10 * (#[trigger] samples[i]).1 <= 9 * samples[i].0 {
        lemma_all_shrink(samples);
    }
    if forall|i: int| 0 <= i < n ==> (#[trigger] samples[i]).1 >= samples[i].0 {
        lemma_none_shrinks(samples);
    }
}

proof fn lemma_all_shrink(chunks: Seq<(nat, nat)>)
    requires
        forall|i: int| 0 <= i < chunks.len() ==> 10 * (#[trigger] chunks[i]).1 <= 9 * chunks[i].0,
    ensures
        10 * sizes_together(chunks).1 <= 9 * sizes_together(chunks).0,
    decreases chunks.len(),
{
    if chunks.len() > 0 {
        let rest = chunks.skip(1);
        assert forall|i: int| 0 <= i < rest.len() implies 10 * (#[trigger] rest[i]).1 <= 9
            * rest[i].0 by {
            assert(rest[i] == chunks[i + 1]);
        }
        lemma_all_shrink(rest);
        assert(10 * chunks[0].1 <= 9 * chunks[0].0);
    }
}

proof fn lemma_none_shrinks(chunks: Seq<(nat, nat)>)
    requires
        forall|i: int| 0 <= i < chunks.len() ==> (#[trigger] chunks[i]).1 >= chunks[i].0,
    ensures
        sizes_together(chunks).1 >= sizes_together(chunks).0,
    decreases chunks.len(),
{
    if chunks.len() > 0 {
        let rest = chunks.skip(1);
        assert forall|i: int| 0 <= i < rest.len() implies (#[trigger] rest[i]).1 >= rest[i].0 by {
            assert(rest[i] == chunks[i + 1]);
        }
        lemma_none_shrinks(rest);
        assert(chunks[0].1 >= chunks[0].0);
    }
}

/// The figures told are those gathered: as many chunks as were looked at, their
/// sizes and those of their compressed forms together, and what was decided.
pub proof fn law_figures_told_are_those_gathered(
    c: AdaptiveCompressor,
    stats: CompressionStats,
    on: bool,
    decided: bool,
)
    requires
        call_ensures(AdaptiveCompressor::stats, (&c,), stats),
        call_ensures(AdaptiveCompressor::is_compression_enabled, (&c,), on),
        call_ensures(AdaptiveCompressor::is_decided, (&c,), decided),
    ensures
        stats.chunks_sampled == c@.chunks_sampled,
        stats.original_size == c@.original,
        stats.compressed_size == c@.compressed,
        stats.enabled == on,
        stats.decided == decided,
        on == c@.enabled,
        decided == c@.decided,
{
}

} // verus!
