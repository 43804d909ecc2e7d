//! Chunks on disk: where each one lies, how received chunks are grouped into
//! writes, and the checksum that is kept while they pass.

use std::collections::HashSet;

use vstd::prelude::*;
use vstd::string::*;

use crate::transfer_file::{
    chunk_count, chunk_values, chunks_covering, law_chunks_cover_exactly, lemma_take_to_set,
    FLUSH_BATCH_BYTES,
};
use crate::verification::{sha256_of, RunningHash};

verus! {

broadcast use vstd::std_specs::hash::group_hash_axioms;

/// Where chunk `index` starts.
pub open spec fn chunk_start(index: nat, chunk_size: nat) -> nat {
    index * chunk_size
}

/// Where chunk `index` ends: a chunk size further, or with the file.
pub open spec fn chunk_end(index: nat, chunk_size: nat, file_size: nat) -> nat {
    if (index + 1) * chunk_size <= file_size {
        (index + 1) * chunk_size
    } else {
        file_size
    }
}

/// Chunk `index` of a file.
pub open spec fn chunk_at(content: Seq<u8>, index: nat, chunk_size: nat) -> Seq<u8> {
    content.subrange(
        chunk_start(index, chunk_size) as int,
        chunk_end(index, chunk_size, content.len()) as int,
    )
}

/// The first `n` chunks of a file, one after the other.
pub open spec fn leading_chunks(content: Seq<u8>, chunk_size: nat, n: nat) -> Seq<u8>
    decreases n,
{
    if n == 0 {
        Seq::empty()
    } else {
        leading_chunks(content, chunk_size, (n - 1) as nat) + chunk_at(
            content,
            (n - 1) as nat,
            chunk_size,
        )
    }
}

pub(crate) proof fn lemma_chunk_bounds(file_size: nat, chunk_size: nat, index: nat)
    requires
        chunk_size > 0,
        index < chunks_covering(file_size, chunk_size),
    ensures
        chunk_start(index, chunk_size) < file_size,
        chunk_start(index, chunk_size) < chunk_end(index, chunk_size, file_size) <= file_size,
        chunk_end(index, chunk_size, file_size) <= chunk_start(index, chunk_size) + chunk_size,
        (index + 1) * chunk_size == index * chunk_size + chunk_size,
        index + 1 < chunks_covering(file_size, chunk_size) ==> chunk_end(
            index,
            chunk_size,
            file_size,
        ) == (index + 1) * chunk_size,
        index + 1 == chunks_covering(file_size, chunk_size) ==> chunk_end(
            index,
            chunk_size,
            file_size,
        ) == file_size,
{
    law_chunks_cover_exactly(file_size, chunk_size);
    assert(index * chunk_size < file_size);
    let next = index + 1;
    assert((index + 1) * chunk_size == index * chunk_size + chunk_size) by (nonlinear_arith);
    assert(next * chunk_size >= file_size <==> next >= chunks_covering(file_size, chunk_size));
}

/// A file is its chunks in order: reading them all and hashing as one goes
/// hashes the whole file.
pub proof fn law_chunks_make_up_file(content: Seq<u8>, chunk_size: nat)
    requires
        chunk_size > 0,
    ensures
        leading_chunks(content, chunk_size, chunks_covering(content.len(), chunk_size)) == content,
{
    let total = chunks_covering(content.len(), chunk_size);
    law_chunks_cover_exactly(content.len(), chunk_size);
    if total > 0 {
        lemma_leading_chunks(content, chunk_size, total);
        lemma_chunk_bounds(content.len(), chunk_size, (total - 1) as nat);
        assert(content.take(content.len() as int) =~= content);
    } else {
        assert(0 * chunk_size >= content.len());
        assert(content =~= Seq::empty());
    }
}

proof fn lemma_leading_chunks(content: Seq<u8>, chunk_size: nat, n: nat)
    requires
        chunk_size > 0,
        0 < n <= chunks_covering(content.len(), chunk_size),
    ensures
        leading_chunks(content, chunk_size, n) == content.take(
            chunk_end((n - 1) as nat, chunk_size, content.len()) as int,
        ),
    decreases n,
{
    let last = (n - 1) as nat;
    lemma_chunk_bounds(content.len(), chunk_size, last);
    let end = chunk_end(last, chunk_size, content.len()) as int;
    if n > 1 {
        let prev = (n - 2) as nat;
        lemma_leading_chunks(content, chunk_size, last);
        lemma_chunk_bounds(content.len(), chunk_size, prev);
        assert(leading_chunks(content, chunk_size, n) =~= content.take(end));
    } else {
        assert(leading_chunks(content, chunk_size, 0) =~= Seq::empty());
        assert(0 * chunk_size == 0);
        assert(leading_chunks(content, chunk_size, n) =~= content.take(end));
    }
}

/// The length of chunk `index` of a file.
pub open spec fn chunk_len(index: nat, chunk_size: nat, file_size: nat) -> nat {
    (chunk_end(index, chunk_size, file_size) - chunk_start(index, chunk_size)) as nat
}

/// The bytes of those among the first `n` chunks of a file that are in
/// `chunks`.
pub open spec fn bytes_of_chunks(chunks: Set<u64>, n: nat, chunk_size: nat, file_size: nat) -> nat
    decreases n,
{
    if n == 0 {
        0
    } else {
        let k = (n - 1) as nat;
        bytes_of_chunks(chunks, k, chunk_size, file_size) + if chunks.contains(k as u64) {
            chunk_len(k, chunk_size, file_size)
        } else {
            0
        }
    }
}

/// The bytes of the chunks of a file that are in `chunks`; a number that is no
/// chunk of the file counts nothing.
pub open spec fn bytes_done(chunks: Set<u64>, chunk_size: nat, file_size: nat) -> nat {
    bytes_of_chunks(chunks, chunks_covering(file_size, chunk_size), chunk_size, file_size)
}

proof fn lemma_bytes_within(chunks: Set<u64>, n: nat, chunk_size: nat, file_size: nat)
    requires
        chunk_size > 0,
        n <= chunks_covering(file_size, chunk_size),
    ensures
        bytes_of_chunks(chunks, n, chunk_size, file_size) <= file_size,
        bytes_of_chunks(chunks, n, chunk_size, file_size) <= n * chunk_size,
    decreases n,
{
    if n > 0 {
        let k = (n - 1) as nat;
        lemma_bytes_within(chunks, k, chunk_size, file_size);
        lemma_chunk_bounds(file_size, chunk_size, k);
        assert(k * chunk_size + chunk_size == n * chunk_size) by (nonlinear_arith)
            requires
                n == k + 1,
        ;
    }
}

proof fn lemma_bytes_insert(chunks: Set<u64>, x: u64, n: nat, chunk_size: nat, file_size: nat)
    requires
        !chunks.contains(x),
        n <= u64::MAX + 1,
    ensures
        bytes_of_chunks(chunks.insert(x), n, chunk_size, file_size) == bytes_of_chunks(
            chunks,
            n,
            chunk_size,
            file_size,
        ) + if x < n {
            chunk_len(x as nat, chunk_size, file_size)
        } else {
            0
        },
    decreases n,
{
    if n > 0 {
        lemma_bytes_insert(chunks, x, (n - 1) as nat, chunk_size, file_size);
    }
}

proof fn lemma_bytes_of_none(n: nat, chunk_size: nat, file_size: nat)
    ensures
        bytes_of_chunks(Set::empty(), n, chunk_size, file_size) == 0,
    decreases n,
{
    if n > 0 {
        lemma_bytes_of_none((n - 1) as nat, chunk_size, file_size);
    }
}

/// Chunks of a file never have more bytes than the file, and all of them have
/// as many.
pub proof fn law_chunks_have_the_files_bytes(chunks: Set<u64>, chunk_size: nat, file_size: nat)
    requires
        chunk_size > 0,
        file_size <= u64::MAX,
    ensures
        bytes_done(chunks, chunk_size, file_size) <= file_size,
        (forall|k: u64| k < chunks_covering(file_size, chunk_size) ==> #[trigger] chunks.contains(k))
            ==> bytes_done(chunks, chunk_size, file_size) == file_size,
{
    let total = chunks_covering(file_size, chunk_size);
    lemma_bytes_within(chunks, total, chunk_size, file_size);
    law_chunks_cover_exactly(file_size, chunk_size);
    if forall|k: u64| k < total ==> #[trigger] chunks.contains(k) {
        lemma_bytes_of_all(chunks, total, chunk_size, file_size);
        if total > 0 {
            lemma_chunk_bounds(file_size, chunk_size, (total - 1) as nat);
        }
    }
}

/// Every chunk counts once: no chunks have no bytes; one chunk more adds the
/// bytes that it has, a whole chunk or what is left of the file behind it; a
/// number that is no chunk of the file adds nothing.
pub proof fn law_each_chunk_counts_its_bytes(
    chunks: Set<u64>,
    x: u64,
    chunk_size: nat,
    file_size: nat,
)
    requires
        chunk_size > 0,
        file_size <= u64::MAX,
    ensures
        bytes_done(Set::empty(), chunk_size, file_size) == 0,
        !chunks.contains(x) ==> bytes_done(chunks.insert(x), chunk_size, file_size) == bytes_done(
            chunks,
            chunk_size,
            file_size,
        ) + (if x * chunk_size >= file_size {
            0
        } else if file_size - x * chunk_size < chunk_size {
            file_size - x * chunk_size
        } else {
            chunk_size as int
        }),
{
    let total = chunks_covering(file_size, chunk_size);
    lemma_bytes_of_none(total, chunk_size, file_size);
    lemma_fewer_chunks_than_bytes(file_size, chunk_size);
    law_chunks_cover_exactly(file_size, chunk_size);
    let n = x as nat;
    assert(n * chunk_size >= file_size <==> n >= total);
    if !chunks.contains(x) {
        lemma_bytes_insert(chunks, x, total, chunk_size, file_size);
        if n < total {
            lemma_chunk_bounds(file_size, chunk_size, n);
        }
    }
}

proof fn lemma_bytes_of_all(chunks: Set<u64>, n: nat, chunk_size: nat, file_size: nat)
    requires
        chunk_size > 0,
        file_size <= u64::MAX,
        n <= chunks_covering(file_size, chunk_size),
        forall|k: u64| k < n ==> #[trigger] chunks.contains(k),
    ensures
        n == 0 ==> bytes_of_chunks(chunks, n, chunk_size, file_size) == 0,
        n > 0 ==> bytes_of_chunks(chunks, n, chunk_size, file_size) == chunk_end(
            (n - 1) as nat,
            chunk_size,
            file_size,
        ),
    decreases n,
{
    if n > 0 {
        let k = (n - 1) as nat;
        lemma_bytes_of_all(chunks, k, chunk_size, file_size);
        lemma_chunk_bounds(file_size, chunk_size, k);
        lemma_fewer_chunks_than_bytes(file_size, chunk_size);
        assert(chunks.contains(k as u64));
        if k > 0 {
            lemma_chunk_bounds(file_size, chunk_size, (k - 1) as nat);
        }
        assert(0 * chunk_size == 0);
    }
}

pub(crate) proof fn lemma_fewer_chunks_than_bytes(file_size: nat, chunk_size: nat)
    requires
        chunk_size > 0,
    ensures
        chunks_covering(file_size, chunk_size) <= file_size,
{
    law_chunks_cover_exactly(file_size, chunk_size);
    assert(file_size * chunk_size >= file_size) by (nonlinear_arith)
        requires
            chunk_size > 0,
    ;
}

/// The bytes of the chunks of a file that a list names, each counted once.
pub(crate) fn count_done(list: &[u64], chunk_size: u32, file_size: u64) -> (r: u64)
    requires
        chunk_size > 0,
    ensures
        r == bytes_done(list@.to_set(), chunk_size as nat, file_size as nat),
        r <= file_size,
{
    let total: u64 = chunk_count(file_size, chunk_size);
    let ghost cs = chunk_size as nat;
    let ghost size = file_size as nat;
    let mut seen: HashSet<u64> = HashSet::new();
    let mut sum: u64 = 0;
    let mut i: usize = 0;
    proof {
        assert(list@.take(0).to_set() =~= Set::<u64>::empty());
        lemma_bytes_of_none(total as nat, cs, size);
    }
    while i < list.len()
        invariant
            cs == chunk_size,
            cs > 0,
            size == file_size,
            total == chunks_covering(size, cs),
            i <= list@.len(),
            seen@ == list@.take(i as int).to_set(),
            sum == bytes_of_chunks(seen@, total as nat, cs, size),
        decreases list@.len() - i,
    {
        let k: u64 = list[i];
        let ghost before = seen@;
        if !seen.contains(&k) {
            proof {
                lemma_bytes_insert(before, k, total as nat, cs, size);
                lemma_bytes_within(before.insert(k), total as nat, cs, size);
            }
            if k < total {
                proof {
                    lemma_chunk_bounds(size, cs, k as nat);
                    assert((k + 1) * cs == k * cs + cs) by (nonlinear_arith);
                }
                let start: u64 = k * chunk_size as u64;
                let left: u64 = file_size - start;
                let len: u64 = if left < chunk_size as u64 {
                    left
                } else {
                    chunk_size as u64
                };
                sum = sum + len;
            }
            seen.insert(k);
        } else {
            assert(before.insert(k) =~= before);
        }
        proof {
            lemma_take_to_set(list@, i as int);
        }
        i += 1;
    }
    proof {
        assert(list@.take(i as int) =~= list@);
        lemma_bytes_within(seen@, total as nat, cs, size);
    }
    sum
}

/// The sender's walk through a file: where each chunk lies, and the checksum
/// of what was read.
pub struct ChunkReader {
    chunk_size: u32,
    total_chunks: u64,
    file_size: u64,
    hash: RunningHash,
}

impl ChunkReader {
    pub closed spec fn spec_chunk_size(&self) -> u32 {
        self.chunk_size
    }

    pub closed spec fn spec_file_size(&self) -> u64 {
        self.file_size
    }

    /// What was read so far.
    pub closed spec fn absorbed(&self) -> Seq<u8> {
        self.hash@
    }

    pub closed spec fn wf(&self) -> bool {
        &&& self.chunk_size > 0
        &&& self.total_chunks == chunks_covering(self.file_size as nat, self.chunk_size as nat)
    }

    /// A walk through a file of `file_size` bytes.
    pub fn new(file_size: u64, chunk_size: u32) -> (r: Self)
        requires
            chunk_size > 0,
        ensures
            r.wf(),
            r.spec_file_size() == file_size,
            r.spec_chunk_size() == chunk_size,
            r.absorbed() == Seq::<u8>::empty(),
    {
        ChunkReader {
            chunk_size,
            total_chunks: chunk_count(file_size, chunk_size),
            file_size,
            hash: RunningHash::new(),
        }
    }

    /// Number of chunks of the file.
    pub fn total_chunks(&self) -> (r: u64)
        requires
            self.wf(),
        ensures
            r == chunks_covering(self.spec_file_size() as nat, self.spec_chunk_size() as nat),
    {
        self.total_chunks
    }

    /// Where chunk `index` lies: its offset and its length.
    pub fn chunk_span(&self, index: u64) -> (r: (u64, usize))
        requires
            self.wf(),
            index < chunks_covering(self.spec_file_size() as nat, self.spec_chunk_size() as nat),
        ensures
            r.0 == chunk_start(index as nat, self.spec_chunk_size() as nat),
            r.0 + r.1 == chunk_end(
                index as nat,
                self.spec_chunk_size() as nat,
                self.spec_file_size() as nat,
            ),
            r.1 > 0,
    {
        proof {
            lemma_chunk_bounds(self.file_size as nat, self.chunk_size as nat, index as nat);
        }
        let offset: u64 = index * self.chunk_size as u64;
        let remaining: u64 = self.file_size - offset;
        let size: u64 = self.chunk_size as u64;
        let len: usize = if remaining < size {
            remaining as usize
        } else {
            size as usize
        };
        (offset, len)
    }

    /// Takes in what was read.
    pub fn absorb(&mut self, data: &[u8])
        requires
            old(self).wf(),
        ensures
            final(self).wf(),
            final(self).spec_file_size() == old(self).spec_file_size(),
            final(self).spec_chunk_size() == old(self).spec_chunk_size(),
            final(self).absorbed() == old(self).absorbed() + data@,
    {
        self.hash.update(data);
    }

    /// The SHA-256 of what was read.
    pub fn finalize_checksum(self) -> (digest: [u8; 32])
        ensures
            digest@ == sha256_of(self.absorbed()),
    {
        self.hash.finalize()
    }
}

// ---------------------------------------------------------------- checksum

/// The receiver's record of a file being written.
pub ghost struct LedgerView {
    pub chunk_size: nat,
    pub file_size: nat,
    /// Bytes written in order from the start.
    pub next_expected: nat,
    pub out_of_order: bool,
    pub absorbed: Seq<u8>,
}

impl LedgerView {
    /// The record after chunk `index` was written: the next chunk in order is
    /// hashed, an earlier one is ignored, a later one ends the running hash.
    pub open spec fn recorded(self, index: nat, data: Seq<u8>) -> LedgerView {
        let offset = chunk_start(index, self.chunk_size);
        if self.out_of_order || offset < self.next_expected {
            self
        } else if offset == self.next_expected {
            let end = self.next_expected + data.len();
            LedgerView {
                absorbed: self.absorbed + data,
                next_expected: if end > u64::MAX {
                    u64::MAX as nat
                } else {
                    end
                },
                ..self
            }
        } else {
            LedgerView { out_of_order: true, ..self }
        }
    }

    /// Whether the running hash covers the file.
    pub open spec fn covers_file(self) -> bool {
        !self.out_of_order && self.next_expected == self.file_size
    }

    /// The checksum that goes with the record once the file holds `file`: that
    /// of what was hashed where this covers the file, else that of the file as
    /// it is read again.
    pub open spec fn checksum(self, file: Seq<u8>) -> Seq<u8> {
        if self.covers_file() {
            sha256_of(self.absorbed)
        } else {
            sha256_of(file)
        }
    }

    /// The record of a file with this content: what was hashed is a prefix.
    pub open spec fn tracks(self, content: Seq<u8>) -> bool {
        &&& self.file_size == content.len()
        &&& !self.out_of_order ==> self.next_expected <= content.len() && self.absorbed
            == content.take(self.next_expected as int)
    }
}

/// The record of a file of which nothing was written.
pub open spec fn fresh_ledger(chunk_size: nat, file_size: nat) -> LedgerView {
    LedgerView {
        chunk_size,
        file_size,
        next_expected: 0,
        out_of_order: false,
        absorbed: Seq::empty(),
    }
}

/// As long as the chunks written are those of the file, the record tracks the
/// file, whatever the order they come in and however often; and where the
/// running hash covers the file, it is the hash of the file.
pub proof fn law_running_hash_is_file_hash(
    v: LedgerView,
    content: Seq<u8>,
    index: nat,
)
    requires
        v.chunk_size > 0,
        content.len() <= u64::MAX,
        v.tracks(content),
        index < chunks_covering(content.len(), v.chunk_size),
    ensures
        v.recorded(index, chunk_at(content, index, v.chunk_size)).tracks(content),
        v.covers_file() ==> sha256_of(v.absorbed) == sha256_of(content),
{
    lemma_chunk_bounds(content.len(), v.chunk_size, index);
    let data = chunk_at(content, index, v.chunk_size);
    let w = v.recorded(index, data);
    if !v.out_of_order && chunk_start(index, v.chunk_size) == v.next_expected {
        assert(w.absorbed =~= content.take(w.next_expected as int));
    }
    if v.covers_file() {
        assert(content.take(content.len() as int) =~= content);
    }
}

/// The running checksum of a file being received.
pub struct ChunkWriter {
    chunk_size: u32,
    hash: RunningHash,
    next_expected: u64,
    out_of_order: bool,
    file_size: u64,
}

impl View for ChunkWriter {
    type V = LedgerView;

    closed spec fn view(&self) -> LedgerView {
        LedgerView {
            chunk_size: self.chunk_size as nat,
            file_size: self.file_size as nat,
            next_expected: self.next_expected as nat,
            out_of_order: self.out_of_order,
            absorbed: self.hash@,
        }
    }
}

impl ChunkWriter {
    /// The record of a file of which nothing was written.
    pub fn new(chunk_size: u32, file_size: u64) -> (r: Self)
        ensures
            r@ == fresh_ledger(chunk_size as nat, file_size as nat),
    {
        ChunkWriter {
            chunk_size,
            hash: RunningHash::new(),
            next_expected: 0,
            out_of_order: false,
            file_size,
        }
    }

    /// The length to cut a left-over partial file to, where it is longer than
    /// the file, so that no stale bytes survive behind its end.
    pub fn truncate_to(&self, current_len: u64) -> (r: Option<u64>)
        ensures
            r == (if current_len > self@.file_size {
                Some(self@.file_size as u64)
            } else {
                None
            }),
    {
        if current_len > self.file_size {
            Some(self.file_size)
        } else {
            None
        }
    }

    /// Records that chunk `index` was written.
    pub fn record_hash(&mut self, index: u64, data: &[u8])
        requires
            chunk_start(index as nat, old(self)@.chunk_size) <= u64::MAX,
        ensures
            final(self)@ == old(self)@.recorded(index as nat, data@),
    {
        if self.out_of_order {
            return;
        }
        let offset: u64 = index * self.chunk_size as u64;
        if offset == self.next_expected {
            self.hash.update(data);
            self.next_expected = self.next_expected.saturating_add(data.len() as u64);
        } else if offset < self.next_expected {
        } else {
            self.out_of_order = true;
        }
    }

    /// The SHA-256 of the file where the running hash covers it; `None` where
    /// the file has to be read again.
    pub fn finalize(self) -> (r: Option<[u8; 32]>)
        ensures
            r is Some <==> self@.covers_file(),
            r matches Some(digest) ==> forall|file: Seq<u8>|
                digest@ == #[trigger] self@.checksum(file),
    {
        if !self.out_of_order && self.next_expected == self.file_size {
            Some(self.hash.finalize())
        } else {
            None
        }
    }
}

/// The name a file has until it is complete.
pub fn partial_path(path: &str) -> (r: String)
    ensures
        r@ == path@ + ".partial"@,
{
    let mut p = path.to_owned();
    p.append(".partial");
    p
}

// ---------------------------------------------------------------- writes

/// A file after `data` was written at `offset`: bytes before that were never
/// written are zero, and writing nothing changes nothing.
pub open spec fn written(file: Seq<u8>, offset: nat, data: Seq<u8>) -> Seq<u8> {
    if data.len() == 0 {
        file
    } else {
        let end = offset + data.len();
        Seq::new(
            if file.len() > end {
                file.len()
            } else {
                end
            },
            |i: int|
                if offset <= i < end {
                    data[i - offset]
                } else if i < file.len() {
                    file[i]
                } else {
                    0
                },
        )
    }
}

/// A file after each of the writes, in order.
pub open spec fn all_written(file: Seq<u8>, writes: Seq<(u64, Seq<u8>)>) -> Seq<u8>
    decreases writes.len(),
{
    if writes.len() == 0 {
        file
    } else {
        written(
            all_written(file, writes.drop_last()),
            writes.last().0 as nat,
            writes.last().1,
        )
    }
}

/// The writes of chunks, each at its place.
pub open spec fn chunk_writes(chunks: Seq<(u64, Seq<u8>)>, chunk_size: nat) -> Seq<
    (u64, Seq<u8>),
> {
    chunks.map_values(|c: (u64, Seq<u8>)| (chunk_start(c.0 as nat, chunk_size) as u64, c.1))
}

/// The data of a run of chunks, one after the other.
pub open spec fn joined(chunks: Seq<(u64, Seq<u8>)>) -> Seq<u8>
    decreases chunks.len(),
{
    if chunks.len() == 0 {
        Seq::empty()
    } else {
        joined(chunks.drop_last()) + chunks.last().1
    }
}

/// Chunks with consecutive indices.
pub open spec fn consecutive(chunks: Seq<(u64, Seq<u8>)>) -> bool {
    forall|i: int| 0 <= i < chunks.len() ==> (#[trigger] chunks[i]).0 == chunks[0].0 + i
}

/// Chunks that lie one behind the other: consecutive indices, and all but the
/// last full.
pub open spec fn adjoining(chunks: Seq<(u64, Seq<u8>)>, chunk_size: nat) -> bool {
    &&& consecutive(chunks)
    &&& forall|i: int| 0 <= i < chunks.len() - 1 ==> (#[trigger] chunks[i]).1.len() == chunk_size
}

/// How a run of chunks is written: in one go where they lie one behind the
/// other, else one by one.
pub open spec fn write_plan(chunks: Seq<(u64, Seq<u8>)>, chunk_size: nat) -> Seq<(u64, Seq<u8>)> {
    if chunks.len() == 0 {
        Seq::empty()
    } else if adjoining(chunks, chunk_size) {
        seq![(chunk_start(chunks[0].0 as nat, chunk_size) as u64, joined(chunks))]
    } else {
        chunk_writes(chunks, chunk_size)
    }
}

proof fn lemma_adjacent_writes(file: Seq<u8>, offset: nat, a: Seq<u8>, b: Seq<u8>)
    ensures
        written(written(file, offset, a), offset + a.len(), b) == written(file, offset, a + b),
{
    assert(written(written(file, offset, a), offset + a.len(), b) =~= written(file, offset, a + b));
}

proof fn lemma_joined_write(file: Seq<u8>, chunks: Seq<(u64, Seq<u8>)>, chunk_size: nat)
    requires
        chunks.len() > 0,
        consecutive(chunks),
        forall|i: int|
            0 <= i < chunks.len() ==> chunk_start((#[trigger] chunks[i]).0 as nat, chunk_size)
                <= u64::MAX,
        forall|i: int| 0 <= i < chunks.len() - 1 ==> (#[trigger] chunks[i]).1.len() == chunk_size,
    ensures
        written(file, chunk_start(chunks[0].0 as nat, chunk_size), joined(chunks)) == all_written(
            file,
            chunk_writes(chunks, chunk_size),
        ),
        (forall|i: int| 0 <= i < chunks.len() ==> (#[trigger] chunks[i]).1.len() == chunk_size)
            ==> joined(chunks).len() == chunks.len() * chunk_size,
    decreases chunks.len(),
{
    let init = chunks.drop_last();
    let last = chunks.last();
    let start = chunk_start(chunks[0].0 as nat, chunk_size);
    let ws = chunk_writes(chunks, chunk_size);
    assert(ws.drop_last() =~= chunk_writes(init, chunk_size));
    assert(chunk_start(chunks[chunks.len() - 1].0 as nat, chunk_size) <= u64::MAX);
    assert(ws.last() == (chunk_start(last.0 as nat, chunk_size) as u64, last.1));
    if init.len() == 0 {
        assert(chunks.len() == 1);
        assert(joined(init) =~= Seq::<u8>::empty());
        assert(joined(chunks) =~= last.1);
        assert(all_written(file, ws.drop_last()) == file);
        assert(1 * chunk_size == chunk_size);
    } else {
        assert forall|i: int| 0 <= i < init.len() implies (#[trigger] init[i]).0 == init[0].0 + i by {
            assert(init[i] == chunks[i]);
        }
        assert forall|i: int| 0 <= i < init.len() implies (#[trigger] init[i]).1.len()
            == chunk_size by {
            assert(init[i] == chunks[i]);
        }
        assert forall|i: int| 0 <= i < init.len() implies chunk_start(
            (#[trigger] init[i]).0 as nat,
            chunk_size,
        ) <= u64::MAX by {
            assert(init[i] == chunks[i]);
        }
        lemma_joined_write(file, init, chunk_size);
        assert(chunks[chunks.len() - 1].0 == chunks[0].0 + (chunks.len() - 1));
        assert((chunks[0].0 + init.len()) * chunk_size == chunks[0].0 * chunk_size + init.len()
            * chunk_size) by (nonlinear_arith);
        assert(chunk_start(last.0 as nat, chunk_size) == start + joined(init).len());
        lemma_adjacent_writes(file, start, joined(init), last.1);
        assert((init.len() + 1) * chunk_size == init.len() * chunk_size + chunk_size)
            by (nonlinear_arith);
        if forall|i: int| 0 <= i < chunks.len() ==> (#[trigger] chunks[i]).1.len() == chunk_size {
            assert(chunks[chunks.len() - 1].1.len() == chunk_size);
        }
    }
}

/// However a run of chunks is written, the file is the same as when each is
/// written at its place.
pub proof fn law_grouped_write(file: Seq<u8>, chunks: Seq<(u64, Seq<u8>)>, chunk_size: nat)
    requires
        forall|i: int|
            0 <= i < chunks.len() ==> chunk_start((#[trigger] chunks[i]).0 as nat, chunk_size)
                <= u64::MAX,
    ensures
        all_written(file, write_plan(chunks, chunk_size)) == all_written(
            file,
            chunk_writes(chunks, chunk_size),
        ),
{
    if chunks.len() == 0 {
        assert(chunk_writes(chunks, chunk_size) =~= Seq::empty());
    } else if adjoining(chunks, chunk_size) {
        lemma_joined_write(file, chunks, chunk_size);
        assert(chunk_start(chunks[0].0 as nat, chunk_size) <= u64::MAX);
        let plan = write_plan(chunks, chunk_size);
        assert(plan.drop_last() =~= Seq::empty());
        reveal_with_fuel(all_written, 2);
    }
}

/// The writes of chunks of one file, in the given order.
pub open spec fn file_writes(content: Seq<u8>, chunk_size: nat, order: Seq<u64>) -> Seq<
    (u64, Seq<u8>),
> {
    Seq::new(
        order.len(),
        |i: int|
            (
                chunk_start(order[i] as nat, chunk_size) as u64,
                chunk_at(content, order[i] as nat, chunk_size),
            ),
    )
}

/// Whether a partial file has a chunk already.
pub open spec fn in_place(partial: Seq<u8>, content: Seq<u8>, k: nat, chunk_size: nat) -> bool {
    &&& partial.len() >= chunk_end(k, chunk_size, content.len())
    &&& partial.subrange(
        chunk_start(k, chunk_size) as int,
        chunk_end(k, chunk_size, content.len()) as int,
    ) == chunk_at(content, k, chunk_size)
}

/// The destination matches the source: writing the chunks of a file, each at
/// its place, in any order and any number of times, over a partial file that
/// is no longer than the file, restores the file as soon as every chunk that
/// was not already in place was written.
pub proof fn law_all_chunks_restore_file(
    partial: Seq<u8>,
    content: Seq<u8>,
    chunk_size: nat,
    order: Seq<u64>,
)
    requires
        chunk_size > 0,
        content.len() <= u64::MAX,
        partial.len() <= content.len(),
        forall|i: int|
            0 <= i < order.len() ==> (#[trigger] order[i]) < chunks_covering(
                content.len(),
                chunk_size,
            ),
        forall|k: nat|
            k < chunks_covering(content.len(), chunk_size) ==> (#[trigger] in_place(
                partial,
                content,
                k,
                chunk_size,
            )) || exists|i: int| 0 <= i < order.len() && #[trigger] order[i] == k,
    ensures
        all_written(partial, file_writes(content, chunk_size, order)) == content,
{
    let result = all_written(partial, file_writes(content, chunk_size, order));
    let total = chunks_covering(content.len(), chunk_size);
    lemma_written_chunks(partial, content, chunk_size, order);
    assert forall|p: int| 0 <= p < content.len() implies result[p] == content[p] by {
        let k = (p / chunk_size as int) as nat;
        lemma_position_in_chunk(content.len(), chunk_size, p as nat);
        assert(chunk_at(content, k, chunk_size)[p - chunk_start(k, chunk_size)] == content[p]);
        if in_place(partial, content, k, chunk_size) {
            let in_partial = partial.subrange(
                chunk_start(k, chunk_size) as int,
                chunk_end(k, chunk_size, content.len()) as int,
            );
            assert(in_partial[p - chunk_start(k, chunk_size)] == partial[p]);
            assert(partial[p] == content[p]);
        } else {
            let i = choose|i: int| 0 <= i < order.len() && #[trigger] order[i] == k;
            assert(chunk_start(order[i] as nat, chunk_size) <= p < chunk_end(
                order[i] as nat,
                chunk_size,
                content.len(),
            ));
        }
    }
    if content.len() > 0 {
        let p = (content.len() - 1) as nat;
        lemma_position_in_chunk(content.len(), chunk_size, p);
        let k = p / chunk_size;
        if !in_place(partial, content, k, chunk_size) {
            let i = choose|i: int| 0 <= i < order.len() && #[trigger] order[i] == k;
            assert(chunk_end(order[i] as nat, chunk_size, content.len()) <= result.len());
        }
    }
    assert(result =~= content);
}

proof fn lemma_position_in_chunk(file_size: nat, chunk_size: nat, p: nat)
    requires
        chunk_size > 0,
        p < file_size,
    ensures
        ({
            let k = p / chunk_size;
            &&& k < chunks_covering(file_size, chunk_size)
            &&& chunk_start(k, chunk_size) <= p < chunk_end(k, chunk_size, file_size)
        }),
{
    let k = p / chunk_size;
    vstd::arithmetic::div_mod::lemma_fundamental_div_mod(p as int, chunk_size as int);
    assert(chunk_size * k == k * chunk_size) by (nonlinear_arith);
    law_chunks_cover_exactly(file_size, chunk_size);
    assert(k * chunk_size < file_size);
    lemma_chunk_bounds(file_size, chunk_size, k);
}

/// Every position is what it was, or what the file has there; the latter
/// wherever a chunk over it was written.
proof fn lemma_written_chunks(
    partial: Seq<u8>,
    content: Seq<u8>,
    chunk_size: nat,
    order: Seq<u64>,
)
    requires
        chunk_size > 0,
        content.len() <= u64::MAX,
        partial.len() <= content.len(),
        forall|i: int|
            0 <= i < order.len() ==> (#[trigger] order[i]) < chunks_covering(
                content.len(),
                chunk_size,
            ),
    ensures
        ({
            let result = all_written(partial, file_writes(content, chunk_size, order));
            &&& partial.len() <= result.len() <= content.len()
            &&& forall|p: int|
                0 <= p < partial.len() && partial[p] == content[p] ==> #[trigger] result[p]
                    == content[p]
            &&& forall|p: int, i: int|
                0 <= i < order.len() && chunk_start((#[trigger] order[i]) as nat, chunk_size) <= p
                    < chunk_end(order[i] as nat, chunk_size, content.len()) ==> #[trigger] result[p]
                    == content[p]
            &&& forall|i: int|
                0 <= i < order.len() ==> chunk_end(
                    (#[trigger] order[i]) as nat,
                    chunk_size,
                    content.len(),
                ) <= result.len()
        }),
    decreases order.len(),
{
    let ws = file_writes(content, chunk_size, order);
    if order.len() > 0 {
        let init = order.drop_last();
        assert forall|i: int| 0 <= i < init.len() implies (#[trigger] init[i]) < chunks_covering(
            content.len(),
            chunk_size,
        ) by {
            assert(init[i] == order[i]);
        }
        lemma_written_chunks(partial, content, chunk_size, init);
        assert(ws.drop_last() =~= file_writes(content, chunk_size, init));
        let k = order.last();
        assert(order[order.len() - 1] == k);
        lemma_chunk_bounds(content.len(), chunk_size, k as nat);
        let before = all_written(partial, file_writes(content, chunk_size, init));
        let data = chunk_at(content, k as nat, chunk_size);
        let start = chunk_start(k as nat, chunk_size);
        let result = all_written(partial, ws);
        assert(ws.last() == (start as u64, data));
        assert(result == written(before, start, data));
        assert forall|p: int, i: int|
            0 <= i < order.len() && chunk_start((#[trigger] order[i]) as nat, chunk_size) <= p
                < chunk_end(order[i] as nat, chunk_size, content.len()) implies #[trigger] result[p]
            == content[p] by {
            if i < order.len() - 1 {
                assert(init[i] == order[i]);
                assert(before[p] == content[p]);
            }
        }
        assert forall|i: int| 0 <= i < order.len() implies chunk_end(
            (#[trigger] order[i]) as nat,
            chunk_size,
            content.len(),
        ) <= result.len() by {
            if i < order.len() - 1 {
                assert(init[i] == order[i]);
            }
        }
        assert forall|p: int| 0 <= p < partial.len() && partial[p] == content[p] implies
            #[trigger] result[p] == content[p] by {
            assert(before[p] == content[p]);
        }
    }
}

/// Turns a run of received chunks into writes.
pub fn plan_writes(chunks: &Vec<(u64, Vec<u8>)>, chunk_size: u32) -> (r: Vec<(u64, Vec<u8>)>)
    requires
        forall|i: int|
            0 <= i < chunks@.len() ==> chunk_start((#[trigger] chunks@[i]).0 as nat, chunk_size as nat)
                <= u64::MAX,
    ensures
        chunk_values(r@) == write_plan(chunk_values(chunks@), chunk_size as nat),
{
    let ghost values = chunk_values(chunks@);
    let mut out: Vec<(u64, Vec<u8>)> = Vec::new();
    if chunks.is_empty() {
        assert(chunk_values(out@) =~= Seq::empty());
        return out;
    }
    let start: u64 = chunks[0].0;
    let mut in_a_row: bool = true;
    let mut i: usize = 0;
    while i < chunks.len()
        invariant
            chunks@.len() > 0,
            i <= chunks@.len(),
            values == chunk_values(chunks@),
            start == values[0].0,
            in_a_row <==> (forall|j: int| 0 <= j < i ==> (#[trigger] values[j]).0 == start + j) && (
            forall|j: int|
                0 <= j < i && j < values.len() - 1 ==> (#[trigger] values[j]).1.len() == chunk_size),
        decreases chunks@.len() - i,
    {
        assert(values[i as int].0 == chunks@[i as int].0);
        assert(values[i as int].1 == chunks@[i as int].1@);
        if chunks[i].0 < start || chunks[i].0 - start != i as u64 {
            in_a_row = false;
        }
        if i < chunks.len() - 1 && chunks[i].1.len() as u64 != chunk_size as u64 {
            in_a_row = false;
        }
        i += 1;
    }
    if in_a_row {
        let mut buf: Vec<u8> = Vec::new();
        let mut i: usize = 0;
        assert(joined(values.take(0)) =~= Seq::<u8>::empty());
        while i < chunks.len()
            invariant
                i <= chunks@.len(),
                values == chunk_values(chunks@),
                buf@ == joined(values.take(i as int)),
            decreases chunks@.len() - i,
        {
            buf.extend_from_slice(chunks[i].1.as_slice());
            proof {
                let t = values.take(i + 1);
                assert(t.drop_last() =~= values.take(i as int));
                assert(t.last() == values[i as int]);
                assert(buf@ =~= joined(t));
            }
            i += 1;
        }
        assert(values.take(i as int) =~= values);
        assert(chunk_start(chunks@[0].0 as nat, chunk_size as nat) <= u64::MAX);
        out.push((start * chunk_size as u64, buf));
        assert(chunk_values(out@) =~= write_plan(values, chunk_size as nat));
    } else {
        let mut i: usize = 0;
        while i < chunks.len()
            invariant
                i <= chunks@.len(),
                values == chunk_values(chunks@),
                forall|i: int|
                    0 <= i < chunks@.len() ==> chunk_start(
                        (#[trigger] chunks@[i]).0 as nat,
                        chunk_size as nat,
                    ) <= u64::MAX,
                chunk_values(out@) == chunk_writes(values, chunk_size as nat).take(i as int),
            decreases chunks@.len() - i,
        {
            let ghost before = out@;
            assert(chunk_start(chunks@[i as int].0 as nat, chunk_size as nat) <= u64::MAX);
            let offset: u64 = chunks[i].0 * chunk_size as u64;
            let mut data: Vec<u8> = Vec::new();
            data.extend_from_slice(chunks[i].1.as_slice());
            assert(data@ =~= chunks@[i as int].1@);
            out.push((offset, data));
            proof {
                assert(chunk_values(out@) =~= chunk_values(before).push((offset, data@)));
                assert(chunk_writes(values, chunk_size as nat).take(i + 1) =~= chunk_writes(
                    values,
                    chunk_size as nat,
                ).take(i as int).push((offset, data@)));
            }
            i += 1;
        }
        assert(chunk_writes(values, chunk_size as nat).take(i as int) =~= chunk_writes(
            values,
            chunk_size as nat,
        ));
        assert(!adjoining(values, chunk_size as nat));
    }
    out
}

/// What is handed over, what stays behind and how many bytes are counted once a
/// chunk is added.
pub open spec fn batched(current: Seq<(u64, Seq<u8>)>, bytes: nat, chunk: (u64, Seq<u8>)) -> (
    Seq<(u64, Seq<u8>)>,
    Seq<(u64, Seq<u8>)>,
    nat,
) {
    if bytes + chunk.1.len() >= FLUSH_BATCH_BYTES {
        (current.push(chunk), Seq::empty(), 0)
    } else {
        (Seq::empty(), current.push(chunk), bytes + chunk.1.len())
    }
}

/// What comes out and what stays behind once a chunk is added to a run.
pub open spec fn grouped(run: Seq<(u64, Seq<u8>)>, chunk: (u64, Seq<u8>)) -> (
    Seq<(u64, Seq<u8>)>,
    Seq<(u64, Seq<u8>)>,
) {
    if run.len() > 0 && run.last().0 + 1 == chunk.0 {
        (Seq::empty(), run.push(chunk))
    } else {
        (run, seq![chunk])
    }
}

/// Chunks on their way to the disk writer, handed over in batches that bound
/// the memory held.
pub struct WriteBatcher {
    current: Vec<(u64, Vec<u8>)>,
    bytes: usize,
}

impl WriteBatcher {
    /// The chunks not handed over yet.
    pub closed spec fn current(&self) -> Seq<(u64, Seq<u8>)> {
        chunk_values(self.current@)
    }

    /// The bytes counted since a batch was handed over for its size.
    pub closed spec fn bytes(&self) -> nat {
        self.bytes as nat
    }

    pub closed spec fn wf(&self) -> bool {
        self.bytes < FLUSH_BATCH_BYTES
    }

    /// No chunks.
    pub fn new() -> (r: Self)
        ensures
            r.wf(),
            r.current() == Seq::<(u64, Seq<u8>)>::empty(),
            r.bytes() == 0,
    {
        let r = WriteBatcher { current: Vec::new(), bytes: 0 };
        assert(r.current() =~= Seq::empty());
        r
    }

    /// Adds a chunk; hands the batch over once enough bytes were counted.
    pub fn push(&mut self, index: u64, data: Vec<u8>) -> (r: Option<Vec<(u64, Vec<u8>)>>)
        requires
            old(self).wf(),
        ensures
            final(self).wf(),
            ({
                let (handed, left, counted) = batched(
                    old(self).current(),
                    old(self).bytes(),
                    (index, data@),
                );
                &&& match r {
                    Some(batch) => chunk_values(batch@) == handed && handed.len() > 0,
                    None => handed.len() == 0,
                }
                &&& final(self).current() == left
                &&& final(self).bytes() == counted
            }),
    {
        let len: usize = data.len();
        let ghost value = (index, data@);
        self.current.push((index, data));
        assert(self.current() =~= old(self).current().push(value));
        if len >= FLUSH_BATCH_BYTES - self.bytes {
            self.bytes = 0;
            let mut batch: Vec<(u64, Vec<u8>)> = Vec::new();
            let ghost all = self.current@;
            batch.append(&mut self.current);
            assert(batch@ =~= all);
            assert(self.current() =~= Seq::empty());
            Some(batch)
        } else {
            self.bytes = self.bytes + len;
            None
        }
    }

    /// Hands over what is left at the end of a stream. The bytes counted stay
    /// counted.
    pub fn end_stream(&mut self) -> (r: Option<Vec<(u64, Vec<u8>)>>)
        requires
            old(self).wf(),
        ensures
            final(self).wf(),
            final(self).bytes() == old(self).bytes(),
            final(self).current() == Seq::<(u64, Seq<u8>)>::empty(),
            match r {
                Some(batch) => chunk_values(batch@) == old(self).current() && batch@.len() > 0,
                None => old(self).current() == Seq::<(u64, Seq<u8>)>::empty(),
            },
    {
        if self.current.is_empty() {
            assert(self.current() =~= Seq::empty());
            return None;
        }
        let mut batch: Vec<(u64, Vec<u8>)> = Vec::new();
        batch.append(&mut self.current);
        assert(batch@ =~= old(self).current@);
        assert(self.current() =~= Seq::empty());
        Some(batch)
    }
}

/// The run of consecutive chunks that the disk writer is collecting.
pub struct WriteGroup {
    group: Vec<(u64, Vec<u8>)>,
}

impl View for WriteGroup {
    type V = Seq<(u64, Seq<u8>)>;

    closed spec fn view(&self) -> Seq<(u64, Seq<u8>)> {
        chunk_values(self.group@)
    }
}

impl WriteGroup {
    /// No chunks.
    pub fn new() -> (r: Self)
        ensures
            r@ == Seq::<(u64, Seq<u8>)>::empty(),
            consecutive(r@),
    {
        let r = WriteGroup { group: Vec::new() };
        assert(r@ =~= Seq::empty());
        r
    }

    /// Adds a chunk. One that does not follow the run ends it: the run so far
    /// comes out, and the chunk starts the next.
    pub fn push(&mut self, index: u64, data: Vec<u8>) -> (r: Vec<(u64, Vec<u8>)>)
        requires
            consecutive(old(self)@),
        ensures
            consecutive(final(self)@),
            (chunk_values(r@), final(self)@) == grouped(old(self)@, (index, data@)),
    {
        let n: usize = self.group.len();
        let ghost value = (index, data@);
        let ghost before = self.group@;
        let follows: bool = n > 0 && index > 0 && self.group[n - 1].0 == index - 1;
        let mut done: Vec<(u64, Vec<u8>)> = Vec::new();
        if !follows {
            done.append(&mut self.group);
            assert(done@ =~= before);
        } else {
            assert(chunk_values(done@) =~= Seq::empty());
        }
        let ghost rest = self.group@;
        self.group.push((index, data));
        assert(self@ =~= chunk_values(rest).push(value));
        proof {
            if follows {
                assert(old(self)@[n - 1].0 == old(self)@[0].0 + (n - 1));
                assert(self@ =~= old(self)@.push(value));
            } else {
                assert(self@ =~= seq![value]);
            }
        }
        done
    }

    /// Hands over what is left.
    pub fn finish(self) -> (r: Vec<(u64, Vec<u8>)>)
        ensures
            chunk_values(r@) == self@,
    {
        self.group
    }
}

/// No chunk is lost on its way to the disk: what is handed over and what stays
/// behind are all the chunks that came, in their order, and what stays behind
/// never has as many bytes as are handed over at once.
pub proof fn law_batches_lose_nothing(
    current: Seq<(u64, Seq<u8>)>,
    bytes: nat,
    chunk: (u64, Seq<u8>),
)
    ensures
        ({
            let (handed, left, counted) = batched(current, bytes, chunk);
            &&& handed + left == current.push(chunk)
            &&& counted < 0x400_0000
            &&& handed.len() > 0 ==> left.len() == 0 && counted == 0
            &&& handed.len() == 0 ==> counted == bytes + chunk.1.len()
            &&& handed.len() > 0 <==> bytes + chunk.1.len() >= 0x400_0000
        }),
{
    let (handed, left, counted) = batched(current, bytes, chunk);
    assert(handed + left =~= current.push(chunk));
}

/// A run of consecutive chunks is kept together, and nothing of it is lost: what
/// comes out and what stays behind are all the chunks that came, in their order;
/// what stays behind is a run; and only a chunk that does not follow it ends a
/// run.
pub proof fn law_runs_lose_nothing(run: Seq<(u64, Seq<u8>)>, chunk: (u64, Seq<u8>))
    requires
        consecutive(run),
    ensures
        ({
            let (out, left) = grouped(run, chunk);
            &&& out + left == run.push(chunk)
            &&& consecutive(left)
            &&& left.last() == chunk
            &&& run.len() > 0 ==> (out.len() == 0 <==> chunk.0 == run.last().0 + 1)
        }),
{
    let (out, left) = grouped(run, chunk);
    assert(out + left =~= run.push(chunk));
    if run.len() > 0 {
        assert(run[run.len() - 1].0 == run[0].0 + (run.len() - 1));
    }
}

/// Every chunk lies where its number says: so many chunk sizes from the start,
/// a chunk size long, or as long as the file goes on. A partial file is cut
/// exactly where it is longer than the file.
pub proof fn law_chunks_lie_where_their_number_says(
    reader: ChunkReader,
    index: u64,
    span: (u64, usize),
    writer: ChunkWriter,
    current: u64,
    cut: Option<u64>,
)
    requires
        reader.wf(),
        reader.spec_chunk_size() > 0,
        index < chunks_covering(
            reader.spec_file_size() as nat,
            reader.spec_chunk_size() as nat,
        ),
        call_ensures(ChunkReader::chunk_span, (&reader, index), span),
        call_ensures(ChunkWriter::truncate_to, (&writer, current), cut),
        writer@.file_size <= u64::MAX,
    ensures
        span.0 == index * reader.spec_chunk_size(),
        span.1 == reader.spec_chunk_size() || span.0 + span.1 == reader.spec_file_size(),
        span.1 <= reader.spec_chunk_size(),
        span.0 + span.1 <= reader.spec_file_size(),
        span.1 > 0,
        cut is Some <==> current > writer@.file_size,
        cut is Some ==> cut->0 == writer@.file_size,
{
    lemma_chunk_bounds(
        reader.spec_file_size() as nat,
        reader.spec_chunk_size() as nat,
        index as nat,
    );
}

/// A file that is not complete goes by its name with `.partial` behind it, so
/// that no two files share one and none is taken for complete.
pub proof fn law_partial_files_are_told_apart(a: &str, b: &str, x: String, y: String)
    requires
        call_ensures(partial_path, (a,), x),
        call_ensures(partial_path, (b,), y),
    ensures
        x@ != a@,
        x@ == y@ ==> a@ == b@,
        x@.take(a@.len() as int) == a@,
{
    reveal_strlit(".partial");
    assert(x@.len() == a@.len() + 8);
    assert(y@.len() == b@.len() + 8);
    assert(x@.take(a@.len() as int) =~= a@);
    assert(y@.take(b@.len() as int) =~= b@);
}

} // verus!
