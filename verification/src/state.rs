//! How far each file of a transfer has come, chunk by chunk.

use bitvec::order::Lsb0;
use bitvec::vec::BitVec;
use vstd::prelude::*;

use crate::chunk_io::{chunk_len, lemma_chunk_bounds};
use crate::clock::now_secs;
use crate::protocol::FileMetadata;
use crate::transfer_file::{chunk_count, chunks_covering};
use crate::transfer_folder::{checked_total_size, total_size};

verus! {

/// One bit per chunk, in a bit vector of the `bitvec` crate. The bit vector is
/// generic over traits of its crate, so it is held in a private field.
#[verifier::external_body]
pub struct ChunkBitmap {
    bits: BitVec<u8, Lsb0>,
}

/// The bits of a bitmap, in order.
pub uninterp spec fn bits_of(bitmap: ChunkBitmap) -> Seq<bool>;

impl View for ChunkBitmap {
    type V = Seq<bool>;

    open spec fn view(&self) -> Seq<bool> {
        bits_of(*self)
    }
}

impl ChunkBitmap {
    /// `BitVec::repeat`: so many bits, all clear. A bit vector holds at most
    /// an eighth of what a `usize` counts.
    #[verifier::external_body]
    fn zeros(n: usize) -> (r: Self)
        requires
            n <= usize::MAX / 8,
        ensures
            bits_of(r) == Seq::new(n as nat, |i: int| false),
    {
        ChunkBitmap { bits: BitVec::repeat(false, n) }
    }

    /// `BitSlice::len`: how many bits there are.
    #[verifier::external_body]
    pub(crate) fn len(&self) -> (r: usize)
        ensures
            r == bits_of(*self).len(),
    {
        self.bits.len()
    }

    /// Indexing a bit slice: the bit at a position.
    #[verifier::external_body]
    pub(crate) fn get(&self, i: usize) -> (r: bool)
        requires
            i < bits_of(*self).len(),
        ensures
            r == bits_of(*self)[i as int],
    {
        self.bits[i]
    }

    /// `BitSlice::set`: sets the bit at a position to a value.
    #[verifier::external_body]
    fn set(&mut self, i: usize, value: bool)
        requires
            i < bits_of(*old(self)).len(),
        ensures
            bits_of(*final(self)) == bits_of(*old(self)).update(i as int, value),
    {
        self.bits.set(i, value)
    }

    /// `BitSlice::all`: whether every bit is set.
    #[verifier::external_body]
    pub(crate) fn all(&self) -> (r: bool)
        ensures
            r == (forall|i: int| 0 <= i < bits_of(*self).len() ==> #[trigger] bits_of(*self)[i]),
    {
        self.bits.all()
    }

    /// The chunks that are done, in order.
    pub fn completed(&self) -> (r: Vec<u64>)
        ensures
            forall|k: u64| #[trigger]
                r@.contains(k) <==> k < self@.len() && self@[k as int],
            forall|i: int, j: int| 0 <= i < j < r@.len() ==> r@[i] < r@[j],
    {
        let mut out: Vec<u64> = Vec::new();
        let mut i: usize = 0;
        while i < self.len()
            invariant
                i <= self@.len(),
                forall|j: int| 0 <= j < out@.len() ==> (#[trigger] out@[j]) < i && self@[out@[j] as int],
                forall|k: int| 0 <= k < i && self@[k] ==> out@.contains(#[trigger] (k as u64)),
                forall|a: int, b: int| 0 <= a < b < out@.len() ==> out@[a] < out@[b],
            decreases self@.len() - i,
        {
            if self.get(i) {
                let ghost before = out@;
                out.push(i as u64);
                proof {
                    assert forall|k: int| 0 <= k < i + 1 && self@[k] implies out@.contains(
                        #[trigger] (k as u64),
                    ) by {
                        if k == i {
                            assert(out@[before.len() as int] == k as u64);
                        } else {
                            assert(before.contains(k as u64));
                            let j = choose|j: int| 0 <= j < before.len() && before[j] == k as u64;
                            assert(out@[j] == k as u64);
                        }
                    }
                }
            }
            i += 1;
        }
        proof {
            assert forall|k: u64| #[trigger] out@.contains(k) <==> k < self@.len()
                && self@[k as int] by {
                if out@.contains(k) {
                    let j = choose|j: int| 0 <= j < out@.len() && out@[j] == k;
                    assert(out@[j] < i);
                }
                if k < self@.len() && self@[k as int] {
                    assert((k as int) as u64 == k);
                }
            }
        }
        out
    }
}

/// How far a file has come.
#[derive(Debug, Clone, Copy, PartialEq, Eq, Structural)]
pub enum FileStatus {
    /// Nothing came yet.
    Pending,
    /// Some chunks came.
    InProgress,
    /// All chunks came.
    Complete,
    /// The checksum was confirmed.
    Verified,
    /// It failed.
    Failed,
}

/// One file of a transfer.
pub struct FileState {
    pub file_index: u32,
    pub metadata: FileMetadata,
    pub local_path: String,
    pub total_chunks: u64,
    pub completed_chunks: ChunkBitmap,
    pub status: FileStatus,
}

impl FileState {
    /// There is a bit for each chunk.
    pub open spec fn wf(&self) -> bool {
        self.completed_chunks@.len() == self.total_chunks && self.total_chunks <= usize::MAX
    }
}

/// One transfer.
pub struct TransferState {
    pub transfer_id: [u8; 16],
    pub peer_address: String,
    pub files: Vec<FileState>,
    /// The time of the last update, in seconds since the epoch.
    pub timestamp: u64,
    pub total_bytes: u64,
    pub transferred_bytes: u64,
}

/// Every chunk of a file is done.
pub open spec fn all_set(bits: Seq<bool>) -> bool {
    forall|i: int| 0 <= i < bits.len() ==> #[trigger] bits[i]
}

/// The first chunk of a file that is not done.
pub open spec fn first_clear(bits: Seq<bool>, from: nat) -> Option<nat>
    decreases bits.len() - from,
{
    if from >= bits.len() {
        None
    } else if bits[from as int] {
        first_clear(bits, from + 1)
    } else {
        Some(from)
    }
}

/// The status after a chunk came: a file that was not finished is complete
/// once every chunk is done, and begun before that.
pub open spec fn status_after(status: FileStatus, all: bool) -> FileStatus {
    if all && (status == FileStatus::Pending || status == FileStatus::InProgress) {
        FileStatus::Complete
    } else if status == FileStatus::Pending {
        FileStatus::InProgress
    } else {
        status
    }
}

/// The next chunk among the files from `from` on: the first that is not done,
/// in the first file that is not finished.
pub open spec fn next_among(files: Seq<FileState>, from: nat) -> Option<(u32, nat)>
    decreases files.len() - from,
{
    if from >= files.len() {
        None
    } else {
        let f = files[from as int];
        let open = f.status == FileStatus::Pending || f.status == FileStatus::InProgress;
        match first_clear(f.completed_chunks@, 0) {
            Some(i) => if open {
                Some((f.file_index, i))
            } else {
                next_among(files, from + 1)
            },
            None => next_among(files, from + 1),
        }
    }
}

/// The bytes of the chunks of a file that are done.
pub open spec fn bit_bytes(bits: Seq<bool>, chunk_size: nat, size: nat) -> nat
    decreases bits.len(),
{
    if bits.len() == 0 {
        0
    } else {
        bit_bytes(bits.drop_last(), chunk_size, size) + if bits.last() {
            chunk_len((bits.len() - 1) as nat, chunk_size, size)
        } else {
            0
        }
    }
}

/// The bytes of the chunks of files that are done.
pub open spec fn done_bytes(files: Seq<FileState>, chunk_size: nat) -> nat
    decreases files.len(),
{
    if files.len() == 0 {
        0
    } else {
        done_bytes(files.drop_last(), chunk_size) + bit_bytes(
            files.last().completed_chunks@,
            chunk_size,
            files.last().metadata.size as nat,
        )
    }
}

/// The bytes of files.
pub open spec fn file_bytes(files: Seq<FileState>) -> nat
    decreases files.len(),
{
    if files.len() == 0 {
        0
    } else {
        file_bytes(files.drop_last()) + files.last().metadata.size as nat
    }
}

proof fn lemma_bit_set(bits: Seq<bool>, k: int, chunk_size: nat, size: nat)
    requires
        0 <= k < bits.len(),
    ensures
        bit_bytes(bits.update(k, true), chunk_size, size) == bit_bytes(bits, chunk_size, size) + (
        if bits[k] {
            0
        } else {
            chunk_len(k as nat, chunk_size, size)
        }),
    decreases bits.len(),
{
    let more = bits.update(k, true);
    if k < bits.len() - 1 {
        lemma_bit_set(bits.drop_last(), k, chunk_size, size);
        assert(more.drop_last() =~= bits.drop_last().update(k, true));
    } else {
        assert(more.drop_last() =~= bits.drop_last());
    }
}

proof fn lemma_files_step(
    before: Seq<FileState>,
    after: Seq<FileState>,
    at: int,
    k: int,
    chunk_size: nat,
)
    requires
        before.len() == after.len(),
        0 <= at < before.len(),
        0 <= k < before[at].completed_chunks@.len(),
        forall|i: int| 0 <= i < before.len() && i != at ==> #[trigger] after[i] == before[i],
        after[at].completed_chunks@ == before[at].completed_chunks@.update(k, true),
        after[at].metadata == before[at].metadata,
    ensures
        file_bytes(after) == file_bytes(before),
        done_bytes(after, chunk_size) == done_bytes(before, chunk_size) + (
        if before[at].completed_chunks@[k] {
            0
        } else {
            chunk_len(k as nat, chunk_size, before[at].metadata.size as nat)
        }),
    decreases before.len(),
{
    let n = before.len() - 1;
    if at < n {
        assert(after[n] == before[n]);
        lemma_files_step(before.drop_last(), after.drop_last(), at, k, chunk_size);
    } else {
        assert(after.drop_last() =~= before.drop_last()) by {
            assert forall|i: int| 0 <= i < n implies after.drop_last()[i] == before.drop_last()[i] by {
                assert(after[i] == before[i]);
            }
        }
        lemma_bit_set(
            before[at].completed_chunks@,
            k,
            chunk_size,
            before[at].metadata.size as nat,
        );
    }
}

proof fn lemma_bits_within(bits: Seq<bool>, chunk_size: nat, size: nat)
    requires
        chunk_size > 0,
        bits.len() <= chunks_covering(size, chunk_size),
    ensures
        bit_bytes(bits, chunk_size, size) <= size,
        bit_bytes(bits, chunk_size, size) <= bits.len() * chunk_size,
    decreases bits.len(),
{
    if bits.len() > 0 {
        let k = (bits.len() - 1) as nat;
        lemma_bits_within(bits.drop_last(), chunk_size, size);
        lemma_chunk_bounds(size, chunk_size, k);
        assert(k * chunk_size + chunk_size == (k + 1) * chunk_size) by (nonlinear_arith);
    }
}

proof fn lemma_done_within(files: Seq<FileState>, chunk_size: nat)
    requires
        chunk_size > 0,
        forall|i: int|
            0 <= i < files.len() ==> (#[trigger] files[i]).completed_chunks@.len()
                <= chunks_covering(files[i].metadata.size as nat, chunk_size),
    ensures
        done_bytes(files, chunk_size) <= file_bytes(files),
    decreases files.len(),
{
    if files.len() > 0 {
        let last = files[files.len() - 1];
        assert(last.completed_chunks@.len() <= chunks_covering(last.metadata.size as nat, chunk_size));
        lemma_bits_within(last.completed_chunks@, chunk_size, last.metadata.size as nat);
        lemma_done_within(files.drop_last(), chunk_size);
    }
}

proof fn lemma_no_bits(bits: Seq<bool>, chunk_size: nat, size: nat)
    requires
        forall|k: int| 0 <= k < bits.len() ==> !(#[trigger] bits[k]),
    ensures
        bit_bytes(bits, chunk_size, size) == 0,
    decreases bits.len(),
{
    if bits.len() > 0 {
        assert(!bits[bits.len() - 1]);
        lemma_no_bits(bits.drop_last(), chunk_size, size);
    }
}

proof fn lemma_fresh_files(states: Seq<FileState>, files: Seq<FileMetadata>, chunk_size: nat)
    requires
        states.len() == files.len(),
        forall|i: int|
            0 <= i < states.len() ==> (#[trigger] states[i]).metadata@ == files[i]@ && (forall|k: int|
                0 <= k < states[i].completed_chunks@.len() ==> !(
                #[trigger] states[i].completed_chunks@[k])),
    ensures
        file_bytes(states) == total_size(files),
        done_bytes(states, chunk_size) == 0,
    decreases states.len(),
{
    if states.len() > 0 {
        let last = states[states.len() - 1];
        assert(last.metadata@ == files[files.len() - 1]@);
        lemma_no_bits(last.completed_chunks@, chunk_size, last.metadata.size as nat);
        lemma_fresh_files(states.drop_last(), files.drop_last(), chunk_size);
    }
}

/// The progress of a transfer stays between nothing and all: no more bytes are
/// counted than there are, and the fraction that `progress` gives is at most
/// one, and one for a transfer of no bytes.
pub proof fn law_progress_within_total(state: TransferState, chunk_size: nat)
    requires
        chunk_size > 0,
        state.wf(),
        state.counts(chunk_size),
    ensures
        state.transferred_bytes <= state.total_bytes,
        state.done_of_all().0 <= state.done_of_all().1,
        state.done_of_all().1 > 0,
        state.total_bytes == 0 ==> state.done_of_all().0 == state.done_of_all().1,
{
    assert forall|i: int| 0 <= i < state.files@.len() implies (
    #[trigger] state.files@[i]).completed_chunks@.len() <= chunks_covering(
        state.files@[i].metadata.size as nat,
        chunk_size,
    ) by {
        assert(state.files@[i].wf());
    }
    lemma_done_within(state.files@, chunk_size);
}

impl TransferState {
    pub open spec fn wf(&self) -> bool {
        forall|i: int| 0 <= i < self.files@.len() ==> (#[trigger] self.files@[i]).wf()
    }

    /// A transfer that begins at `now`.
    pub fn new_at(
        transfer_id: [u8; 16],
        peer_address: String,
        files: Vec<FileMetadata>,
        chunk_size: u32,
        now: u64,
    ) -> (r: Self)
        requires
            chunk_size > 0,
            total_size(files@) <= u64::MAX,
            forall|i: int|
                0 <= i < files@.len() ==> chunks_covering(
                    (#[trigger] files@[i]).size as nat,
                    chunk_size as nat,
                ) <= usize::MAX / 8,
        ensures
            r.wf(),
            r.counts(chunk_size as nat),
            r.transfer_id == transfer_id,
            r.peer_address == peer_address,
            r.timestamp == now,
            r.total_bytes == total_size(files@),
            r.transferred_bytes == 0,
            r.files@.len() == files@.len(),
            forall|i: int|
                0 <= i < files@.len() ==> {
                    let f = #[trigger] r.files@[i];
                    &&& f.file_index == i as u32
                    &&& f.metadata@ == files@[i]@
                    &&& f.local_path@ == Seq::<char>::empty()
                    &&& f.total_chunks == chunks_covering(files@[i].size as nat, chunk_size as nat)
                    &&& f.completed_chunks@ == Seq::new(f.total_chunks as nat, |k: int| false)
                    &&& f.status == FileStatus::Pending
                },
    {
        let total_bytes: u64 = match checked_total_size(&files) {
            Some(total) => total,
            None => 0,
        };
        let mut states: Vec<FileState> = Vec::new();
        let mut i: usize = 0;
        while i < files.len()
            invariant
                chunk_size > 0,
                i <= files@.len(),
                states@.len() == i,
                forall|i: int|
                    0 <= i < files@.len() ==> chunks_covering(
                        (#[trigger] files@[i]).size as nat,
                        chunk_size as nat,
                    ) <= usize::MAX / 8,
                forall|j: int|
                    0 <= j < i ==> {
                        let f = #[trigger] states@[j];
                        &&& f.file_index == j as u32
                        &&& f.metadata@ == files@[j]@
                        &&& f.local_path@ == Seq::<char>::empty()
                        &&& f.total_chunks == chunks_covering(
                            files@[j].size as nat,
                            chunk_size as nat,
                        )
                        &&& f.completed_chunks@ == Seq::new(f.total_chunks as nat, |k: int| false)
                        &&& f.status == FileStatus::Pending
                    },
            decreases files@.len() - i,
        {
            let file: &FileMetadata = &files[i];
            assert(chunks_covering(files@[i as int].size as nat, chunk_size as nat) <= usize::MAX
                / 8);
            let total_chunks: u64 = chunk_count(file.size, chunk_size);
            #[verifier::truncate]
            let file_index: u32 = i as u32;
            assert(file_index == (i as int) as u32);
            states.push(
                FileState {
                    file_index,
                    metadata: FileMetadata {
                        path: crate::text::string_copy(file.path.as_str()),
                        size: file.size,
                        modified: file.modified,
                        checksum: file.checksum,
                    },
                    local_path: String::new(),
                    total_chunks,
                    completed_chunks: ChunkBitmap::zeros(total_chunks as usize),
                    status: FileStatus::Pending,
                },
            );
            i += 1;
        }
        proof {
            lemma_fresh_files(states@, files@, chunk_size as nat);
        }
        TransferState {
            transfer_id,
            peer_address,
            files: states,
            timestamp: now,
            total_bytes,
            transferred_bytes: 0,
        }
    }

    /// A transfer that begins now.
    pub fn new(
        transfer_id: [u8; 16],
        peer_address: String,
        files: Vec<FileMetadata>,
        chunk_size: u32,
    ) -> (r: Self)
        requires
            chunk_size > 0,
            total_size(files@) <= u64::MAX,
            forall|i: int|
                0 <= i < files@.len() ==> chunks_covering(
                    (#[trigger] files@[i]).size as nat,
                    chunk_size as nat,
                ) <= usize::MAX / 8,
        ensures
            r.wf(),
            r.counts(chunk_size as nat),
            r.transfer_id == transfer_id,
            r.peer_address == peer_address,
            r.total_bytes == total_size(files@),
            r.transferred_bytes == 0,
            r.files@.len() == files@.len(),
            forall|i: int|
                0 <= i < files@.len() ==> {
                    let f = #[trigger] r.files@[i];
                    &&& f.file_index == i as u32
                    &&& f.metadata@ == files@[i]@
                    &&& f.local_path@ == Seq::<char>::empty()
                    &&& f.total_chunks == chunks_covering(files@[i].size as nat, chunk_size as nat)
                    &&& f.completed_chunks@ == Seq::new(f.total_chunks as nat, |k: int| false)
                    &&& f.status == FileStatus::Pending
                },
    {
        Self::new_at(transfer_id, peer_address, files, chunk_size, now_secs())
    }

    /// Whether a chunk of the transfer is not done yet.
    pub open spec fn missing(&self, file_index: u32, chunk_index: u64) -> bool {
        &&& file_index < self.files@.len()
        &&& chunk_index < self.files@[file_index as int].total_chunks
        &&& !self.files@[file_index as int].completed_chunks@[chunk_index as int]
    }

    /// The bytes counted are those of the chunks that are done.
    pub open spec fn counts(&self, chunk_size: nat) -> bool {
        &&& self.total_bytes == file_bytes(self.files@)
        &&& self.transferred_bytes == done_bytes(self.files@, chunk_size)
        &&& forall|i: int|
            0 <= i < self.files@.len() ==> (#[trigger] self.files@[i]).total_chunks
                == chunks_covering(self.files@[i].metadata.size as nat, chunk_size)
    }

    /// Whether a file and a chunk of it are part of the transfer.
    pub open spec fn known(&self, file_index: u32, chunk_index: u64) -> bool {
        &&& file_index < self.files@.len()
        &&& chunk_index < self.files@[file_index as int].total_chunks
    }

    /// `after` is this transfer with one chunk marked as done at `now`: the
    /// bytes of a chunk count once, and a chunk that is not part of the
    /// transfer changes nothing.
    pub open spec fn marked(
        &self,
        file_index: u32,
        chunk_index: u64,
        chunk_size: u64,
        now: u64,
        after: TransferState,
    ) -> bool {
        &&& after.transfer_id == self.transfer_id
        &&& after.peer_address == self.peer_address
        &&& after.total_bytes == self.total_bytes
        &&& after.files@.len() == self.files@.len()
        &&& after.transferred_bytes == (if self.missing(file_index, chunk_index) {
            self.transferred_bytes + chunk_size
        } else {
            self.transferred_bytes as int
        })
        &&& after.timestamp == (if self.known(file_index, chunk_index) {
            now
        } else {
            self.timestamp
        })
        &&& forall|i: int|
            0 <= i < self.files@.len() && i != file_index ==> (#[trigger] after.files@[i])
                == self.files@[i]
        &&& !self.known(file_index, chunk_index) ==> after.files@ == self.files@
        &&& self.known(file_index, chunk_index) ==> {
            let was = self.files@[file_index as int];
            let is = after.files@[file_index as int];
            let bits = was.completed_chunks@.update(chunk_index as int, true);
            &&& is.completed_chunks@ == bits
            &&& is.status == status_after(was.status, all_set(bits))
            &&& is.file_index == was.file_index
            &&& is.metadata == was.metadata
            &&& is.local_path == was.local_path
            &&& is.total_chunks == was.total_chunks
        }
    }

    /// The fraction of the bytes that are done.
    pub open spec fn done_of_all(&self) -> (u64, u64) {
        if self.total_bytes == 0 {
            (1, 1)
        } else {
            (self.transferred_bytes, self.total_bytes)
        }
    }

    /// Marks a chunk as done at `now` and counts its bytes, once; a file or
    /// chunk that is not part of the transfer is ignored.
    pub fn mark_chunk_complete_at(
        &mut self,
        file_index: u32,
        chunk_index: u64,
        chunk_size: u64,
        now: u64,
    )
        requires
            old(self).wf(),
            old(self).missing(file_index, chunk_index) ==> old(self).transferred_bytes + chunk_size
                <= u64::MAX,
        ensures
            final(self).wf(),
            old(self).marked(file_index, chunk_index, chunk_size, now, *final(self)),
            forall|size: nat|
                #[trigger] old(self).counts(size) && (file_index < old(self).files@.len()
                    ==> chunk_size == chunk_len(
                    chunk_index as nat,
                    size,
                    old(self).files@[file_index as int].metadata.size as nat,
                )) ==> final(self).counts(size),
    {
        let at: usize = file_index as usize;
        if at >= self.files.len() || chunk_index >= self.files[at].total_chunks {
            return;
        }
        self.timestamp = now;
        assert(self.files@[at as int].wf());
        let ghost before = self.files@;
        let ghost bits = before[at as int].completed_chunks@.update(chunk_index as int, true);
        if !self.files[at].completed_chunks.get(chunk_index as usize) {
            self.transferred_bytes = self.transferred_bytes + chunk_size;
        }
        let file: &mut FileState = &mut self.files[at];
        file.completed_chunks.set(chunk_index as usize, true);
        let all: bool = file.completed_chunks.all();
        assert(all == all_set(bits));
        if all && (file.status == FileStatus::Pending || file.status == FileStatus::InProgress) {
            file.status = FileStatus::Complete;
        } else if file.status == FileStatus::Pending {
            file.status = FileStatus::InProgress;
        }
        proof {
            let after = self.files@;
            assert forall|size: nat|
                #[trigger] old(self).counts(size) && chunk_size == chunk_len(
                    chunk_index as nat,
                    size,
                    before[at as int].metadata.size as nat,
                ) implies self.counts(size) by {
                lemma_files_step(before, after, at as int, chunk_index as int, size);
            }
        }
    }

    /// Marks a chunk as done, now, and counts its bytes, once; a file or chunk
    /// that is not part of the transfer is ignored.
    pub fn mark_chunk_complete(&mut self, file_index: u32, chunk_index: u64, chunk_size: u64)
        requires
            old(self).wf(),
            old(self).missing(file_index, chunk_index) ==> old(self).transferred_bytes + chunk_size
                <= u64::MAX,
        ensures
            final(self).wf(),
            exists|now: u64|
                #[trigger] old(self).marked(file_index, chunk_index, chunk_size, now, *final(self)),
            forall|size: nat|
                #[trigger] old(self).counts(size) && (file_index < old(self).files@.len()
                    ==> chunk_size == chunk_len(
                    chunk_index as nat,
                    size,
                    old(self).files@[file_index as int].metadata.size as nat,
                )) ==> final(self).counts(size),
    {
        self.mark_chunk_complete_at(file_index, chunk_index, chunk_size, now_secs());
    }

    /// How far the transfer is, as a fraction: the bytes that are done, and
    /// the bytes there are. A transfer of no bytes is all done.
    pub fn progress(&self) -> (r: (u64, u64))
        ensures
            r == self.done_of_all(),
    {
        if self.total_bytes == 0 {
            return (1, 1);
        }
        (self.transferred_bytes, self.total_bytes)
    }

    /// Whether every file was verified.
    pub fn is_complete(&self) -> (r: bool)
        ensures
            r == (forall|i: int|
                0 <= i < self.files@.len() ==> (#[trigger] self.files@[i]).status
                    == FileStatus::Verified),
    {
        let mut i: usize = 0;
        while i < self.files.len()
            invariant
                i <= self.files@.len(),
                forall|j: int|
                    0 <= j < i ==> (#[trigger] self.files@[j]).status == FileStatus::Verified,
            decreases self.files@.len() - i,
        {
            if self.files[i].status != FileStatus::Verified {
                assert(self.files@[i as int].status != FileStatus::Verified);
                return false;
            }
            i += 1;
        }
        true
    }

    /// The next chunk to send or receive: the file and the chunk.
    pub fn next_chunk(&self) -> (r: Option<(u32, u64)>)
        requires
            self.wf(),
        ensures
            match next_among(self.files@, 0) {
                Some((file, chunk)) => r == Some((file, chunk as u64)) && chunk <= u64::MAX,
                None => r is None,
            },
    {
        let mut i: usize = 0;
        while i < self.files.len()
            invariant
                self.wf(),
                i <= self.files@.len(),
                next_among(self.files@, 0) == next_among(self.files@, i as nat),
            decreases self.files@.len() - i,
        {
            let file: &FileState = &self.files[i];
            if file.status == FileStatus::Pending || file.status == FileStatus::InProgress {
                if let Some(chunk) = first_clear_of(&file.completed_chunks) {
                    return Some((file.file_index, chunk as u64));
                }
            }
            i += 1;
        }
        None
    }
}

fn first_clear_of(bitmap: &ChunkBitmap) -> (r: Option<usize>)
    ensures
        match first_clear(bitmap@, 0) {
            Some(i) => r == Some(i as usize) && i < bitmap@.len() && bitmap@.len() <= usize::MAX,
            None => r is None,
        },
{
    let n: usize = bitmap.len();
    let mut i: usize = 0;
    while i < n
        invariant
            n == bitmap@.len(),
            i <= n,
            first_clear(bitmap@, 0) == first_clear(bitmap@, i as nat),
        decreases n - i,
    {
        if !bitmap.get(i) {
            return Some(i);
        }
        i += 1;
    }
    None
}

/// The next chunk is one that is not done, and all before it in its file are;
/// where there is none, every chunk is done.
pub proof fn law_next_chunk_is_first_missing(bits: Seq<bool>, from: nat)
    ensures
        match first_clear(bits, from) {
            Some(i) => from <= i < bits.len() && !bits[i as int] && forall|j: int|
                from <= j < i ==> #[trigger] bits[j],
            None => forall|j: int| from <= j < bits.len() ==> #[trigger] bits[j],
        },
    decreases bits.len() - from,
{
    if from < bits.len() && bits[from as int] {
        law_next_chunk_is_first_missing(bits, from + 1);
    }
}

/// A chunk that is marked is done from then on, and nothing else changes: no
/// other chunk, no other file. A file is complete as soon as every chunk of it
/// is done, begun before that, and what was verified or has failed stays so.
pub proof fn law_marking_marks_one_chunk(
    before: TransferState,
    after: TransferState,
    file_index: u32,
    chunk_index: u64,
    chunk_size: u64,
    now: u64,
)
    requires
        before.wf(),
        before.marked(file_index, chunk_index, chunk_size, now, after),
        file_index < before.files@.len(),
        chunk_index < before.files@[file_index as int].total_chunks,
    ensures
        ({
            let was = before.files@[file_index as int];
            let is = after.files@[file_index as int];
            &&& is.completed_chunks@.len() == was.completed_chunks@.len()
            &&& is.completed_chunks@[chunk_index as int]
            &&& forall|k: int|
                0 <= k < was.completed_chunks@.len() && k != chunk_index
                    ==> #[trigger] is.completed_chunks@[k] == was.completed_chunks@[k]
            &&& forall|i: int|
                0 <= i < before.files@.len() && i != file_index ==> #[trigger] after.files@[i]
                    == before.files@[i]
            &&& was.status is Verified || was.status is Failed || was.status is Complete
                ==> is.status == was.status
            &&& was.status is Pending || was.status is InProgress ==> (is.status is Complete <==> (
            forall|k: int| 0 <= k < is.completed_chunks@.len() ==> #[trigger] is.completed_chunks@[k]))
            &&& was.status is Pending || was.status is InProgress ==> is.status is Complete
                || is.status is InProgress
            &&& after.timestamp == now
            &&& after.transferred_bytes == before.transferred_bytes + (if was.completed_chunks@[chunk_index as int] {
                0
            } else {
                chunk_size as int
            })
        }),
{
    assert(before.files@[file_index as int].wf());
}

/// The next chunk is of a file that is not finished, is not done itself, and
/// none before it is left: every earlier chunk of its file is done, and every
/// earlier file is finished or has no chunk left. There is none only where no
/// such file has a chunk left.
pub proof fn law_next_chunk_is_the_first_left(files: Seq<FileState>, from: nat)
    requires
        from <= files.len(),
    ensures
        match next_among(files, from) {
            Some((index, chunk)) => exists|i: int|
                from <= i < files.len() && #[trigger] files[i].file_index == index && is_left(
                    files[i],
                    chunk as int,
                ) && (forall|k: int| 0 <= k < chunk ==> #[trigger] files[i].completed_chunks@[k])
                    && forall|j: int, k: int| from <= j < i ==> !#[trigger] is_left(files[j], k),
            None => forall|j: int, k: int|
                from <= j < files.len() ==> !#[trigger] is_left(files[j], k),
        },
    decreases files.len() - from,
{
    if from < files.len() {
        let f = files[from as int];
        lemma_first_clear(f.completed_chunks@, 0);
        law_next_chunk_is_the_first_left(files, from + 1);
        let open = f.status == FileStatus::Pending || f.status == FileStatus::InProgress;
        match first_clear(f.completed_chunks@, 0) {
            Some(c) => {
                if open {
                    assert(files[from as int].file_index == f.file_index);
                    assert(is_left(files[from as int], c as int));
                } else {
                    lemma_next_carries(files, from);
                }
            },
            None => {
                lemma_next_carries(files, from);
            },
        }
    }
}

/// A chunk that is not done, of a file that is not finished.
pub open spec fn is_left(f: FileState, k: int) -> bool {
    &&& f.status is Pending || f.status is InProgress
    &&& 0 <= k < f.completed_chunks@.len()
    &&& !f.completed_chunks@[k]
}

proof fn lemma_first_clear(bits: Seq<bool>, from: nat)
    ensures
        match first_clear(bits, from) {
            Some(i) => from <= i < bits.len() && !bits[i as int] && forall|k: int|
                from <= k < i ==> #[trigger] bits[k],
            None => forall|k: int| from <= k < bits.len() ==> #[trigger] bits[k],
        },
    decreases bits.len() - from,
{
    if from < bits.len() && bits[from as int] {
        lemma_first_clear(bits, from + 1);
    }
}

proof fn lemma_next_carries(files: Seq<FileState>, from: nat)
    requires
        from < files.len(),
        forall|k: int| !#[trigger] is_left(files[from as int], k),
        next_among(files, from) == next_among(files, from + 1),
        match next_among(files, from + 1) {
            Some((index, chunk)) => exists|i: int|
                from + 1 <= i < files.len() && #[trigger] files[i].file_index == index && is_left(
                    files[i],
                    chunk as int,
                ) && (forall|k: int| 0 <= k < chunk ==> #[trigger] files[i].completed_chunks@[k])
                    && forall|j: int, k: int| from + 1 <= j < i ==> !#[trigger] is_left(files[j], k),
            None => forall|j: int, k: int|
                from + 1 <= j < files.len() ==> !#[trigger] is_left(files[j], k),
        },
    ensures
        match next_among(files, from) {
            Some((index, chunk)) => exists|i: int|
                from <= i < files.len() && #[trigger] files[i].file_index == index && is_left(
                    files[i],
                    chunk as int,
                ) && (forall|k: int| 0 <= k < chunk ==> #[trigger] files[i].completed_chunks@[k])
                    && forall|j: int, k: int| from <= j < i ==> !#[trigger] is_left(files[j], k),
            None => forall|j: int, k: int|
                from <= j < files.len() ==> !#[trigger] is_left(files[j], k),
        },
{
    if let Some((index, chunk)) = next_among(files, from + 1) {
        let i = choose|i: int|
            from + 1 <= i < files.len() && #[trigger] files[i].file_index == index && is_left(
                files[i],
                chunk as int,
            ) && (forall|k: int| 0 <= k < chunk ==> #[trigger] files[i].completed_chunks@[k])
                && forall|j: int, k: int| from + 1 <= j < i ==> !#[trigger] is_left(files[j], k);
        assert(files[i].file_index == index);
        assert forall|j: int, k: int| from <= j < i implies !#[trigger] is_left(files[j], k) by {
            if j == from {
                assert(!is_left(files[from as int], k));
            }
        }
    }
}

/// A transfer begins with nothing done: every file is there with its size, none
/// of its chunks is marked, and there are as many as just cover it.
pub proof fn law_transfers_begin_with_nothing_done(
    transfer_id: [u8; 16],
    peer: String,
    files: Vec<FileMetadata>,
    chunk_size: u32,
    now: u64,
    r: TransferState,
)
    requires
        chunk_size > 0,
        call_ensures(TransferState::new_at, (transfer_id, peer, files, chunk_size, now), r),
    ensures
        r.files@.len() == files@.len(),
        r.timestamp == now,
        r.transferred_bytes == 0,
        forall|i: int|
            0 <= i < files@.len() ==> {
                let f = #[trigger] r.files@[i];
                &&& f.metadata@ == files@[i]@
                &&& f.status is Pending
                &&& f.total_chunks * chunk_size >= files@[i].size
                &&& f.total_chunks > 0 ==> (f.total_chunks - 1) * chunk_size < files@[i].size
                &&& f.completed_chunks@.len() == f.total_chunks
                &&& forall|k: int| 0 <= k < f.total_chunks ==> !(#[trigger] f.completed_chunks@[k])
            },
{
    assert forall|i: int| 0 <= i < files@.len() implies {
        let f = #[trigger] r.files@[i];
        &&& f.metadata@ == files@[i]@
        &&& f.status is Pending
        &&& f.total_chunks * chunk_size >= files@[i].size
        &&& f.total_chunks > 0 ==> (f.total_chunks - 1) * chunk_size < files@[i].size
        &&& f.completed_chunks@.len() == f.total_chunks
        &&& forall|k: int| 0 <= k < f.total_chunks ==> !(#[trigger] f.completed_chunks@[k])
    } by {
        let f = r.files@[i];
        let size = files@[i].size as nat;
        crate::transfer_file::law_chunks_cover_exactly(size, chunk_size as nat);
        if f.total_chunks > 0 {
            let k = (f.total_chunks - 1) as nat;
            assert(k * (chunk_size as nat) < size);
        }
    }
}

/// A transfer is complete if and only if every file of it was verified; that all
/// chunks came is not enough.
pub proof fn law_complete_means_verified(state: TransferState, r: bool)
    requires
        call_ensures(TransferState::is_complete, (&state,), r),
    ensures
        r ==> forall|i: int| 0 <= i < state.files@.len() ==> (#[trigger] state.files@[i]).status is Verified,
        (exists|i: int|
            0 <= i < state.files@.len() && !((#[trigger] state.files@[i]).status is Verified)) ==> !r,
        (forall|i: int| 0 <= i < state.files@.len() ==> (#[trigger] state.files@[i]).status is Verified)
            ==> r,
{
}

/// The chunks that are listed as done are those that are marked, in ascending
/// order.
pub proof fn law_done_chunks_are_those_marked(bitmap: ChunkBitmap, r: Vec<u64>, k: u64)
    requires
        call_ensures(ChunkBitmap::completed, (&bitmap,), r),
    ensures
        r@.contains(k) <==> k < bitmap@.len() && bitmap@[k as int],
        forall|i: int, j: int| 0 <= i < j < r@.len() ==> (#[trigger] r@[i]) < (#[trigger] r@[j]),
{
}

} // verus!
