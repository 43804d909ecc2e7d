//! Folder transfers: one offer, then one single-file transfer after the
//! other, each confirmed by exchanging checksums, then the end message.

use std::collections::HashMap;

use vstd::prelude::*;
use vstd::string::*;

use crate::chunk_io::{
    bytes_done, count_done, law_chunks_have_the_files_bytes, law_each_chunk_counts_its_bytes,
};
use crate::error::{Error, Result};
use crate::paths::{
    join_names, law_plain_path_stays, law_safe_path_stays_inside, safe_names, sanitize_relative_path, stays_inside, Platform,
};
use crate::protocol::{
    copy_files, file_views, unexpected, unexpected_text, CompleteMessage, ConfigMessage,
    FileChecksumMessage, FileMetadata, Message, ResumePoint, TransferInfo,
};
use crate::text::{bytes_eq, decimal, push_decimal, string_copy};
use crate::transfer_file::{
    chunk_count, chunks_covering, law_chunks_cover_exactly, oversize_text, set_of,
    validate_file_size,
    MAX_TRANSFER_FILE_SIZE,
};
use crate::verification::{hex_chars, hex_encode};

verus! {

broadcast use vstd::std_specs::hash::group_hash_axioms;

/// What was transferred.
#[derive(Debug, Clone)]
pub struct TransferSummary {
    /// On the sending side the name of the file or folder sent, on the
    /// receiving side the path of the first file offered.
    pub root_name: String,
    /// The path of every file offered.
    pub files: Vec<String>,
    /// Bytes transferred in this session, without what earlier ones did.
    pub bytes: u64,
}

impl Default for TransferSummary {
    fn default() -> (r: Self)
        ensures
            r.root_name@ == Seq::<char>::empty(),
            r.files@ == Seq::<String>::empty(),
            r.bytes == 0,
    {
        TransferSummary { root_name: String::new(), files: Vec::new(), bytes: 0 }
    }
}

/// Whether an offer is taken.
#[derive(Debug, Clone, Copy, PartialEq, Eq, Structural)]
pub enum AcceptDecision {
    Accept,
    Reject,
}

/// The size of all files together.
pub open spec fn total_size(files: Seq<FileMetadata>) -> nat
    decreases files.len(),
{
    if files.len() == 0 {
        0
    } else {
        total_size(files.drop_last()) + files.last().size as nat
    }
}

proof fn lemma_total_prefix(files: Seq<FileMetadata>, n: int)
    requires
        0 <= n <= files.len(),
    ensures
        total_size(files.take(n)) <= total_size(files),
        n < files.len() ==> total_size(files.take(n)) + files[n].size == total_size(
            files.take(n + 1),
        ),
        n < files.len() ==> total_size(files.take(n)) + files[n].size <= total_size(files),
    decreases files.len() - n,
{
    if n < files.len() {
        assert(files.take(n + 1).drop_last() =~= files.take(n));
        lemma_total_prefix(files, n + 1);
    } else {
        assert(files.take(n) =~= files);
    }
}

/// The size of all files together, where it fits into 64 bits.
pub fn checked_total_size(files: &Vec<FileMetadata>) -> (r: Option<u64>)
    ensures
        r == (if total_size(files@) <= u64::MAX {
            Some(total_size(files@) as u64)
        } else {
            None
        }),
{
    let mut total: u64 = 0;
    let mut i: usize = 0;
    assert(files@.take(0) =~= Seq::empty());
    while i < files.len()
        invariant
            i <= files@.len(),
            total == total_size(files@.take(i as int)),
        decreases files@.len() - i,
    {
        proof {
            lemma_total_prefix(files@, i as int);
        }
        match total.checked_add(files[i].size) {
            Some(sum) => {
                total = sum;
            },
            None => {
                return None;
            },
        }
        i += 1;
    }
    assert(files@.take(i as int) =~= files@);
    Some(total)
}

// ---------------------------------------------------------------- state

fn has_index(list: &Vec<usize>, x: usize) -> (r: bool)
    ensures
        r == list@.contains(x),
{
    let mut i: usize = 0;
    while i < list.len()
        invariant
            i <= list@.len(),
            forall|j: int| 0 <= j < i ==> list@[j] != x,
        decreases list@.len() - i,
    {
        if list[i] == x {
            assert(list@[i as int] == x);
            return true;
        }
        i += 1;
    }
    false
}

fn has_u32(list: &Vec<u32>, x: u32) -> (r: bool)
    ensures
        r == list@.contains(x),
{
    let mut i: usize = 0;
    while i < list.len()
        invariant
            i <= list@.len(),
            forall|j: int| 0 <= j < i ==> list@[j] != x,
        decreases list@.len() - i,
    {
        if list[i] == x {
            assert(list@[i as int] == x);
            return true;
        }
        i += 1;
    }
    false
}

/// How far a transfer has come, kept so that it can be resumed. The
/// parameters are part of it: a partial file is laid out by its chunk size.
#[derive(Debug, Clone)]
pub struct FolderTransferState {
    pub transfer_id: [u8; 16],
    pub folder_name: String,
    pub files: Vec<FileMetadata>,
    pub completed_files: Vec<usize>,
    pub current_file: Option<usize>,
    pub total_bytes: u64,
    pub transferred_bytes: u64,
    pub file_chunks: HashMap<usize, Vec<u64>>,
    pub config: ConfigMessage,
}

/// `after` is a transfer with one more chunk marked as done.
pub open spec fn chunk_marked(
    before: FolderTransferState,
    file_index: usize,
    chunk_index: u64,
    after: FolderTransferState,
) -> bool {
    &&& forall|k: usize|
        #[trigger] after.chunks_of(k) == (if k == file_index {
            before.chunks_of(k).push(chunk_index)
        } else {
            before.chunks_of(k)
        })
    &&& after.transfer_id == before.transfer_id
    &&& after.folder_name == before.folder_name
    &&& after.files == before.files
    &&& after.completed_files == before.completed_files
    &&& after.current_file == before.current_file
    &&& after.total_bytes == before.total_bytes
    &&& after.transferred_bytes == before.transferred_bytes
    &&& after.config == before.config
}

/// `after` is a transfer with one more file done, at the file that comes next.
pub open spec fn file_finished(
    before: FolderTransferState,
    file_index: usize,
    after: FolderTransferState,
) -> bool {
    &&& after.completed_files@ == (if before.completed_files@.contains(file_index) {
        before.completed_files@
    } else {
        before.completed_files@.push(file_index)
    })
    &&& after.transferred_bytes == (if !before.completed_files@.contains(file_index)
        && file_index < before.files@.len() {
        before.transferred_bytes + before.files@[file_index as int].size
    } else {
        before.transferred_bytes as int
    })
    &&& after.current_file == (match first_missing(
        after.completed_files@,
        0,
        before.files@.len(),
    ) {
        Some(i) => Some(i as usize),
        None => None,
    })
    &&& after.transfer_id == before.transfer_id
    &&& after.folder_name == before.folder_name
    &&& after.files == before.files
    &&& after.total_bytes == before.total_bytes
    &&& after.file_chunks == before.file_chunks
    &&& after.config == before.config
    &&& before.consistent() ==> after.consistent()
}

/// `after` is a transfer with one more file marked as done.
pub open spec fn file_marked(
    before: FolderTransferState,
    file_index: usize,
    after: FolderTransferState,
) -> bool {
    &&& after.completed_files@ == (if before.completed_files@.contains(file_index) {
        before.completed_files@
    } else {
        before.completed_files@.push(file_index)
    })
    &&& after.transferred_bytes == (if !before.completed_files@.contains(file_index)
        && file_index < before.files@.len() {
        before.transferred_bytes + before.files@[file_index as int].size
    } else {
        before.transferred_bytes as int
    })
    &&& after.transfer_id == before.transfer_id
    &&& after.folder_name == before.folder_name
    &&& after.files == before.files
    &&& after.current_file == before.current_file
    &&& after.total_bytes == before.total_bytes
    &&& after.file_chunks == before.file_chunks
    &&& after.config == before.config
    &&& before.consistent() ==> after.consistent()
}

/// The first file, from `from` on, that is not completed.
pub open spec fn first_missing(completed: Seq<usize>, from: nat, n: nat) -> Option<nat>
    decreases n - from,
{
    if from >= n {
        None
    } else if completed.contains(from as usize) {
        first_missing(completed, from + 1, n)
    } else {
        Some(from)
    }
}

/// The size of the files that are completed.
pub open spec fn completed_size(files: Seq<FileMetadata>, completed: Seq<usize>) -> nat
    decreases files.len(),
{
    if files.len() == 0 {
        0
    } else {
        completed_size(files.drop_last(), completed) + if completed.contains(
            (files.len() - 1) as usize,
        ) {
            files.last().size as nat
        } else {
            0
        }
    }
}

proof fn lemma_completed_size_bound(files: Seq<FileMetadata>, completed: Seq<usize>)
    ensures
        completed_size(files, completed) <= total_size(files),
    decreases files.len(),
{
    if files.len() > 0 {
        lemma_completed_size_bound(files.drop_last(), completed);
    }
}

proof fn lemma_completed_size_push(files: Seq<FileMetadata>, completed: Seq<usize>, k: usize)
    requires
        !completed.contains(k),
        files.len() <= usize::MAX,
    ensures
        completed_size(files, completed.push(k)) == completed_size(files, completed) + if k
            < files.len() {
            files[k as int].size as nat
        } else {
            0
        },
    decreases files.len(),
{
    if files.len() > 0 {
        lemma_completed_size_push(files.drop_last(), completed, k);
        let last = (files.len() - 1) as usize;
        let more = completed.push(k);
        assert(more.contains(last) <==> completed.contains(last) || last == k) by {
            if completed.contains(last) {
                let j = choose|j: int| 0 <= j < completed.len() && completed[j] == last;
                assert(more[j] == last);
            }
            if last == k {
                assert(more[completed.len() as int] == last);
            }
            if more.contains(last) && last != k {
                let j = choose|j: int| 0 <= j < more.len() && more[j] == last;
                assert(completed[j] == last);
            }
        }
    }
}

impl FolderTransferState {
    /// The chunks of a file that were marked, in the order they were marked.
    pub open spec fn chunks_of(&self, file_index: usize) -> Seq<u64> {
        if self.file_chunks@.contains_key(file_index) {
            self.file_chunks@[file_index]@
        } else {
            Seq::empty()
        }
    }

    /// The byte counts are those of the files.
    pub open spec fn consistent(&self) -> bool {
        &&& self.total_bytes == total_size(self.files@)
        &&& self.transferred_bytes == completed_size(self.files@, self.completed_files@)
    }

    /// A transfer that has not begun.
    pub fn new(
        transfer_id: [u8; 16],
        folder_name: String,
        files: Vec<FileMetadata>,
        config: &ConfigMessage,
    ) -> (r: Self)
        requires
            total_size(files@) <= u64::MAX,
        ensures
            r.transfer_id == transfer_id,
            r.folder_name == folder_name,
            r.files == files,
            r.completed_files@ == Seq::<usize>::empty(),
            r.current_file is None,
            r.total_bytes == total_size(files@),
            r.transferred_bytes == 0,
            r.file_chunks@ == Map::<usize, Vec<u64>>::empty(),
            r.config == *config,
            r.consistent(),
    {
        let total_bytes: u64 = match checked_total_size(&files) {
            Some(total) => total,
            None => 0,
        };
        proof {
            lemma_nothing_completed(files@);
        }
        FolderTransferState {
            transfer_id,
            folder_name,
            files,
            completed_files: Vec::new(),
            current_file: None,
            total_bytes,
            transferred_bytes: 0,
            file_chunks: HashMap::new(),
            config: *config,
        }
    }

    /// Marks a chunk of a file as done.
    pub fn mark_chunk_complete(&mut self, file_index: usize, chunk_index: u64)
        ensures
            chunk_marked(*old(self), file_index, chunk_index, *final(self)),
    {
        let mut chunks: Vec<u64> = match self.file_chunks.remove(&file_index) {
            Some(list) => list,
            None => Vec::new(),
        };
        let ghost before = chunks@;
        assert(before =~= old(self).chunks_of(file_index));
        chunks.push(chunk_index);
        self.file_chunks.insert(file_index, chunks);
    }

    /// The chunks of a file that were marked.
    pub fn get_completed_chunks(&self, file_index: usize) -> (r: &[u64])
        ensures
            r@ == self.chunks_of(file_index),
    {
        match self.file_chunks.get(&file_index) {
            Some(list) => list.as_slice(),
            None => {
                let none: &[u64] = &[];
                assert(none@ =~= Seq::empty());
                none
            },
        }
    }

    /// Marks a file as done; once only.
    pub fn mark_file_complete(&mut self, file_index: usize)
        requires
            !old(self).completed_files@.contains(file_index) && file_index < old(
                self,
            ).files@.len() ==> old(self).transferred_bytes + old(self).files@[file_index as int].size
                <= u64::MAX,
        ensures
            file_marked(*old(self), file_index, *final(self)),
    {
        if !has_index(&self.completed_files, file_index) {
            proof {
                assert(self.files.len() <= usize::MAX);
                lemma_completed_size_push(self.files@, self.completed_files@, file_index);
            }
            self.completed_files.push(file_index);
            if file_index < self.files.len() {
                self.transferred_bytes = self.transferred_bytes + self.files[file_index].size;
            }
        }
    }

    /// The first file that is not done.
    pub fn next_file(&self) -> (r: Option<usize>)
        ensures
            match first_missing(self.completed_files@, 0, self.files@.len()) {
                Some(i) => r == Some(i as usize) && i < self.files@.len(),
                None => r is None,
            },
    {
        self.next_file_from(0)
    }

    /// The first file, from `from` on, that is not done.
    pub fn next_file_from(&self, from: usize) -> (r: Option<usize>)
        ensures
            match first_missing(self.completed_files@, from as nat, self.files@.len()) {
                Some(i) => r == Some(i as usize) && from <= i < self.files@.len(),
                None => r is None,
            },
    {
        let mut i: usize = from;
        while i < self.files.len()
            invariant
                from <= i,
                from <= self.files@.len() ==> i <= self.files@.len(),
                first_missing(self.completed_files@, from as nat, self.files@.len())
                    == first_missing(self.completed_files@, i as nat, self.files@.len()),
            decreases self.files@.len() - i,
        {
            if !has_index(&self.completed_files, i) {
                return Some(i);
            }
            i += 1;
        }
        None
    }

    /// Whether as many files are done as there are.
    pub fn is_complete(&self) -> (r: bool)
        ensures
            r == (self.completed_files@.len() == self.files@.len()),
    {
        self.completed_files.len() == self.files.len()
    }

    /// A file was sent: marks it and moves on to the next.
    pub fn finish_file(&mut self, file_index: usize)
        requires
            !old(self).completed_files@.contains(file_index) && file_index < old(
                self,
            ).files@.len() ==> old(self).transferred_bytes + old(self).files@[file_index as int].size
                <= u64::MAX,
        ensures
            file_finished(*old(self), file_index, *final(self)),
    {
        self.mark_file_complete(file_index);
        self.current_file = self.next_file();
    }
}

proof fn lemma_nothing_completed(files: Seq<FileMetadata>)
    ensures
        completed_size(files, Seq::empty()) == 0,
    decreases files.len(),
{
    if files.len() > 0 {
        lemma_nothing_completed(files.drop_last());
    }
}

/// What is counted as transferred never exceeds the total, and marking one
/// more file as done never overflows the count.
pub proof fn law_transferred_within_total(state: FolderTransferState, file_index: usize)
    requires
        state.consistent(),
    ensures
        state.transferred_bytes <= state.total_bytes,
        !state.completed_files@.contains(file_index) && file_index < state.files@.len()
            ==> state.transferred_bytes + state.files@[file_index as int].size <= state.total_bytes,
{
    lemma_completed_size_bound(state.files@, state.completed_files@);
    if !state.completed_files@.contains(file_index) {
        assert(state.files.len() <= usize::MAX);
        lemma_completed_size_push(state.files@, state.completed_files@, file_index);
        lemma_completed_size_bound(state.files@, state.completed_files@.push(file_index));
    }
}

/// The file that comes next is the first that is not done: all before it are,
/// and where none comes next, all are.
pub proof fn law_next_file_is_first_missing(completed: Seq<usize>, from: nat, n: nat)
    requires
        n <= usize::MAX,
    ensures
        match first_missing(completed, from, n) {
            Some(i) => from <= i < n && !completed.contains(i as usize) && forall|j: nat|
                from <= j < i ==> completed.contains(#[trigger] (j as usize)),
            None => forall|j: nat| from <= j < n ==> completed.contains(#[trigger] (j as usize)),
        },
    decreases n - from,
{
    if from < n && completed.contains(from as usize) {
        law_next_file_is_first_missing(completed, from + 1, n);
    }
}

/// The bytes of a file that were sent: all of them where it is done, those of
/// the chunks that were marked otherwise.
pub open spec fn sent_of_file(state: FolderTransferState, index: nat) -> nat {
    let size = state.files@[index as int].size as nat;
    if state.completed_files@.contains(index as usize) {
        size
    } else {
        bytes_done(
            state.chunks_of(index as usize).to_set(),
            state.config.chunk_size as nat,
            size,
        )
    }
}

/// The bytes of the first `n` files that were sent.
pub open spec fn sent_of_first(state: FolderTransferState, n: nat) -> nat
    decreases n,
{
    if n == 0 {
        0
    } else {
        sent_of_first(state, (n - 1) as nat) + sent_of_file(state, (n - 1) as nat)
    }
}

/// A state whose files can be cut into chunks.
pub open spec fn has_chunks(state: FolderTransferState) -> bool {
    &&& total_size(state.files@) <= u64::MAX
    &&& state.files@.len() > 0 ==> state.config.chunk_size > 0
}

proof fn lemma_sent_within(state: FolderTransferState, n: nat)
    requires
        has_chunks(state),
        n <= state.files@.len(),
    ensures
        sent_of_first(state, n) <= total_size(state.files@.take(n as int)),
    decreases n,
{
    if n > 0 {
        let k = (n - 1) as nat;
        lemma_sent_within(state, k);
        lemma_total_prefix(state.files@, k as int);
        law_chunks_have_the_files_bytes(
            state.chunks_of(k as usize).to_set(),
            state.config.chunk_size as nat,
            state.files@[k as int].size as nat,
        );
    }
}

/// The bytes that a transfer has sent so far.
pub fn sent_so_far(state: &FolderTransferState) -> (r: u64)
    requires
        has_chunks(*state),
    ensures
        r == sent_of_first(*state, state.files@.len()),
        r <= total_size(state.files@),
{
    let mut sum: u64 = 0;
    let mut i: usize = 0;
    while i < state.files.len()
        invariant
            has_chunks(*state),
            i <= state.files@.len(),
            sum == sent_of_first(*state, i as nat),
        decreases state.files@.len() - i,
    {
        proof {
            lemma_sent_within(*state, (i + 1) as nat);
            lemma_total_prefix(state.files@, i + 1);
        }
        let size: u64 = state.files[i].size;
        let done: u64 = if has_index(&state.completed_files, i) {
            size
        } else {
            count_done(state.get_completed_chunks(i), state.config.chunk_size, size)
        };
        sum = sum + done;
        i += 1;
    }
    proof {
        lemma_sent_within(*state, state.files@.len());
        assert(state.files@.take(state.files@.len() as int) =~= state.files@);
    }
    sum
}

// ---------------------------------------------------------------- sending

/// Where a transfer goes on: at the first file that is not done, where some of
/// its chunks are.
pub open spec fn resumes_at(state: FolderTransferState) -> Option<usize> {
    match first_missing(state.completed_files@, 0, state.files@.len()) {
        Some(i) => if state.chunks_of(i as usize).len() > 0 {
            Some(i as usize)
        } else {
            None
        },
        None => None,
    }
}

/// The resume point to offer, if there is one.
pub fn resume_point(state: &FolderTransferState, transfer_id: [u8; 16]) -> (r: Option<ResumePoint>)
    ensures
        match resumes_at(*state) {
            Some(i) => r matches Some(p) && p.transfer_id == transfer_id && p.file_index == i as u32
                && p.completed_chunks@ == state.chunks_of(i),
            None => r is None,
        },
{
    match state.next_file() {
        Some(i) => {
            let chunks: &[u64] = state.get_completed_chunks(i);
            if chunks.len() > 0 {
                let mut list: Vec<u64> = Vec::new();
                list.extend_from_slice(chunks);
                assert(list@ =~= chunks@);
                #[verifier::truncate]
                let file_index: u32 = i as u32;
                Some(ResumePoint { transfer_id, file_index, completed_chunks: list })
            } else {
                None
            }
        },
        None => None,
    }
}

/// Whether this is the offer for a transfer: all files, the resume point, and
/// the files that are done already.
pub open spec fn offers(
    info: TransferInfo,
    state: FolderTransferState,
    transfer_id: [u8; 16],
) -> bool {
    &&& info.transfer_id == transfer_id
    &&& file_views(info.items@) == file_views(state.files@)
    &&& match resumes_at(state) {
        Some(i) => info.resume_from matches Some(p) && p.transfer_id == transfer_id && p.file_index
            == i as u32 && p.completed_chunks@ == state.chunks_of(i),
        None => info.resume_from is None,
    }
    &&& info.completed_files@ == state.completed_files@.map_values(|i: usize| i as u32)
}

/// The offer for a transfer.
pub fn transfer_info(state: &FolderTransferState, transfer_id: [u8; 16]) -> (r: TransferInfo)
    ensures
        offers(r, *state, transfer_id),
{
    let mut completed: Vec<u32> = Vec::new();
    let mut i: usize = 0;
    while i < state.completed_files.len()
        invariant
            i <= state.completed_files@.len(),
            completed@.len() == i,
            forall|j: int| 0 <= j < i ==> completed@[j] == state.completed_files@[j] as u32,
        decreases state.completed_files@.len() - i,
    {
        #[verifier::truncate]
        let short: u32 = state.completed_files[i] as u32;
        completed.push(short);
        i += 1;
    }
    assert(completed@ =~= state.completed_files@.map_values(|i: usize| i as u32));
    TransferInfo {
        transfer_id,
        items: copy_files(&state.files),
        resume_from: resume_point(state, transfer_id),
        completed_files: completed,
    }
}

/// What the path to send turned out to be.
#[derive(Debug)]
pub enum Source {
    /// A path without a last component.
    Nameless,
    /// A single file.
    SingleFile(FileMetadata),
    /// A folder with the files below it.
    Folder(Vec<FileMetadata>),
    /// Something else, or nothing.
    Neither,
}

fn protocol_error(text: &str) -> (e: Error)
    ensures
        e matches Error::Protocol(m) && m@ == text@,
{
    Error::Protocol(text.to_owned())
}

/// Whether `r` is what a source leads to.
pub open spec fn leads_to_files(source: Source, r: Result<Vec<FileMetadata>>) -> bool {
    match source {
        Source::Nameless => r matches Err(Error::Protocol(m)) && m@ == "Invalid path"@,
        Source::SingleFile(f) => r matches Ok(files) && files@ == seq![f],
        Source::Folder(list) => if list@.len() == 0 {
            r matches Err(Error::Protocol(m)) && m@ == "Folder is empty"@
        } else {
            r == Ok::<Vec<FileMetadata>, Error>(list)
        },
        Source::Neither => r matches Err(Error::Protocol(m)) && m@
            == "Path is neither a file nor a directory"@,
    }
}

/// The files that a source stands for; an empty folder, and a path that is
/// neither a file nor a folder, cannot be sent.
pub fn source_files(source: Source) -> (r: Result<Vec<FileMetadata>>)
    ensures
        leads_to_files(source, r),
{
    match source {
        Source::Nameless => Err(protocol_error("Invalid path")),
        Source::SingleFile(f) => {
            let mut files: Vec<FileMetadata> = Vec::new();
            files.push(f);
            assert(files@ =~= seq![f]);
            Ok(files)
        },
        Source::Folder(list) => if list.is_empty() {
            Err(protocol_error("Folder is empty"))
        } else {
            Ok(list)
        },
        Source::Neither => Err(protocol_error("Path is neither a file nor a directory")),
    }
}

/// What a directory entry is.
#[derive(Debug, Clone, Copy, PartialEq, Eq, Structural)]
pub enum EntryKind {
    /// A link; never followed, since it could lead round in circles or out of
    /// the folder.
    Symlink,
    File,
    Directory,
    Other,
}

/// What is read next, and what is left to be read.
pub open spec fn takes_directory(
    before: Seq<String>,
    r: Option<String>,
    after: Seq<String>,
) -> bool {
    match r {
        Some(dir) => before.len() > 0 && dir == before[0] && after == before.skip(1),
        None => before.len() == 0 && after == before,
    }
}

/// What an entry of a directory leads to: the directories to be read, the files
/// found, and whether the walk goes on.
pub open spec fn takes_entry(
    pending: Seq<String>,
    files: Seq<FileMetadata>,
    path: String,
    relative: Seq<char>,
    kind: EntryKind,
    size: u64,
    modified: u64,
    platform: Platform,
    pending_after: Seq<String>,
    files_after: Seq<FileMetadata>,
    r: Result<()>,
) -> bool {
    match kind {
        EntryKind::Symlink | EntryKind::Other => r is Ok && pending_after == pending && files_after
            == files,
        EntryKind::Directory => r is Ok && pending_after == pending.push(path) && files_after
            == files,
        EntryKind::File => pending_after == pending && match safe_names(relative, platform) {
            Ok(names) => {
                let f = files_after.last();
                &&& r is Ok
                &&& files_after.len() == files.len() + 1
                &&& files_after.drop_last() == files
                &&& f.path@ == join_names(names, platform)
                &&& f.size == size
                &&& f.modified == modified
                &&& f.checksum@ == Seq::new(32, |i: int| 0u8)
            },
            Err(fault) => {
                &&& r matches Err(Error::Protocol(m)) && m@ == fault.text(relative)
                &&& files_after == files
            },
        },
    }
}

/// The walk through a folder, directory by directory, in the order they are
/// found.
pub struct FolderScan {
    /// Directories still to be read.
    pub pending: Vec<String>,
    /// Files found so far.
    pub files: Vec<FileMetadata>,
}

impl FolderScan {
    /// A walk that begins at `root`.
    pub fn new(root: String) -> (r: Self)
        ensures
            r.pending@ == seq![root],
            r.files@ == Seq::<FileMetadata>::empty(),
    {
        let mut pending: Vec<String> = Vec::new();
        pending.push(root);
        assert(pending@ =~= seq![root]);
        FolderScan { pending, files: Vec::new() }
    }

    /// The next directory to read: the one found first.
    pub fn next_directory(&mut self) -> (r: Option<String>)
        ensures
            final(self).files == old(self).files,
            takes_directory(old(self).pending@, r, final(self).pending@),
            r is None ==> final(self).pending == old(self).pending,
    {
        if self.pending.is_empty() {
            return None;
        }
        let dir: String = self.pending.remove(0);
        assert(self.pending@ =~= old(self).pending@.skip(1));
        Some(dir)
    }

    /// Takes an entry of a directory. Files are listed under their path
    /// relative to the folder's parent, directories are read later, anything
    /// else is left out. A path that a receiver would refuse ends the walk.
    pub fn on_entry(
        &mut self,
        path: String,
        relative: &str,
        kind: EntryKind,
        size: u64,
        modified: u64,
        platform: Platform,
    ) -> (r: Result<()>)
        ensures
            takes_entry(
                old(self).pending@,
                old(self).files@,
                path,
                relative@,
                kind,
                size,
                modified,
                platform,
                final(self).pending@,
                final(self).files@,
                r,
            ),
    {
        match kind {
            EntryKind::Symlink | EntryKind::Other => Ok(()),
            EntryKind::Directory => {
                self.pending.push(path);
                Ok(())
            },
            EntryKind::File => match sanitize_relative_path(relative, platform) {
                Ok(clean) => {
                    let checksum: [u8; 32] = [0; 32];
                    assert(checksum@ =~= Seq::new(32, |i: int| 0u8));
                    self.files.push(FileMetadata { path: clean, size, modified, checksum });
                    assert(self.files@.drop_last() =~= old(self).files@);
                    Ok(())
                },
                Err(e) => Err(e),
            },
        }
    }
}

/// Takes the answer to an offer. A receiver that hangs up instead of answering
/// has rejected it.
pub fn on_offer_reply(reply: Result<Message>, shown: &str) -> (r: Result<()>)
    ensures
        match reply {
            Ok(Message::Ready) => r is Ok,
            Ok(Message::Cancel) => r matches Err(e) && e is Cancelled,
            Ok(_) => r matches Err(Error::Protocol(m)) && m@ == unexpected_text("Ready"@, shown@),
            Err(e) => if e is Disconnected || e is Network || e is Quic {
                r matches Err(out) && out is Cancelled
            } else {
                r == Err::<(), Error>(e)
            },
        },
{
    match reply {
        Ok(Message::Ready) => Ok(()),
        Ok(Message::Cancel) => Err(Error::Cancelled),
        Ok(_) => Err(unexpected("Ready", shown)),
        Err(Error::Disconnected) | Err(Error::Network(_)) | Err(Error::Quic(_)) => Err(
            Error::Cancelled,
        ),
        Err(e) => Err(e),
    }
}

/// The message that ends a transfer.
pub fn complete_message(state: &FolderTransferState, transfer_id: [u8; 16], duration_ms: u64) -> (r:
    CompleteMessage)
    ensures
        r.transfer_id == transfer_id,
        r.total_bytes == state.total_bytes,
        r.duration_ms == duration_ms,
{
    CompleteMessage { transfer_id, total_bytes: state.total_bytes, duration_ms }
}

// ---------------------------------------------------------------- checksums

/// The first eight bytes of a checksum as they are shown: a bracketed list of
/// hexadecimal numbers.
pub open spec fn short_hash_text(h: Seq<u8>) -> Seq<char> {
    "["@ + listed(h.take(8)) + "]"@
}

/// Hexadecimal numbers separated by commas.
pub open spec fn listed(bytes: Seq<u8>) -> Seq<char>
    decreases bytes.len(),
{
    if bytes.len() == 0 {
        Seq::empty()
    } else if bytes.len() == 1 {
        hex_chars(bytes)
    } else {
        listed(bytes.drop_last()) + ", "@ + hex_chars(seq![bytes.last()])
    }
}

fn push_short_hash(m: &mut String, h: &[u8; 32])
    ensures
        final(m)@ == old(m)@ + short_hash_text(h@),
{
    let ghost start = m@;
    m.append("[");
    let mut i: usize = 0;
    let ghost t = h@.take(8);
    assert(t.take(0) =~= Seq::empty());
    assert(m@ =~= start + "["@ + listed(t.take(0)));
    while i < 8
        invariant
            i <= 8,
            t == h@.take(8),
            m@ == start + "["@ + listed(t.take(i as int)),
        decreases 8 - i,
    {
        if i > 0 {
            m.append(", ");
        }
        let one: [u8; 1] = [h[i]];
        m.append(hex_encode(one.as_slice()).as_str());
        proof {
            let next = t.take(i + 1);
            assert(next.drop_last() =~= t.take(i as int));
            assert(next.last() == h@[i as int]);
            assert(one@ =~= seq![h@[i as int]]);
            if i == 0 {
                assert(next =~= one@);
                assert(t.take(0) =~= Seq::empty());
            }
            assert(m@ =~= start + "["@ + listed(next));
        }
        i += 1;
    }
    assert(t.take(8) =~= t);
    m.append("]");
    assert(m@ =~= start + short_hash_text(h@));
}

/// The sender's check of the receiver's checksum.
pub fn on_checksum_as_sender(file_index: u32, ours: &[u8; 32], reply: &Message, shown: &str) -> (r:
    Result<()>)
    ensures
        match *reply {
            Message::FileChecksum(peer) => if peer.checksum@ == ours@ {
                r is Ok
            } else {
                r matches Err(Error::Verification(m)) && m@ == "File checksum mismatch for file "@
                    + decimal(file_index as nat) + ": sender="@ + short_hash_text(ours@)
                    + ", receiver="@ + short_hash_text(peer.checksum@)
            },
            _ => r matches Err(Error::Protocol(m)) && m@ == unexpected_text(
                "FileChecksum"@,
                shown@,
            ),
        },
{
    match reply {
        Message::FileChecksum(peer) => {
            if bytes_eq(peer.checksum.as_slice(), ours.as_slice()) {
                return Ok(());
            }
            let mut m = "File checksum mismatch for file ".to_owned();
            push_decimal(&mut m, file_index as u64);
            m.append(": sender=");
            push_short_hash(&mut m, ours);
            m.append(", receiver=");
            push_short_hash(&mut m, &peer.checksum);
            Err(Error::Verification(m))
        },
        _ => Err(unexpected("FileChecksum", shown)),
    }
}

/// The receiver's check of the sender's checksum, which has to be for the same
/// file.
pub fn on_checksum_as_receiver(
    file_index: u32,
    ours: &[u8; 32],
    reply: &Message,
    shown: &str,
) -> (r: Result<()>)
    ensures
        match *reply {
            Message::FileChecksum(peer) => if peer.file_index != file_index {
                r matches Err(Error::Protocol(m)) && m@ == "File index mismatch: expected "@
                    + decimal(file_index as nat) + ", got "@ + decimal(peer.file_index as nat)
            } else if peer.checksum@ == ours@ {
                r is Ok
            } else {
                r matches Err(Error::Verification(m)) && m@ == "File "@ + decimal(file_index as nat)
                    + " checksum mismatch: sender="@ + short_hash_text(peer.checksum@)
                    + ", receiver="@ + short_hash_text(ours@)
            },
            _ => r matches Err(Error::Protocol(m)) && m@ == unexpected_text(
                "FileChecksum"@,
                shown@,
            ),
        },
{
    match reply {
        Message::FileChecksum(peer) => {
            if peer.file_index != file_index {
                let mut m = "File index mismatch: expected ".to_owned();
                push_decimal(&mut m, file_index as u64);
                m.append(", got ");
                push_decimal(&mut m, peer.file_index as u64);
                return Err(Error::Protocol(m));
            }
            if bytes_eq(peer.checksum.as_slice(), ours.as_slice()) {
                return Ok(());
            }
            let mut m = "File ".to_owned();
            push_decimal(&mut m, file_index as u64);
            m.append(" checksum mismatch: sender=");
            push_short_hash(&mut m, &peer.checksum);
            m.append(", receiver=");
            push_short_hash(&mut m, ours);
            Err(Error::Verification(m))
        },
        _ => Err(unexpected("FileChecksum", shown)),
    }
}

// ---------------------------------------------------------------- sender

/// What the sender does next.
#[derive(Debug)]
pub enum SendAction {
    /// Send the offer and wait for the answer.
    Offer(TransferInfo),
    /// Send this file, without the chunks that the receiver has.
    SendFile { index: usize, path: String, completed_chunks: Vec<u64> },
    /// Send the checksum of the file and wait for that of the receiver.
    ExchangeChecksum(FileChecksumMessage),
    /// Send the message that ends the transfer.
    Complete(CompleteMessage),
    /// Nothing more.
    Finished,
}

/// What happened.
#[derive(Debug)]
pub enum SendEvent {
    /// The answer to the offer, or the error in its place.
    Reply(Result<Message>),
    /// The file was sent; its checksum.
    FileSent([u8; 32]),
    /// The receiver's checksum.
    Checksum(Message),
    /// The end message was sent.
    Completed,
}

/// Where the sender of a transfer is.
#[derive(Debug, Clone, Copy)]
pub enum SendStage {
    /// The offer is out.
    Offered,
    /// This file is being sent.
    Sending(usize),
    /// This file was sent, with this checksum.
    Checking(usize, [u8; 32]),
    /// Every file was sent.
    Completing,
    /// The transfer is over.
    Over,
}

/// The sending side of a transfer.
#[derive(Debug)]
pub struct FolderSend {
    pub transfer_id: [u8; 16],
    pub stage: SendStage,
}

/// Every file before `end` is done.
pub open spec fn done_before(completed: Seq<usize>, end: nat) -> bool {
    forall|j: nat| j < end ==> completed.contains(#[trigger] (j as usize))
}

/// The action that follows once every file before `from` is done: the first
/// file from there on that is not, or the end.
pub open spec fn follows_files(
    action: SendAction,
    stage: SendStage,
    state: FolderTransferState,
    transfer_id: [u8; 16],
    from: nat,
    elapsed_ms: u64,
) -> bool {
    match first_missing(state.completed_files@, from, state.files@.len()) {
        Some(i) => {
            &&& stage == SendStage::Sending(i as usize)
            &&& action matches SendAction::SendFile { index, path, completed_chunks } && index == i
                && path@ == state.files@[i as int].path@ && completed_chunks@ == state.chunks_of(
                i as usize,
            )
        },
        None => {
            &&& stage is Completing
            &&& action == SendAction::Complete(
                CompleteMessage {
                    transfer_id,
                    total_bytes: state.total_bytes,
                    duration_ms: elapsed_ms,
                },
            )
        },
    }
}

/// Whether the stage and the state afterwards, and `r`, follow from an event on
/// the sending side: what each stage makes of the event that it expects.
pub open spec fn sending_goes_on(
    stage: SendStage,
    transfer_id: [u8; 16],
    before: FolderTransferState,
    event: SendEvent,
    shown: Seq<char>,
    elapsed_ms: u64,
    stage_after: SendStage,
    after: FolderTransferState,
    r: Result<SendAction>,
) -> bool {
    match (stage, event) {
        (SendStage::Offered, SendEvent::Reply(reply)) => match reply {
            Ok(Message::Ready) => after == before && (r matches Ok(action)
                && follows_files(
                action,
                stage_after,
                after,
                transfer_id,
                0,
                elapsed_ms,
            )),
            Ok(Message::Cancel) => r matches Err(e) && e is Cancelled,
            Ok(_) => r matches Err(Error::Protocol(m)) && m@ == unexpected_text(
                "Ready"@,
                shown,
            ),
            Err(e) => if e is Disconnected || e is Network || e is Quic {
                r matches Err(out) && out is Cancelled
            } else {
                r == Err::<SendAction, Error>(e)
            },
        },
        (SendStage::Sending(i), SendEvent::FileSent(checksum)) => {
            &&& after == before
            &&& stage_after == SendStage::Checking(i, checksum)
            &&& r == Ok::<SendAction, Error>(
                SendAction::ExchangeChecksum(
                    FileChecksumMessage {
                        transfer_id: transfer_id,
                        file_index: i as u32,
                        checksum,
                    },
                ),
            )
        },
        (SendStage::Checking(i, ours), SendEvent::Checksum(reply)) => match reply {
            Message::FileChecksum(peer) => if peer.checksum@ == ours@ {
                &&& after.completed_files@ == before.completed_files@.push(i)
                &&& after.transferred_bytes == before.transferred_bytes + before.files@[i as int].size
                &&& after.current_file == (match first_missing(
                    after.completed_files@,
                    0,
                    before.files@.len(),
                ) {
                    Some(k) => Some(k as usize),
                    None => None,
                })
                &&& after.transfer_id == before.transfer_id
                &&& after.folder_name == before.folder_name
                &&& after.file_chunks == before.file_chunks
                &&& after.total_bytes == before.total_bytes
                &&& after.config == before.config
                &&& r matches Ok(action) && follows_files(
                    action,
                    stage_after,
                    after,
                    transfer_id,
                    (i + 1) as nat,
                    elapsed_ms,
                )
            } else {
                r matches Err(Error::Verification(m)) && m@
                    == "File checksum mismatch for file "@ + decimal((i as u32) as nat)
                    + ": sender="@ + short_hash_text(ours@) + ", receiver="@
                    + short_hash_text(peer.checksum@)
            },
            _ => r matches Err(Error::Protocol(m)) && m@ == unexpected_text(
                "FileChecksum"@,
                shown,
            ),
        },
        (SendStage::Completing, _) => {
            &&& after == before
            &&& stage_after is Over
            &&& r == Ok::<SendAction, Error>(SendAction::Finished)
        },
        _ => true,
    }
}

impl FolderSend {
    /// The file at hand is the first that is not done, and none is left at the
    /// end.
    pub open spec fn wf(&self, state: FolderTransferState) -> bool {
        match self.stage {
            SendStage::Offered => true,
            SendStage::Sending(i) | SendStage::Checking(i, _) => {
                &&& i < state.files@.len()
                &&& !state.completed_files@.contains(i)
                &&& done_before(state.completed_files@, i as nat)
            },
            SendStage::Completing | SendStage::Over => done_before(
                state.completed_files@,
                state.files@.len(),
            ),
        }
    }

    /// Whether an event can come at this stage.
    pub open spec fn expects(&self, event: SendEvent) -> bool {
        match self.stage {
            SendStage::Offered => event is Reply,
            SendStage::Sending(_) => event is FileSent,
            SendStage::Checking(_, _) => event is Checksum,
            SendStage::Completing => event is Completed,
            SendStage::Over => false,
        }
    }

    /// Begins with the offer.
    pub fn start(state: &FolderTransferState, transfer_id: [u8; 16]) -> (r: (Self, SendAction))
        ensures
            r.0.wf(*state),
            r.0.transfer_id == transfer_id,
            r.0.stage is Offered,
            r.1 matches SendAction::Offer(info) && offers(info, *state, transfer_id),
    {
        (
            FolderSend { transfer_id, stage: SendStage::Offered },
            SendAction::Offer(transfer_info(state, transfer_id)),
        )
    }

    fn next_file(&mut self, state: &FolderTransferState, from: usize, elapsed_ms: u64) -> (r:
        SendAction)
        requires
            from <= state.files@.len(),
            done_before(state.completed_files@, from as nat),
        ensures
            final(self).transfer_id == old(self).transfer_id,
            final(self).wf(*state),
            follows_files(
                r,
                final(self).stage,
                *state,
                old(self).transfer_id,
                from as nat,
                elapsed_ms,
            ),
    {
        let n: usize = state.files.len();
        proof {
            law_next_file_is_first_missing(state.completed_files@, from as nat, n as nat);
            assert forall|j: nat|
                j < (match first_missing(state.completed_files@, from as nat, n as nat) {
                    Some(i) => i,
                    None => n as nat,
                }) implies state.completed_files@.contains(#[trigger] (j as usize)) by {}
        }
        match state.next_file_from(from) {
            Some(index) => {
                let mut completed_chunks: Vec<u64> = Vec::new();
                completed_chunks.extend_from_slice(state.get_completed_chunks(index));
                assert(completed_chunks@ =~= state.chunks_of(index));
                self.stage = SendStage::Sending(index);
                SendAction::SendFile {
                    index,
                    path: string_copy(state.files[index].path.as_str()),
                    completed_chunks,
                }
            },
            None => {
                self.stage = SendStage::Completing;
                SendAction::Complete(complete_message(state, self.transfer_id, elapsed_ms))
            },
        }
    }

    /// Takes an event. After the offer is accepted, every file that is not
    /// done is sent and checked, in order; a file whose checksums agree is
    /// marked as done; then the transfer ends. Where an error comes nothing
    /// changes.
    pub fn next(
        &mut self,
        state: &mut FolderTransferState,
        event: SendEvent,
        shown: &str,
        elapsed_ms: u64,
    ) -> (r: Result<SendAction>)
        requires
            old(self).wf(*old(state)),
            old(self).expects(event),
            old(self).stage matches SendStage::Checking(i, _) ==> old(state).transferred_bytes
                + old(state).files@[i as int].size <= u64::MAX,
        ensures
            final(self).wf(*final(state)),
            final(self).transfer_id == old(self).transfer_id,
            final(state).files == old(state).files,
            old(state).consistent() ==> final(state).consistent(),
            r is Err ==> final(self).stage == old(self).stage && *final(state) == *old(state),
            sending_goes_on(
                old(self).stage,
                old(self).transfer_id,
                *old(state),
                event,
                shown@,
                elapsed_ms,
                final(self).stage,
                *final(state),
                r,
            ),
    {
        match (self.stage, event) {
            (SendStage::Offered, SendEvent::Reply(reply)) => match on_offer_reply(reply, shown) {
                Ok(()) => Ok(self.next_file(state, 0, elapsed_ms)),
                Err(e) => Err(e),
            },
            (SendStage::Sending(index), SendEvent::FileSent(checksum)) => {
                self.stage = SendStage::Checking(index, checksum);
                #[verifier::truncate]
                let file_index: u32 = index as u32;
                Ok(
                    SendAction::ExchangeChecksum(
                        FileChecksumMessage { transfer_id: self.transfer_id, file_index, checksum },
                    ),
                )
            },
            (SendStage::Checking(index, ours), SendEvent::Checksum(reply)) => {
                #[verifier::truncate]
                let file_index: u32 = index as u32;
                match on_checksum_as_sender(file_index, &ours, &reply, shown) {
                    Ok(()) => {
                        let ghost before = state.completed_files@;
                        state.finish_file(index);
                        let n: usize = state.files.len();
                        assert(index < n);
                        assert forall|j: nat| j < index + 1 implies state.completed_files@.contains(
                            #[trigger] (j as usize),
                        ) by {
                            if j < index {
                                assert(before.contains(j as usize));
                                let k = choose|k: int|
                                    0 <= k < before.len() && before[k] == j as usize;
                                assert(state.completed_files@[k] == j as usize);
                            } else {
                                assert(state.completed_files@[before.len() as int] == index);
                            }
                        }
                        Ok(self.next_file(state, index + 1, elapsed_ms))
                    },
                    Err(e) => Err(e),
                }
            },
            _ => {
                self.stage = SendStage::Over;
                Ok(SendAction::Finished)
            },
        }
    }
}

// ---------------------------------------------------------------- receiving

/// The first file that is too large to be accepted.
pub open spec fn first_oversize(files: Seq<FileMetadata>, from: nat) -> Option<u64>
    decreases files.len() - from,
{
    if from >= files.len() {
        None
    } else if files[from as int].size > MAX_TRANSFER_FILE_SIZE {
        Some(files[from as int].size)
    } else {
        first_oversize(files, from + 1)
    }
}

/// An offer that can be accepted: it has files, none too large.
pub open spec fn acceptable(info: TransferInfo) -> bool {
    info.items@.len() > 0 && first_oversize(info.items@, 0) is None
}

proof fn lemma_sizes_bounded(files: Seq<FileMetadata>, from: nat)
    requires
        first_oversize(files, from) is None,
    ensures
        forall|i: int|
            from <= i < files.len() ==> (#[trigger] files[i]).size <= MAX_TRANSFER_FILE_SIZE,
    decreases files.len() - from,
{
    if from < files.len() {
        lemma_sizes_bounded(files, from + 1);
    }
}

/// The bytes of a file of an offer that earlier sessions transferred: all of
/// them where the sender says that the file is done, those of the chunks that
/// the resume point lists for it otherwise.
pub open spec fn done_of_offered(info: TransferInfo, index: nat, chunk_size: nat) -> nat {
    let size = info.items@[index as int].size as nat;
    if info.completed_files@.contains(index as u32) {
        size
    } else {
        match info.resume_from {
            Some(point) => if point.file_index == index {
                bytes_done(point.completed_chunks@.to_set(), chunk_size, size)
            } else {
                0
            },
            None => 0,
        }
    }
}

/// The bytes of the first `n` files of an offer that earlier sessions
/// transferred.
pub open spec fn done_of_first(info: TransferInfo, n: nat, chunk_size: nat) -> nat
    decreases n,
{
    if n == 0 {
        0
    } else {
        done_of_first(info, (n - 1) as nat, chunk_size) + done_of_offered(
            info,
            (n - 1) as nat,
            chunk_size,
        )
    }
}

/// The bytes of an offer that earlier sessions transferred.
pub open spec fn already_transferred(info: TransferInfo, chunk_size: nat) -> nat {
    done_of_first(info, info.items@.len(), chunk_size)
}

proof fn lemma_done_within(info: TransferInfo, n: nat, chunk_size: nat)
    requires
        0 < chunk_size <= u32::MAX,
        acceptable(info),
        n <= info.items@.len(),
    ensures
        done_of_first(info, n, chunk_size) <= total_size(info.items@.take(n as int)),
    decreases n,
{
    if n > 0 {
        let k = (n - 1) as nat;
        lemma_done_within(info, k, chunk_size);
        lemma_total_prefix(info.items@, k as int);
        lemma_sizes_bounded(info.items@, 0);
        if let Some(point) = info.resume_from {
            law_chunks_have_the_files_bytes(
                point.completed_chunks@.to_set(),
                chunk_size,
                info.items@[k as int].size as nat,
            );
        }
    }
}

/// Never more was transferred than is offered.
pub proof fn law_already_transferred_within_total(info: TransferInfo, chunk_size: nat)
    requires
        0 < chunk_size <= u32::MAX,
        acceptable(info),
    ensures
        already_transferred(info, chunk_size) <= total_size(info.items@),
{
    lemma_done_within(info, info.items@.len(), chunk_size);
    assert(info.items@.take(info.items@.len() as int) =~= info.items@);
}

/// Distinct chunks the receiver has to wait for: those of the file without the
/// ones that the resume point lists for it.
pub open spec fn expected_chunks(info: TransferInfo, index: nat, chunk_size: nat) -> nat {
    let total = chunks_covering(info.items@[index as int].size as nat, chunk_size);
    let sent = match info.resume_from {
        Some(point) => if point.file_index == index {
            point.completed_chunks@.to_set().len()
        } else {
            0
        },
        None => 0,
    };
    if sent >= total {
        0
    } else {
        (total - sent) as nat
    }
}

/// A resumed transfer does not hang: the chunks the sender leaves out are as
/// many as the receiver does not wait for, however often the resume point
/// lists them.
pub proof fn law_resume_counts_agree(completed: Seq<u64>, total: u64)
    requires
        forall|i: int| 0 <= i < completed.len() ==> (#[trigger] completed[i]) < total,
    ensures
        completed.to_set().len() <= total,
        Set::<u64>::range(0, total).difference(completed.to_set()).len() == total
            - completed.to_set().len(),
{
    broadcast use vstd::set_lib::range_set_properties;

    let all = Set::<u64>::range(0, total);
    let done = completed.to_set();
    assert forall|k: u64| #[trigger] done.contains(k) implies all.contains(k) by {
        let i = choose|i: int| 0 <= i < completed.len() && completed[i] == k;
        assert(completed[i] < total);
    }
    assert(done.subset_of(all));
    vstd::set_lib::lemma_len_subset(done, all);
    let left = all.difference(done);
    assert(left.disjoint(done));
    vstd::set_lib::lemma_set_disjoint_lens(left, done);
    assert(left.union(done) =~= all);
}

fn check_sizes(files: &Vec<FileMetadata>) -> (r: Result<()>)
    ensures
        match first_oversize(files@, 0) {
            Some(size) => r matches Err(Error::Protocol(m)) && m@ == oversize_text(size),
            None => r is Ok,
        },
{
    let mut i: usize = 0;
    while i < files.len()
        invariant
            i <= files@.len(),
            first_oversize(files@, 0) == first_oversize(files@, i as nat),
        decreases files@.len() - i,
    {
        match validate_file_size(files[i].size) {
            Ok(()) => {},
            Err(e) => {
                return Err(e);
            },
        }
        i += 1;
    }
    Ok(())
}

/// What the receiver does next.
#[derive(Debug)]
pub enum ReceiveAction {
    /// Accept the offer with this answer.
    Accept(Message),
    /// Reject the offer with this answer, and end with this summary.
    Reject(Message, TransferSummary),
    /// The sender says that this file is done already: look for it.
    Look { index: usize, path: String, size: u64 },
    /// Receive this file.
    Receive { index: usize, path: String, size: u64, total_chunks: u64, streams: u64 },
    /// Send the checksum of the file and wait for that of the sender.
    ExchangeChecksum(FileChecksumMessage),
    /// All files are done: wait for the end message.
    AwaitComplete,
    /// The transfer is complete.
    Finished(TransferSummary),
}

/// What happened on the receiving side.
#[derive(Debug)]
pub enum ReceiveEvent {
    /// The offer was decided on.
    Decided(AcceptDecision),
    /// The answer was sent.
    Answered,
    /// The lengths of the file and of its partial file, where they exist.
    Found { file_len: Option<u64>, partial_len: Option<u64> },
    /// The file was received; its checksum.
    Received([u8; 32]),
    /// The sender's checksum.
    Checksum(Message),
    /// The end message.
    Ended(Message),
}

/// Where the receiver of a transfer is.
#[derive(Debug, Clone, Copy)]
pub enum ReceiveStage {
    /// The offer is to be decided on.
    Deciding,
    /// The offer was accepted.
    Answering,
    /// This file is looked for.
    Looking(usize),
    /// This file is being received.
    Receiving(usize),
    /// This file was received, with this checksum.
    Checking(usize, [u8; 32]),
    /// Every file is confirmed.
    Ending,
    /// The transfer is over.
    Over,
}

/// Why a file counts as done.
#[derive(Debug, Clone, Copy)]
pub enum Confirmation {
    /// The sender left it out, and no copy of another size is here.
    LeftOut,
    /// It was received, and both sides have this checksum of it.
    Checked([u8; 32]),
}

/// The receiving side of a transfer.
pub struct FolderReceive {
    info: TransferInfo,
    chunk_size: u32,
    platform: Platform,
    total_bytes: u64,
    already: u64,
    stage: ReceiveStage,
    confirmed: Vec<Confirmation>,
}

/// The receiving side of a transfer as a value.
pub ghost struct ReceiveView {
    pub info: TransferInfo,
    pub chunk_size: u32,
    /// The system received on.
    pub platform: Platform,
    /// Size of all files together, once the offer is accepted.
    pub total_bytes: u64,
    /// Bytes that earlier sessions transferred, once the offer is accepted.
    pub already: u64,
    pub stage: ReceiveStage,
    /// Why each file so far counts as done, in order.
    pub confirmed: Seq<Confirmation>,
}

impl View for FolderReceive {
    type V = ReceiveView;

    closed spec fn view(&self) -> ReceiveView {
        ReceiveView {
            info: self.info,
            chunk_size: self.chunk_size,
            platform: self.platform,
            total_bytes: self.total_bytes,
            already: self.already,
            stage: self.stage,
            confirmed: self.confirmed@,
        }
    }
}

/// Whether what is here of a file that the sender leaves out is acceptable:
/// the file, or else its partial file, has the right size, or there is
/// neither.
pub open spec fn copy_fits(file_len: Option<u64>, partial_len: Option<u64>, size: u64) -> bool {
    match (file_len, partial_len) {
        (Some(len), _) => len == size,
        (None, Some(len)) => len == size,
        (None, None) => true,
    }
}

impl ReceiveView {
    /// Whether the sender says that a file is done already.
    pub open spec fn left_out(self, index: nat) -> bool {
        self.info.completed_files@.contains(index as u32)
    }

    /// Files are confirmed in order, each for the reason that fits it, the
    /// file at hand is the first that is not, and at the end all are.
    pub open spec fn wf(self) -> bool {
        let n = self.info.items@.len();
        &&& acceptable(self.info)
        &&& forall|j: int|
            0 <= j < self.confirmed.len() ==> (((#[trigger] self.confirmed[j]) is LeftOut)
                <==> self.left_out(j as nat))
        &&& !(self.stage is Deciding) && !(self.stage is Over) ==> {
            &&& self.chunk_size > 0
            &&& self.total_bytes == total_size(self.info.items@)
            &&& self.already == already_transferred(self.info, self.chunk_size as nat)
        }
        &&& match self.stage {
            ReceiveStage::Deciding | ReceiveStage::Answering => self.confirmed.len() == 0,
            ReceiveStage::Looking(i) => i == self.confirmed.len() && i < n && self.left_out(
                i as nat,
            ) && safe_names(self.info.items@[i as int].path@, self.platform) is Ok,
            ReceiveStage::Receiving(i) | ReceiveStage::Checking(i, _) => i == self.confirmed.len()
                && i < n && !self.left_out(i as nat),
            ReceiveStage::Ending => self.confirmed.len() == n,
            ReceiveStage::Over => true,
        }
    }

    /// Whether an event can come at this stage.
    pub open spec fn expects(self, event: ReceiveEvent) -> bool {
        match self.stage {
            ReceiveStage::Deciding => event is Decided,
            ReceiveStage::Answering => event is Answered,
            ReceiveStage::Looking(_) => event is Found,
            ReceiveStage::Receiving(_) => event is Received,
            ReceiveStage::Checking(_, _) => event is Checksum,
            ReceiveStage::Ending => event is Ended,
            ReceiveStage::Over => false,
        }
    }

    /// What is done with file `i`: it is looked for or received. Behind the
    /// last file the end is awaited. A path that could leave the directory
    /// received into is an error.
    pub open spec fn step_at(self, i: nat, r: Result<(ReceiveStage, ReceiveAction)>) -> bool {
        let file = self.info.items@[i as int];
        if i >= self.info.items@.len() {
            r matches Ok((stage, action)) && stage is Ending && action is AwaitComplete
        } else {
            match safe_names(file.path@, self.platform) {
                Err(fault) => r matches Err(Error::Protocol(m)) && m@ == fault.text(file.path@),
                Ok(names) => if self.left_out(i) {
                    r matches Ok((stage, ReceiveAction::Look { index, path, size })) && stage
                        == ReceiveStage::Looking(i as usize) && index == i && path@ == join_names(
                        names,
                        self.platform,
                    ) && size == file.size
                } else {
                    r matches Ok(
                        (
                            stage,
                            ReceiveAction::Receive { index, path, size, total_chunks, streams },
                        ),
                    ) && stage == ReceiveStage::Receiving(i as usize) && index == i && path@
                        == join_names(names, self.platform) && size == file.size && total_chunks
                        == chunks_covering(file.size as nat, self.chunk_size as nat) && streams
                        == expected_chunks(self.info, i, self.chunk_size as nat) && streams
                        <= total_chunks
                },
            }
        }
    }

    /// Whether `after` and `r` follow from an event: what each stage makes of the
    /// event that it expects.
    pub open spec fn goes_on(
        self,
        event: ReceiveEvent,
        shown: Seq<char>,
        after: ReceiveView,
        r: Result<ReceiveAction>,
    ) -> bool {
        match (self.stage, event) {
            (ReceiveStage::Deciding, ReceiveEvent::Decided(AcceptDecision::Accept)) => {
                &&& r matches Ok(ReceiveAction::Accept(m)) && m is Ready
                &&& after == (ReceiveView {
                    total_bytes: total_size(self.info.items@) as u64,
                    already: already_transferred(
                        self.info,
                        self.chunk_size as nat,
                    ) as u64,
                    stage: ReceiveStage::Answering,
                    ..self
                })
            },
            (ReceiveStage::Deciding, ReceiveEvent::Decided(AcceptDecision::Reject)) => {
                &&& r matches Ok(ReceiveAction::Reject(m, s)) && m is Cancel && s.files@.len()
                    == 0 && s.root_name@.len() == 0 && s.bytes == 0
                &&& after == (ReceiveView { stage: ReceiveStage::Over, ..self })
            },
            (ReceiveStage::Answering, ReceiveEvent::Answered) => self.moves_on(
                self.confirmed,
                after,
                r,
            ),
            (ReceiveStage::Looking(i), ReceiveEvent::Found { file_len, partial_len }) => {
                let file = self.info.items@[i as int];
                if copy_fits(file_len, partial_len, file.size) {
                    self.moves_on(
                        self.confirmed.push(Confirmation::LeftOut),
                        after,
                        r,
                    )
                } else {
                    r matches Err(Error::Verification(m)) && m@ == wrong_copy_text(
                        i as nat,
                        join_names(
                            safe_names(file.path@, self.platform)->Ok_0,
                            self.platform,
                        ),
                    )
                }
            },
            (ReceiveStage::Receiving(i), ReceiveEvent::Received(checksum)) => {
                &&& r == Ok::<ReceiveAction, Error>(
                    ReceiveAction::ExchangeChecksum(
                        FileChecksumMessage {
                            transfer_id: self.info.transfer_id,
                            file_index: i as u32,
                            checksum,
                        },
                    ),
                )
                &&& after == (ReceiveView {
                    stage: ReceiveStage::Checking(i, checksum),
                    ..self
                })
            },
            (ReceiveStage::Checking(i, ours), ReceiveEvent::Checksum(reply)) => match reply {
                Message::FileChecksum(peer) => if peer.file_index != i as u32 {
                    r matches Err(Error::Protocol(m)) && m@ == "File index mismatch: expected "@
                        + decimal((i as u32) as nat) + ", got "@ + decimal(
                        peer.file_index as nat,
                    )
                } else if peer.checksum@ == ours@ {
                    self.moves_on(
                        self.confirmed.push(Confirmation::Checked(ours)),
                        after,
                        r,
                    )
                } else {
                    r matches Err(Error::Verification(m)) && m@ == "File "@ + decimal(
                        (i as u32) as nat,
                    ) + " checksum mismatch: sender="@ + short_hash_text(peer.checksum@)
                        + ", receiver="@ + short_hash_text(ours@)
                },
                _ => r matches Err(Error::Protocol(m)) && m@ == unexpected_text(
                    "FileChecksum"@,
                    shown,
                ),
            },
            (ReceiveStage::Ending, ReceiveEvent::Ended(msg)) => match msg {
                Message::Complete(_) => {
                    &&& r matches Ok(ReceiveAction::Finished(s)) && self.summed_up(s)
                    &&& after == (ReceiveView { stage: ReceiveStage::Over, ..self })
                },
                _ => r matches Err(Error::Protocol(m)) && m@ == unexpected_text(
                    "Complete message"@,
                    shown,
                ),
            },
            _ => true,
        }
    }

    /// What follows once the files in `confirmed` are done. Where the next
    /// file has a path that is refused, nothing changes.
    pub open spec fn moves_on(
        self,
        confirmed: Seq<Confirmation>,
        after: ReceiveView,
        r: Result<ReceiveAction>,
    ) -> bool {
        match r {
            Ok(action) => {
                &&& self.step_at(confirmed.len(), Ok((after.stage, action)))
                &&& after == (ReceiveView { stage: after.stage, confirmed, ..self })
            },
            Err(e) => self.step_at(confirmed.len(), Err(e)) && after == self,
        }
    }

    /// Whether this is the summary of the transfer: all files, and the bytes
    /// that came in this session.
    pub open spec fn summed_up(self, s: TransferSummary) -> bool {
        &&& s.root_name@ == self.info.items@[0].path@
        &&& s.files@.map_values(|p: String| p@) == self.info.items@.map_values(
            |f: FileMetadata| f.path@,
        )
        &&& s.bytes == total_size(self.info.items@) - already_transferred(
            self.info,
            self.chunk_size as nat,
        )
    }
}

/// A receive counts as done only when every file is: it comes to its end, and
/// so to a summary, only after each file that the sender did not leave out was
/// received with the checksum that the sender has, and none of those that it
/// left out is here in another size.
pub proof fn law_end_means_every_file_confirmed(v: ReceiveView)
    requires
        v.wf(),
        v.stage is Ending,
    ensures
        v.confirmed.len() == v.info.items@.len(),
        forall|j: int|
            0 <= j < v.info.items@.len() ==> (((#[trigger] v.confirmed[j]) is Checked) <==> !v.left_out(
                j as nat,
            )),
{
    assert forall|j: int| 0 <= j < v.info.items@.len() implies (((#[trigger] v.confirmed[j])
        is Checked) <==> !v.left_out(j as nat)) by {
        assert((v.confirmed[j] is LeftOut) <==> v.left_out(j as nat));
    }
}

/// The receiver waits for exactly the chunks that are still missing. Of a file
/// that the offer does not leave out it takes as many chunks as there are below
/// the count that just covers the file, without those that the resume point
/// lists where the resume point is for that very file; a resume point for
/// another file takes none away.
pub proof fn law_waits_for_what_is_missing(
    v: ReceiveView,
    i: nat,
    stage: ReceiveStage,
    action: ReceiveAction,
)
    requires
        v.step_at(i, Ok((stage, action))),
        v.chunk_size > 0,
        action is Receive,
        v.info.resume_from is Some && v.info.resume_from->0.file_index == i ==> forall|j: int|
            0 <= j < v.info.resume_from->0.completed_chunks@.len() ==> (
            #[trigger] v.info.resume_from->0.completed_chunks@[j]) < action->total_chunks,
    ensures
        action matches ReceiveAction::Receive { index, size, total_chunks, streams, .. } && {
            &&& i < v.info.items@.len()
            &&& index == i
            &&& size == v.info.items@[i as int].size
            &&& !v.info.completed_files@.contains(i as u32)
            &&& total_chunks * v.chunk_size >= size
            &&& total_chunks > 0 ==> (total_chunks - 1) * v.chunk_size < size
            &&& streams == Set::<u64>::range(0, total_chunks).filter(
                |k: u64|
                    !(v.info.resume_from is Some && v.info.resume_from->0.file_index == i
                        && v.info.resume_from->0.completed_chunks@.contains(k)),
            ).len()
            &&& v.info.resume_from is None || v.info.resume_from->0.file_index != i ==> streams
                == total_chunks
        },
{
    broadcast use vstd::set_lib::range_set_properties;

    if let ReceiveAction::Receive { total_chunks, streams, .. } = action {
        let size = v.info.items@[i as int].size as nat;
        law_chunks_cover_exactly(size, v.chunk_size as nat);
        if total_chunks > 0 {
            assert(((total_chunks - 1) as nat) * (v.chunk_size as nat) < size);
        }
        let all = Set::<u64>::range(0, total_chunks);
        let waited = all.filter(
            |k: u64|
                !(v.info.resume_from is Some && v.info.resume_from->0.file_index == i
                    && v.info.resume_from->0.completed_chunks@.contains(k)),
        );
        if v.info.resume_from is Some && v.info.resume_from->0.file_index == i {
            let list = v.info.resume_from->0.completed_chunks@;
            law_resume_counts_agree(list, total_chunks);
            assert(waited =~= all.difference(list.to_set()));
        } else {
            law_resume_counts_agree(Seq::empty(), total_chunks);
            assert(Seq::<u64>::empty().to_set() =~= Set::empty());
            assert(waited =~= all.difference(Seq::<u64>::empty().to_set()));
        }
    }
}

/// Of a file that the offer leaves out everything counts as transferred before;
/// of the file that the resume point is for the chunks that it lists do, one
/// more of them adding its bytes; of any other file nothing does.
pub proof fn law_resumed_bytes_are_of_the_resumed_file(info: TransferInfo, i: nat, chunk_size: nat)
    requires
        0 < chunk_size <= u32::MAX,
        i < info.items@.len(),
    ensures
        ({
            let size = info.items@[i as int].size;
            let done = done_of_offered(info, i, chunk_size);
            let left_out = info.completed_files@.contains(i as u32);
            let resumed = info.resume_from is Some && info.resume_from->0.file_index == i;
            let listed = info.resume_from->0.completed_chunks@;
            &&& done <= size
            &&& left_out ==> done == size
            &&& !left_out && !resumed ==> done == 0
            &&& !left_out && resumed && listed.len() == 0 ==> done == 0
            &&& !left_out && resumed && (forall|k: u64|
                k * chunk_size < size ==> #[trigger] listed.contains(k)) ==> done == size
            &&& !left_out && resumed ==> done == bytes_done(listed.to_set(), chunk_size, size as nat)
        }),
{
    let size = info.items@[i as int].size as nat;
    if info.resume_from is Some && info.resume_from->0.file_index == i {
        let listed = info.resume_from->0.completed_chunks@;
        law_chunks_have_the_files_bytes(listed.to_set(), chunk_size, size);
        law_each_chunk_counts_its_bytes(listed.to_set(), 0, chunk_size, size);
        if listed.len() == 0 {
            assert(listed.to_set() =~= Set::empty());
        }
        if forall|k: u64| k * chunk_size < size ==> #[trigger] listed.contains(k) {
            assert forall|k: u64| k < chunks_covering(size, chunk_size) implies #[trigger] listed.to_set().contains(
                k,
            ) by {
                law_chunks_cover_exactly(size, chunk_size);
                let n = k as nat;
                assert(n * chunk_size < size);
                assert(listed.contains(k));
            }
        }
    }
}

/// What an offer counts as transferred before is what its files count, each for
/// itself; nothing is for a transfer that begins anew.
pub proof fn law_transferred_before_is_the_sum(info: TransferInfo, chunk_size: nat)
    requires
        0 < chunk_size <= u32::MAX,
    ensures
        already_transferred(info, chunk_size) == info.items@.map(
            |i: int, f: FileMetadata| done_of_offered(info, i as nat, chunk_size),
        ).fold_left(0nat, |sum: nat, n: nat| sum + n),
        info.completed_files@.len() == 0 && info.resume_from is None ==> already_transferred(
            info,
            chunk_size,
        ) == 0,
{
    let parts = info.items@.map(
        |i: int, f: FileMetadata| done_of_offered(info, i as nat, chunk_size),
    );
    lemma_done_is_fold(info, parts, parts.len(), chunk_size);
    assert(parts.take(parts.len() as int) =~= parts);
    if info.completed_files@.len() == 0 && info.resume_from is None {
        lemma_nothing_done(info, info.items@.len(), chunk_size);
    }
}

proof fn lemma_done_is_fold(info: TransferInfo, parts: Seq<nat>, n: nat, chunk_size: nat)
    requires
        parts == info.items@.map(
            |i: int, f: FileMetadata| done_of_offered(info, i as nat, chunk_size),
        ),
        n <= parts.len(),
    ensures
        parts.take(n as int).fold_left(0nat, |sum: nat, m: nat| sum + m) == done_of_first(
            info,
            n,
            chunk_size,
        ),
    decreases n,
{
    reveal_with_fuel(Seq::fold_left, 2);
    if n > 0 {
        lemma_done_is_fold(info, parts, (n - 1) as nat, chunk_size);
        assert(parts.take(n as int).drop_last() =~= parts.take(n - 1));
    }
}

proof fn lemma_nothing_done(info: TransferInfo, n: nat, chunk_size: nat)
    requires
        info.completed_files@.len() == 0,
        info.resume_from is None,
    ensures
        done_of_first(info, n, chunk_size) == 0,
    decreases n,
{
    if n > 0 {
        lemma_nothing_done(info, (n - 1) as nat, chunk_size);
    }
}

/// The total is what the files have together: it adds up over any split of the
/// list, and a single file has its own size.
pub proof fn law_total_adds_up(a: Seq<FileMetadata>, f: FileMetadata, b: Seq<FileMetadata>)
    ensures
        total_size(Seq::empty()) == 0,
        total_size(a.push(f)) == total_size(a) + f.size,
        total_size(a + b) == total_size(a) + total_size(b),
    decreases b.len(),
{
    assert(a.push(f).drop_last() =~= a);
    if b.len() > 0 {
        law_total_adds_up(a, f, b.drop_last());
        assert((a + b).drop_last() =~= a + b.drop_last());
    } else {
        assert(a + b =~= a);
    }
}

/// An offer is refused for its sizes if and only if a file of it is larger than
/// a tebibyte; the size reported is that of the first such file.
pub proof fn law_only_oversized_files_are_refused(files: Seq<FileMetadata>, from: nat)
    ensures
        match first_oversize(files, from) {
            Some(size) => exists|i: int|
                from <= i < files.len() && (#[trigger] files[i]).size == size && size
                    > 0x100_0000_0000 && forall|j: int|
                    from <= j < i ==> (#[trigger] files[j]).size <= 0x100_0000_0000,
            None => forall|i: int|
                from <= i < files.len() ==> (#[trigger] files[i]).size <= 0x100_0000_0000,
        },
    decreases files.len() - from,
{
    if from < files.len() {
        law_only_oversized_files_are_refused(files, from + 1);
        if files[from as int].size > MAX_TRANSFER_FILE_SIZE {
            assert(files[from as int].size > 0x100_0000_0000);
        } else if first_oversize(files, from + 1) is Some {
            let size = first_oversize(files, from + 1)->0;
            let i = choose|i: int|
                from + 1 <= i < files.len() && (#[trigger] files[i]).size == size && size
                    > 0x100_0000_0000 && forall|j: int|
                    from + 1 <= j < i ==> (#[trigger] files[j]).size <= 0x100_0000_0000;
            assert(files[i].size == size);
        }
    }
}

/// An offer says where the transfer stopped: it lists every file, names those
/// that are done, and has a resume point if and only if chunks of the first file
/// that is not done are marked. The resume point is for that file and lists
/// just those chunks.
pub proof fn law_offer_says_where_it_stopped(
    info: TransferInfo,
    state: FolderTransferState,
    transfer_id: [u8; 16],
)
    requires
        offers(info, state, transfer_id),
        state.files@.len() <= u32::MAX,
        forall|j: int|
            0 <= j < state.completed_files@.len() ==> (#[trigger] state.completed_files@[j])
                < state.files@.len(),
    ensures
        info.items@.len() == state.files@.len(),
        forall|i: int|
            0 <= i < state.files@.len() ==> (#[trigger] info.items@[i])@ == state.files@[i]@,
        forall|i: usize|
            i < state.files@.len() ==> (info.completed_files@.contains(#[trigger] (i as u32))
                <==> state.completed_files@.contains(i)),
        info.resume_from matches Some(p) ==> {
            &&& p.file_index < state.files@.len()
            &&& !state.completed_files@.contains(p.file_index as usize)
            &&& forall|j: usize|
                j < p.file_index ==> #[trigger] state.completed_files@.contains(j)
            &&& p.completed_chunks@ == state.chunks_of(p.file_index as usize)
            &&& p.completed_chunks@.len() > 0
            &&& p.transfer_id == transfer_id
        },
        info.resume_from is None ==> forall|i: usize|
            i < state.files@.len() && !(#[trigger] state.completed_files@.contains(i)) && (forall|
                j: usize,
            |
                j < i ==> #[trigger] state.completed_files@.contains(j)) ==> state.chunks_of(i).len()
                == 0,
{
    let n = state.files@.len();
    let done = state.completed_files@;
    law_next_file_is_first_missing(done, 0, n);
    assert(file_views(info.items@).len() == file_views(state.files@).len());
    assert forall|i: int| 0 <= i < n implies (#[trigger] info.items@[i])@ == state.files@[i]@ by {
        assert(file_views(info.items@)[i] == file_views(state.files@)[i]);
    }
    assert forall|i: usize| i < n implies (info.completed_files@.contains(#[trigger] (i as u32))
        <==> done.contains(i)) by {
        if done.contains(i) {
            let k = choose|k: int| 0 <= k < done.len() && done[k] == i;
            assert(info.completed_files@[k] == i as u32);
        }
        if info.completed_files@.contains(i as u32) {
            let k = choose|k: int|
                0 <= k < info.completed_files@.len() && info.completed_files@[k] == i as u32;
            assert(done[k] as u32 == i as u32);
            assert(done[k] < n);
            assert(done[k] == i);
        }
    }
    match first_missing(done, 0, n) {
        Some(m) => {
            assert forall|j: usize| j < m implies #[trigger] done.contains(j) by {
                assert(done.contains((j as nat) as usize));
            }
        },
        None => {
            assert forall|j: usize| j < n implies #[trigger] done.contains(j) by {
                assert(done.contains((j as nat) as usize));
            }
        },
    }
    if info.resume_from is None {
        assert forall|i: usize|
            i < n && !(#[trigger] done.contains(i)) && (forall|j: usize|
                j < i ==> #[trigger] done.contains(j)) implies state.chunks_of(i).len() == 0 by {
            let m = first_missing(done, 0, n)->0;
            if m < i {
                assert(done.contains(m as usize));
            }
            if i < m {
                assert(done.contains(i));
            }
            assert(i == m as usize);
        }
    }
}

/// Sender and receiver of a resumed transfer agree: of every file that is not
/// done the receiver waits for as many chunks as the sender does not leave out,
/// where chunks are marked in no file behind the one the transfer stopped in.
pub proof fn law_sender_and_receiver_agree(
    state: FolderTransferState,
    transfer_id: [u8; 16],
    v: ReceiveView,
    i: usize,
    stage: ReceiveStage,
    action: ReceiveAction,
)
    requires
        offers(v.info, state, transfer_id),
        state.files@.len() <= u32::MAX,
        forall|j: int|
            0 <= j < state.completed_files@.len() ==> (#[trigger] state.completed_files@[j])
                < state.files@.len(),
        v.chunk_size == state.config.chunk_size,
        v.chunk_size > 0,
        v.step_at(i as nat, Ok((stage, action))),
        action is Receive,
        forall|j: int|
            0 <= j < state.chunks_of(i).len() ==> (#[trigger] state.chunks_of(i)[j])
                < action->total_chunks,
        forall|k: usize|
            k < state.files@.len() && !state.completed_files@.contains(k) && (exists|m: usize|
                m < k && !(#[trigger] state.completed_files@.contains(m)))
                ==> #[trigger] state.chunks_of(k).len() == 0,
    ensures
        !state.completed_files@.contains(i),
        action->Receive_size == state.files@[i as int].size,
        action->streams == Set::<u64>::range(0, action->total_chunks).difference(
            state.chunks_of(i).to_set(),
        ).len(),
{
    broadcast use vstd::set_lib::range_set_properties;

    law_offer_says_where_it_stopped(v.info, state, transfer_id);
    assert(v.info.items@[i as int]@ == state.files@[i as int]@);
    assert(v.info.completed_files@.contains(i as u32) <==> state.completed_files@.contains(i));
    let total = action->total_chunks;
    let all = Set::<u64>::range(0, total);
    let p = v.info.resume_from;
    law_waits_for_what_is_missing(v, i as nat, stage, action);
    if p is Some && p->0.file_index == i {
        law_resume_counts_agree(state.chunks_of(i), total);
    } else {
        assert(state.chunks_of(i).len() == 0) by {
            if p is Some {
                let m = p->0.file_index as usize;
                assert(!state.completed_files@.contains(m));
                if i < m {
                    assert(state.completed_files@.contains(i));
                }
            } else if forall|j: usize| j < i ==> #[trigger] state.completed_files@.contains(j) {
            } else {
                let m = choose|j: usize| j < i && !(#[trigger] state.completed_files@.contains(j));
                assert(m < i && !state.completed_files@.contains(m));
            }
        }
        assert(state.chunks_of(i).to_set() =~= Set::empty());
        assert(all.difference(state.chunks_of(i).to_set()) =~= all);
    }
}

/// The sender goes on with the first file that is not done, leaves out just the
/// chunks that are marked in it, and ends only when every file is done.
pub proof fn law_sender_goes_on_with_what_is_missing(
    action: SendAction,
    stage: SendStage,
    state: FolderTransferState,
    transfer_id: [u8; 16],
    from: nat,
    elapsed_ms: u64,
)
    requires
        follows_files(action, stage, state, transfer_id, from, elapsed_ms),
        state.files@.len() <= usize::MAX,
    ensures
        match action {
            SendAction::SendFile { index, path, completed_chunks } => {
                &&& from <= index < state.files@.len()
                &&& !state.completed_files@.contains(index)
                &&& forall|j: nat|
                    from <= j < index ==> state.completed_files@.contains(#[trigger] (j as usize))
                &&& path@ == state.files@[index as int].path@
                &&& completed_chunks@ == state.chunks_of(index)
                &&& stage == SendStage::Sending(index)
            },
            SendAction::Complete(m) => {
                &&& forall|j: nat|
                    from <= j < state.files@.len() ==> state.completed_files@.contains(
                        #[trigger] (j as usize),
                    )
                &&& m.total_bytes == state.total_bytes
                &&& m.transfer_id == transfer_id
            },
            _ => false,
        },
{
    law_next_file_is_first_missing(state.completed_files@, from, state.files@.len());
}

/// What is counted as sent of a file is all of it where it is done, and the
/// bytes of its marked chunks otherwise, each counted once.
pub proof fn law_sent_bytes_are_those_marked(state: FolderTransferState, i: usize, x: u64)
    requires
        has_chunks(state),
        i < state.files@.len(),
    ensures
        state.completed_files@.contains(i) ==> sent_of_file(state, i as nat)
            == state.files@[i as int].size,
        !state.completed_files@.contains(i) ==> sent_of_file(state, i as nat) == bytes_done(
            state.chunks_of(i).to_set(),
            state.config.chunk_size as nat,
            state.files@[i as int].size as nat,
        ),
        !state.completed_files@.contains(i) && state.chunks_of(i).len() == 0 ==> sent_of_file(
            state,
            i as nat,
        ) == 0,
        sent_of_first(state, (i + 1) as nat) == sent_of_first(state, i as nat) + sent_of_file(
            state,
            i as nat,
        ),
        sent_of_first(state, 0) == 0,
{
    law_each_chunk_counts_its_bytes(
        Set::empty(),
        x,
        state.config.chunk_size as nat,
        state.files@[i as int].size as nat,
    );
    if state.chunks_of(i).len() == 0 {
        assert(state.chunks_of(i).to_set() =~= Set::empty());
    }
}

/// A file that the sender leaves out is accepted only where nothing here
/// contradicts it: a file here has the size offered, and where there is none but
/// a partial file, that has it.
pub proof fn law_left_out_file_is_not_contradicted(
    file_len: Option<u64>,
    partial_len: Option<u64>,
    size: u64,
)
    ensures
        copy_fits(file_len, partial_len, size) <==> {
            &&& file_len is Some ==> file_len == Some(size)
            &&& file_len is None && partial_len is Some ==> partial_len == Some(size)
        },
{
}

/// A summary accounts for the whole offer: it names every file, and the bytes of
/// this session and those transferred before are all there are.
pub proof fn law_summary_accounts_for_everything(v: ReceiveView, s: TransferSummary)
    requires
        v.summed_up(s),
        acceptable(v.info),
        v.chunk_size > 0,
    ensures
        s.bytes + already_transferred(v.info, v.chunk_size as nat) == total_size(v.info.items@),
        s.files@.len() == v.info.items@.len(),
        forall|i: int|
            0 <= i < v.info.items@.len() ==> (#[trigger] s.files@[i])@ == v.info.items@[i].path@,
        s.root_name@ == v.info.items@[0].path@,
        v.info.completed_files@.len() == 0 && v.info.resume_from is None ==> s.bytes == total_size(
            v.info.items@,
        ),
{
    law_already_transferred_within_total(v.info, v.chunk_size as nat);
    law_transferred_before_is_the_sum(v.info, v.chunk_size as nat);
    let shown = s.files@.map_values(|p: String| p@);
    let offered = v.info.items@.map_values(|f: FileMetadata| f.path@);
    assert(shown.len() == offered.len());
    assert forall|i: int| 0 <= i < v.info.items@.len() implies (#[trigger] s.files@[i])@
        == v.info.items@[i].path@ by {
        assert(shown[i] == offered[i]);
    }
}

/// What counts as transferred is what the files that are done have: nothing at
/// first, and with each file that is done its own size more, once.
pub proof fn law_done_files_count_their_size(files: Seq<FileMetadata>, done: Seq<usize>, k: usize)
    requires
        files.len() <= usize::MAX,
    ensures
        completed_size(files, Seq::empty()) == 0,
        !done.contains(k) && k < files.len() ==> completed_size(files, done.push(k))
            == completed_size(files, done) + files[k as int].size,
        !done.contains(k) && k >= files.len() ==> completed_size(files, done.push(k))
            == completed_size(files, done),
        (forall|i: usize| i < files.len() ==> #[trigger] done.contains(i)) ==> completed_size(
            files,
            done,
        ) == total_size(files),
    decreases files.len(),
{
    lemma_nothing_completed(files);
    if !done.contains(k) {
        lemma_completed_size_push(files, done, k);
    }
    if files.len() > 0 && forall|i: usize| i < files.len() ==> #[trigger] done.contains(i) {
        law_done_files_count_their_size(files.drop_last(), done, k);
        assert(done.contains((files.len() - 1) as usize));
    }
}

/// Whatever an offer says, every file that is looked for or received has a path
/// that stays below the directory received into.
pub proof fn law_files_stay_inside(
    v: ReceiveView,
    i: nat,
    stage: ReceiveStage,
    action: ReceiveAction,
)
    requires
        v.step_at(i, Ok((stage, action))),
    ensures
        match action {
            ReceiveAction::Look { path, .. } => stays_inside(path@, v.platform),
            ReceiveAction::Receive { path, .. } => stays_inside(path@, v.platform),
            _ => true,
        },
{
    if i < v.info.items@.len() {
        law_safe_path_stays_inside(v.info.items@[i as int].path@, v.platform);
    }
}

fn file_checked(index: usize, checksum: [u8; 32], transfer_id: [u8; 16]) -> (r: FileChecksumMessage)
    ensures
        r == (FileChecksumMessage { transfer_id, file_index: index as u32, checksum }),
{
    #[verifier::truncate]
    let file_index: u32 = index as u32;
    FileChecksumMessage { transfer_id, file_index, checksum }
}

impl FolderReceive {
    /// Takes the offer. Offers without files, or with a file larger than any
    /// plausible one, are refused before anything is received.
    pub fn on_offer(chunk_size: u32, platform: Platform, msg: Message, shown: &str) -> (r: Result<
        Self,
    >)
        ensures
            match msg {
                Message::TransferInfo(info) => if info.items@.len() == 0 {
                    r matches Err(Error::Protocol(m)) && m@ == "No files in transfer"@
                } else {
                    match first_oversize(info.items@, 0) {
                        Some(size) => r matches Err(Error::Protocol(m)) && m@ == oversize_text(size),
                        None => r matches Ok(v) && v@.wf() && v@ == (ReceiveView {
                            info,
                            chunk_size,
                            platform,
                            total_bytes: 0,
                            already: 0,
                            stage: ReceiveStage::Deciding,
                            confirmed: Seq::empty(),
                        }),
                    }
                },
                _ => r matches Err(Error::Protocol(m)) && m@ == unexpected_text(
                    "TransferInfo"@,
                    shown@,
                ),
            },
    {
        let info: TransferInfo = match msg {
            Message::TransferInfo(info) => info,
            _ => {
                return Err(unexpected("TransferInfo", shown));
            },
        };
        if info.items.is_empty() {
            return Err(protocol_error("No files in transfer"));
        }
        match check_sizes(&info.items) {
            Ok(()) => {},
            Err(e) => {
                return Err(e);
            },
        }
        Ok(
            FolderReceive {
                info,
                chunk_size,
                platform,
                total_bytes: 0,
                already: 0,
                stage: ReceiveStage::Deciding,
                confirmed: Vec::new(),
            },
        )
    }

    /// What is offered.
    pub fn info(&self) -> (r: &TransferInfo)
        ensures
            *r == self@.info,
    {
        &self.info
    }

    /// Size of all files together, once the offer is accepted.
    pub fn total_bytes(&self) -> (r: u64)
        ensures
            r == self@.total_bytes,
    {
        self.total_bytes
    }

    /// Bytes that earlier sessions transferred, once the offer is accepted.
    pub fn already(&self) -> (r: u64)
        ensures
            r == self@.already,
    {
        self.already
    }

    fn count_transferred(&self) -> (r: u64)
        requires
            self@.chunk_size > 0,
            acceptable(self@.info),
            total_size(self@.info.items@) <= u64::MAX,
        ensures
            r == already_transferred(self@.info, self@.chunk_size as nat),
    {
        let ghost cs = self.chunk_size as nat;
        let mut sum: u64 = 0;
        let mut i: usize = 0;
        proof {
            lemma_sizes_bounded(self.info.items@, 0);
        }
        while i < self.info.items.len()
            invariant
                cs == self.chunk_size,
                cs > 0,
                acceptable(self.info),
                total_size(self.info.items@) <= u64::MAX,
                forall|j: int|
                    0 <= j < self.info.items@.len() ==> (#[trigger] self.info.items@[j]).size
                        <= MAX_TRANSFER_FILE_SIZE,
                i <= self.info.items@.len(),
                sum == done_of_first(self.info, i as nat, cs),
            decreases self.info.items@.len() - i,
        {
            proof {
                lemma_done_within(self.info, (i + 1) as nat, cs);
                lemma_total_prefix(self.info.items@, i + 1);
            }
            let size: u64 = self.info.items[i].size;
            let done: u64 = if has_u32(&self.info.completed_files, short_index(i)) {
                size
            } else {
                match &self.info.resume_from {
                    Some(point) => if point.file_index as usize == i {
                        count_done(point.completed_chunks.as_slice(), self.chunk_size, size)
                    } else {
                        0
                    },
                    None => 0,
                }
            };
            sum = sum + done;
            i += 1;
        }
        sum
    }

    fn file_action(&self, index: usize) -> (r: Result<(ReceiveStage, ReceiveAction)>)
        requires
            self@.chunk_size > 0,
            acceptable(self@.info),
            index <= self@.info.items@.len(),
        ensures
            self@.step_at(index as nat, r),
    {
        if index >= self.info.items.len() {
            return Ok((ReceiveStage::Ending, ReceiveAction::AwaitComplete));
        }
        proof {
            lemma_sizes_bounded(self.info.items@, 0);
        }
        let size: u64 = self.info.items[index].size;
        let path: String = match sanitize_relative_path(
            self.info.items[index].path.as_str(),
            self.platform,
        ) {
            Ok(path) => path,
            Err(e) => {
                return Err(e);
            },
        };
        if has_u32(&self.info.completed_files, short_index(index)) {
            return Ok((ReceiveStage::Looking(index), ReceiveAction::Look { index, path, size }));
        }
        let total_chunks: u64 = chunk_count(size, self.chunk_size);
        let sent: u64 = match &self.info.resume_from {
            Some(point) => if point.file_index as usize == index {
                set_of(point.completed_chunks.as_slice()).len() as u64
            } else {
                0
            },
            None => 0,
        };
        let streams: u64 = total_chunks.saturating_sub(sent);
        Ok(
            (
                ReceiveStage::Receiving(index),
                ReceiveAction::Receive { index, path, size, total_chunks, streams },
            ),
        )
    }

    fn confirm(&mut self, index: usize, reason: Confirmation) -> (r: Result<ReceiveAction>)
        requires
            old(self)@.wf(),
            !(old(self)@.stage is Deciding),
            !(old(self)@.stage is Over),
            index == old(self)@.confirmed.len(),
            index < old(self)@.info.items@.len(),
            (reason is LeftOut) <==> old(self)@.left_out(index as nat),
        ensures
            final(self)@.wf(),
            old(self)@.moves_on(old(self)@.confirmed.push(reason), final(self)@, r),
            r is Err ==> final(self)@ == old(self)@,
    {
        let n: usize = self.info.items.len();
        assert(index < n);
        match self.file_action(index + 1) {
            Ok((stage, action)) => {
                self.confirmed.push(reason);
                self.stage = stage;
                Ok(action)
            },
            Err(e) => Err(e),
        }
    }

    /// Takes an event. Once the offer is accepted every file is visited in
    /// order: one that the sender leaves out is looked for, any other is
    /// received and its checksum compared. Only a file that passes is counted
    /// as done, and the transfer ends when all are. Where an error comes
    /// nothing changes.
    pub fn next(&mut self, event: ReceiveEvent, shown: &str) -> (r: Result<ReceiveAction>)
        requires
            old(self)@.wf(),
            old(self)@.expects(event),
            event == ReceiveEvent::Decided(AcceptDecision::Accept) ==> old(self)@.chunk_size > 0
                && total_size(old(self)@.info.items@) <= u64::MAX,
        ensures
            final(self)@.wf(),
            final(self)@.info == old(self)@.info,
            final(self)@.chunk_size == old(self)@.chunk_size,
            final(self)@.platform == old(self)@.platform,
            r is Err ==> final(self)@ == old(self)@,
            r matches Ok(action) && action is Finished ==> old(self)@.stage is Ending,
            old(self)@.goes_on(event, shown@, final(self)@, r),
    {
        match (self.stage, event) {
            (ReceiveStage::Deciding, ReceiveEvent::Decided(AcceptDecision::Accept)) => {
                self.total_bytes = match checked_total_size(&self.info.items) {
                    Some(total) => total,
                    None => 0,
                };
                self.already = self.count_transferred();
                self.stage = ReceiveStage::Answering;
                proof {
                    law_already_transferred_within_total(self.info, self.chunk_size as nat);
                }
                Ok(ReceiveAction::Accept(Message::Ready))
            },
            (ReceiveStage::Deciding, ReceiveEvent::Decided(AcceptDecision::Reject)) => {
                self.stage = ReceiveStage::Over;
                Ok(ReceiveAction::Reject(Message::Cancel, TransferSummary::default()))
            },
            (ReceiveStage::Answering, ReceiveEvent::Answered) => {
                match self.file_action(0) {
                    Ok((stage, action)) => {
                        self.stage = stage;
                        Ok(action)
                    },
                    Err(e) => Err(e),
                }
            },
            (ReceiveStage::Looking(index), ReceiveEvent::Found { file_len, partial_len }) => {
                let size: u64 = self.info.items[index].size;
                match sanitize_relative_path(
            self.info.items[index].path.as_str(),
            self.platform,
        ) {
                    Ok(path) => match Self::check_present(
                        index,
                        path.as_str(),
                        size,
                        file_len,
                        partial_len,
                    ) {
                        Ok(()) => self.confirm(index, Confirmation::LeftOut),
                        Err(e) => Err(e),
                    },
                    Err(e) => Err(e),
                }
            },
            (ReceiveStage::Receiving(index), ReceiveEvent::Received(checksum)) => {
                self.stage = ReceiveStage::Checking(index, checksum);
                Ok(
                    ReceiveAction::ExchangeChecksum(
                        file_checked(index, checksum, self.info.transfer_id),
                    ),
                )
            },
            (ReceiveStage::Checking(index, ours), ReceiveEvent::Checksum(reply)) => {
                match on_checksum_as_receiver(short_index(index), &ours, &reply, shown) {
                    Ok(()) => self.confirm(index, Confirmation::Checked(ours)),
                    Err(e) => Err(e),
                }
            },
            (ReceiveStage::Ending, ReceiveEvent::Ended(msg)) => match msg {
                Message::Complete(_) => {
                    let summary: TransferSummary = self.sum_up();
                    self.stage = ReceiveStage::Over;
                    Ok(ReceiveAction::Finished(summary))
                },
                _ => Err(unexpected("Complete message", shown)),
            },
            _ => Ok(ReceiveAction::AwaitComplete),
        }
    }

    /// Checks what is here of a file that the sender leaves out. The lengths
    /// are those of the file and of its partial file, where they exist. Where
    /// there is neither, nothing contradicts the sender.
    pub fn check_present(
        index: usize,
        path: &str,
        size: u64,
        file_len: Option<u64>,
        partial_len: Option<u64>,
    ) -> (r: Result<()>)
        ensures
            r is Ok <==> copy_fits(file_len, partial_len, size),
            r matches Err(e) ==> e matches Error::Verification(m) && m@ == wrong_copy_text(
                index as nat,
                path@,
            ),
    {
        let fits: bool = match file_len {
            Some(len) => len == size,
            None => match partial_len {
                Some(len) => len == size,
                None => true,
            },
        };
        if fits {
            return Ok(());
        }
        let mut m = "Sender marked file ".to_owned();
        push_decimal(&mut m, index as u64);
        m.append(" complete but local copy is missing or wrong size: ");
        m.append(path);
        Err(Error::Verification(m))
    }

    fn sum_up(&self) -> (r: TransferSummary)
        requires
            self@.wf(),
            self@.stage is Ending,
        ensures
            self@.summed_up(r),
    {
        let mut files: Vec<String> = Vec::new();
        let mut i: usize = 0;
        while i < self.info.items.len()
            invariant
                i <= self.info.items@.len(),
                files@.len() == i,
                forall|j: int| 0 <= j < i ==> (#[trigger] files@[j])@ == self.info.items@[j].path@,
            decreases self.info.items@.len() - i,
        {
            files.push(string_copy(self.info.items[i].path.as_str()));
            i += 1;
        }
        proof {
            law_already_transferred_within_total(self.info, self.chunk_size as nat);
            assert(files@.map_values(|p: String| p@) =~= self.info.items@.map_values(
                |f: FileMetadata| f.path@,
            ));
        }
        TransferSummary {
            root_name: string_copy(self.info.items[0].path.as_str()),
            files,
            bytes: self.total_bytes.saturating_sub(self.already),
        }
    }
}

/// What a copy of the wrong size is reported as.
pub open spec fn wrong_copy_text(index: nat, path: Seq<char>) -> Seq<char> {
    "Sender marked file "@ + decimal(index)
        + " complete but local copy is missing or wrong size: "@ + path
}

fn short_index(index: usize) -> (r: u32)
    ensures
        r == index as u32,
{
    #[verifier::truncate]
    let short: u32 = index as u32;
    short
}

/// Every file below a folder is offered and nothing else: a file is listed with
/// its size, its time and the names of its path, whatever its size; a directory
/// is read later; a link is never followed; and what was found before stays.
pub proof fn law_every_file_of_a_folder_is_listed(
    pending: Seq<String>,
    files: Seq<FileMetadata>,
    path: String,
    relative: Seq<char>,
    kind: EntryKind,
    size: u64,
    modified: u64,
    platform: Platform,
    pending_after: Seq<String>,
    files_after: Seq<FileMetadata>,
    r: Result<()>,
)
    requires
        takes_entry(
            pending,
            files,
            path,
            relative,
            kind,
            size,
            modified,
            platform,
            pending_after,
            files_after,
            r,
        ),
    ensures
        kind is File && safe_names(relative, platform) is Ok ==> {
            &&& r is Ok
            &&& files_after.len() == files.len() + 1
            &&& files_after.last().size == size
            &&& files_after.last().modified == modified
            &&& stays_inside(files_after.last().path@, platform)
            &&& safe_names(files_after.last().path@, platform) == safe_names(relative, platform)
        },
        kind is File && safe_names(relative, platform) is Err ==> r is Err && files_after == files,
        kind is Directory ==> r is Ok && pending_after == pending.push(path) && files_after == files,
        kind is Symlink || kind is Other ==> r is Ok && pending_after == pending && files_after
            == files,
        !(kind is Directory) ==> pending_after == pending,
        forall|i: int| 0 <= i < files.len() ==> files_after[i] == #[trigger] files[i],
        files_after.len() >= files.len(),
{
    law_safe_path_stays_inside(relative, platform);
    law_plain_path_stays(relative, platform);
    if kind is File && safe_names(relative, platform) is Ok {
        assert forall|i: int| 0 <= i < files.len() implies files_after[i] == #[trigger] files[i] by {
            assert(files_after.drop_last()[i] == files[i]);
        }
    }
}

/// A single file is sent as it is, whatever it is; a folder is sent with all its
/// files, and only one without any cannot be; and what is neither cannot be.
pub proof fn law_what_is_there_is_sent(source: Source, r: Result<Vec<FileMetadata>>)
    requires
        leads_to_files(source, r),
    ensures
        source matches Source::SingleFile(f) ==> r is Ok && r->Ok_0@ == seq![f],
        source matches Source::Folder(list) ==> (r is Ok <==> list@.len() > 0) && (r is Ok
            ==> r->Ok_0@ == list@),
        source is Nameless || source is Neither ==> r is Err,
        r is Err ==> r->Err_0 is Protocol,
{
}

/// A file counts as received only where both sides have the same checksum of it:
/// with another checksum, with one for another file, or with anything but a
/// checksum, the receive ends in an error and nothing counts that did not
/// before; with the same one the file counts, unless the next cannot be taken.
pub proof fn law_file_counts_only_with_the_senders_checksum(
    v: ReceiveView,
    i: usize,
    ours: [u8; 32],
    reply: Message,
    shown: Seq<char>,
    after: ReceiveView,
    r: Result<ReceiveAction>,
)
    requires
        v.stage == ReceiveStage::Checking(i, ours),
        i <= u32::MAX,
        v.goes_on(ReceiveEvent::Checksum(reply), shown, after, r),
        r is Err ==> after == v,
    ensures
        ({
            let same = reply is FileChecksum && reply->FileChecksum_0.file_index == i
                && reply->FileChecksum_0.checksum@ == ours@;
            &&& !same ==> r is Err && after == v
            &&& r is Ok ==> same && after.confirmed == v.confirmed.push(Confirmation::Checked(ours))
            &&& same && v.confirmed.len() + 1 >= v.info.items@.len() ==> r is Ok
            &&& same && v.confirmed.len() + 1 < v.info.items@.len() && safe_names(
                v.info.items@[v.confirmed.len() as int + 1].path@,
                v.platform,
            ) is Ok ==> r is Ok
            &&& reply is FileChecksum && reply->FileChecksum_0.file_index == i && !same
                ==> r->Err_0 is Verification
        }),
{
}

/// The receiver does what was decided: an offer that is accepted is answered so
/// and then received file by file; one that is rejected is answered so, and
/// nothing of it is received.
pub proof fn law_receiver_does_what_was_decided(
    v: ReceiveView,
    decision: AcceptDecision,
    shown: Seq<char>,
    after: ReceiveView,
    r: Result<ReceiveAction>,
)
    requires
        v.stage is Deciding,
        v.goes_on(ReceiveEvent::Decided(decision), shown, after, r),
    ensures
        decision is Accept ==> (r matches Ok(ReceiveAction::Accept(m)) && m is Ready)
            && after.stage is Answering && after.confirmed == v.confirmed,
        decision is Reject ==> (r matches Ok(ReceiveAction::Reject(m, s)) && m is Cancel && s.bytes
            == 0 && s.files@.len() == 0) && after.stage is Over,
        after.info == v.info,
{
}

/// The files are taken in their order, one after the other: once the offer is
/// answered the first comes, and once a file is done the one behind it; behind
/// the last the end is awaited, and only the end gives a summary.
pub proof fn law_files_are_taken_in_order(
    v: ReceiveView,
    event: ReceiveEvent,
    shown: Seq<char>,
    after: ReceiveView,
    r: Result<ReceiveAction>,
)
    requires
        v.wf(),
        v.expects(event),
        v.goes_on(event, shown, after, r),
    ensures
        v.stage is Answering && r is Ok ==> match r->Ok_0 {
            ReceiveAction::Look { index, .. } => index == 0,
            ReceiveAction::Receive { index, .. } => index == 0,
            _ => false,
        },
        v.stage is Looking || v.stage is Checking ==> (r matches Ok(action) ==> match action {
            ReceiveAction::Look { index, size, .. } => index == v.confirmed.len() + 1 && size
                == v.info.items@[index as int].size,
            ReceiveAction::Receive { index, size, .. } => index == v.confirmed.len() + 1 && size
                == v.info.items@[index as int].size,
            ReceiveAction::AwaitComplete => v.confirmed.len() + 1 == v.info.items@.len(),
            _ => false,
        }),
        v.stage is Receiving ==> (r matches Ok(action) && action is ExchangeChecksum),
        r matches Ok(action) && action is Finished ==> v.stage is Ending && (event matches ReceiveEvent::Ended(
            m,
        ) && m is Complete),
        v.stage is Ending && (event matches ReceiveEvent::Ended(m) && !(m is Complete)) ==> r is Err,
{
}

/// The checksum that is sent is the one that was computed, for the file that was
/// received.
pub proof fn law_own_checksum_is_told(
    v: ReceiveView,
    i: usize,
    checksum: [u8; 32],
    shown: Seq<char>,
    after: ReceiveView,
    r: Result<ReceiveAction>,
)
    requires
        v.stage == ReceiveStage::Receiving(i),
        i <= u32::MAX,
        v.goes_on(ReceiveEvent::Received(checksum), shown, after, r),
    ensures
        r matches Ok(ReceiveAction::ExchangeChecksum(m)) && m.file_index == i && m.checksum
            == checksum && m.transfer_id == v.info.transfer_id,
        after.stage == ReceiveStage::Checking(i, checksum),
        after.confirmed == v.confirmed,
{
}

/// On the sending side a file is done only where the receiver has the same
/// checksum of it; then it is, once, and nothing else is. Whatever goes wrong
/// marks nothing.
pub proof fn law_sent_file_is_done_only_when_checksums_agree(
    i: usize,
    ours: [u8; 32],
    transfer_id: [u8; 16],
    before: FolderTransferState,
    reply: Message,
    shown: Seq<char>,
    elapsed_ms: u64,
    stage_after: SendStage,
    after: FolderTransferState,
    r: Result<SendAction>,
)
    requires
        sending_goes_on(
            SendStage::Checking(i, ours),
            transfer_id,
            before,
            SendEvent::Checksum(reply),
            shown,
            elapsed_ms,
            stage_after,
            after,
            r,
        ),
        r is Err ==> after == before,
    ensures
        ({
            let same = reply is FileChecksum && reply->FileChecksum_0.checksum@ == ours@;
            &&& r is Ok <==> same
            &&& same ==> after.completed_files@ == before.completed_files@.push(i)
                && after.transferred_bytes == before.transferred_bytes + before.files@[i as int].size
                && after.file_chunks == before.file_chunks
            &&& !same ==> after == before
            &&& reply is FileChecksum && !same ==> r->Err_0 is Verification
        }),
{
}

/// The sender begins when the receiver is ready, with the first file that is not
/// done, and ends as cancelled where the receiver declines or goes away.
pub proof fn law_sender_begins_when_told_so(
    transfer_id: [u8; 16],
    before: FolderTransferState,
    reply: Result<Message>,
    shown: Seq<char>,
    elapsed_ms: u64,
    stage_after: SendStage,
    after: FolderTransferState,
    r: Result<SendAction>,
)
    requires
        sending_goes_on(
            SendStage::Offered,
            transfer_id,
            before,
            SendEvent::Reply(reply),
            shown,
            elapsed_ms,
            stage_after,
            after,
            r,
        ),
        before.files@.len() <= usize::MAX,
    ensures
        r is Ok <==> reply is Ok && reply->Ok_0 is Ready,
        reply is Ok && reply->Ok_0 is Cancel ==> r->Err_0 is Cancelled,
        reply is Err && (reply->Err_0 is Disconnected || reply->Err_0 is Network || reply->Err_0
            is Quic) ==> r->Err_0 is Cancelled,
        r matches Ok(action) ==> after == before && match action {
            SendAction::SendFile { index, completed_chunks, .. } => index < before.files@.len()
                && !before.completed_files@.contains(index) && (forall|j: nat|
                j < index ==> before.completed_files@.contains(#[trigger] (j as usize)))
                && completed_chunks@ == before.chunks_of(index),
            SendAction::Complete(_) => forall|j: nat|
                j < before.files@.len() ==> before.completed_files@.contains(
                    #[trigger] (j as usize),
                ),
            _ => false,
        },
{
    if r is Ok {
        law_sender_goes_on_with_what_is_missing(
            r->Ok_0,
            stage_after,
            before,
            transfer_id,
            0,
            elapsed_ms,
        );
    }
}

/// An offer is taken up if and only if it has files and none is larger than a
/// tebibyte; then it is as it came, and nothing of it counts as received yet.
pub proof fn law_proper_offers_are_taken_up(
    chunk_size: u32,
    platform: Platform,
    msg: Message,
    shown: &str,
    r: Result<FolderReceive>,
)
    requires
        call_ensures(FolderReceive::on_offer, (chunk_size, platform, msg, shown), r),
    ensures
        r is Ok <==> msg is TransferInfo && msg->TransferInfo_0.items@.len() > 0 && forall|i: int|
            0 <= i < msg->TransferInfo_0.items@.len() ==> (
            #[trigger] msg->TransferInfo_0.items@[i]).size <= 0x100_0000_0000,
        r matches Ok(v) ==> v@.info == msg->TransferInfo_0 && v@.chunk_size == chunk_size
            && v@.platform == platform && v@.confirmed.len() == 0 && v@.stage is Deciding,
        r is Err ==> r->Err_0 is Protocol,
{
    if msg is TransferInfo {
        law_only_oversized_files_are_refused(msg->TransferInfo_0.items@, 0);
    }
}

/// Both sides judge a checksum alike: the same one passes, another does not, and
/// the receiver takes only one for the file at hand.
pub proof fn law_both_sides_judge_alike(
    index: u32,
    ours: [u8; 32],
    reply: FileChecksumMessage,
    shown: &str,
    sender: Result<()>,
    receiver: Result<()>,
)
    requires
        call_ensures(
            on_checksum_as_sender,
            (index, &ours, &Message::FileChecksum(reply), shown),
            sender,
        ),
        call_ensures(
            on_checksum_as_receiver,
            (index, &ours, &Message::FileChecksum(reply), shown),
            receiver,
        ),
    ensures
        sender is Ok <==> reply.checksum@ == ours@,
        receiver is Ok <==> reply.checksum@ == ours@ && reply.file_index == index,
{
}

/// Progress is never lost: a chunk that is marked is known as done from then on,
/// beside all that were, and a file that is marked is done, once, however often
/// it is marked. Neither touches another file, nor what is to be sent.
pub proof fn law_progress_is_kept(
    before: FolderTransferState,
    file: usize,
    chunk: u64,
    other: usize,
    with_chunk: FolderTransferState,
    with_file: FolderTransferState,
    finished: FolderTransferState,
)
    requires
        chunk_marked(before, file, chunk, with_chunk),
        file_marked(before, file, with_file),
        file_finished(before, file, finished),
        file < before.files@.len(),
        before.files@.len() <= usize::MAX,
    ensures
        with_chunk.chunks_of(file).contains(chunk),
        forall|k: u64|
            before.chunks_of(file).contains(k) ==> #[trigger] with_chunk.chunks_of(file).contains(k),
        other != file ==> with_chunk.chunks_of(other) == before.chunks_of(other),
        with_chunk.completed_files == before.completed_files,
        with_chunk.files == before.files,
        with_file.completed_files@.contains(file),
        with_file.completed_files@.contains(other) <==> before.completed_files@.contains(other)
            || other == file,
        with_file.completed_files@.len() == before.completed_files@.len() + (
        if before.completed_files@.contains(file) {
            0int
        } else {
            1int
        }),
        with_file.transferred_bytes == before.transferred_bytes + (
        if before.completed_files@.contains(file) {
            0
        } else {
            before.files@[file as int].size as int
        }),
        with_file.file_chunks == before.file_chunks,
        finished.completed_files@ == with_file.completed_files@,
        finished.transferred_bytes == with_file.transferred_bytes,
        finished.current_file matches Some(next) ==> !finished.completed_files@.contains(next)
            && forall|j: nat|
            j < next ==> finished.completed_files@.contains(#[trigger] (j as usize)),
        finished.current_file is None ==> forall|j: nat|
            j < before.files@.len() ==> finished.completed_files@.contains(#[trigger] (j as usize)),
{
    let marked = before.chunks_of(file).push(chunk);
    assert(with_chunk.chunks_of(file) == marked);
    assert(marked[marked.len() - 1] == chunk);
    assert forall|k: u64| before.chunks_of(file).contains(k) implies #[trigger] with_chunk.chunks_of(
        file,
    ).contains(k) by {
        let i = choose|i: int|
            0 <= i < before.chunks_of(file).len() && before.chunks_of(file)[i] == k;
        assert(marked[i] == k);
    }
    let done = before.completed_files@;
    if !done.contains(file) {
        let more = done.push(file);
        assert(more[done.len() as int] == file);
        if done.contains(other) {
            let i = choose|i: int| 0 <= i < done.len() && done[i] == other;
            assert(more[i] == other);
        }
        if more.contains(other) && other != file {
            let i = choose|i: int| 0 <= i < more.len() && more[i] == other;
            assert(done[i] == other);
        }
    }
    law_next_file_is_first_missing(finished.completed_files@, 0, before.files@.len());
}

/// A file that the sender leaves out is looked for, every other one is received;
/// behind the last one nothing is left but the end.
pub proof fn law_left_out_files_are_looked_for(
    v: ReceiveView,
    i: nat,
    stage: ReceiveStage,
    action: ReceiveAction,
)
    requires
        v.step_at(i, Ok((stage, action))),
    ensures
        i < v.info.items@.len() && v.info.completed_files@.contains(i as u32) ==> action is Look
            && action->Look_index == i && action->Look_size == v.info.items@[i as int].size,
        i < v.info.items@.len() && !v.info.completed_files@.contains(i as u32) ==> action is Receive
            && action->Receive_index == i && action->Receive_size == v.info.items@[i as int].size,
        i >= v.info.items@.len() ==> action is AwaitComplete,
{
}

/// A file that was left out and is here in another size ends the receive, and
/// one that nothing contradicts counts.
pub proof fn law_wrong_copies_end_the_receive(
    v: ReceiveView,
    i: usize,
    file_len: Option<u64>,
    partial_len: Option<u64>,
    shown: Seq<char>,
    after: ReceiveView,
    r: Result<ReceiveAction>,
)
    requires
        v.stage == ReceiveStage::Looking(i),
        v.goes_on(ReceiveEvent::Found { file_len, partial_len }, shown, after, r),
    ensures
        file_len is Some && file_len->0 != v.info.items@[i as int].size ==> r is Err
            && r->Err_0 is Verification,
        file_len is None && partial_len is Some && partial_len->0 != v.info.items@[i as int].size
            ==> r is Err && r->Err_0 is Verification,
        file_len == Some(v.info.items@[i as int].size) || (file_len is None && partial_len is None)
            ==> (r is Ok ==> after.confirmed == v.confirmed.push(Confirmation::LeftOut)),
        r is Err && r->Err_0 is Verification ==> !(file_len == Some(v.info.items@[i as int].size)),
{
}

/// No directory is forgotten: the one that is read next and those that are left
/// are all that were found, and the walk ends only when none is left.
pub proof fn law_no_directory_is_forgotten(
    before: Seq<String>,
    r: Option<String>,
    after: Seq<String>,
)
    requires
        takes_directory(before, r, after),
    ensures
        r is None <==> before.len() == 0,
        r matches Some(dir) ==> seq![dir] + after == before,
        r is None ==> after.len() == 0,
{
    if let Some(dir) = r {
        assert(seq![dir] + after =~= before);
    }
}

} // verus!
