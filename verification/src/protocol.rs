//! Messages of the transfer protocol and the parameters both sides agree on.

use vstd::prelude::*;
use vstd::string::*;

use crate::codec::{
    be_bytes, be_value, law_be_roundtrip, lemma_be_bytes_len, lemma_pow256_values, push_be, read_be,
};
use crate::error::{Error, Result};
use crate::text::{bytes_eq, decimal, push_decimal, string_copy};

verus! {

/// Protocol version spoken by this build.
pub const PROTOCOL_VERSION: u8 = 3;

/// Oldest protocol version this build still accepts.
pub const MIN_PROTOCOL_VERSION: u8 = 3;

/// Default chunk size: 1 MiB.
pub const DEFAULT_CHUNK_SIZE: u32 = 1024 * 1024;

/// Default UDP port of LAN discovery.
pub const DEFAULT_DISCOVERY_PORT: u16 = 14566;

/// Default QUIC port of transfers.
pub const DEFAULT_TRANSFER_PORT: u16 = 14567;

/// Default TCP port of rendezvous servers.
pub const DEFAULT_RENDEZVOUS_PORT: u16 = 14570;

/// First bytes on the control stream, from the side that opened it.
pub const PROTOCOL_MAGIC: [u8; 4] = [0x50, 0x32, 0x50, 0x46];

/// Name of the protocol in the TLS handshake.
pub const ALPN_PROTOCOL: [u8; 6] = [0x70, 0x32, 0x70, 0x66, 0x2F, 0x33];

/// The first bytes on the control stream.
pub open spec fn control_magic() -> Seq<u8> {
    seq![0x50, 0x32, 0x50, 0x46]
}

/// Numbers in square brackets, separated by commas.
pub open spec fn number_list(bytes: Seq<u8>) -> Seq<char>
    decreases bytes.len(),
{
    if bytes.len() == 0 {
        Seq::empty()
    } else if bytes.len() == 1 {
        decimal(bytes[0] as nat)
    } else {
        number_list(bytes.drop_last()) + ", "@ + decimal(bytes.last() as nat)
    }
}

/// Checks the first bytes on the control stream.
pub fn check_control_magic(magic: &[u8; 4]) -> (r: Result<()>)
    ensures
        r is Ok <==> magic@ == control_magic(),
        r matches Err(e) ==> e matches Error::Protocol(m) && m@
            == "control stream priming magic mismatch: got ["@ + number_list(magic@) + "]"@,
{
    if bytes_eq(magic.as_slice(), PROTOCOL_MAGIC.as_slice()) {
        assert(PROTOCOL_MAGIC@ =~= control_magic());
        return Ok(());
    }
    assert(PROTOCOL_MAGIC@ =~= control_magic());
    let mut m = "control stream priming magic mismatch: got [".to_owned();
    let ghost head = m@;
    let mut i: usize = 0;
    assert(magic@.take(0) =~= Seq::empty());
    assert(m@ =~= head + number_list(magic@.take(0)));
    while i < 4
        invariant
            i <= 4,
            m@ == head + number_list(magic@.take(i as int)),
        decreases 4 - i,
    {
        if i > 0 {
            m.append(", ");
        }
        push_decimal(&mut m, magic[i] as u64);
        proof {
            let t = magic@.take(i + 1);
            assert(t.drop_last() =~= magic@.take(i as int));
            assert(t.last() == magic@[i as int]);
            if i == 0 {
                assert(magic@.take(0) =~= Seq::empty());
            }
            assert(m@ =~= head + number_list(t));
        }
        i += 1;
    }
    assert(magic@.take(4) =~= magic@);
    m.append("]");
    Err(Error::Protocol(m))
}

/// Transfer parameters that the connecting side proposes.
#[derive(Debug, Clone, Copy, PartialEq, Eq, Structural)]
pub struct ConfigMessage {
    pub compression_enabled: bool,
    pub compression_level: i32,
    pub adaptive_compression: bool,
    pub chunk_size: u32,
    /// Bytes per second; 0 for no limit.
    pub bandwidth_limit: u64,
}

/// The parameters used when nothing else is asked for.
pub open spec fn default_config() -> ConfigMessage {
    ConfigMessage {
        compression_enabled: true,
        compression_level: 3,
        adaptive_compression: true,
        chunk_size: DEFAULT_CHUNK_SIZE,
        bandwidth_limit: 0,
    }
}

impl Default for ConfigMessage {
    fn default() -> (r: Self)
        ensures
            r == default_config(),
    {
        ConfigMessage {
            compression_enabled: true,
            compression_level: 3,
            adaptive_compression: true,
            chunk_size: DEFAULT_CHUNK_SIZE,
            bandwidth_limit: 0,
        }
    }
}

/// One file of a transfer.
#[derive(Debug, Clone)]
pub struct FileMetadata {
    /// Path relative to the directory received into.
    pub path: String,
    pub size: u64,
    /// Seconds since the epoch.
    pub modified: u64,
    pub checksum: [u8; 32],
}

/// A file of a transfer as a value.
pub ghost struct FileView {
    pub path: Seq<char>,
    pub size: u64,
    pub modified: u64,
    pub checksum: Seq<u8>,
}

impl View for FileMetadata {
    type V = FileView;

    open spec fn view(&self) -> FileView {
        FileView {
            path: self.path@,
            size: self.size,
            modified: self.modified,
            checksum: self.checksum@,
        }
    }
}

/// Files as values.
pub open spec fn file_views(files: Seq<FileMetadata>) -> Seq<FileView> {
    files.map_values(|f: FileMetadata| f@)
}

/// Copies a list of files.
pub fn copy_files(files: &Vec<FileMetadata>) -> (r: Vec<FileMetadata>)
    ensures
        file_views(r@) == file_views(files@),
{
    let mut out: Vec<FileMetadata> = Vec::new();
    let mut i: usize = 0;
    while i < files.len()
        invariant
            i <= files@.len(),
            out@.len() == i,
            forall|j: int| 0 <= j < i ==> (#[trigger] out@[j])@ == files@[j]@,
        decreases files@.len() - i,
    {
        let f: &FileMetadata = &files[i];
        out.push(
            FileMetadata {
                path: string_copy(f.path.as_str()),
                size: f.size,
                modified: f.modified,
                checksum: f.checksum,
            },
        );
        i += 1;
    }
    assert(file_views(out@) =~= file_views(files@));
    out
}

/// Where an interrupted transfer goes on.
#[derive(Debug, Clone)]
pub struct ResumePoint {
    pub transfer_id: [u8; 16],
    pub file_index: u32,
    /// The chunks of that file the receiver already has.
    pub completed_chunks: Vec<u64>,
}

/// What the sender offers.
#[derive(Debug, Clone)]
pub struct TransferInfo {
    pub transfer_id: [u8; 16],
    pub items: Vec<FileMetadata>,
    pub resume_from: Option<ResumePoint>,
    /// The files that an earlier session completed.
    pub completed_files: Vec<u32>,
}

/// The checksum one side has for a file.
#[derive(Debug, Clone, Copy)]
pub struct FileChecksumMessage {
    pub transfer_id: [u8; 16],
    pub file_index: u32,
    pub checksum: [u8; 32],
}

/// The end of a transfer.
#[derive(Debug, Clone, Copy)]
pub struct CompleteMessage {
    pub transfer_id: [u8; 16],
    pub total_bytes: u64,
    pub duration_ms: u64,
}

/// The introduction of one side.
#[derive(Debug, Clone, Copy)]
pub struct HelloMessage {
    pub protocol_version: u8,
    pub min_version: u8,
    pub device_id: [u8; 16],
    pub cert_fingerprint: [u8; 32],
}

/// A refusal in words.
#[derive(Debug, Clone)]
pub struct ErrorMessage {
    pub message: String,
}

/// A message on the control stream.
#[derive(Debug, Clone)]
pub enum Message {
    Hello(HelloMessage),
    HelloAck(HelloMessage),
    Config(ConfigMessage),
    ConfigAck,
    TransferInfo(TransferInfo),
    Ready,
    Cancel,
    Complete(CompleteMessage),
    FileChecksum(FileChecksumMessage),
    Error(ErrorMessage),
    Ping,
}

/// What an unexpected message is reported as: what was expected, and what
/// came instead as the program shows it.
pub open spec fn unexpected_text(expected: Seq<char>, shown: Seq<char>) -> Seq<char> {
    "Expected "@ + expected + ", got "@ + shown
}

/// Reports an unexpected message.
pub fn unexpected(expected: &str, shown: &str) -> (e: Error)
    ensures
        e matches Error::Protocol(m) && m@ == unexpected_text(expected@, shown@),
{
    let mut m = "Expected ".to_owned();
    m.append(expected);
    m.append(", got ");
    m.append(shown);
    Error::Protocol(m)
}

/// Most bytes of a message on the control stream.
pub const MAX_CONTROL_MESSAGE: u32 = 64 * 1024 * 1024;

/// A message on the control stream: its length, then its bytes.
pub open spec fn control_frame(payload: Seq<u8>) -> Seq<u8> {
    be_bytes(payload.len(), 4) + payload
}

/// What a message that is too large is reported as.
pub open spec fn too_large_text(len: nat) -> Seq<char> {
    "message too large: "@ + decimal(len)
}

fn too_large(len: u64) -> (e: Error)
    ensures
        e matches Error::Protocol(m) && m@ == too_large_text(len as nat),
{
    let mut m = "message too large: ".to_owned();
    push_decimal(&mut m, len);
    Error::Protocol(m)
}

/// Frames a message for the control stream.
pub fn frame_control(payload: &[u8]) -> (r: Result<Vec<u8>>)
    ensures
        if payload@.len() <= MAX_CONTROL_MESSAGE {
            r matches Ok(out) && out@ == control_frame(payload@)
        } else {
            r matches Err(Error::Protocol(m)) && m@ == too_large_text(payload@.len())
        },
{
    let len: u64 = payload.len() as u64;
    if len > MAX_CONTROL_MESSAGE as u64 {
        return Err(too_large(len));
    }
    let mut out: Vec<u8> = Vec::new();
    push_be(&mut out, len, 4);
    out.extend_from_slice(payload);
    assert(out@ =~= control_frame(payload@));
    Ok(out)
}

/// Reads the length of the message that follows on the control stream.
pub fn control_length(header: &[u8; 4]) -> (r: Result<u32>)
    ensures
        if be_value(header@) <= MAX_CONTROL_MESSAGE {
            r matches Ok(len) && len == be_value(header@)
        } else {
            r matches Err(Error::Protocol(m)) && m@ == too_large_text(be_value(header@))
        },
{
    let len: u64 = read_be(header.as_slice(), 0, 4);
    assert(header@.subrange(0, 4) =~= header@);
    if len > MAX_CONTROL_MESSAGE as u64 {
        return Err(too_large(len));
    }
    Ok(len as u32)
}

/// A message that is framed is read back: its length first, then itself.
pub proof fn law_control_frame_roundtrip(payload: Seq<u8>)
    requires
        payload.len() <= MAX_CONTROL_MESSAGE,
    ensures
        control_frame(payload).len() == 4 + payload.len(),
        be_value(control_frame(payload).take(4)) == payload.len(),
        control_frame(payload).skip(4) == payload,
{
    lemma_pow256_values();
    lemma_be_bytes_len(payload.len(), 4);
    law_be_roundtrip(payload.len(), 4);
    assert(control_frame(payload).take(4) =~= be_bytes(payload.len(), 4));
    assert(control_frame(payload).skip(4) =~= payload);
}

/// A message goes through the control stream whole: what is framed, up to 64
/// MiB, announces its own length, and a length that could not be framed is
/// refused on the other side too.
pub proof fn law_messages_go_through_whole(
    payload: &[u8],
    header: [u8; 4],
    framed: Result<Vec<u8>>,
    length: Result<u32>,
)
    requires
        call_ensures(frame_control, (payload,), framed),
        call_ensures(control_length, (&header,), length),
    ensures
        framed is Ok <==> payload@.len() <= 0x400_0000,
        framed is Ok ==> framed->Ok_0@.skip(4) == payload@,
        framed is Ok && framed->Ok_0@.take(4) == header@ ==> length is Ok && length->Ok_0
            == payload@.len(),
        length is Ok <==> be_value(header@) <= 0x400_0000,
{
    if payload@.len() <= MAX_CONTROL_MESSAGE {
        law_control_frame_roundtrip(payload@);
    }
}

/// A control stream is opened by the four letters `P2PF` and by nothing else.
pub proof fn law_control_stream_is_opened_by_its_magic(magic: [u8; 4], r: Result<()>)
    requires
        call_ensures(check_control_magic, (&magic,), r),
    ensures
        r is Ok <==> magic@[0] == 0x50 && magic@[1] == 0x32 && magic@[2] == 0x50 && magic@[3] == 0x46,
{
    if magic@[0] == 0x50 && magic@[1] == 0x32 && magic@[2] == 0x50 && magic@[3] == 0x46 {
        assert(magic@ =~= control_magic());
    }
}

} // verus!
