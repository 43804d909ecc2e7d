//! The error type shared by all transfer operations.

use vstd::prelude::*;
use vstd::string::*;

use crate::text::{decimal, push_decimal, string_copy};

verus! {

/// Result of a fallible operation of this library.
pub type Result<T> = core::result::Result<T, Error>;

/// Everything that can go wrong in a transfer.
#[derive(Debug)]
pub enum Error {
    /// Network I/O error.
    Network(String),
    /// Protocol-level error.
    Protocol(String),
    /// Version mismatch during the handshake.
    VersionMismatch { peer: u8, ours: u8 },
    /// Compression error.
    Compression(String),
    /// Decompression error.
    Decompression(String),
    /// Checksum verification failed.
    Verification(String),
    /// File system error.
    FileSystem(String),
    /// Configuration error.
    Config(String),
    /// A message could not be serialized.
    Serialization(String),
    /// A message could not be deserialized.
    Deserialization(String),
    /// The peer went away.
    Disconnected,
    /// The connection timed out.
    Timeout,
    /// The transfer was cancelled by the user.
    Cancelled,
    /// No state is known for the transfer to resume.
    TransferNotFound(String),
    /// A chunk is invalid.
    InvalidChunk(String),
    /// The peer asked for something this side does not support.
    UnsupportedCapability(String),
    /// QUIC transport error.
    Quic(String),
    /// TLS, identity or certificate error.
    Tls(String),
    /// Rendezvous server protocol error.
    Rendezvous(String),
    /// UDP hole punching failed.
    HolePunchFailed(String),
    /// The peer's certificate fingerprint is not the pinned one.
    FingerprintMismatch,
    /// Any other error.
    Other(String),
}

impl Error {
    /// The errors after which a reconnect can help.
    pub open spec fn recoverable(self) -> bool {
        self is Network || self is Timeout || self is Disconnected || self is Quic
            || self is HolePunchFailed
    }

    /// The errors after which the same operation can be tried again.
    pub open spec fn retryable(self) -> bool {
        self is Network || self is Timeout || self is InvalidChunk || self is Quic
    }

    /// The error as it is shown.
    pub open spec fn shown(self) -> Seq<char> {
        match self {
            Error::Network(m) => "Network error: "@ + m@,
            Error::Protocol(m) => "Protocol error: "@ + m@,
            Error::VersionMismatch { peer, ours } => "Protocol version mismatch: peer version "@
                + decimal(peer as nat) + ", our version "@ + decimal(ours as nat),
            Error::Compression(m) => "Compression error: "@ + m@,
            Error::Decompression(m) => "Decompression error: "@ + m@,
            Error::Verification(m) => "Verification failed: "@ + m@,
            Error::FileSystem(m) => "File system error: "@ + m@,
            Error::Config(m) => "Configuration error: "@ + m@,
            Error::Serialization(m) => "Serialization error: "@ + m@,
            Error::Deserialization(m) => "Deserialization error: "@ + m@,
            Error::Disconnected => "Peer disconnected"@,
            Error::Timeout => "Connection timeout"@,
            Error::Cancelled => "Transfer cancelled by user"@,
            Error::TransferNotFound(m) => "Transfer not found: "@ + m@,
            Error::InvalidChunk(m) => "Invalid chunk: "@ + m@,
            Error::UnsupportedCapability(m) => "Capability not supported: "@ + m@,
            Error::Quic(m) => "QUIC error: "@ + m@,
            Error::Tls(m) => "TLS error: "@ + m@,
            Error::Rendezvous(m) => "Rendezvous error: "@ + m@,
            Error::HolePunchFailed(m) => "Hole punch failed: "@ + m@,
            Error::FingerprintMismatch => "Peer fingerprint mismatch"@,
            Error::Other(m) => m@,
        }
    }

    /// The error as it is shown.
    pub fn message(&self) -> (r: String)
        ensures
            r@ == self.shown(),
    {
        match self {
            Error::Network(m) => "Network error: ".to_owned().concat(m.as_str()),
            Error::Protocol(m) => "Protocol error: ".to_owned().concat(m.as_str()),
            Error::VersionMismatch { peer, ours } => {
                let mut s = "Protocol version mismatch: peer version ".to_owned();
                push_decimal(&mut s, *peer as u64);
                s.append(", our version ");
                push_decimal(&mut s, *ours as u64);
                s
            },
            Error::Compression(m) => "Compression error: ".to_owned().concat(m.as_str()),
            Error::Decompression(m) => "Decompression error: ".to_owned().concat(m.as_str()),
            Error::Verification(m) => "Verification failed: ".to_owned().concat(m.as_str()),
            Error::FileSystem(m) => "File system error: ".to_owned().concat(m.as_str()),
            Error::Config(m) => "Configuration error: ".to_owned().concat(m.as_str()),
            Error::Serialization(m) => "Serialization error: ".to_owned().concat(m.as_str()),
            Error::Deserialization(m) => "Deserialization error: ".to_owned().concat(m.as_str()),
            Error::Disconnected => "Peer disconnected".to_owned(),
            Error::Timeout => "Connection timeout".to_owned(),
            Error::Cancelled => "Transfer cancelled by user".to_owned(),
            Error::TransferNotFound(m) => "Transfer not found: ".to_owned().concat(m.as_str()),
            Error::InvalidChunk(m) => "Invalid chunk: ".to_owned().concat(m.as_str()),
            Error::UnsupportedCapability(m) => "Capability not supported: ".to_owned().concat(
                m.as_str(),
            ),
            Error::Quic(m) => "QUIC error: ".to_owned().concat(m.as_str()),
            Error::Tls(m) => "TLS error: ".to_owned().concat(m.as_str()),
            Error::Rendezvous(m) => "Rendezvous error: ".to_owned().concat(m.as_str()),
            Error::HolePunchFailed(m) => "Hole punch failed: ".to_owned().concat(m.as_str()),
            Error::FingerprintMismatch => "Peer fingerprint mismatch".to_owned(),
            Error::Other(m) => string_copy(m.as_str()),
        }
    }

    /// Whether this error is transient, so that the caller should reconnect.
    pub fn is_recoverable(&self) -> (r: bool)
        ensures
            r == self.recoverable(),
    {
        match self {
            Error::Network(_) | Error::Timeout | Error::Disconnected | Error::Quic(_)
            | Error::HolePunchFailed(_) => true,
            _ => false,
        }
    }

    /// Whether this error should trigger a retry of the same operation.
    pub fn should_retry(&self) -> (r: bool)
        ensures
            r == self.retryable(),
    {
        match self {
            Error::Network(_) | Error::Timeout | Error::InvalidChunk(_) | Error::Quic(_) => true,
            _ => false,
        }
    }
}

/// A new connection is tried for what a new connection can cure, and for
/// nothing else: a network that failed, a timeout, a peer that went away, a
/// transport error and a hole that was not punched. What the peer refused, what
/// did not verify, what the user ended and what the disk did is final.
pub proof fn law_only_connection_errors_are_recoverable(e: Error)
    ensures
        e is Network || e is Timeout || e is Disconnected || e is Quic || e is HolePunchFailed
            ==> e.recoverable(),
        e is Protocol || e is VersionMismatch || e is Compression || e is Decompression
            || e is Verification || e is FileSystem || e is Config || e is Serialization
            || e is Deserialization || e is Cancelled || e is TransferNotFound || e is InvalidChunk
            || e is UnsupportedCapability || e is Tls || e is Rendezvous || e is FingerprintMismatch
            || e is Other ==> !e.recoverable(),
        e is Cancelled || e is Verification || e is FingerprintMismatch || e is Disconnected
            ==> !e.retryable(),
        e is Network || e is Timeout || e is InvalidChunk || e is Quic <==> e.retryable(),
{
}

} // verus!
