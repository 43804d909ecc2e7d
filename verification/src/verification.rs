//! File-level SHA-256 verification.
//!
//! Every byte on the wire is already authenticated by TLS, so the one check
//! that remains is end to end: both sides hash the whole file and compare.

use sha2::{Digest, Sha256};
use vstd::prelude::*;
use vstd::string::*;

use crate::error::{Error, Result};
use crate::text::bytes_eq;

verus! {

/// The SHA-256 digest of a byte string, as the `sha2` crate computes it.
pub uninterp spec fn sha256_of(data: Seq<u8>) -> Seq<u8>;

/// A running SHA-256 computation of the `sha2` crate: an append-only run of
/// bytes of which only the digest can be read. The type of the computation is
/// an alias with type-level numbers in it, so it is held in a private field.
#[verifier::external_body]
pub struct RunningHash {
    state: Sha256,
}

/// The bytes that a running computation has taken in, in order.
pub uninterp spec fn absorbed(hash: RunningHash) -> Seq<u8>;

impl View for RunningHash {
    type V = Seq<u8>;

    open spec fn view(&self) -> Seq<u8> {
        absorbed(*self)
    }
}

impl RunningHash {
    /// `Sha256::new`: a computation that has taken in nothing.
    #[verifier::external_body]
    pub(crate) fn new() -> (hash: Self)
        ensures
            absorbed(hash) == Seq::<u8>::empty(),
    {
        RunningHash { state: Sha256::new() }
    }

    /// `Digest::update`: takes in `data` after what was taken in before.
    #[verifier::external_body]
    pub(crate) fn update(&mut self, data: &[u8])
        ensures
            absorbed(*final(self)) == absorbed(*old(self)) + data@,
    {
        self.state.update(data)
    }

    /// `Digest::finalize`: the digest of what was taken in.
    #[verifier::external_body]
    pub(crate) fn finalize(self) -> (digest: [u8; 32])
        ensures
            digest@ == sha256_of(absorbed(self)),
    {
        self.state.finalize().into()
    }
}

/// Hashes a byte string with SHA-256.
pub fn sha256(data: &[u8]) -> (digest: [u8; 32])
    ensures
        digest@ == sha256_of(data@),
{
    let mut hash = RunningHash::new();
    hash.update(data);
    assert(hash@ =~= data@);
    hash.finalize()
}

/// The lower-case hexadecimal digit of a nibble.
pub open spec fn hex_digit(n: u8) -> char {
    if n < 10 {
        (48 + n) as u8 as char
    } else {
        (87 + n) as u8 as char
    }
}

/// Two lower-case hexadecimal digits per byte, high nibble first.
pub open spec fn hex_chars(data: Seq<u8>) -> Seq<char> {
    Seq::new(
        2 * data.len(),
        |i: int|
            if i % 2 == 0 {
                hex_digit(data[i / 2] / 16)
            } else {
                hex_digit(data[i / 2] % 16)
            },
    )
}

/// `hex::encode`: two lower-case digits per byte, high nibble first.
#[verifier::external_body]
pub(crate) fn hex_encode(data: &[u8]) -> (text: String)
    ensures
        text@ == hex_chars(data@),
{
    hex::encode(data)
}

/// The value of a hexadecimal digit in either case.
pub open spec fn hex_value(c: char) -> Option<u8> {
    if '0' <= c && c <= '9' {
        Some((c as u32 - 48) as u8)
    } else if 'A' <= c && c <= 'F' {
        Some((c as u32 - 55) as u8)
    } else if 'a' <= c && c <= 'f' {
        Some((c as u32 - 87) as u8)
    } else {
        None
    }
}

/// Pairs of hexadecimal digits and nothing else.
pub open spec fn is_hex(text: Seq<char>) -> bool {
    text.len() % 2 == 0 && forall|i: int| 0 <= i < text.len() ==> hex_value(#[trigger] text[i]) is Some
}

/// The bytes that pairs of hexadecimal digits stand for.
pub open spec fn hex_bytes(text: Seq<char>) -> Seq<u8> {
    Seq::new(
        text.len() / 2,
        |i: int| (16 * hex_value(text[2 * i])->0 + hex_value(text[2 * i + 1])->0) as u8,
    )
}

/// `hex::decode`: the bytes of pairs of hexadecimal digits in either case; an
/// error for any other text. What the error says is left open.
#[verifier::external_body]
pub(crate) fn hex_decode(text: &str) -> (r: core::result::Result<Vec<u8>, String>)
    ensures
        r is Ok <==> is_hex(text@),
        r matches Ok(data) ==> data@ == hex_bytes(text@),
{
    hex::decode(text).map_err(|e| e.to_string())
}

/// Reading hexadecimal digits gives back the bytes that were written.
pub proof fn law_hex_roundtrip(data: Seq<u8>)
    ensures
        is_hex(hex_chars(data)),
        hex_bytes(hex_chars(data)) == data,
{
    let text = hex_chars(data);
    assert forall|i: int| 0 <= i < text.len() implies hex_value(#[trigger] text[i]) is Some by {
        let b = data[i / 2];
        lemma_hex_digit(b / 16);
        lemma_hex_digit(b % 16);
    }
    assert forall|i: int| 0 <= i < data.len() implies hex_bytes(text)[i] == data[i] by {
        let b = data[i];
        lemma_hex_digit(b / 16);
        lemma_hex_digit(b % 16);
        assert((2 * i) / 2 == i && (2 * i) % 2 == 0);
        assert((2 * i + 1) / 2 == i && (2 * i + 1) % 2 == 1);
        assert(text[2 * i] == hex_digit(b / 16));
        assert(text[2 * i + 1] == hex_digit(b % 16));
    }
    assert(hex_bytes(text) =~= data);
}

proof fn lemma_hex_digit(n: u8)
    requires
        n < 16,
    ensures
        hex_value(hex_digit(n)) == Some(n),
{
}

/// Bytes of text in UTF-8.
pub open spec fn utf8_len(text: Seq<char>) -> nat {
    vstd::utf8::encode_utf8(text).len()
}

/// The fingerprint that a text writes in hexadecimal, in either case.
pub open spec fn fingerprint_written(text: Seq<char>) -> Option<Seq<u8>> {
    if utf8_len(text) == 64 && is_hex(text) {
        Some(hex_bytes(text))
    } else {
        None
    }
}

/// Text of hexadecimal digits has one byte per digit.
pub proof fn lemma_hex_is_ascii(text: Seq<char>)
    requires
        is_hex(text),
    ensures
        utf8_len(text) == text.len(),
{
    assert forall|i: int| 0 <= i < text.len() implies '\0' <= #[trigger] text[i] <= '\u{7f}' by {
        assert(hex_value(text[i]) is Some);
    }
    vstd::utf8::is_ascii_chars_encode_utf8(text);
}

/// The first 32 of some bytes.
pub fn array_of_32(data: &Vec<u8>) -> (r: [u8; 32])
    requires
        data@.len() >= 32,
    ensures
        r@ == data@.take(32),
{
    let mut out: [u8; 32] = [0; 32];
    let mut i: usize = 0;
    while i < 32
        invariant
            i <= 32,
            data@.len() >= 32,
            forall|j: int| 0 <= j < i ==> out@[j] == data@[j],
        decreases 32 - i,
    {
        out[i] = data[i];
        i += 1;
    }
    assert(out@ =~= data@.take(32));
    out
}

/// What a digest mismatch is reported as.
pub open spec fn mismatch_text(expected: Seq<u8>, actual: Seq<u8>) -> Seq<char> {
    "SHA256 mismatch: expected "@ + hex_chars(expected) + ", got "@ + hex_chars(actual)
}

/// Checks that a byte string has the expected SHA-256 digest.
pub fn verify_sha256(data: &[u8], expected: &[u8; 32]) -> (r: Result<()>)
    ensures
        r is Ok <==> sha256_of(data@) == expected@,
        r matches Err(e) ==> e matches Error::Verification(m) && m@ == mismatch_text(
            expected@,
            sha256_of(data@),
        ),
{
    let actual = sha256(data);
    if bytes_eq(actual.as_slice(), expected.as_slice()) {
        Ok(())
    } else {
        let mut m = "SHA256 mismatch: expected ".to_owned();
        m.append(hex_encode(expected.as_slice()).as_str());
        m.append(", got ");
        m.append(hex_encode(actual.as_slice()).as_str());
        Err(Error::Verification(m))
    }
}

/// A fingerprint is read from sixty-four hexadecimal digits and from nothing
/// else, and one that was written is read back as it was.
pub proof fn law_fingerprints_are_read_back(fingerprint: Seq<u8>, text: Seq<char>)
    requires
        fingerprint.len() == 32,
    ensures
        hex_chars(fingerprint).len() == 64,
        fingerprint_written(hex_chars(fingerprint)) == Some(fingerprint),
        fingerprint_written(text) is Some <==> text.len() == 64 && forall|i: int|
            0 <= i < 64 ==> {
                let c = #[trigger] text[i];
                '0' <= c <= '9' || 'a' <= c <= 'f' || 'A' <= c <= 'F'
            },
{
    law_hex_roundtrip(fingerprint);
    lemma_hex_is_ascii(hex_chars(fingerprint));
    if is_hex(text) {
        lemma_hex_is_ascii(text);
        assert forall|i: int| 0 <= i < text.len() implies {
            let c = #[trigger] text[i];
            '0' <= c <= '9' || 'a' <= c <= 'f' || 'A' <= c <= 'F'
        } by {
            assert(hex_value(text[i]) is Some);
        }
    }
    if text.len() == 64 && forall|i: int|
        0 <= i < 64 ==> {
            let c = #[trigger] text[i];
            '0' <= c <= '9' || 'a' <= c <= 'f' || 'A' <= c <= 'F'
        } {
        assert(is_hex(text));
        lemma_hex_is_ascii(text);
    }
}

/// Data passes if and only if its digest is the expected one.
pub proof fn law_only_matching_digests_pass(data: &[u8], expected: [u8; 32], r: Result<()>)
    requires
        call_ensures(verify_sha256, (data, &expected), r),
    ensures
        r is Ok <==> sha256_of(data@) == expected@,
        r is Err ==> r->Err_0 is Verification,
{
}

} // verus!
