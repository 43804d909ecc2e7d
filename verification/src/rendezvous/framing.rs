//! Frames on the control channel: a four-byte big-endian length, then the
//! payload.

use vstd::prelude::*;
use vstd::string::*;

use crate::codec::{
    be_bytes, be_value, law_be_roundtrip, lemma_be_bytes_len, lemma_pow256_values, push_be, read_be,
};
use crate::text::{decimal, push_decimal};

verus! {

/// Longest payload of a frame.
pub const MAX_FRAME_BYTES: u32 = 4096;

/// A payload that is longer than a frame can be.
#[derive(Debug, Clone, Copy, PartialEq, Eq, Structural)]
pub struct FrameTooLarge {
    pub size: u64,
    pub cap: u32,
}

impl FrameTooLarge {
    /// The error as it is shown.
    pub fn message(&self) -> (r: String)
        ensures
            r@ == "rendezvous frame too large: "@ + decimal(self.size as nat) + " > "@ + decimal(
                self.cap as nat,
            ),
    {
        let mut m = "rendezvous frame too large: ".to_owned();
        push_decimal(&mut m, self.size);
        m.append(" > ");
        push_decimal(&mut m, self.cap as u64);
        m
    }
}

/// A frame on the wire.
pub open spec fn framed(payload: Seq<u8>) -> Seq<u8> {
    be_bytes(payload.len(), 4) + payload
}

/// Frames a payload, which may not be longer than `MAX_FRAME_BYTES`.
pub fn encode_frame(payload: &[u8]) -> (r: Result<Vec<u8>, FrameTooLarge>)
    ensures
        r is Ok <==> payload@.len() <= MAX_FRAME_BYTES,
        r matches Ok(out) ==> out@ == framed(payload@),
        r matches Err(e) ==> e.size == payload@.len() && e.cap == MAX_FRAME_BYTES,
{
    let size: u64 = payload.len() as u64;
    if size > MAX_FRAME_BYTES as u64 {
        return Err(FrameTooLarge { size, cap: MAX_FRAME_BYTES });
    }
    let mut out: Vec<u8> = Vec::new();
    push_be(&mut out, size, 4);
    out.extend_from_slice(payload);
    assert(out@ =~= framed(payload@));
    Ok(out)
}

/// Reads the length of the payload that follows.
pub fn decode_length(header: &[u8; 4]) -> (r: Result<u32, FrameTooLarge>)
    ensures
        r is Ok <==> be_value(header@) <= MAX_FRAME_BYTES,
        r matches Ok(len) ==> len == be_value(header@),
        r matches Err(e) ==> e.size == be_value(header@) && e.cap == MAX_FRAME_BYTES,
{
    proof {
        lemma_pow256_values();
    }
    let len: u32 = read_be(header.as_slice(), 0, 4) as u32;
    assert(header@.subrange(0, 4) =~= header@);
    if len > MAX_FRAME_BYTES {
        return Err(FrameTooLarge { size: len as u64, cap: MAX_FRAME_BYTES });
    }
    Ok(len)
}

/// The length read from a frame is that of its payload.
pub proof fn law_frame_roundtrip(payload: Seq<u8>)
    requires
        payload.len() <= MAX_FRAME_BYTES,
    ensures
        framed(payload).len() == 4 + payload.len(),
        be_value(framed(payload).take(4)) == payload.len(),
        framed(payload).skip(4) == payload,
{
    lemma_pow256_values();
    lemma_be_bytes_len(payload.len(), 4);
    law_be_roundtrip(payload.len(), 4);
    assert(framed(payload).take(4) =~= be_bytes(payload.len(), 4));
    assert(framed(payload).skip(4) =~= payload);
}

/// A payload goes through whole: what is framed, up to 4096 bytes, announces its
/// own length, and what is longer is refused on both sides, with its length.
pub proof fn law_payloads_go_through_whole(
    payload: &[u8],
    header: [u8; 4],
    frame: Result<Vec<u8>, FrameTooLarge>,
    length: Result<u32, FrameTooLarge>,
)
    requires
        call_ensures(encode_frame, (payload,), frame),
        call_ensures(decode_length, (&header,), length),
    ensures
        frame is Ok <==> payload@.len() <= 4096,
        frame is Ok ==> frame->Ok_0@.skip(4) == payload@,
        frame is Err ==> frame->Err_0.size == payload@.len() && frame->Err_0.cap == 4096,
        frame is Ok && frame->Ok_0@.take(4) == header@ ==> length is Ok && length->Ok_0
            == payload@.len(),
        length is Ok <==> be_value(header@) <= 4096,
{
    if payload@.len() <= MAX_FRAME_BYTES {
        law_frame_roundtrip(payload@);
    }
}

} // verus!
