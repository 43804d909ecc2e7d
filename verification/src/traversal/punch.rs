//! Hole punching: both peers connect to each other at once, and the first
//! connection that stands is kept.

use vstd::prelude::*;
use vstd::string::*;

use crate::error::Error;
use crate::ids::{comes_before, id_less, law_one_comes_first};
use crate::net::SocketAddr;

verus! {

/// How long a punch may take, in seconds.
pub const PUNCH_TIMEOUT_SECS: u64 = 30;

/// How long the peer that goes second waits, in milliseconds.
pub const SECONDARY_CONNECT_DELAY_MS: u64 = 50;

/// Whether a connection that came in is from the peer that is expected.
pub fn peer_matches(observed: SocketAddr, expected: SocketAddr) -> (r: bool)
    ensures
        r == (observed == expected),
{
    observed == expected
}

/// How long to wait before connecting, in milliseconds.
pub open spec fn delay_for(our_device_id: Seq<u8>, peer_device_id: Seq<u8>) -> u64 {
    if comes_before(our_device_id, peer_device_id) {
        0
    } else {
        SECONDARY_CONNECT_DELAY_MS
    }
}

/// How long to wait before connecting, in milliseconds: the device whose
/// identifier comes first goes at once, the other a little later.
pub fn connect_delay_ms(our_device_id: &[u8; 16], peer_device_id: &[u8; 16]) -> (r: u64)
    ensures
        r == delay_for(our_device_id@, peer_device_id@),
{
    if id_less(our_device_id, peer_device_id) {
        0
    } else {
        SECONDARY_CONNECT_DELAY_MS
    }
}

/// The error of a punch that took too long; `peer` is the peer's address as it
/// is shown.
pub fn punch_timed_out(peer: &str) -> (e: Error)
    ensures
        e matches Error::HolePunchFailed(m) && m@ == "no QUIC handshake completed with "@ + peer@
            + " within 30s (peer down, strict firewall, or symmetric NAT)"@,
{
    let mut m = "no QUIC handshake completed with ".to_owned();
    m.append(peer);
    m.append(" within 30s (peer down, strict firewall, or symmetric NAT)");
    Error::HolePunchFailed(m)
}

/// Of two devices with different identifiers exactly one connects at once.
pub proof fn law_one_side_goes_first(a: Seq<u8>, b: Seq<u8>)
    requires
        a.len() == b.len(),
        a != b,
    ensures
        comes_before(a, b) <==> !comes_before(b, a),
{
    law_one_comes_first(a, b);
}

/// Two devices with different identifiers never connect at the same moment: one
/// goes at once, the other fifty milliseconds later.
pub proof fn law_one_waits_fifty_milliseconds(a: Seq<u8>, b: Seq<u8>)
    requires
        a.len() == b.len(),
        a != b,
    ensures
        delay_for(a, b) == 0 || delay_for(b, a) == 0,
        delay_for(a, b) + delay_for(b, a) == 50,
{
    law_one_comes_first(a, b);
}

} // verus!
