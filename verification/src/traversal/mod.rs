//! NAT traversal: what the outside sees of a socket, and how to reach a peer
//! behind another NAT.

pub mod establish;
pub mod punch;
pub mod stun;
