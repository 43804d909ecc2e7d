//! Pairing by code: two peers register at a rendezvous server with the same
//! short code and learn how to reach each other, directly or through a relay.

pub mod relay;
pub mod client;
pub mod framing;
pub mod protocol;
pub mod server;
