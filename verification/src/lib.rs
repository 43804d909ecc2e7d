//! Verified core of HyX, a peer-to-peer file transfer tool.
//!
//! Every decision the tool takes (what goes on the wire, which chunk is still
//! missing, who pairs with whom, which address to dial) is a function in this
//! crate with a proved contract. Sockets, files, clocks and the terminal are
//! left to the program built on top of it.

pub mod bandwidth;
pub mod bridge;
pub mod chunk_io;
pub mod cli;
pub mod clock;
pub mod codec;
pub mod compression;
pub mod congestion;
pub mod decimal;
pub mod discovery;
pub mod double;
pub mod error;
pub mod handshake;
pub mod history;
pub mod identity;
pub mod ids;
pub mod known_peers;
pub mod names;
pub mod net;
pub mod paths;
pub mod progress;
pub mod protocol;
pub mod random;
pub mod reconnect;
pub mod rendezvous;
pub mod session;
pub mod state;
pub mod table;
pub mod text;
pub mod transfer_file;
pub mod transfer_folder;
pub mod tls;
pub mod traversal;
pub mod units;
pub mod verification;
pub mod whole_file;
