//! WebSocket-to-TCP proxy core.
//!
//! The crate holds the verified logic of a proxy that accepts WebSocket
//! connections, performs the RFC 6455 opening handshake, and relays data-frame
//! payload bytes to a plain TCP backend (and backend bytes back to the client
//! as binary frames).  Sockets and scheduling live outside the crate; the
//! library works on byte buffers and plain values.
#![verifier::loop_isolation(false)]

pub mod bytes;
pub mod channel;
pub mod frame;
pub mod handshake;
pub mod server;

use vstd::prelude::*;

verus! {

/// Largest decoded frame payload the proxy accepts, 16 MiB.
pub const MAX_PAYLOAD_LEN: usize = 0x100_0000;

} // verus!
