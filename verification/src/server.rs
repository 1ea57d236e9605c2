//! The accept loop's decisions.  The loop itself — binding, accepting,
//! spawning a channel per connection — is socket work and lives with the
//! caller; this module fixes what the loop does with each event it sees.

use vstd::prelude::*;

verus! {

/// What the accept loop observed.
#[derive(Clone, Copy, PartialEq, Eq, Structural, Debug)]
pub enum AcceptEvent {
    /// The parent cancellation signal fired.
    Cancelled,
    /// A client connection was accepted.
    Connection,
    /// Accepting failed in a way that passes (interrupted, connection
    /// aborted before the accept completed).
    TransientError,
    /// Accepting failed in a way that will not heal (socket closed,
    /// permission).
    FatalError,
}

/// What the accept loop must do next.
#[derive(Clone, Copy, PartialEq, Eq, Structural, Debug)]
pub enum ServerAction {
    /// Stop accepting and return cleanly; running channels drain on their
    /// own cancellation signals.
    Stop,
    /// Spawn a proxy channel for the new connection, with a child
    /// cancellation handle, and keep accepting.
    Spawn,
    /// Log and keep accepting.
    Continue,
    /// Return the error: the server cannot go on.
    Fail,
}

/// The accept loop's policy: cancellation stops it, a connection spawns a
/// channel, transient accept errors are ridden out, fatal ones end it.
pub fn server_step(ev: AcceptEvent) -> (r: ServerAction)
    ensures
        r == ServerAction::Stop <==> ev == AcceptEvent::Cancelled,
        r == ServerAction::Spawn <==> ev == AcceptEvent::Connection,
        r == ServerAction::Continue <==> ev == AcceptEvent::TransientError,
        r == ServerAction::Fail <==> ev == AcceptEvent::FatalError,
{
    match ev {
        AcceptEvent::Cancelled => ServerAction::Stop,
        AcceptEvent::Connection => ServerAction::Spawn,
        AcceptEvent::TransientError => ServerAction::Continue,
        AcceptEvent::FatalError => ServerAction::Fail,
    }
}

} // verus!
