//! What the event loop waits for, as plain values.
use vstd::prelude::*;

verus! {

/// The token of the socket on which peers connect.
pub const IPC_SERVER_TOKEN: usize = 0;

/// The token of the connected peer.
pub const IPC_PEER_TOKEN: usize = 1;

/// The token of the chat connection.
pub const CHAT_TOKEN: usize = 2;

/// How long a registration holds.
#[derive(Clone, Copy, Debug, PartialEq, Eq, Structural)]
pub enum Mode {
    /// Events come for as long as the socket is ready.
    Level,
    /// One event, then none until the socket is registered again.
    Oneshot,
}

/// What a socket is registered for.
#[derive(Clone, Copy, Debug, PartialEq, Eq, Structural)]
pub struct Registration {
    pub token: usize,
    pub readable: bool,
    pub writable: bool,
    pub mode: Mode,
}

/// What an event says of its socket.
#[derive(Clone, Copy, Debug, PartialEq, Eq, Structural)]
pub struct Readiness {
    pub readable: bool,
    pub writable: bool,
    pub hup: bool,
    pub error: bool,
}

/// An event is told by its token whose it is.
pub proof fn law_tokens_tell_sockets_apart()
    ensures
        IPC_SERVER_TOKEN != IPC_PEER_TOKEN,
        IPC_PEER_TOKEN != CHAT_TOKEN,
        CHAT_TOKEN != IPC_SERVER_TOKEN,
{
}

} // verus!
