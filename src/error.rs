//! The errors that end a connection.

use crate::upgrade::WsUpgradeError;
use vstd::prelude::*;

verus! {

/// How a socket operation failed.
#[derive(Debug, Clone, Copy, PartialEq, Eq, Structural)]
pub enum TransportKind {
    ConnectionAborted,
    ConnectionReset,
    ConnectionRefused,
    Other,
}

/// Why a connection ended early.
#[derive(Debug, Clone, Copy, PartialEq, Eq, Structural)]
pub enum ErrorEnum {
    /// A socket read or write failed.
    Transport(TransportKind),
    /// The bytes were not a valid HTTP request or WebSocket frame.
    Decode,
    /// A WebSocket upgrade lacked a required header.
    Upgrade(WsUpgradeError),
    /// A handler failed.
    Handler,
}

impl ErrorEnum {
    /// An abrupt disconnect by the peer, which is expected and not reported.
    pub open spec fn spec_is_disconnect(self) -> bool {
        match self {
            ErrorEnum::Transport(k) => k != TransportKind::Other,
            _ => false,
        }
    }

    pub fn is_disconnect(&self) -> (r: bool)
        ensures
            r == self.spec_is_disconnect(),
    {
        match self {
            ErrorEnum::Transport(k) => !matches!(k, TransportKind::Other),
            _ => false,
        }
    }

    /// Whether a best-effort error response is owed before closing: for a
    /// transport failure other than a disconnect, and for a handler failure.
    pub fn wants_error_response(&self) -> (r: bool)
        ensures
            r == match self {
                ErrorEnum::Transport(k) => k == TransportKind::Other,
                ErrorEnum::Handler => true,
                _ => false,
            },
    {
        match self {
            ErrorEnum::Transport(k) => matches!(k, TransportKind::Other),
            ErrorEnum::Handler => true,
            _ => false,
        }
    }

    pub fn message(&self) -> (r: &'static str) {
        match self {
            ErrorEnum::Transport(_) => "transport error",
            ErrorEnum::Decode => "malformed input",
            ErrorEnum::Upgrade(e) => e.message(),
            ErrorEnum::Handler => "handler error",
        }
    }
}

} // verus!
