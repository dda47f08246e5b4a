//! Why the server refused a client, a frame or an operation.

use vstd::prelude::*;

verus! {

/// Why the server refused a client, a frame or an operation.
#[derive(Debug)]
#[non_exhaustive]
pub enum ServerError {
    EmptyHandshakeUsername,
    UsernameContainsControlCharacters,
    UsernameTooLong,
    MessageTooLong,
    InvalidFrameType,
    UnsupportedProtocolVersion,
    UnknownProtocolFrameType,
    TruncatedProtocolFrame,
    PresenceEncodingFailed,
    InvalidUtf8,
    ConnectionLimitReached,
    MessageRateLimitExceeded,
    OutboundQueueFull,
    OutboundWriterGone,
    UnknownClient,
    ClientStatePoisoned,
    Io(std::io::Error),
}

} // verus!
