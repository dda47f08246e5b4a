//! Standard I/O error types that the library's errors carry, and the kinds
//! of I/O failure the chat logic tells apart.

use vstd::prelude::*;

verus! {

#[verifier::external_type_specification]
#[verifier::external_body]
pub struct ExIoErrorKind(std::io::ErrorKind);

#[verifier::external_type_specification]
#[verifier::external_body]
pub struct ExIoError(std::io::Error);

/// The kinds of I/O failure that the chat logic tells apart.
#[derive(Clone, Copy, Debug, PartialEq, Eq, Structural)]
pub enum IoKind {
    BrokenPipe,
    ConnectionAborted,
    ConnectionReset,
    UnexpectedEof,
    Other,
}

/// Whether a failure of this kind means the peer is gone.
pub open spec fn spec_is_disconnect_kind(kind: IoKind) -> bool {
    kind == IoKind::BrokenPipe || kind == IoKind::ConnectionAborted || kind
        == IoKind::ConnectionReset
}

/// Whether a failure of this kind means the peer is gone.
pub fn is_disconnect_kind(kind: IoKind) -> (r: bool)
    ensures
        r == spec_is_disconnect_kind(kind),
{
    match kind {
        IoKind::BrokenPipe | IoKind::ConnectionAborted | IoKind::ConnectionReset => true,
        _ => false,
    }
}

} // verus!
