//! Error taxonomy of the protocol core.

use vstd::prelude::*;

verus! {

/// Failures surfaced by the protocol core.
///
/// `CarrierError` reports a failed carrier read or write; the session
/// terminates. `FrameTooLarge` rejects an outbound payload of `2^24` bytes
/// or more; the session continues. `HandshakeAuth` and `TransportAuth`
/// report AEAD failures during and after the handshake; both are fatal.
/// `DecodeError` reports malformed binary XML (invalid token, truncated
/// buffer, unexpected value kind); fatal to the session, since frames are
/// ordered and resyncing is unsafe. `ProtocolError` reports a node of an
/// unexpected shape where a specific one was required.
#[derive(Clone, Copy, Debug, PartialEq, Eq, Structural)]
pub enum Error {
    CarrierError,
    FrameTooLarge,
    HandshakeAuth,
    TransportAuth,
    DecodeError,
    ProtocolError,
}

} // verus!
