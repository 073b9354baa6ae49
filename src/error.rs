//! Errors of packet construction and of the receive path.
use vstd::prelude::*;

verus! {

#[derive(Clone, Copy, Debug, PartialEq, Eq, Structural)]
pub enum PacketError {
    /// The wall clock could not be read, or lies past what a 32-bit timestamp holds.
    ClockError,
    /// A structured value could not be decoded from its bytes.
    EncodingError,
    /// A datagram too short to hold the outer hash.
    TooShort,
    /// The outer hash does not match the signed payload.
    HashMismatch,
    /// The signed payload is too short to hold a signature, a recovery id and a message tag.
    TruncatedPayload,
    /// The signature or recovery id does not yield a public key.
    VerificationError,
    /// The key could not be used for signing.
    SigningError,
    /// A message tag other than that of a ping.
    UnknownMessageType,
}

} // verus!
