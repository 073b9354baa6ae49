//! Packet layer of a peer discovery protocol: canonical encoding of endpoints
//! and ping messages, hashing, recoverable signing, framing, and the checks of
//! the receive path.
pub mod error;
pub mod hash;
pub mod message;
pub mod packet;
pub mod rlp;
pub mod service;
pub mod signer;
