//! Recoverable secp256k1 signatures over 32-byte message hashes. Keys cross
//! this module as bytes: a secret key as its 32-byte scalar, a public key in
//! its 65-byte uncompressed form.
use secp256k1::ecdsa::{RecoverableSignature, RecoveryId};
use secp256k1::{Message, PublicKey, SecretKey, SECP256K1};
use vstd::prelude::*;

use crate::error::PacketError;
use crate::rlp::be_value;

verus! {

#[verifier::external_type_specification]
#[verifier::external_body]
pub struct ExSecpError(secp256k1::Error);

/// Order of the secp256k1 group.
pub open spec fn curve_order() -> nat {
    be_value(
        seq![
            0xffu8, 0xff, 0xff, 0xff, 0xff, 0xff, 0xff, 0xff,
            0xff, 0xff, 0xff, 0xff, 0xff, 0xff, 0xff, 0xfe,
            0xba, 0xae, 0xdc, 0xe6, 0xaf, 0x48, 0xa0, 0x3b,
            0xbf, 0xd2, 0x5e, 0x8c, 0xd0, 0x36, 0x41, 0x41,
        ],
    )
}

/// A usable secret key: 32 big-endian bytes of a scalar in 1..order.
pub open spec fn is_valid_secret(secret: Seq<u8>) -> bool {
    secret.len() == 32 && 0 < be_value(secret) < curve_order()
}

/// The uncompressed public key of a valid secret key.
pub uninterp spec fn public_key_of(secret: Seq<u8>) -> Seq<u8>;

/// The recoverable signature of a valid secret key over a hash: 64 compact
/// bytes, then the recovery id.
pub uninterp spec fn signature_of(hash: Seq<u8>, secret: Seq<u8>) -> Seq<u8>;

/// The uncompressed public key that a signature and recovery id yield over a
/// hash, where they yield one.
pub uninterp spec fn recovered_key(hash: Seq<u8>, signature: Seq<u8>, recovery_id: u8) -> Option<
    Seq<u8>,
>;

/// Relies on `SecretKey::from_slice`, which accepts exactly the 32-byte
/// scalars in 1..order (`secp256k1_ec_seckey_verify`), and on
/// `PublicKey::from_secret_key` with `serialize_uncompressed`.
#[verifier::external_body]
fn derive_public_key(secret: &[u8]) -> (r: Result<Vec<u8>, secp256k1::Error>)
    ensures
        r is Ok <==> is_valid_secret(secret@),
        r is Ok ==> r->Ok_0@ == public_key_of(secret@),
{
    let key = SecretKey::from_slice(secret)?;
    Ok(PublicKey::from_secret_key(SECP256K1, &key).serialize_uncompressed().to_vec())
}

/// Relies on `SecretKey::from_slice` (as above), on
/// `Secp256k1::sign_ecdsa_recoverable` over `Message::from_digest`, which
/// derives its nonce by RFC6979 and so depends on hash and key alone, and on
/// `RecoverableSignature::serialize_compact`. What it returns is a valid
/// recoverable signature: recovery over the same hash gives the signer's
/// public key.
#[verifier::external_body]
fn sign_recoverable(digest: &[u8; 32], secret: &[u8]) -> (r: Result<(Vec<u8>, u8), secp256k1::Error>)
    ensures
        r is Ok <==> is_valid_secret(secret@),
        r is Ok ==> r->Ok_0.0@.len() == 64 && r->Ok_0.1 < 4 && r->Ok_0.0@.push(r->Ok_0.1)
            == signature_of(digest@, secret@),
        r is Ok ==> recovered_key(digest@, r->Ok_0.0@, r->Ok_0.1) == Some(public_key_of(secret@)),
{
    let key = SecretKey::from_slice(secret)?;
    let signature = SECP256K1.sign_ecdsa_recoverable(&Message::from_digest(*digest), &key);
    let (recovery_id, bytes) = signature.serialize_compact();
    Ok((bytes.to_vec(), recovery_id.to_i32() as u8))
}

/// Relies on `RecoveryId::from_i32`, which refuses ids outside 0..=3,
/// `RecoverableSignature::from_compact`, which refuses anything but 64 bytes,
/// and `Secp256k1::recover_ecdsa` over `Message::from_digest`, with
/// `PublicKey::serialize_uncompressed`.
#[verifier::external_body]
fn recover_signer(digest: &[u8; 32], signature: &[u8], recovery_id: u8) -> (r: Result<
    Vec<u8>,
    secp256k1::Error,
>)
    ensures
        recovery_id >= 4 ==> r is Err,
        signature@.len() != 64 ==> r is Err,
        r is Ok <==> recovered_key(digest@, signature@, recovery_id) is Some,
        r is Ok ==> r->Ok_0@ == recovered_key(digest@, signature@, recovery_id)->Some_0,
{
    let id = RecoveryId::from_i32(recovery_id as i32)?;
    let sig = RecoverableSignature::from_compact(signature, id)?;
    let key = SECP256K1.recover_ecdsa(&Message::from_digest(*digest), &sig)?;
    Ok(key.serialize_uncompressed().to_vec())
}

/// The uncompressed public key of a secret key, or `SigningError` where the
/// bytes are no usable secret key.
pub fn public_key(secret: &[u8]) -> (r: Result<Vec<u8>, PacketError>)
    ensures
        r is Ok <==> is_valid_secret(secret@),
        r is Ok ==> r->Ok_0@ == public_key_of(secret@),
        r is Err ==> r->Err_0 == PacketError::SigningError,
{
    match derive_public_key(secret) {
        Ok(key) => Ok(key),
        Err(_) => Err(PacketError::SigningError),
    }
}

/// Signs a 32-byte message hash: 64 compact signature bytes and a recovery
/// id, from which recovery gives back the signer's public key.
pub fn sign(message_hash: &[u8; 32], secret: &[u8]) -> (r: Result<(Vec<u8>, u8), PacketError>)
    ensures
        r is Ok <==> is_valid_secret(secret@),
        r is Err ==> r->Err_0 == PacketError::SigningError,
        r is Ok ==> r->Ok_0.0@.len() == 64 && r->Ok_0.1 < 4 && r->Ok_0.0@.push(r->Ok_0.1)
            == signature_of(message_hash@, secret@),
        r is Ok ==> recovered_key(message_hash@, r->Ok_0.0@, r->Ok_0.1) == Some(
            public_key_of(secret@),
        ),
{
    match sign_recoverable(message_hash, secret) {
        Ok(parts) => Ok(parts),
        Err(_) => Err(PacketError::SigningError),
    }
}

/// Recovers the public key that made `signature` over `message_hash`.
pub fn recover_and_verify(message_hash: &[u8; 32], signature: &[u8], recovery_id: u8) -> (r: Result<
    Vec<u8>,
    PacketError,
>)
    ensures
        match recovered_key(message_hash@, signature@, recovery_id) {
            Some(k) => r is Ok && r->Ok_0@ == k,
            None => r == Err::<Vec<u8>, PacketError>(PacketError::VerificationError),
        },
        recovery_id >= 4 || signature@.len() != 64 ==> r == Err::<Vec<u8>, PacketError>(
            PacketError::VerificationError,
        ),
{
    match recover_signer(message_hash, signature, recovery_id) {
        Ok(key) => Ok(key),
        Err(_) => Err(PacketError::VerificationError),
    }
}

} // verus!
