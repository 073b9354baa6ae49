//! Signed, framed discovery packets: hash, sign, frame, and the inverse path.
use vstd::prelude::*;

use crate::error::PacketError;
use crate::hash::{keccak256, keccak_of};
use crate::message::{decoded_ping, lemma_ping_round_trip, ping_bytes, PingMessage};
use crate::rlp::append_all;
use crate::signer::{
    is_valid_secret, public_key_of, recover_and_verify, recovered_key, sign, signature_of,
};

verus! {

/// Message type of a ping, written before its body.
pub const PING_TAG: u8 = 0x01;

/// Bytes of the outer hash.
pub const HASH_LEN: usize = 32;

/// Bytes of a compact signature.
pub const SIGNATURE_LEN: usize = 64;

/// A tagged ping: the type byte, then the body.
pub open spec fn tagged_ping(m: PingMessage) -> Seq<u8> {
    seq![PING_TAG] + ping_bytes(m)
}

/// Signature, recovery id and message, in that order.
pub open spec fn signed_payload_bytes(signature: Seq<u8>, recovery_id: u8, message: Seq<u8>) -> Seq<
    u8,
> {
    signature + seq![recovery_id] + message
}

/// The wire packet for `payload`: its outer hash, then the payload.
pub open spec fn framed(payload: Seq<u8>) -> Seq<u8> {
    keccak_of(payload)@ + payload
}

/// What parsing a frame yields: the claimed hash and the payload where the
/// datagram holds a hash and the hash matches.
pub open spec fn parsed(wire: Seq<u8>) -> Result<(Seq<u8>, Seq<u8>), PacketError> {
    if wire.len() < HASH_LEN {
        Err(PacketError::TooShort)
    } else if keccak_of(wire.subrange(HASH_LEN as int, wire.len() as int))@ != wire.subrange(
        0,
        HASH_LEN as int,
    ) {
        Err(PacketError::HashMismatch)
    } else {
        Ok((wire.subrange(0, HASH_LEN as int), wire.subrange(HASH_LEN as int, wire.len() as int)))
    }
}

/// What a tagged message decodes to.
pub open spec fn message_of(tagged: Seq<u8>) -> Result<PingMessage, PacketError> {
    if tagged.len() == 0 {
        Err(PacketError::EncodingError)
    } else if tagged[0] != PING_TAG {
        Err(PacketError::UnknownMessageType)
    } else {
        match decoded_ping(tagged.subrange(1, tagged.len() as int)) {
            Some(m) => Ok(m),
            None => Err(PacketError::EncodingError),
        }
    }
}

/// The wire packet that carries `message` signed with `secret`: the
/// signature over the message's hash, the message, and the outer hash.
pub open spec fn signed_packet(secret: Seq<u8>, message: Seq<u8>) -> Seq<u8> {
    framed(signature_of(keccak_of(message)@, secret) + message)
}

/// What the receive path makes of a datagram: the outer hash is checked
/// first, then the signer is recovered, then the message is decoded.
pub open spec fn received(wire: Seq<u8>) -> Result<(Seq<u8>, PingMessage), PacketError> {
    match parsed(wire) {
        Err(e) => Err(e),
        Ok((h, p)) => if p.len() <= SIGNATURE_LEN + 1 {
            Err(PacketError::TruncatedPayload)
        } else {
            let message = p.subrange(SIGNATURE_LEN + 1, p.len() as int);
            match recovered_key(
                keccak_of(message)@,
                p.subrange(0, SIGNATURE_LEN as int),
                p[SIGNATURE_LEN as int],
            ) {
                None => Err(PacketError::VerificationError),
                Some(k) => match message_of(message) {
                    Err(e) => Err(e),
                    Ok(m) => Ok((k, m)),
                },
            }
        },
    }
}

/// Prepends `hash` to `payload`.
pub fn frame_with_hash(hash: &[u8; 32], payload: &[u8]) -> (r: Vec<u8>)
    ensures
        r@ == hash@ + payload@,
{
    let mut out: Vec<u8> = Vec::new();
    let h: &[u8] = hash;
    append_all(&mut out, h);
    append_all(&mut out, payload);
    assert(out@ =~= hash@ + payload@);
    out
}

/// The wire packet for `payload`.
pub fn frame(payload: &[u8]) -> (r: Vec<u8>)
    ensures
        r@ == framed(payload@),
{
    let hash = keccak256(payload);
    frame_with_hash(&hash, payload)
}

/// Splits a datagram into claimed hash and payload, given the hash of the
/// bytes after the first 32, and checks that the two agree.
pub fn check_frame(wire: &[u8], payload_hash: &[u8; 32]) -> (r: Result<(Vec<u8>, Vec<u8>), PacketError>)
    ensures
        wire@.len() < HASH_LEN ==> r == Err::<(Vec<u8>, Vec<u8>), PacketError>(PacketError::TooShort),
        wire@.len() >= HASH_LEN && payload_hash@ != wire@.subrange(0, HASH_LEN as int) ==> r == Err::<
            (Vec<u8>, Vec<u8>),
            PacketError,
        >(PacketError::HashMismatch),
        wire@.len() >= HASH_LEN && payload_hash@ == wire@.subrange(0, HASH_LEN as int) ==> (
        r matches Ok((h, p)) && h@ == wire@.subrange(0, HASH_LEN as int) && p@ == wire@.subrange(
            HASH_LEN as int,
            wire@.len() as int,
        )),
{
    if wire.len() < HASH_LEN {
        return Err(PacketError::TooShort);
    }
    let mut claimed: Vec<u8> = Vec::new();
    let mut i: usize = 0;
    while i < HASH_LEN
        invariant
            i <= HASH_LEN <= wire@.len(),
            claimed@ == wire@.subrange(0, i as int),
            forall|j: int| 0 <= j < i ==> payload_hash@[j] == wire@[j],
        decreases HASH_LEN - i,
    {
        if payload_hash[i] != wire[i] {
            proof {
                assert(payload_hash@[i as int] != wire@.subrange(0, HASH_LEN as int)[i as int]);
            }
            return Err(PacketError::HashMismatch);
        }
        claimed.push(wire[i]);
        i = i + 1;
        assert(claimed@ =~= wire@.subrange(0, i as int));
    }
    assert(payload_hash@ =~= wire@.subrange(0, HASH_LEN as int));
    let mut payload: Vec<u8> = Vec::new();
    while i < wire.len()
        invariant
            HASH_LEN <= i <= wire@.len(),
            payload@ == wire@.subrange(HASH_LEN as int, i as int),
        decreases wire@.len() - i,
    {
        payload.push(wire[i]);
        i = i + 1;
        assert(payload@ =~= wire@.subrange(HASH_LEN as int, i as int));
    }
    Ok((claimed, payload))
}

/// Splits a datagram into claimed hash and payload, and checks the claimed
/// hash against the hash of the payload.
pub fn parse(wire: &[u8]) -> (r: Result<(Vec<u8>, Vec<u8>), PacketError>)
    ensures
        match parsed(wire@) {
            Ok((h, p)) => r matches Ok((h2, p2)) && h2@ == h && p2@ == p,
            Err(e) => r == Err::<(Vec<u8>, Vec<u8>), PacketError>(e),
        },
{
    if wire.len() < HASH_LEN {
        return Err(PacketError::TooShort);
    }
    let payload = slice_from(wire, HASH_LEN);
    let hash = keccak256(payload.as_slice());
    check_frame(wire, &hash)
}

/// The bytes of `b` from `start` on.
pub fn slice_from(b: &[u8], start: usize) -> (r: Vec<u8>)
    requires
        start <= b@.len(),
    ensures
        r@ == b@.subrange(start as int, b@.len() as int),
{
    let mut out: Vec<u8> = Vec::new();
    let mut i: usize = start;
    while i < b.len()
        invariant
            start <= i <= b@.len(),
            out@ == b@.subrange(start as int, i as int),
        decreases b@.len() - i,
    {
        out.push(b[i]);
        i = i + 1;
        assert(out@ =~= b@.subrange(start as int, i as int));
    }
    out
}

/// Signature, recovery id and message, concatenated.
pub fn signed_payload(signature: &[u8], recovery_id: u8, message: &[u8]) -> (r: Vec<u8>)
    ensures
        r@ == signed_payload_bytes(signature@, recovery_id, message@),
{
    let mut out: Vec<u8> = Vec::new();
    append_all(&mut out, signature);
    out.push(recovery_id);
    append_all(&mut out, message);
    assert(out@ =~= signed_payload_bytes(signature@, recovery_id, message@));
    out
}

/// The signature, recovery id and message of a signed payload.
pub fn split_signed_payload(payload: &[u8]) -> (r: Result<(Vec<u8>, u8, Vec<u8>), PacketError>)
    ensures
        payload@.len() <= SIGNATURE_LEN + 1 ==> r == Err::<(Vec<u8>, u8, Vec<u8>), PacketError>(
            PacketError::TruncatedPayload,
        ),
        payload@.len() > SIGNATURE_LEN + 1 ==> (r matches Ok((s, id, m)) && s@.len()
            == SIGNATURE_LEN && payload@ == signed_payload_bytes(s@, id, m@)),
{
    if payload.len() <= SIGNATURE_LEN + 1 {
        return Err(PacketError::TruncatedPayload);
    }
    let mut signature: Vec<u8> = Vec::new();
    let mut i: usize = 0;
    while i < SIGNATURE_LEN
        invariant
            i <= SIGNATURE_LEN < payload@.len(),
            signature@ == payload@.subrange(0, i as int),
        decreases SIGNATURE_LEN - i,
    {
        signature.push(payload[i]);
        i = i + 1;
        assert(signature@ =~= payload@.subrange(0, i as int));
    }
    let recovery_id = payload[SIGNATURE_LEN];
    let message = slice_from(payload, SIGNATURE_LEN + 1);
    assert(payload@ =~= signed_payload_bytes(signature@, recovery_id, message@));
    Ok((signature, recovery_id, message))
}

/// The type byte and body of a ping.
pub fn tagged_message(m: &PingMessage) -> (r: Vec<u8>)
    ensures
        r@ == tagged_ping(*m),
{
    let mut out: Vec<u8> = Vec::new();
    out.push(PING_TAG);
    m.rlp_append(&mut out);
    assert(out@ =~= tagged_ping(*m));
    out
}

/// Decodes a tagged message; only pings are known.
pub fn decode_message(tagged: &[u8]) -> (r: Result<PingMessage, PacketError>)
    ensures
        r == message_of(tagged@),
{
    if tagged.len() == 0 {
        return Err(PacketError::EncodingError);
    }
    if tagged[0] != PING_TAG {
        return Err(PacketError::UnknownMessageType);
    }
    let body = slice_from(tagged, 1);
    PingMessage::decode(body.as_slice())
}

/// Frames a signature, recovery id and tagged message into a wire packet.
pub fn assemble_packet(signature: &[u8], recovery_id: u8, message: &[u8]) -> (r: Vec<u8>)
    ensures
        r@ == framed(signed_payload_bytes(signature@, recovery_id, message@)),
{
    let payload = signed_payload(signature, recovery_id, message);
    frame(payload.as_slice())
}

/// Hashes the tagged message, signs the hash with `secret`, and frames the
/// result. Recovery from the packet's signature gives the signer's public key.
pub fn make_packet(secret: &[u8], message: &[u8]) -> (r: Result<Vec<u8>, PacketError>)
    ensures
        r is Ok <==> is_valid_secret(secret@),
        r is Err ==> r->Err_0 == PacketError::SigningError,
        r is Ok ==> r->Ok_0@ == signed_packet(secret@, message@),
        r is Ok ==> signature_of(keccak_of(message@)@, secret@).len() == SIGNATURE_LEN + 1,
        r is Ok ==> recovered_key(
            keccak_of(message@)@,
            r->Ok_0@.subrange(HASH_LEN as int, HASH_LEN + SIGNATURE_LEN),
            r->Ok_0@[HASH_LEN + SIGNATURE_LEN],
        ) == Some(public_key_of(secret@)),
{
    let digest = keccak256(message);
    let (signature, recovery_id) = match sign(&digest, secret) {
        Ok(parts) => parts,
        Err(e) => return Err(e),
    };
    let r = assemble_packet(signature.as_slice(), recovery_id, message);
    proof {
        let p = signed_payload_bytes(signature@, recovery_id, message@);
        assert(p =~= signature_of(digest@, secret@) + message@);
        assert(r@.subrange(HASH_LEN as int, HASH_LEN + SIGNATURE_LEN) =~= signature@);
        assert(r@[HASH_LEN + SIGNATURE_LEN] == p[SIGNATURE_LEN as int]);
    }
    Ok(r)
}

/// A ping that passed the outer hash check, with the key that signed it.
#[derive(Debug, PartialEq, Eq)]
pub struct ReceivedPing {
    /// Uncompressed public key of the signer.
    pub signer: Vec<u8>,
    pub ping: PingMessage,
}

/// The receive path for one datagram: the outer hash is checked first, then
/// the signer is recovered, then the message is decoded.
pub fn receive_packet(wire: &[u8]) -> (r: Result<ReceivedPing, PacketError>)
    ensures
        match received(wire@) {
            Ok((k, m)) => r is Ok && r->Ok_0.signer@ == k && r->Ok_0.ping == m,
            Err(e) => r == Err::<ReceivedPing, PacketError>(e),
        },
{
    let (_claimed, payload) = match parse(wire) {
        Ok(parts) => parts,
        Err(e) => return Err(e),
    };
    let (signature, recovery_id, message) = match split_signed_payload(payload.as_slice()) {
        Ok(parts) => parts,
        Err(e) => return Err(e),
    };
    proof {
        assert(payload@.subrange(0, SIGNATURE_LEN as int) =~= signature@);
        assert(payload@.subrange(SIGNATURE_LEN + 1, payload@.len() as int) =~= message@);
    }
    let digest = keccak256(message.as_slice());
    let signer = match recover_and_verify(&digest, signature.as_slice(), recovery_id) {
        Ok(pk) => pk,
        Err(e) => return Err(e),
    };
    let ping = match decode_message(message.as_slice()) {
        Ok(m) => m,
        Err(e) => return Err(e),
    };
    Ok(ReceivedPing { signer, ping })
}

/// A packet that carries a tagged ping signed with `secret`, and whose
/// signature recovers to that key's public key, is received as that ping from
/// that key.
pub proof fn lemma_signed_packet_received(secret: Seq<u8>, m: PingMessage, wire: Seq<u8>)
    requires
        wire == signed_packet(secret, tagged_ping(m)),
        signature_of(keccak_of(tagged_ping(m))@, secret).len() == SIGNATURE_LEN + 1,
        recovered_key(
            keccak_of(tagged_ping(m))@,
            wire.subrange(HASH_LEN as int, HASH_LEN + SIGNATURE_LEN),
            wire[HASH_LEN + SIGNATURE_LEN],
        ) == Some(public_key_of(secret)),
    ensures
        received(wire) == Ok::<(Seq<u8>, PingMessage), PacketError>((public_key_of(secret), m)),
{
    let t = tagged_ping(m);
    let p = signature_of(keccak_of(t)@, secret) + t;
    lemma_frame_round_trip(p);
    assert(p.subrange(SIGNATURE_LEN + 1, p.len() as int) =~= t);
    assert(p.subrange(0, SIGNATURE_LEN as int) =~= wire.subrange(
        HASH_LEN as int,
        HASH_LEN + SIGNATURE_LEN,
    ));
    assert(p[SIGNATURE_LEN as int] == wire[HASH_LEN + SIGNATURE_LEN]);
    lemma_ping_round_trip(m);
    assert(t.subrange(1, t.len() as int) =~= ping_bytes(m));
}

/// Parsing the frame of any payload yields the payload's hash and the payload.
pub proof fn lemma_frame_round_trip(p: Seq<u8>)
    ensures
        parsed(framed(p)) == Ok::<(Seq<u8>, Seq<u8>), PacketError>((keccak_of(p)@, p)),
{
    let w = framed(p);
    assert(w.subrange(HASH_LEN as int, w.len() as int) =~= p);
    assert(w.subrange(0, HASH_LEN as int) =~= keccak_of(p)@);
}

/// Two digests with the same bytes are the same digest.
proof fn lemma_digest_bytes(a: [u8; 32], b: [u8; 32])
    requires
        a@ == b@,
    ensures
        a == b,
{
    assert forall|j: int| 0 <= j < 32 implies a[j] == b[j] by {
        assert(a@[j] == b@[j]);
    }
    assert(a =~= b);
}

/// Flipping bits in any one byte of a framed packet makes parsing fail with a
/// hash mismatch, unless the byte lies in the payload and the altered payload
/// has the same hash as the payload that was framed.
pub proof fn lemma_flipped_byte_rejected(p: Seq<u8>, i: int, mask: u8)
    requires
        0 <= i < HASH_LEN + p.len(),
        mask != 0,
    ensures
        ({
            let w = framed(p).update(i, framed(p)[i] ^ mask);
            parsed(w) == Err::<(Seq<u8>, Seq<u8>), PacketError>(PacketError::HashMismatch) || (i
                >= HASH_LEN && keccak_of(w.subrange(HASH_LEN as int, w.len() as int)) == keccak_of(p))
        }),
{
    let w0 = framed(p);
    let byte = w0[i];
    assert(byte ^ mask != byte) by (bit_vector)
        requires
            mask != 0,
    ;
    let w = w0.update(i, byte ^ mask);
    let q = w.subrange(HASH_LEN as int, w.len() as int);
    if i < HASH_LEN {
        assert(q =~= p);
        assert(w.subrange(0, HASH_LEN as int)[i] != keccak_of(p)@[i]);
    } else {
        assert(w.subrange(0, HASH_LEN as int) =~= keccak_of(p)@);
        if keccak_of(q) != keccak_of(p) {
            if keccak_of(q)@ == keccak_of(p)@ {
                lemma_digest_bytes(keccak_of(q), keccak_of(p));
            }
        }
    }
}

/// A packet whose payload was replaced after framing fails the outer hash
/// check, whatever the new payload carries, unless the new payload has the
/// same hash as the payload that was framed.
pub proof fn lemma_tampered_payload_rejected(p: Seq<u8>, q: Seq<u8>)
    ensures
        keccak_of(q) != keccak_of(p) ==> parsed(keccak_of(p)@ + q) == Err::<
            (Seq<u8>, Seq<u8>),
            PacketError,
        >(PacketError::HashMismatch),
{
    let w = keccak_of(p)@ + q;
    assert(w.subrange(HASH_LEN as int, w.len() as int) =~= q);
    assert(w.subrange(0, HASH_LEN as int) =~= keccak_of(p)@);
    if keccak_of(q)@ == keccak_of(p)@ {
        lemma_digest_bytes(keccak_of(q), keccak_of(p));
    }
}

} // verus!
