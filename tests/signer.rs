use ndscrwlr::error::PacketError;
use ndscrwlr::signer::{public_key, recover_and_verify, sign};
use secp256k1::{PublicKey, SecretKey, SECP256K1};

fn key(seed: u8) -> [u8; 32] {
    let mut k = [seed; 32];
    k[0] = 0x01;
    k
}

fn expected_public(seed: u8) -> Vec<u8> {
    PublicKey::from_secret_key(SECP256K1, &SecretKey::from_slice(&key(seed)).unwrap())
        .serialize_uncompressed()
        .to_vec()
}

#[test]
fn sign_then_recover_gives_the_public_key() {
    for seed in [1u8, 2, 3, 0x80, 0xfe] {
        for h in [[0u8; 32], [0xff; 32], [seed; 32]] {
            let (signature, recovery_id) = sign(&h, &key(seed)).unwrap();
            assert_eq!(signature.len(), 64);
            assert!(recovery_id < 4);
            let recovered = recover_and_verify(&h, &signature, recovery_id).unwrap();
            assert_eq!(recovered, expected_public(seed));
            assert_eq!(public_key(&key(seed)), Ok(expected_public(seed)));
        }
    }
}

#[test]
fn signing_is_deterministic() {
    let h = [7u8; 32];
    assert_eq!(sign(&h, &key(9)), sign(&h, &key(9)));
    assert_ne!(sign(&h, &key(9)).unwrap().0, sign(&h, &key(10)).unwrap().0);
}

#[test]
fn signing_needs_a_valid_key() {
    assert_eq!(sign(&[1; 32], &[0; 32]), Err(PacketError::SigningError));
    assert_eq!(sign(&[1; 32], &[1; 33]), Err(PacketError::SigningError));
    assert_eq!(public_key(&[0; 32]), Err(PacketError::SigningError));
    assert_eq!(public_key(&[]), Err(PacketError::SigningError));
}

#[test]
fn recovery_with_another_hash_gives_another_key() {
    let (signature, recovery_id) = sign(&[1; 32], &key(4)).unwrap();
    match recover_and_verify(&[2; 32], &signature, recovery_id) {
        Ok(pk) => assert_ne!(pk, expected_public(4)),
        Err(e) => assert_eq!(e, PacketError::VerificationError),
    }
}

#[test]
fn malformed_signatures_are_refused() {
    let (signature, recovery_id) = sign(&[1; 32], &key(4)).unwrap();
    assert_eq!(
        recover_and_verify(&[1; 32], &signature, 4),
        Err(PacketError::VerificationError)
    );
    assert_eq!(
        recover_and_verify(&[1; 32], &signature[..63], recovery_id),
        Err(PacketError::VerificationError)
    );
    assert_eq!(
        recover_and_verify(&[1; 32], &[0xff; 64], recovery_id),
        Err(PacketError::VerificationError)
    );
}
