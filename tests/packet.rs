use ndscrwlr::error::PacketError;
use ndscrwlr::message::{Endpoint, PingMessage};
use ndscrwlr::packet::{
    assemble_packet, check_frame, decode_message, frame, frame_with_hash, make_packet, parse,
    receive_packet, signed_payload, split_signed_payload, tagged_message, PING_TAG,
};
use ndscrwlr::service::{Identity, ServiceEvent, ServiceState};
use rand::rngs::StdRng;
use rand::{Rng, SeedableRng};
use secp256k1::{PublicKey, SecretKey, SECP256K1};

const EMPTY_KECCAK: [u8; 32] = [
    0xc5, 0xd2, 0x46, 0x01, 0x86, 0xf7, 0x23, 0x3c, 0x92, 0x7e, 0x7d, 0xb2, 0xdc, 0xc7, 0x03, 0xc0,
    0xe5, 0x00, 0xb6, 0x53, 0xca, 0x82, 0x27, 0x3b, 0x7b, 0xfa, 0xd8, 0x04, 0x5d, 0x85, 0xa4, 0x70,
];

fn endpoint_a() -> Endpoint {
    Endpoint::new([127, 0, 0, 1], 30303, 30303)
}

fn endpoint_b() -> Endpoint {
    Endpoint::new([13, 93, 211, 84], 30303, 30303)
}

fn key_bytes(seed: u8) -> [u8; 32] {
    let mut k = [seed; 32];
    k[0] = 0x01;
    k
}

fn identity(seed: u8) -> Identity {
    Identity::from_key_bytes(endpoint_a(), &key_bytes(seed)).unwrap()
}

fn public_key(seed: u8) -> Vec<u8> {
    PublicKey::from_secret_key(SECP256K1, &SecretKey::from_slice(&key_bytes(seed)).unwrap())
        .serialize_uncompressed()
        .to_vec()
}

const ORDER: [u8; 32] = [
    0xff, 0xff, 0xff, 0xff, 0xff, 0xff, 0xff, 0xff, 0xff, 0xff, 0xff, 0xff, 0xff, 0xff, 0xff, 0xfe,
    0xba, 0xae, 0xdc, 0xe6, 0xaf, 0x48, 0xa0, 0x3b, 0xbf, 0xd2, 0x5e, 0x8c, 0xd0, 0x36, 0x41, 0x41,
];

#[test]
fn frame_prepends_the_keccak_hash() {
    assert_eq!(frame(&[]), EMPTY_KECCAK.to_vec());
    let framed = frame(b"payload");
    assert_eq!(framed.len(), 32 + 7);
    assert_ne!(framed[..32], EMPTY_KECCAK[..]);
    assert_eq!(&framed[32..], b"payload");
    assert_eq!(frame_with_hash(&[7; 32], &[1, 2]), [vec![7; 32], vec![1, 2]].concat());
}

#[test]
fn parse_inverts_frame() {
    for p in [vec![], vec![0u8], b"some signed payload".to_vec(), vec![0xab; 1400]] {
        let framed = frame(&p);
        let (hash, payload) = parse(&framed).unwrap();
        assert_eq!(hash, framed[..32].to_vec());
        assert_eq!(payload, p);
    }
    let (hash, payload) = parse(&frame(&[])).unwrap();
    assert_eq!(hash, EMPTY_KECCAK.to_vec());
    assert!(payload.is_empty());
}

#[test]
fn short_datagrams_are_rejected() {
    assert_eq!(parse(&[]), Err(PacketError::TooShort));
    assert_eq!(parse(&[0; 31]), Err(PacketError::TooShort));
    assert_eq!(receive_packet(&[1, 2, 3]), Err(PacketError::TooShort));
}

#[test]
fn every_flipped_bit_is_detected() {
    let p = b"a payload of some length".to_vec();
    let framed = frame(&p);
    for i in 0..framed.len() {
        for bit in 0..8 {
            let mut bad = framed.clone();
            bad[i] ^= 1 << bit;
            assert_eq!(parse(&bad), Err(PacketError::HashMismatch));
        }
    }
}

#[test]
fn check_frame_compares_the_given_hash() {
    let wire = [vec![9; 32], vec![1, 2, 3]].concat();
    assert_eq!(check_frame(&wire, &[9; 32]), Ok((vec![9; 32], vec![1, 2, 3])));
    assert_eq!(check_frame(&wire, &[8; 32]), Err(PacketError::HashMismatch));
    assert_eq!(check_frame(&wire[..20], &[9; 32]), Err(PacketError::TooShort));
}

#[test]
fn signed_payload_layout() {
    let sig = vec![0x55; 64];
    let payload = signed_payload(&sig, 2, &[PING_TAG, 0xc0]);
    assert_eq!(payload.len(), 67);
    assert_eq!(payload[64], 2);
    assert_eq!(split_signed_payload(&payload), Ok((sig, 2, vec![PING_TAG, 0xc0])));
    assert_eq!(split_signed_payload(&[0; 65]), Err(PacketError::TruncatedPayload));
}

#[test]
fn decode_message_checks_the_tag() {
    let ping = PingMessage::new(endpoint_a(), endpoint_b(), 99);
    let tagged = tagged_message(&ping);
    assert_eq!(tagged[0], 0x01);
    assert_eq!(decode_message(&tagged), Ok(ping));
    let mut other = tagged.clone();
    other[0] = 0x02;
    assert_eq!(decode_message(&other), Err(PacketError::UnknownMessageType));
    assert_eq!(decode_message(&[]), Err(PacketError::EncodingError));
    assert_eq!(decode_message(&[PING_TAG, 0xc0]), Err(PacketError::EncodingError));
}

#[test]
fn keys_must_be_valid_scalars() {
    assert!(matches!(
        Identity::from_key_bytes(endpoint_a(), &[1; 31]),
        Err(PacketError::SigningError)
    ));
    assert!(matches!(
        Identity::from_key_bytes(endpoint_a(), &[0; 32]),
        Err(PacketError::SigningError)
    ));
    assert!(matches!(
        Identity::from_key_bytes(endpoint_a(), &ORDER),
        Err(PacketError::SigningError)
    ));
    assert!(matches!(
        Identity::from_key_bytes(endpoint_a(), &[0xff; 32]),
        Err(PacketError::SigningError)
    ));
    let mut below = ORDER;
    below[31] -= 1;
    let top = Identity::from_key_bytes(endpoint_a(), &below).unwrap();
    assert_eq!(top.private_key, below.to_vec());
    let mut one = [0u8; 32];
    one[31] = 1;
    assert!(Identity::from_key_bytes(endpoint_a(), &one).is_ok());
    let id = identity(3);
    assert_eq!(id.endpoint, endpoint_a());
    assert_eq!(id.private_key, key_bytes(3).to_vec());
    assert_eq!(id.public_key, public_key(3));
}

#[test]
fn invalid_keys_cannot_sign() {
    let id = Identity { endpoint: endpoint_a(), private_key: vec![0; 32], public_key: vec![] };
    assert_eq!(id.ping_packet(endpoint_b(), Some(5)), Err(PacketError::SigningError));
    assert_eq!(make_packet(&[0; 32], &[PING_TAG, 0xc0]), Err(PacketError::SigningError));
    assert_eq!(make_packet(&key_bytes(1)[..31], &[PING_TAG]), Err(PacketError::SigningError));
}

#[test]
fn make_packet_signs_with_the_given_key() {
    let message = tagged_message(&PingMessage::new(endpoint_a(), endpoint_b(), 77));
    let packet = make_packet(&key_bytes(8), &message).unwrap();
    assert_eq!(&packet[32 + 65..], &message[..]);
    let again = make_packet(&key_bytes(8), &message).unwrap();
    assert_eq!(packet, again);
    assert_eq!(receive_packet(&packet).unwrap().signer, public_key(8));
}

#[test]
fn recovery_yields_the_signing_key() {
    for seed in [1u8, 2, 0x7f, 0xaa] {
        let id = identity(seed);
        let packet = id.ping_packet(endpoint_b(), Some(1_000_000)).unwrap();
        let received = receive_packet(&packet).unwrap();
        assert_eq!(received.signer, public_key(seed));
        assert_ne!(received.signer, public_key(seed.wrapping_add(1)));
    }
}

#[test]
fn tampered_payload_fails_the_outer_hash() {
    let packet = identity(5).ping_packet(endpoint_b(), Some(1_000_000)).unwrap();
    for i in 32..packet.len() {
        let mut bad = packet.clone();
        bad[i] = bad[i].wrapping_add(1);
        assert_eq!(receive_packet(&bad), Err(PacketError::HashMismatch));
    }
    // a payload changed and framed again passes the hash but not the signature
    let (_, payload) = parse(&packet).unwrap();
    let mut changed = payload.clone();
    let last = changed.len() - 1;
    changed[last] ^= 1;
    let reframed = frame(&changed);
    match receive_packet(&reframed) {
        Ok(r) => assert_ne!(r.signer, public_key(5)),
        Err(e) => assert!(e == PacketError::VerificationError || e == PacketError::EncodingError),
    }
}

#[test]
fn bad_recovery_id_fails_verification() {
    let ping = PingMessage::new(endpoint_a(), endpoint_b(), 1);
    let wire = assemble_packet(&[0x11; 64], 7, &tagged_message(&ping));
    assert_eq!(receive_packet(&wire), Err(PacketError::VerificationError));
    let short = frame(&[0; 65]);
    assert_eq!(receive_packet(&short), Err(PacketError::TruncatedPayload));
}

#[test]
fn ping_end_to_end() {
    let a = Identity::from_key_bytes(endpoint_a(), &key_bytes(0x42)).unwrap();
    let now = 1_700_000_000u64;
    let packet = a.ping_packet(endpoint_b(), Some(now)).unwrap();
    assert_eq!(packet[32 + 65], 0x01);
    let received = receive_packet(&packet).unwrap();
    assert_eq!(received.signer, public_key(0x42));
    assert_eq!(received.ping.from, endpoint_a());
    assert_eq!(received.ping.to, endpoint_b());
    assert_eq!(received.ping.expiration as u64, now + 60);
}

#[test]
fn ping_packet_reports_clock_errors() {
    let a = identity(9);
    assert_eq!(a.ping_packet(endpoint_b(), None), Err(PacketError::ClockError));
    assert_eq!(a.ping_packet(endpoint_b(), Some(u64::MAX)), Err(PacketError::ClockError));
}

#[test]
fn receive_survives_garbage_between_valid_packets() {
    let mut rng = StdRng::seed_from_u64(7);
    let senders: Vec<Identity> = (1..=5).map(identity).collect();
    let mut accepted = 0;
    for n in 0..100u64 {
        if n % 2 == 0 {
            let len = rng.gen_range(0..200usize);
            let junk: Vec<u8> = (0..len).map(|_| rng.gen()).collect();
            assert!(receive_packet(&junk).is_err());
        } else {
            let k = (n as usize / 2) % senders.len();
            let packet = senders[k].ping_packet(endpoint_b(), Some(n)).unwrap();
            let received = receive_packet(&packet).unwrap();
            assert_eq!(received.signer, public_key(k as u8 + 1));
            assert_eq!(received.ping.expiration as u64, n + 60);
            accepted += 1;
        }
    }
    assert_eq!(accepted, 50);
}

#[test]
fn service_lifecycle() {
    let s = ServiceState::Unbound.step(ServiceEvent::SocketBound);
    assert_eq!(s, ServiceState::Bound);
    let s = s.step(ServiceEvent::ListenStarted);
    assert!(s.is_listening());
    assert_eq!(s.step(ServiceEvent::ReceiveFailed), ServiceState::Listening);
    let s = s.step(ServiceEvent::SocketClosed);
    assert_eq!(s, ServiceState::Terminated);
    assert_eq!(s.step(ServiceEvent::SocketBound), ServiceState::Terminated);
    assert_eq!(ServiceState::Unbound.step(ServiceEvent::BindFailed), ServiceState::Terminated);
    assert_eq!(ServiceState::Unbound.step(ServiceEvent::ListenStarted), ServiceState::Unbound);
}
