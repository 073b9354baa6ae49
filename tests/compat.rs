use ndscrwlr::message::{Endpoint, PingMessage};
use ndscrwlr::rlp::{append_bytes, append_uint, finish_list};
use rand::rngs::StdRng;
use rand::{Rng, SeedableRng};
use rlp::RlpStream;

fn reference_endpoint(s: &mut RlpStream, e: &Endpoint) {
    s.begin_unbounded_list();
    s.append(&e.address.to_vec());
    s.append(&e.udp_port);
    s.append(&e.tcp_port);
    s.finalize_unbounded_list();
}

fn reference_ping(m: &PingMessage) -> Vec<u8> {
    let mut s = RlpStream::new();
    s.begin_unbounded_list();
    s.append(&3u8);
    reference_endpoint(&mut s, &m.from);
    reference_endpoint(&mut s, &m.to);
    s.append(&m.expiration);
    s.finalize_unbounded_list();
    s.out().to_vec()
}

fn random_endpoint(rng: &mut StdRng) -> Endpoint {
    let port = |rng: &mut StdRng| match rng.gen_range(0..4) {
        0 => 0,
        1 => rng.gen_range(0..0x80),
        2 => rng.gen_range(0x80..0x100),
        _ => rng.gen(),
    };
    let udp = port(rng);
    let tcp = port(rng);
    Endpoint::new(rng.gen(), udp, tcp)
}

#[test]
fn integers_match_the_standard_encoding() {
    let mut rng = StdRng::seed_from_u64(11);
    let mut values = vec![0u64, 1, 0x7f, 0x80, 0xff, 0x100, 0xffff, 0x1_0000, u64::MAX];
    for _ in 0..200 {
        values.push(rng.gen::<u64>() >> rng.gen_range(0..64));
    }
    for n in values {
        let mut out = Vec::new();
        append_uint(&mut out, n);
        assert_eq!(out, rlp::encode(&n).to_vec());
    }
}

#[test]
fn byte_strings_match_the_standard_encoding() {
    let mut rng = StdRng::seed_from_u64(12);
    for len in [0usize, 1, 2, 55, 56, 57, 255, 256, 1000] {
        for _ in 0..4 {
            let b: Vec<u8> = (0..len).map(|_| rng.gen()).collect();
            let mut out = Vec::new();
            append_bytes(&mut out, &b);
            assert_eq!(out, rlp::encode(&b).to_vec());
        }
    }
    let mut out = Vec::new();
    append_bytes(&mut out, &[0x7f]);
    assert_eq!(out, rlp::encode(&vec![0x7fu8]).to_vec());
}

#[test]
fn long_lists_match_the_standard_encoding() {
    let items: Vec<u64> = (0..40).map(|i| i * 1000).collect();
    let mut out = Vec::new();
    for n in &items {
        append_uint(&mut out, *n);
    }
    finish_list(&mut out, 0);
    let mut s = RlpStream::new_list(items.len());
    for n in &items {
        s.append(n);
    }
    assert_eq!(out, s.out().to_vec());
}

#[test]
fn pings_match_the_standard_encoding() {
    let mut rng = StdRng::seed_from_u64(13);
    for _ in 0..200 {
        let m = PingMessage::new(random_endpoint(&mut rng), random_endpoint(&mut rng), rng.gen());
        let enc = m.encode();
        assert_eq!(enc, reference_ping(&m));
        assert_eq!(PingMessage::decode(&enc), Ok(m));
        assert_eq!(Endpoint::decode(&m.from.encode()), Ok(m.from));
    }
}
