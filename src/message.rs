//! Network endpoints and ping messages, with their canonical encodings.
use vstd::prelude::*;

use crate::error::PacketError;
use crate::rlp::{
    append_bytes, append_uint, finish_list, read_uint, rlp_list, rlp_string, rlp_uint, same_bytes,
};

verus! {

/// Leading element of the body list of a ping.
pub const PING_VERSION: u8 = 3;

/// Seconds for which a ping stays valid after it was made.
pub const EXPIRATION_WINDOW: u64 = 60;

/// An IPv4 address with a UDP and a TCP port.
#[derive(Clone, Copy, Debug, PartialEq, Eq)]
pub struct Endpoint {
    pub address: [u8; 4],
    pub udp_port: u16,
    pub tcp_port: u16,
}

/// A ping: who sends it, to whom, and until when it is valid.
#[derive(Clone, Copy, Debug, PartialEq, Eq)]
pub struct PingMessage {
    pub from: Endpoint,
    pub to: Endpoint,
    pub expiration: u32,
}

/// The list of the address as a four-byte string and the two ports.
pub open spec fn endpoint_bytes(e: Endpoint) -> Seq<u8> {
    rlp_list(rlp_string(e.address@) + rlp_uint(e.udp_port as nat) + rlp_uint(e.tcp_port as nat))
}

/// The list of the version, sender, recipient and expiration.
pub open spec fn ping_bytes(m: PingMessage) -> Seq<u8> {
    rlp_list(
        rlp_uint(PING_VERSION as nat) + endpoint_bytes(m.from) + endpoint_bytes(m.to) + rlp_uint(
            m.expiration as nat,
        ),
    )
}

/// Expiration of a ping made at `now` seconds after the Unix epoch, where a
/// 32-bit timestamp holds it.
pub open spec fn expiration_of(now: u64) -> Option<u32> {
    if now + EXPIRATION_WINDOW <= u32::MAX {
        Some((now + EXPIRATION_WINDOW) as u32)
    } else {
        None
    }
}

impl Endpoint {
    pub fn new(address: [u8; 4], udp_port: u16, tcp_port: u16) -> (r: Endpoint)
        ensures
            r == (Endpoint { address, udp_port, tcp_port }),
    {
        Endpoint { address, udp_port, tcp_port }
    }

    /// Appends the encoding of this endpoint.
    pub fn rlp_append(&self, out: &mut Vec<u8>)
        ensures
            final(out)@ == old(out)@ + endpoint_bytes(*self),
    {
        let start = out.len();
        let address: &[u8] = &self.address;
        append_bytes(out, address);
        append_uint(out, self.udp_port as u64);
        append_uint(out, self.tcp_port as u64);
        finish_list(out, start);
        assert(final(out)@ =~= old(out)@ + endpoint_bytes(*self));
    }

    pub fn encode(&self) -> (r: Vec<u8>)
        ensures
            r@ == endpoint_bytes(*self),
    {
        let mut out: Vec<u8> = Vec::new();
        self.rlp_append(&mut out);
        assert(out@ =~= endpoint_bytes(*self));
        out
    }

    /// Decodes an endpoint. It succeeds exactly on the encodings of
    /// endpoints, and gives back the endpoint that was encoded.
    pub fn decode(b: &[u8]) -> (r: Result<Endpoint, PacketError>)
        ensures
            r matches Ok(e) ==> endpoint_bytes(e) == b@,
            r matches Err(e) ==> e == PacketError::EncodingError,
            forall|e: Endpoint| #[trigger] endpoint_bytes(e) == b@ ==> r == Ok::<Endpoint, PacketError>(e),
            r == match decoded_endpoint(b@) {
                Some(e) => Ok::<Endpoint, PacketError>(e),
                None => Err(PacketError::EncodingError),
            },
    {
        proof {
            assert(b@.subrange(0, b@.len() as int) =~= b@);
        }
        match read_endpoint(b, 0, b.len()) {
            None => Err(PacketError::EncodingError),
            Some((e, _)) => {
                let enc = e.encode();
                if same_bytes(enc.as_slice(), b) {
                    proof {
                        lemma_endpoint_round_trip(e);
                    }
                    Ok(e)
                } else {
                    Err(PacketError::EncodingError)
                }
            },
        }
    }
}

impl PingMessage {
    pub fn new(from: Endpoint, to: Endpoint, expiration: u32) -> (r: PingMessage)
        ensures
            r == (PingMessage { from, to, expiration }),
    {
        PingMessage { from, to, expiration }
    }

    /// A ping from `from` to `to` made at `now` seconds after the Unix epoch
    /// (`None` where the clock reads before the epoch). It expires a fixed
    /// window after `now`.
    pub fn at_time(from: Endpoint, to: Endpoint, now: Option<u64>) -> (r: Result<
        PingMessage,
        PacketError,
    >)
        ensures
            match now {
                None => r == Err::<PingMessage, PacketError>(PacketError::ClockError),
                Some(t) => match expiration_of(t) {
                    None => r == Err::<PingMessage, PacketError>(PacketError::ClockError),
                    Some(x) => r == Ok::<PingMessage, PacketError>(
                        PingMessage { from, to, expiration: x },
                    ),
                },
            },
    {
        match now {
            None => Err(PacketError::ClockError),
            Some(t) => {
                if t > u32::MAX as u64 - EXPIRATION_WINDOW {
                    Err(PacketError::ClockError)
                } else {
                    Ok(PingMessage { from, to, expiration: (t + EXPIRATION_WINDOW) as u32 })
                }
            },
        }
    }

    /// Appends the encoding of this ping's body.
    pub fn rlp_append(&self, out: &mut Vec<u8>)
        ensures
            final(out)@ == old(out)@ + ping_bytes(*self),
    {
        let start = out.len();
        append_uint(out, PING_VERSION as u64);
        self.from.rlp_append(out);
        self.to.rlp_append(out);
        append_uint(out, self.expiration as u64);
        finish_list(out, start);
        assert(final(out)@ =~= old(out)@ + ping_bytes(*self));
    }

    pub fn encode(&self) -> (r: Vec<u8>)
        ensures
            r@ == ping_bytes(*self),
    {
        let mut out: Vec<u8> = Vec::new();
        self.rlp_append(&mut out);
        assert(out@ =~= ping_bytes(*self));
        out
    }

    /// Decodes the body of a ping. It succeeds exactly on the encodings of
    /// pings, and gives back the ping that was encoded.
    pub fn decode(b: &[u8]) -> (r: Result<PingMessage, PacketError>)
        ensures
            r matches Ok(m) ==> ping_bytes(m) == b@,
            r matches Err(e) ==> e == PacketError::EncodingError,
            forall|m: PingMessage| #[trigger] ping_bytes(m) == b@ ==> r == Ok::<PingMessage, PacketError>(m),
            r == match decoded_ping(b@) {
                Some(m) => Ok::<PingMessage, PacketError>(m),
                None => Err(PacketError::EncodingError),
            },
    {
        let parsed = read_ping_fields(b);
        match parsed {
            None => Err(PacketError::EncodingError),
            Some(m) => {
                let enc = m.encode();
                if same_bytes(enc.as_slice(), b) {
                    proof {
                        lemma_ping_round_trip(m);
                    }
                    Ok(m)
                } else {
                    Err(PacketError::EncodingError)
                }
            },
        }
    }
}

/// The layout of a ping's encoding: a one-byte list header, the version, the
/// two endpoints and the expiration.
proof fn lemma_ping_shape(m: PingMessage)
    ensures
        ({
            let f = endpoint_bytes(m.from);
            let t = endpoint_bytes(m.to);
            let x = rlp_uint(m.expiration as nat);
            let pb = ping_bytes(m);
            &&& 1 <= x.len() <= 5
            &&& pb.len() == 2 + f.len() + t.len() + x.len()
            &&& pb.subrange(2, 2 + f.len() as int) == f
            &&& pb.subrange(2 + f.len() as int, 2 + f.len() + t.len() as int) == t
            &&& pb.subrange(2 + f.len() + t.len() as int, pb.len() as int) == x
        }),
{
    lemma_endpoint_shape(m.from);
    lemma_endpoint_shape(m.to);
    crate::rlp::lemma_uint_shape(m.expiration as nat);
    crate::rlp::lemma_uint_shape(PING_VERSION as nat);
    let f = endpoint_bytes(m.from);
    let t = endpoint_bytes(m.to);
    let x = rlp_uint(m.expiration as nat);
    let p = rlp_uint(PING_VERSION as nat) + f + t + x;
    let pb = ping_bytes(m);
    assert(pb =~= seq![(0xc0 + p.len()) as u8] + p);
    assert(pb.subrange(2, 2 + f.len() as int) =~= f);
    assert(pb.subrange(2 + f.len() as int, 2 + f.len() + t.len() as int) =~= t);
    assert(pb.subrange(2 + f.len() + t.len() as int, pb.len() as int) =~= x);
}

/// Reads the fields of a ping body, skipping its list header and version.
fn read_ping_fields(b: &[u8]) -> (r: Option<PingMessage>)
    ensures
        forall|m: PingMessage| #[trigger] ping_bytes(m) == b@ ==> r == Some(m),
{
    let end = b.len();
    if end < 2 {
        proof {
            assert forall|m: PingMessage| #[trigger] ping_bytes(m) == b@ implies false by {
                lemma_ping_shape(m);
            }
        }
        return None;
    }
    let from = read_endpoint(b, 2, end);
    let (from, k1) = match from {
        None => {
            proof {
                assert forall|m: PingMessage| #[trigger] ping_bytes(m) == b@ implies false by {
                    lemma_ping_shape(m);
                    assert(b@.subrange(2, 2 + endpoint_bytes(m.from).len() as int) == endpoint_bytes(m.from));
                }
            }
            return None;
        },
        Some(p) => p,
    };
    let to = read_endpoint(b, k1, end);
    let (to, k2) = match to {
        None => {
            proof {
                assert forall|m: PingMessage| #[trigger] ping_bytes(m) == b@ implies false by {
                    lemma_ping_shape(m);
                    assert(b@.subrange(2, 2 + endpoint_bytes(m.from).len() as int) == endpoint_bytes(m.from));
                    let k: int = 2 + endpoint_bytes(m.from).len() as int;
                    assert(b@.subrange(k, k + endpoint_bytes(m.to).len() as int) == endpoint_bytes(m.to));
                }
            }
            return None;
        },
        Some(p) => p,
    };
    let expiration = read_uint(b, k2, end);
    match expiration {
        None => {
            proof {
                assert forall|m: PingMessage| #[trigger] ping_bytes(m) == b@ implies false by {
                    lemma_ping_shape(m);
                    assert(b@.subrange(2, 2 + endpoint_bytes(m.from).len() as int) == endpoint_bytes(m.from));
                    let k: int = 2 + endpoint_bytes(m.from).len() as int;
                    assert(b@.subrange(k, k + endpoint_bytes(m.to).len() as int) == endpoint_bytes(m.to));
                    let k3: int = k + endpoint_bytes(m.to).len() as int;
                    assert(b@.subrange(k3, k3 + rlp_uint(m.expiration as nat).len() as int) == rlp_uint(m.expiration as nat));
                }
            }
            None
        },
        Some((x, _)) => {
            let m = PingMessage { from, to, expiration: x as u32 };
            proof {
                assert forall|m2: PingMessage| #[trigger] ping_bytes(m2) == b@ implies m2 == m by {
                    lemma_ping_shape(m2);
                    assert(b@.subrange(2, 2 + endpoint_bytes(m2.from).len() as int) == endpoint_bytes(m2.from));
                    let k: int = 2 + endpoint_bytes(m2.from).len() as int;
                    assert(b@.subrange(k, k + endpoint_bytes(m2.to).len() as int) == endpoint_bytes(m2.to));
                    let k3: int = k + endpoint_bytes(m2.to).len() as int;
                    assert(b@.subrange(k3, k3 + rlp_uint(m2.expiration as nat).len() as int) == rlp_uint(m2.expiration as nat));
                }
            }
            Some(m)
        },
    }
}

/// Reads an endpoint encoded at `pos`, not reaching past `end`. Where the bytes
/// there start with the encoding of some endpoint, that endpoint is read, and
/// the position after it is returned.
pub fn read_endpoint(b: &[u8], pos: usize, end: usize) -> (r: Option<(Endpoint, usize)>)
    requires
        pos <= end <= b@.len(),
    ensures
        r matches Some((e, k)) ==> pos < k <= end,
        forall|e: Endpoint|
            pos + endpoint_bytes(e).len() <= end && b@.subrange(
                pos as int,
                pos + endpoint_bytes(e).len(),
            ) == #[trigger] endpoint_bytes(e) ==> r == Some(
                (e, (pos + endpoint_bytes(e).len()) as usize),
            ),
{
    let r = read_endpoint_fields(b, pos, end);
    proof {
        assert forall|e: Endpoint|
            pos + endpoint_bytes(e).len() <= end && b@.subrange(
                pos as int,
                pos + endpoint_bytes(e).len(),
            ) == #[trigger] endpoint_bytes(e) implies r == Some(
                (e, (pos + endpoint_bytes(e).len()) as usize),
            ) by {
            lemma_endpoint_shape(e);
            let eb = endpoint_bytes(e);
            let u = rlp_uint(e.udp_port as nat);
            let t = rlp_uint(e.tcp_port as nat);
            let k0 = pos + 6;
            let k1 = k0 + (u.len() as int);
            assert(b@.subrange(k0 as int, k1 as int) =~= eb.subrange(6, 6 + (u.len() as int)));
            assert(b@.subrange(k1 as int, k1 + (t.len() as int)) =~= eb.subrange(
                6 + (u.len() as int),
                6 + (u.len() as int) + (t.len() as int),
            ));
            assert(b@.subrange(pos as int, pos + eb.len())[0] == eb[0]);
            assert(b@.subrange(pos as int, pos + eb.len())[1] == eb[1]);
            assert(b@.subrange(pos as int, pos + eb.len())[2] == eb[2]);
            assert(b@.subrange(pos as int, pos + eb.len())[3] == eb[3]);
            assert(b@.subrange(pos as int, pos + eb.len())[4] == eb[4]);
            assert(b@.subrange(pos as int, pos + eb.len())[5] == eb[5]);
        }
    }
    r
}

/// Two endpoints whose encodings both start the byte string `s` are the same
/// endpoint.
proof fn lemma_endpoint_prefix_unique(e1: Endpoint, e2: Endpoint, s: Seq<u8>)
    requires
        endpoint_bytes(e1).len() <= s.len(),
        endpoint_bytes(e2).len() <= s.len(),
        s.subrange(0, endpoint_bytes(e1).len() as int) == endpoint_bytes(e1),
        s.subrange(0, endpoint_bytes(e2).len() as int) == endpoint_bytes(e2),
    ensures
        e1 == e2,
        endpoint_bytes(e1) == endpoint_bytes(e2),
{
    lemma_endpoint_shape(e1);
    lemma_endpoint_shape(e2);
    let b1 = endpoint_bytes(e1);
    let b2 = endpoint_bytes(e2);
    assert forall|j: int| 0 <= j < 6 implies b1[j] == b2[j] by {
        assert(b1[j] == s.subrange(0, b1.len() as int)[j]);
        assert(b2[j] == s.subrange(0, b2.len() as int)[j]);
    }
    assert(e1.address =~= e2.address);
    let u1 = rlp_uint(e1.udp_port as nat);
    let u2 = rlp_uint(e2.udp_port as nat);
    let s1 = s.subrange(6, s.len() as int);
    assert(s1.subrange(0, u1.len() as int) =~= b1.subrange(6, 6 + u1.len() as int));
    assert(s1.subrange(0, u2.len() as int) =~= b2.subrange(6, 6 + u2.len() as int));
    crate::rlp::lemma_uint_prefix_unique(e1.udp_port as nat, e2.udp_port as nat, s1);
    let t1 = rlp_uint(e1.tcp_port as nat);
    let t2 = rlp_uint(e2.tcp_port as nat);
    let s2 = s.subrange(6 + u1.len() as int, s.len() as int);
    assert(s2.subrange(0, t1.len() as int) =~= b1.subrange(6 + u1.len() as int, b1.len() as int));
    assert(s2.subrange(0, t2.len() as int) =~= b2.subrange(6 + u2.len() as int, b2.len() as int));
    crate::rlp::lemma_uint_prefix_unique(e1.tcp_port as nat, e2.tcp_port as nat, s2);
}

/// Distinct pings have distinct encodings.
proof fn lemma_ping_bytes_injective(m1: PingMessage, m2: PingMessage)
    requires
        ping_bytes(m1) == ping_bytes(m2),
    ensures
        m1 == m2,
{
    lemma_ping_shape(m1);
    lemma_ping_shape(m2);
    let s = ping_bytes(m1);
    let f1 = endpoint_bytes(m1.from);
    let f2 = endpoint_bytes(m2.from);
    let r = s.subrange(2, s.len() as int);
    assert(r.subrange(0, f1.len() as int) =~= s.subrange(2, 2 + f1.len() as int));
    assert(r.subrange(0, f2.len() as int) =~= s.subrange(2, 2 + f2.len() as int));
    lemma_endpoint_prefix_unique(m1.from, m2.from, r);
    let t1 = endpoint_bytes(m1.to);
    let t2 = endpoint_bytes(m2.to);
    let k = 2 + f1.len() as int;
    let r2 = s.subrange(k, s.len() as int);
    assert(r2.subrange(0, t1.len() as int) =~= s.subrange(k, k + t1.len() as int));
    assert(r2.subrange(0, t2.len() as int) =~= s.subrange(k, k + t2.len() as int));
    lemma_endpoint_prefix_unique(m1.to, m2.to, r2);
    let x1 = rlp_uint(m1.expiration as nat);
    let x2 = rlp_uint(m2.expiration as nat);
    assert(x1 =~= x2);
    assert(x1.subrange(0, x1.len() as int) =~= x1);
    crate::rlp::lemma_uint_prefix_unique(m1.expiration as nat, m2.expiration as nat, x1);
}

/// Distinct endpoints have distinct encodings.
proof fn lemma_endpoint_bytes_injective(e1: Endpoint, e2: Endpoint)
    requires
        endpoint_bytes(e1) == endpoint_bytes(e2),
    ensures
        e1 == e2,
{
    let s = endpoint_bytes(e1);
    assert(s.subrange(0, s.len() as int) =~= s);
    lemma_endpoint_prefix_unique(e1, e2, s);
}

/// What a byte string decodes to as an endpoint.
pub open spec fn decoded_endpoint(b: Seq<u8>) -> Option<Endpoint> {
    if exists|e: Endpoint| endpoint_bytes(e) == b {
        Some(choose|e: Endpoint| endpoint_bytes(e) == b)
    } else {
        None
    }
}

/// What a byte string decodes to as a ping body.
pub open spec fn decoded_ping(b: Seq<u8>) -> Option<PingMessage> {
    if exists|m: PingMessage| ping_bytes(m) == b {
        Some(choose|m: PingMessage| ping_bytes(m) == b)
    } else {
        None
    }
}

/// Decoding the encoding of any endpoint gives back that endpoint.
pub proof fn lemma_endpoint_round_trip(e: Endpoint)
    ensures
        decoded_endpoint(endpoint_bytes(e)) == Some(e),
{
    let b = endpoint_bytes(e);
    assert(exists|e2: Endpoint| endpoint_bytes(e2) == b);
    let c = choose|e2: Endpoint| endpoint_bytes(e2) == b;
    lemma_endpoint_bytes_injective(c, e);
}

/// Decoding the encoding of any ping gives back that ping.
pub proof fn lemma_ping_round_trip(m: PingMessage)
    ensures
        decoded_ping(ping_bytes(m)) == Some(m),
{
    let b = ping_bytes(m);
    assert(exists|m2: PingMessage| ping_bytes(m2) == b);
    let c = choose|m2: PingMessage| ping_bytes(m2) == b;
    lemma_ping_bytes_injective(c, m);
}

/// The layout of an endpoint's encoding: a one-byte list header, the address
/// string, then the two ports.
proof fn lemma_endpoint_shape(e: Endpoint)
    ensures
        ({
            let u = rlp_uint(e.udp_port as nat);
            let t = rlp_uint(e.tcp_port as nat);
            let eb = endpoint_bytes(e);
            &&& 1 <= (u.len() as int) <= 5
            &&& 1 <= (t.len() as int) <= 5
            &&& eb.len() == 6 + (u.len() as int) + (t.len() as int)
            &&& eb[0] == (0xc0 + 5 + (u.len() as int) + (t.len() as int)) as u8
            &&& eb[1] == 0x84
            &&& eb[2] == e.address[0]
            &&& eb[3] == e.address[1]
            &&& eb[4] == e.address[2]
            &&& eb[5] == e.address[3]
            &&& eb.subrange(6, 6 + (u.len() as int)) == u
            &&& eb.subrange(6 + (u.len() as int), eb.len() as int) == t
        }),
{
    crate::rlp::lemma_uint_shape(e.udp_port as nat);
    crate::rlp::lemma_uint_shape(e.tcp_port as nat);
    let u = rlp_uint(e.udp_port as nat);
    let t = rlp_uint(e.tcp_port as nat);
    let a = rlp_string(e.address@);
    assert(a =~= seq![0x84u8] + e.address@);
    let p = a + u + t;
    let eb = endpoint_bytes(e);
    assert(eb =~= seq![(0xc0 + p.len()) as u8] + p);
    assert(eb.subrange(6, 6 + (u.len() as int)) =~= u);
    assert(eb.subrange(6 + (u.len() as int), eb.len() as int) =~= t);
}

fn read_endpoint_fields(b: &[u8], pos: usize, end: usize) -> (r: Option<(Endpoint, usize)>)
    requires
        pos <= end <= b@.len(),
    ensures
        r matches Some((e, k)) ==> pos < k <= end,
        forall|e: Endpoint, k: usize|
            {
                let u = rlp_uint(e.udp_port as nat);
                let t = rlp_uint(e.tcp_port as nat);
                &&& 1 <= (u.len() as int) <= 5
                &&& 1 <= (t.len() as int) <= 5
                &&& k == pos + 6 + (u.len() as int) + (t.len() as int)
                &&& k <= end
                &&& b@[pos as int] == (0xc0 + 5 + (u.len() as int) + (t.len() as int)) as u8
                &&& b@[pos + 1] == 0x84
                &&& b@[pos + 2] == e.address[0]
                &&& b@[pos + 3] == e.address[1]
                &&& b@[pos + 4] == e.address[2]
                &&& b@[pos + 5] == e.address[3]
                &&& b@.subrange(pos + 6, pos + 6 + (u.len() as int)) == u
                &&& b@.subrange(pos + 6 + (u.len() as int), k as int) == t
            } ==> r == Some((e, k)),
{
    if end - pos < 6 {
        return None;
    }
    let h = b[pos];
    if h < 0xc0 || h > 0xf7 || (h - 0xc0) as usize > end - pos - 1 || b[pos + 1] != 0x84 {
        return None;
    }
    let list_end = pos + 1 + (h - 0xc0) as usize;
    if list_end < pos + 6 {
        return None;
    }
    let address: [u8; 4] = [b[pos + 2], b[pos + 3], b[pos + 4], b[pos + 5]];
    let udp = read_uint(b, pos + 6, list_end);
    match udp {
        None => None,
        Some((udp_port, k1)) => {
            let tcp = read_uint(b, k1, list_end);
            match tcp {
                None => None,
                Some((tcp_port, k2)) => {
                    if udp_port > 0xffff || tcp_port > 0xffff || k2 != list_end {
                        None
                    } else {
                        let e = Endpoint { address, udp_port: udp_port as u16, tcp_port: tcp_port as u16 };
                        proof {
                            assert forall|e2: Endpoint, k: usize|
                                {
                                    let u = rlp_uint(e2.udp_port as nat);
                                    let t = rlp_uint(e2.tcp_port as nat);
                                    &&& 1 <= (u.len() as int) <= 5
                                    &&& 1 <= (t.len() as int) <= 5
                                    &&& k == pos + 6 + (u.len() as int) + (t.len() as int)
                                    &&& k <= end
                                    &&& b@[pos as int] == (0xc0 + 5 + (u.len() as int) + (t.len() as int)) as u8
                                    &&& b@[pos + 1] == 0x84
                                    &&& b@[pos + 2] == e2.address[0]
                                    &&& b@[pos + 3] == e2.address[1]
                                    &&& b@[pos + 4] == e2.address[2]
                                    &&& b@[pos + 5] == e2.address[3]
                                    &&& b@.subrange(pos + 6, pos + 6 + (u.len() as int)) == u
                                    &&& b@.subrange(pos + 6 + (u.len() as int), k as int) == t
                                } implies Some((e, list_end)) == Some((e2, k)) by {
                                let u = rlp_uint(e2.udp_port as nat);
                                assert(rlp_uint(e2.udp_port as nat) == u);
                                assert(e2.address =~= address);
                            }
                        }
                        Some((e, list_end))
                    }
                }
            }
        }
    }
}

} // verus!
