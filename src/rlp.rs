//! Canonical length-prefixed encoding of unsigned integers, byte strings and
//! lists (recursive-length-prefix form).
use vstd::prelude::*;

verus! {

/// Minimal big-endian bytes of `n`: no leading zero byte, and zero is empty.
pub open spec fn be_bytes(n: nat) -> Seq<u8>
    decreases n,
{
    if n == 0 {
        Seq::empty()
    } else {
        be_bytes(n / 256).push((n % 256) as u8)
    }
}

/// The number that a big-endian byte string denotes.
pub open spec fn be_value(s: Seq<u8>) -> nat
    decreases s.len(),
{
    if s.len() == 0 {
        0
    } else {
        be_value(s.drop_last()) * 256 + s.last() as nat
    }
}

pub open spec fn pow256(k: nat) -> nat
    decreases k,
{
    if k == 0 {
        1
    } else {
        256 * pow256((k - 1) as nat)
    }
}

/// Header of an item whose body has `len` bytes; `short` and `long` are the
/// base bytes of the short and long forms (0x80 / 0xb7 for strings, 0xc0 / 0xf7
/// for lists).
pub open spec fn header(short: u8, long: u8, len: nat) -> Seq<u8> {
    if len <= 55 {
        seq![(short + len) as u8]
    } else {
        seq![(long + be_bytes(len).len()) as u8] + be_bytes(len)
    }
}

/// Encoding of a byte string.
pub open spec fn rlp_string(b: Seq<u8>) -> Seq<u8> {
    if b.len() == 1 && b[0] < 0x80 {
        b
    } else {
        header(0x80, 0xb7, b.len()) + b
    }
}

/// Encoding of an unsigned integer: the string of its minimal big-endian bytes.
pub open spec fn rlp_uint(n: nat) -> Seq<u8> {
    rlp_string(be_bytes(n))
}

/// Encoding of a list whose items, already encoded, concatenate to `payload`.
pub open spec fn rlp_list(payload: Seq<u8>) -> Seq<u8> {
    header(0xc0, 0xf7, payload.len()) + payload
}

pub proof fn lemma_be_len_bound(n: nat, k: nat)
    requires
        n < pow256(k),
    ensures
        be_bytes(n).len() <= k,
        n > 0 ==> be_bytes(n).len() >= 1,
    decreases k,
{
    if n > 0 && k > 0 {
        let p = pow256((k - 1) as nat);
        assert(n / 256 < p) by (nonlinear_arith)
            requires
                n < 256 * p,
        ;
        lemma_be_len_bound(n / 256, (k - 1) as nat);
    }
}

pub proof fn lemma_pow256_facts()
    ensures
        pow256(1) == 0x100,
        pow256(2) == 0x1_0000,
        pow256(4) == 0x1_0000_0000,
        pow256(8) == 0x1_0000_0000_0000_0000,
{
    reveal_with_fuel(pow256, 9);
}

/// A number below 0x80 is one byte long.
pub proof fn lemma_be_small(n: nat)
    requires
        0 < n < 0x80,
    ensures
        be_bytes(n) == seq![n as u8],
{
    assert(n / 256 == 0);
    assert(be_bytes(0) == Seq::<u8>::empty());
    assert(be_bytes(n) =~= seq![n as u8]);
}

/// A number of one byte that is at least 0x80 is that byte.
pub proof fn lemma_be_one_byte(n: nat)
    requires
        0x80 <= n < 0x100,
    ensures
        be_bytes(n) == seq![n as u8],
{
    assert(n / 256 == 0);
    assert(n % 256 == n);
    assert(be_bytes(0) == Seq::<u8>::empty());
    assert(be_bytes(n) =~= seq![n as u8]);
}

pub proof fn lemma_be_value_inverse(n: nat)
    ensures
        be_value(be_bytes(n)) == n,
    decreases n,
{
    if n > 0 {
        lemma_be_value_inverse(n / 256);
        let s = be_bytes(n);
        assert(s.drop_last() =~= be_bytes(n / 256));
        assert(n == (n / 256) * 256 + n % 256) by (nonlinear_arith);
    }
}

/// Appends the minimal big-endian bytes of `n`.
pub fn append_be(out: &mut Vec<u8>, n: u64)
    ensures
        final(out)@ == old(out)@ + be_bytes(n as nat),
    decreases n,
{
    if n != 0 {
        append_be(out, n / 256);
        out.push((n % 256) as u8);
        assert(final(out)@ =~= old(out)@ + be_bytes(n as nat));
    } else {
        assert(final(out)@ =~= old(out)@ + be_bytes(n as nat));
    }
}

/// Appends every byte of `src`.
pub fn append_all(out: &mut Vec<u8>, src: &[u8])
    ensures
        final(out)@ == old(out)@ + src@,
{
    let mut i: usize = 0;
    while i < src.len()
        invariant
            i <= src@.len(),
            out@ == old(out)@ + src@.subrange(0, i as int),
        decreases src@.len() - i,
    {
        out.push(src[i]);
        i = i + 1;
        assert(out@ =~= old(out)@ + src@.subrange(0, i as int));
    }
    assert(src@.subrange(0, i as int) =~= src@);
}

fn append_header(out: &mut Vec<u8>, short: u8, long: u8, len: usize)
    requires
        short == 0x80 && long == 0xb7 || short == 0xc0 && long == 0xf7,
    ensures
        final(out)@ == old(out)@ + header(short, long, len as nat),
{
    if len <= 55 {
        out.push(short + len as u8);
        assert(final(out)@ =~= old(out)@ + header(short, long, len as nat));
    } else {
        let mut len_bytes: Vec<u8> = Vec::new();
        append_be(&mut len_bytes, len as u64);
        proof {
            lemma_pow256_facts();
            lemma_be_len_bound(len as nat, 8);
            assert(len_bytes@ =~= be_bytes(len as nat));
        }
        out.push(long + len_bytes.len() as u8);
        append_all(out, len_bytes.as_slice());
        assert(final(out)@ =~= old(out)@ + header(short, long, len as nat));
    }
}

/// Appends the encoding of the byte string `b`.
pub fn append_bytes(out: &mut Vec<u8>, b: &[u8])
    ensures
        final(out)@ == old(out)@ + rlp_string(b@),
{
    if b.len() == 1 && b[0] < 0x80 {
        out.push(b[0]);
        assert(final(out)@ =~= old(out)@ + rlp_string(b@));
    } else {
        append_header(out, 0x80, 0xb7, b.len());
        append_all(out, b);
        assert(final(out)@ =~= old(out)@ + rlp_string(b@));
    }
}

/// Appends the encoding of the unsigned integer `n`.
pub fn append_uint(out: &mut Vec<u8>, n: u64)
    ensures
        final(out)@ == old(out)@ + rlp_uint(n as nat),
{
    let mut digits: Vec<u8> = Vec::new();
    append_be(&mut digits, n);
    assert(digits@ =~= be_bytes(n as nat));
    append_bytes(out, digits.as_slice());
}

/// Seals a list whose items were appended from `start` on: the bytes from
/// `start` become the payload of one list.
pub fn finish_list(out: &mut Vec<u8>, start: usize)
    requires
        start <= old(out)@.len(),
    ensures
        final(out)@ == old(out)@.subrange(0, start as int) + rlp_list(
            old(out)@.subrange(start as int, old(out)@.len() as int),
        ),
{
    let payload = out.split_off(start);
    append_header(out, 0xc0, 0xf7, payload.len());
    append_all(out, payload.as_slice());
    assert(final(out)@ =~= old(out)@.subrange(0, start as int) + rlp_list(
        old(out)@.subrange(start as int, old(out)@.len() as int),
    ));
}

/// The facts about the encoding of a number below 2^32 that a reader needs:
/// which header byte it starts with, and what follows.
pub proof fn lemma_uint_shape(n: nat)
    requires
        n < 0x1_0000_0000,
    ensures
        n == 0 ==> rlp_uint(n) == seq![0x80u8],
        0 < n < 0x80 ==> rlp_uint(n) == seq![n as u8],
        n >= 0x80 ==> {
            let l = be_bytes(n).len();
            &&& 1 <= l <= 4
            &&& rlp_uint(n) == seq![(0x80 + l) as u8] + be_bytes(n)
        },
{
    lemma_pow256_facts();
    if n == 0 {
        assert(rlp_uint(n) =~= seq![0x80u8]);
    } else if n < 0x80 {
        lemma_be_small(n);
    } else {
        lemma_be_len_bound(n, 4);
        if n < 0x100 {
            lemma_be_one_byte(n);
        } else {
            lemma_be_len_bound(n / 256, 4);
            assert(be_bytes(n).len() == be_bytes(n / 256).len() + 1);
        }
    }
}

/// Two numbers below 2^32 whose encodings both start the byte string `s` are
/// the same number.
pub proof fn lemma_uint_prefix_unique(a: nat, b: nat, s: Seq<u8>)
    requires
        a < 0x1_0000_0000,
        b < 0x1_0000_0000,
        rlp_uint(a).len() <= s.len(),
        rlp_uint(b).len() <= s.len(),
        s.subrange(0, rlp_uint(a).len() as int) == rlp_uint(a),
        s.subrange(0, rlp_uint(b).len() as int) == rlp_uint(b),
    ensures
        a == b,
{
    lemma_uint_shape(a);
    lemma_uint_shape(b);
    let ra = rlp_uint(a);
    let rb = rlp_uint(b);
    assert(ra[0] == s.subrange(0, ra.len() as int)[0]);
    assert(rb[0] == s.subrange(0, rb.len() as int)[0]);
    if a >= 0x80 && b >= 0x80 {
        let l = be_bytes(a).len();
        assert(be_bytes(a) =~= ra.subrange(1, 1 + l as int));
        assert(be_bytes(b) =~= rb.subrange(1, 1 + l as int));
        assert(be_bytes(a) =~= s.subrange(1, 1 + l as int));
        assert(be_bytes(b) =~= s.subrange(1, 1 + l as int));
        lemma_be_value_inverse(a);
        lemma_be_value_inverse(b);
    }
}

/// Reads an unsigned integer of at most four bytes encoded at `pos`, not
/// reaching past `end`. Where the bytes there start with the encoding of some
/// `n`, that `n` is read, and the position after it is returned.
pub fn read_uint(b: &[u8], pos: usize, end: usize) -> (r: Option<(u64, usize)>)
    requires
        pos <= end <= b@.len(),
    ensures
        r matches Some((v, k)) ==> pos < k <= end && v < 0x1_0000_0000,
        forall|n: nat|
            n < 0x1_0000_0000 && pos + rlp_uint(n).len() <= end && b@.subrange(
                pos as int,
                pos + rlp_uint(n).len(),
            ) == #[trigger] rlp_uint(n) ==> r == Some((n as u64, (pos + rlp_uint(n).len()) as usize)),
{
    if pos >= end {
        proof {
            assert forall|n: nat|
                n < 0x1_0000_0000 && pos + rlp_uint(n).len() <= end && b@.subrange(
                    pos as int,
                    pos + rlp_uint(n).len(),
                ) == #[trigger] rlp_uint(n) implies false by {
                lemma_uint_shape(n);
            }
        }
        return None;
    }
    let h = b[pos];
    if h < 0x80 {
        proof {
            assert forall|n: nat|
                n < 0x1_0000_0000 && pos + rlp_uint(n).len() <= end && b@.subrange(
                    pos as int,
                    pos + rlp_uint(n).len(),
                ) == #[trigger] rlp_uint(n) implies n == h && rlp_uint(n).len() == 1 by {
                lemma_uint_shape(n);
                assert(b@.subrange(pos as int, pos + rlp_uint(n).len())[0] == h);
            }
        }
        return Some((h as u64, pos + 1));
    }
    if h > 0x84 || (h - 0x80) as usize > end - pos - 1 {
        proof {
            assert forall|n: nat|
                n < 0x1_0000_0000 && pos + rlp_uint(n).len() <= end && b@.subrange(
                    pos as int,
                    pos + rlp_uint(n).len(),
                ) == #[trigger] rlp_uint(n) implies false by {
                lemma_uint_shape(n);
                assert(b@.subrange(pos as int, pos + rlp_uint(n).len())[0] == h);
            }
        }
        return None;
    }
    let len = (h - 0x80) as usize;
    let start = pos + 1;
    let mut v: u64 = 0;
    let mut i: usize = start;
    proof {
        lemma_pow256_facts();
        assert(b@.subrange(start as int, start as int) =~= Seq::<u8>::empty());
    }
    while i < start + len
        invariant
            start <= i <= start + len,
            start + len <= end <= b@.len(),
            len <= 4,
            pow256(4) == 0x1_0000_0000,
            v == be_value(b@.subrange(start as int, i as int)),
            v < pow256((i - start) as nat),
            pow256((i - start) as nat) <= pow256(len as nat),
        decreases start + len - i,
    {
        let ghost p = pow256((i - start) as nat);
        let byte = b[i];
        proof {
            assert(v * 256 + byte < p * 256) by (nonlinear_arith)
                requires
                    v < p,
                    byte < 256,
            ;
            assert(b@.subrange(start as int, i + 1).drop_last() =~= b@.subrange(start as int, i as int));
            assert(pow256((i + 1 - start) as nat) == 256 * p);
            lemma_pow256_monotone((i + 1 - start) as nat, len as nat);
            lemma_pow256_monotone(len as nat, 4);
        }
        v = v * 256 + byte as u64;
        i = i + 1;
    }
    proof {
        lemma_pow256_monotone(len as nat, 4);
        assert forall|n: nat|
            n < 0x1_0000_0000 && pos + rlp_uint(n).len() <= end && b@.subrange(
                pos as int,
                pos + rlp_uint(n).len(),
            ) == #[trigger] rlp_uint(n) implies v == n && rlp_uint(n).len() == len + 1 by {
            lemma_uint_shape(n);
            let e = rlp_uint(n);
            assert(b@.subrange(pos as int, pos + e.len())[0] == h);
            if n == 0 {
                assert(b@.subrange(start as int, start as int) =~= Seq::<u8>::empty());
            } else {
                let l = be_bytes(n).len();
                assert(e =~= seq![(0x80 + l) as u8] + be_bytes(n));
                assert(e[0] == (0x80 + l) as u8);
                assert(l == len);
                assert(e.subrange(1, e.len() as int) =~= be_bytes(n));
                assert(b@.subrange(start as int, i as int) =~= b@.subrange(
                    pos as int,
                    pos + e.len(),
                ).subrange(1, e.len() as int));
                lemma_be_value_inverse(n);
            }
        }
    }
    Some((v, start + len))
}

/// Whether two byte strings are equal.
pub fn same_bytes(a: &[u8], b: &[u8]) -> (r: bool)
    ensures
        r == (a@ == b@),
{
    if a.len() != b.len() {
        return false;
    }
    let mut i: usize = 0;
    while i < a.len()
        invariant
            i <= a@.len(),
            a@.len() == b@.len(),
            forall|j: int| 0 <= j < i ==> a@[j] == b@[j],
        decreases a@.len() - i,
    {
        if a[i] != b[i] {
            return false;
        }
        i = i + 1;
    }
    assert(a@ =~= b@);
    true
}

pub proof fn lemma_pow256_monotone(a: nat, b: nat)
    requires
        a <= b,
    ensures
        pow256(a) <= pow256(b),
    decreases b,
{
    if a < b {
        lemma_pow256_monotone(a, (b - 1) as nat);
    }
}

} // verus!
