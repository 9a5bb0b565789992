//! Big-endian integer framing and the base-128 length prefixes used by
//! the record payloads, as byte-level spec functions with verified
//! encoders and decoders.

use vstd::prelude::*;

verus! {

/// The four bytes of `n`, most significant first.
pub open spec fn be32(n: u32) -> Seq<u8> {
    seq![
        (n >> 24) as u8,
        (n >> 16) as u8,
        (n >> 8) as u8,
        n as u8,
    ]
}

/// The eight bytes of `n`, most significant first.
pub open spec fn be64(n: u64) -> Seq<u8> {
    seq![
        (n >> 56) as u8,
        (n >> 48) as u8,
        (n >> 40) as u8,
        (n >> 32) as u8,
        (n >> 24) as u8,
        (n >> 16) as u8,
        (n >> 8) as u8,
        n as u8,
    ]
}

/// The value whose big-endian bytes are `b0 b1 b2 b3`.
pub open spec fn u32_from_be(b0: u8, b1: u8, b2: u8, b3: u8) -> u32 {
    ((b0 as u32) << 24) | ((b1 as u32) << 16) | ((b2 as u32) << 8) | (b3 as u32)
}

/// The value whose big-endian bytes are `b0 .. b7`.
pub open spec fn u64_from_be(b0: u8, b1: u8, b2: u8, b3: u8, b4: u8, b5: u8, b6: u8, b7: u8) -> u64 {
    ((b0 as u64) << 56) | ((b1 as u64) << 48) | ((b2 as u64) << 40) | ((b3 as u64) << 32)
        | ((b4 as u64) << 24) | ((b5 as u64) << 16) | ((b6 as u64) << 8) | (b7 as u64)
}

/// Reading back the four big-endian bytes of `n` gives `n`.
pub proof fn lemma_be32_roundtrip(n: u32)
    ensures
        u32_from_be(be32(n)[0], be32(n)[1], be32(n)[2], be32(n)[3]) == n,
{
    assert((((n >> 24) as u8 as u32) << 24) | (((n >> 16) as u8 as u32) << 16)
        | (((n >> 8) as u8 as u32) << 8) | (n as u8 as u32) == n) by (bit_vector);
}

/// Reading back the eight big-endian bytes of `n` gives `n`.
pub proof fn lemma_be64_roundtrip(n: u64)
    ensures
        u64_from_be(
            be64(n)[0], be64(n)[1], be64(n)[2], be64(n)[3],
            be64(n)[4], be64(n)[5], be64(n)[6], be64(n)[7],
        ) == n,
{
    assert((((n >> 56) as u8 as u64) << 56) | (((n >> 48) as u8 as u64) << 48)
        | (((n >> 40) as u8 as u64) << 40) | (((n >> 32) as u8 as u64) << 32)
        | (((n >> 24) as u8 as u64) << 24) | (((n >> 16) as u8 as u64) << 16)
        | (((n >> 8) as u8 as u64) << 8) | (n as u8 as u64) == n) by (bit_vector);
}

/// An eight-byte sequence is exactly the big-endian bytes of the value
/// it denotes: reading is injective.
pub proof fn lemma_be64_inverse(b0: u8, b1: u8, b2: u8, b3: u8, b4: u8, b5: u8, b6: u8, b7: u8)
    ensures
        be64(u64_from_be(b0, b1, b2, b3, b4, b5, b6, b7)) =~= seq![b0, b1, b2, b3, b4, b5, b6, b7],
{
    let n = u64_from_be(b0, b1, b2, b3, b4, b5, b6, b7);
    assert({
        let m = ((b0 as u64) << 56) | ((b1 as u64) << 48) | ((b2 as u64) << 40) | ((b3 as u64)
            << 32) | ((b4 as u64) << 24) | ((b5 as u64) << 16) | ((b6 as u64) << 8) | (b7 as u64);
        (m >> 56) as u8 == b0 && (m >> 48) as u8 == b1 && (m >> 40) as u8 == b2 && (m >> 32) as u8
            == b3 && (m >> 24) as u8 == b4 && (m >> 16) as u8 == b5 && (m >> 8) as u8 == b6
            && m as u8 == b7
    }) by (bit_vector);
    assert(be64(n)[0] == b0 && be64(n)[1] == b1 && be64(n)[2] == b2 && be64(n)[3] == b3 && be64(
        n,
    )[4] == b4 && be64(n)[5] == b5 && be64(n)[6] == b6 && be64(n)[7] == b7);
}

/// Appends the big-endian bytes of `n` to `out`.
pub fn push_be32(out: &mut Vec<u8>, n: u32)
    ensures
        final(out)@ == old(out)@ + be32(n),
{
    out.push((n >> 24) as u8);
    out.push((n >> 16) as u8);
    out.push((n >> 8) as u8);
    out.push(n as u8);
    assert(out@ =~= old(out)@ + be32(n));
}

/// Appends the big-endian bytes of `n` to `out`.
pub fn push_be64(out: &mut Vec<u8>, n: u64)
    ensures
        final(out)@ == old(out)@ + be64(n),
{
    out.push((n >> 56) as u8);
    out.push((n >> 48) as u8);
    out.push((n >> 40) as u8);
    out.push((n >> 32) as u8);
    out.push((n >> 24) as u8);
    out.push((n >> 16) as u8);
    out.push((n >> 8) as u8);
    out.push(n as u8);
    assert(out@ =~= old(out)@ + be64(n));
}

/// The base-128 encoding of `n`, least significant group first, with
/// the high bit of every byte but the last set.
pub open spec fn varint(n: nat) -> Seq<u8>
    decreases n,
{
    if n < 128 {
        seq![n as u8]
    } else {
        seq![(128 + n % 128) as u8] + varint(n / 128)
    }
}

/// The value read by a base-128 parse at `pos` that accepts at most
/// `max` bytes, and the index just after it.
pub open spec fn parse_varint_upto(s: Seq<u8>, pos: int, max: nat) -> Option<(nat, int)>
    decreases max,
{
    if max == 0 || pos < 0 || pos >= s.len() {
        None
    } else if s[pos] < 128 {
        Some((s[pos] as nat, pos + 1))
    } else {
        match parse_varint_upto(s, pos + 1, (max - 1) as nat) {
            Some((v, end)) => Some(((s[pos] - 128) as nat + 128 * v, end)),
            None => None,
        }
    }
}

/// The base-128 parse used by the record grammar: at most five bytes,
/// enough for any length that fits in 32 bits.
pub open spec fn parse_varint(s: Seq<u8>, pos: int) -> Option<(nat, int)> {
    parse_varint_upto(s, pos, 5)
}

/// A parsed length prefix is below `128^max`.
pub proof fn lemma_parse_varint_bound(s: Seq<u8>, pos: int, max: nat)
    ensures
        (match parse_varint_upto(s, pos, max) {
            Some((v, end)) => v < pow128(max) && pos < end <= s.len() && end - pos <= max,
            None => true,
        }),
    decreases max,
{
    if max > 0 && 0 <= pos < s.len() {
        assert(pow128(max) == 128 * pow128((max - 1) as nat));
        lemma_pow128_pos((max - 1) as nat);
        if s[pos] >= 128 {
            lemma_parse_varint_bound(s, pos + 1, (max - 1) as nat);
        }
    }
}

proof fn lemma_pow128_pos(n: nat)
    ensures
        pow128(n) >= 1,
    decreases n,
{
    if n > 0 {
        lemma_pow128_pos((n - 1) as nat);
    }
}

/// `128^n`.
pub open spec fn pow128(n: nat) -> nat
    decreases n,
{
    if n == 0 {
        1
    } else {
        128 * pow128((n - 1) as nat)
    }
}

proof fn lemma_pow128_small()
    ensures
        pow128(4) == 0x1000_0000,
        pow128(5) == 0x8_0000_0000,
{
    assert(pow128(0) == 1);
    assert(pow128(1) == 128);
    assert(pow128(2) == 0x4000);
    assert(pow128(3) == 0x20_0000);
    assert(pow128(4) == 0x1000_0000);
    assert(pow128(5) == 0x8_0000_0000);
}

/// Encoding a value below `128^max` takes at most `max` bytes, and the
/// parse limited to `max` bytes reads it back wherever it is embedded.
pub proof fn lemma_varint_roundtrip_upto(s: Seq<u8>, pos: int, n: nat, max: nat)
    requires
        1 <= max,
        n < pow128(max),
        0 <= pos,
        pos + varint(n).len() <= s.len(),
        s.subrange(pos, pos + varint(n).len() as int) =~= varint(n),
    ensures
        parse_varint_upto(s, pos, max) == Some((n, pos + varint(n).len())),
    decreases max,
{
    if n < 128 {
        assert(s[pos] == varint(n)[0]);
    } else {
        assert(max > 1) by {
            if max <= 1 {
                assert(pow128(1) == 128 * pow128(0));
                assert(pow128(0) == 1);
            }
        }
        assert(s[pos] == varint(n)[0]);
        assert(varint(n) == seq![(128 + n % 128) as u8] + varint(n / 128));
        assert(s.subrange(pos + 1, pos + varint(n).len() as int) =~= varint(n / 128)) by {
            assert(forall|i: int| 0 <= i < varint(n / 128).len()
                ==> #[trigger] s.subrange(pos + 1, pos + varint(n).len() as int)[i] == varint(
                n,
            )[i + 1]);
        }
        assert(n / 128 < pow128((max - 1) as nat)) by {
            assert(pow128(max) == 128 * pow128((max - 1) as nat));
        }
        lemma_varint_roundtrip_upto(s, pos + 1, n / 128, (max - 1) as nat);
        assert(s[pos] >= 128);
        assert((s[pos] - 128) as nat + 128 * (n / 128) == n) by {
            assert(s[pos] == (128 + n % 128) as u8);
            assert(n % 128 + 128 * (n / 128) == n) by (nonlinear_arith);
        }
    }
}

/// The five-byte parse reads back any embedded encoding of a 32-bit value.
pub proof fn lemma_varint_roundtrip(s: Seq<u8>, pos: int, n: nat)
    requires
        n < 0x1_0000_0000,
        0 <= pos,
        pos + varint(n).len() <= s.len(),
        s.subrange(pos, pos + varint(n).len() as int) =~= varint(n),
    ensures
        parse_varint(s, pos) == Some((n, pos + varint(n).len())),
{
    lemma_pow128_small();
    lemma_varint_roundtrip_upto(s, pos, n, 5);
}

/// A value below `128^k` encodes in at most `k` bytes.
pub proof fn lemma_varint_len_le(n: nat, k: nat)
    requires
        1 <= k,
        n < pow128(k),
    ensures
        varint(n).len() <= k,
    decreases k,
{
    if n >= 128 {
        assert(pow128(1) == 128 * pow128(0));
        assert(pow128(0) == 1);
        assert(k >= 2) by {
            if k == 1 {
                assert(pow128(1) == 128);
            }
        }
        assert(pow128(k) == 128 * pow128((k - 1) as nat));
        assert(n / 128 < pow128((k - 1) as nat)) by (nonlinear_arith)
            requires
                n < 128 * pow128((k - 1) as nat),
        ;
        lemma_varint_len_le(n / 128, (k - 1) as nat);
    }
}

/// The number of bytes the base-128 encoding of `n` takes.
pub fn varint_len(n: u64) -> (l: usize)
    requires
        n < 0x8_0000_0000,
    ensures
        l == varint(n as nat).len(),
        1 <= l <= 5,
{
    proof {
        lemma_pow128_small();
        lemma_varint_len_le(n as nat, 5);
    }
    let mut m: u64 = n;
    let mut l: usize = 1;
    while m >= 128
        invariant
            1 <= l,
            l - 1 + varint(m as nat).len() == varint(n as nat).len(),
            varint(n as nat).len() <= 5,
        decreases m,
    {
        proof {
            assert(varint(m as nat) == seq![(128 + m as nat % 128) as u8] + varint(m as nat / 128));
        }
        m = m / 128;
        l = l + 1;
    }
    l
}

/// Appends the bytes of `b` to `out`.
pub fn push_bytes(out: &mut Vec<u8>, b: &[u8])
    ensures
        final(out)@ == old(out)@ + b@,
{
    let mut i: usize = 0;
    while i < b.len()
        invariant
            i <= b@.len(),
            out@ == old(out)@ + b@.subrange(0, i as int),
        decreases b@.len() - i,
    {
        out.push(b[i]);
        assert(out@ =~= old(out)@ + b@.subrange(0, i + 1));
        i = i + 1;
    }
    assert(out@ =~= old(out)@ + b@);
}

/// Appends the base-128 encoding of `n` to `out`.
pub fn push_varint(out: &mut Vec<u8>, n: usize)
    ensures
        final(out)@ == old(out)@ + varint(n as nat),
{
    let mut rest: usize = n;
    let mut emitted: Ghost<Seq<u8>> = Ghost(Seq::empty());
    while rest >= 128
        invariant
            out@ == old(out)@ + emitted@,
            emitted@ + varint(rest as nat) == varint(n as nat),
        decreases rest,
    {
        let b: u8 = (rest % 128) as u8 + 128;
        proof {
            assert(varint(rest as nat) == seq![(128 + rest as nat % 128) as u8] + varint(
                rest as nat / 128,
            ));
            assert((emitted@ + seq![b]) + varint(rest as nat / 128) =~= emitted@ + varint(
                rest as nat,
            ));
        }
        out.push(b);
        proof {
            emitted@ = emitted@ + seq![b];
        }
        rest = rest / 128;
    }
    out.push(rest as u8);
    assert(out@ =~= old(out)@ + emitted@ + varint(rest as nat));
    assert(final(out)@ =~= old(out)@ + varint(n as nat));
}

/// Reads the base-128 value at `pos`, accepting at most five bytes.
pub fn read_varint(s: &[u8], pos: usize) -> (r: Option<(u64, usize)>)
    requires
        pos <= s@.len(),
    ensures
        (match r {
            Some((v, end)) => parse_varint(s@, pos as int) == Some((v as nat, end as int)),
            None => parse_varint(s@, pos as int) is None,
        }),
{
    read_varint_upto(s, pos, 5)
}

fn read_varint_upto(s: &[u8], pos: usize, max: u8) -> (r: Option<(u64, usize)>)
    requires
        pos <= s@.len(),
        max <= 5,
    ensures
        (match r {
            Some((v, end)) => parse_varint_upto(s@, pos as int, max as nat) == Some(
                (v as nat, end as int),
            ),
            None => parse_varint_upto(s@, pos as int, max as nat) is None,
        }),
    decreases max,
{
    if max == 0 || pos >= s.len() {
        return None;
    }
    let b = s[pos];
    if b < 128 {
        return Some((b as u64, pos + 1));
    }
    match read_varint_upto(s, pos + 1, max - 1) {
        Some((v, end)) => {
            proof {
                lemma_parse_varint_bound(s@, pos + 1, (max - 1) as nat);
                lemma_pow128_small();
                assert(pow128((max - 1) as nat) <= pow128(4)) by {
                    lemma_pow128_mono((max - 1) as nat, 4);
                }
            }
            Some(((b - 128) as u64 + 128 * v, end))
        },
        None => None,
    }
}

proof fn lemma_pow128_mono(a: nat, b: nat)
    requires
        a <= b,
    ensures
        pow128(a) <= pow128(b),
    decreases b,
{
    if a < b {
        lemma_pow128_mono(a, (b - 1) as nat);
        assert(pow128(b) == 128 * pow128((b - 1) as nat));
        assert(pow128((b - 1) as nat) <= 128 * pow128((b - 1) as nat)) by (nonlinear_arith)
            requires
                pow128((b - 1) as nat) >= 0,
        ;
    }
}

/// Reads the big-endian `u32` at `pos`.
pub fn read_be32(buf: &[u8], pos: usize) -> (n: u32)
    requires
        pos + 4 <= buf@.len(),
    ensures
        n == u32_from_be(buf@[pos as int], buf@[pos + 1], buf@[pos + 2], buf@[pos + 3]),
{
    let b0 = buf[pos];
    let b1 = buf[pos + 1];
    let b2 = buf[pos + 2];
    let b3 = buf[pos + 3];
    ((b0 as u32) << 24) | ((b1 as u32) << 16) | ((b2 as u32) << 8) | (b3 as u32)
}

/// Reads the big-endian `u64` at `pos`.
pub fn read_be64(buf: &[u8], pos: usize) -> (n: u64)
    requires
        pos + 8 <= buf@.len(),
    ensures
        n == u64_from_be(
            buf@[pos as int], buf@[pos + 1], buf@[pos + 2], buf@[pos + 3],
            buf@[pos + 4], buf@[pos + 5], buf@[pos + 6], buf@[pos + 7],
        ),
{
    let b0 = buf[pos];
    let b1 = buf[pos + 1];
    let b2 = buf[pos + 2];
    let b3 = buf[pos + 3];
    let b4 = buf[pos + 4];
    let b5 = buf[pos + 5];
    let b6 = buf[pos + 6];
    let b7 = buf[pos + 7];
    ((b0 as u64) << 56) | ((b1 as u64) << 48) | ((b2 as u64) << 40) | ((b3 as u64) << 32)
        | ((b4 as u64) << 24) | ((b5 as u64) << 16) | ((b6 as u64) << 8) | (b7 as u64)
}

} // verus!
