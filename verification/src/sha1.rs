//! A 160-bit secure hash over arbitrary byte sequences: pad the message
//! to 64-byte blocks, run each block through an 80-round compression of
//! five 32-bit state words, and emit the final state big-endian.

use vstd::prelude::*;

verus! {

/// Left rotation of a 32-bit word.
pub open spec fn rotl(x: u32, n: u32) -> u32
    recommends
        0 < n < 32,
{
    (x << n) | (x >> ((32 - n) as u32))
}

/// The big-endian 32-bit word at word index `t` of a block.
pub open spec fn be32(block: Seq<u8>, t: int) -> u32
    recommends
        0 <= t,
        4 * t + 4 <= block.len(),
{
    ((block[4 * t] as u32) << 24u32) | ((block[4 * t + 1] as u32) << 16u32) | ((block[4 * t + 2]
        as u32) << 8u32) | (block[4 * t + 3] as u32)
}

/// The round function: choice, parity, majority, parity over the four
/// 20-round groups.
pub open spec fn ft(t: int, b: u32, c: u32, d: u32) -> u32 {
    if t < 20 {
        (b & c) | ((!b) & d)
    } else if t < 40 {
        b ^ c ^ d
    } else if t < 60 {
        (b & c) | (b & d) | (c & d)
    } else {
        b ^ c ^ d
    }
}

/// The round constant for round `t`.
pub open spec fn kt(t: int) -> u32 {
    if t < 20 {
        0x5A827999u32
    } else if t < 40 {
        0x6ED9EBA1u32
    } else if t < 60 {
        0x8F1BBCDCu32
    } else {
        0xCA62C1D6u32
    }
}

/// Word `t` of the 80-word message schedule of a 64-byte block.
pub open spec fn w(block: Seq<u8>, t: int) -> u32
    recommends
        block.len() == 64,
        0 <= t < 80,
    decreases t,
{
    if t < 16 {
        be32(block, t)
    } else {
        rotl(w(block, t - 3) ^ w(block, t - 8) ^ w(block, t - 14) ^ w(block, t - 16), 1)
    }
}

/// One round applied to the five working variables.
pub open spec fn round_at(block: Seq<u8>, t: int, s: (u32, u32, u32, u32, u32)) -> (
    u32,
    u32,
    u32,
    u32,
    u32,
) {
    (
        rotl(s.0, 5).wrapping_add(ft(t, s.1, s.2, s.3)).wrapping_add(s.4).wrapping_add(
            kt(t),
        ).wrapping_add(w(block, t)),
        s.0,
        rotl(s.1, 30),
        s.2,
        s.3,
    )
}

/// The working variables after the first `t` rounds on a block.
pub open spec fn rounds(block: Seq<u8>, t: int, s: (u32, u32, u32, u32, u32)) -> (
    u32,
    u32,
    u32,
    u32,
    u32,
)
    decreases t,
{
    if t <= 0 {
        s
    } else {
        round_at(block, t - 1, rounds(block, t - 1, s))
    }
}

/// The standard initial state words.
pub open spec fn init_state() -> (u32, u32, u32, u32, u32) {
    (0x67452301u32, 0xEFCDAB89u32, 0x98BADCFEu32, 0x10325476u32, 0xC3D2E1F0u32)
}

/// One block folded into the state: 80 rounds, then each working
/// variable added into its state word.
pub open spec fn compress(s: (u32, u32, u32, u32, u32), block: Seq<u8>) -> (
    u32,
    u32,
    u32,
    u32,
    u32,
) {
    let r = rounds(block, 80, s);
    (
        s.0.wrapping_add(r.0),
        s.1.wrapping_add(r.1),
        s.2.wrapping_add(r.2),
        s.3.wrapping_add(r.3),
        s.4.wrapping_add(r.4),
    )
}

/// The state after the first `n` 64-byte blocks of a padded message.
pub open spec fn hash_blocks(m: Seq<u8>, n: int) -> (u32, u32, u32, u32, u32)
    decreases n,
{
    if n <= 0 {
        init_state()
    } else {
        compress(hash_blocks(m, n - 1), m.subrange(64 * (n - 1), 64 * n))
    }
}

/// How many zero bytes the padding inserts for a message of `len` bytes,
/// so that `len + 1 + zeros + 8` is a multiple of 64.
pub open spec fn pad_zero_count(len: nat) -> int {
    (119 - (len % 64)) % 64
}

/// The eight big-endian bytes of a 64-bit value.
pub open spec fn word64_bytes(x: u64) -> Seq<u8> {
    seq![
        (x >> 56) as u8,
        (x >> 48) as u8,
        (x >> 40) as u8,
        (x >> 32) as u8,
        (x >> 24) as u8,
        (x >> 16) as u8,
        (x >> 8) as u8,
        x as u8,
    ]
}

/// The four big-endian bytes of a 32-bit value.
pub open spec fn word_bytes(x: u32) -> Seq<u8> {
    seq![(x >> 24) as u8, (x >> 16) as u8, (x >> 8) as u8, x as u8]
}

/// The padded message: a `0x80` byte, zeros up to 56 mod 64, then the
/// message length in bits as a big-endian 64-bit integer.
pub open spec fn padded(msg: Seq<u8>) -> Seq<u8> {
    msg + seq![0x80u8] + Seq::new(pad_zero_count(msg.len()) as nat, |i: int| 0u8) + word64_bytes(
        (msg.len() * 8) as u64,
    )
}

/// The 20-byte digest of a byte sequence.
pub open spec fn digest_spec(msg: Seq<u8>) -> Seq<u8> {
    let p = padded(msg);
    let h = hash_blocks(p, (p.len() / 64) as int);
    word_bytes(h.0) + word_bytes(h.1) + word_bytes(h.2) + word_bytes(h.3) + word_bytes(h.4)
}

/// The padded message ends on a 64-byte block boundary.
pub proof fn lemma_padded_len(msg: Seq<u8>)
    ensures
        padded(msg).len() == msg.len() + 9 + pad_zero_count(msg.len()),
        padded(msg).len() % 64 == 0,
{
    let len = msg.len() as int;
    let r = len % 64;
    assert(0 <= r < 64);
    let z = pad_zero_count(msg.len());
    assert(z == if r <= 55 { 55 - r } else { 119 - r });
    let q = len / 64;
    vstd::arithmetic::div_mod::lemma_fundamental_div_mod(len, 64);
    assert(len == 64 * q + r);
    if r <= 55 {
        assert(len + 9 + z == 64 * (q + 1)) by {
            assert(64 * (q + 1) == 64 * q + 64) by (nonlinear_arith);
        }
        vstd::arithmetic::div_mod::lemma_mod_multiples_basic(q + 1, 64);
        assert((64 * (q + 1)) % 64 == ((q + 1) * 64) % 64) by (nonlinear_arith);
    } else {
        assert(len + 9 + z == 64 * (q + 2)) by {
            assert(64 * (q + 2) == 64 * q + 128) by (nonlinear_arith);
        }
        vstd::arithmetic::div_mod::lemma_mod_multiples_basic(q + 2, 64);
        assert((64 * (q + 2)) % 64 == ((q + 2) * 64) % 64) by (nonlinear_arith);
    }
}

/// Compute the digest of a byte sequence. The length bounds are machine
/// limits: the bit length must fit the 64-bit length field and the
/// padded message must fit in memory.
pub fn digest(msg: &[u8]) -> (r: Vec<u8>)
    requires
        msg@.len() * 8 <= u64::MAX,
        msg@.len() + 72 <= usize::MAX,
    ensures
        r@ == digest_spec(msg@),
        r@.len() == 20,
{
    let ghost gmsg = msg@;
    let mut p: Vec<u8> = vstd::slice::slice_to_vec(msg);
    p.push(0x80);
    let rem = msg.len() % 64;
    let zcount: usize = if rem <= 55 {
        55 - rem
    } else {
        119 - rem
    };
    proof {
        assert(zcount == pad_zero_count(gmsg.len()));
        assert(p@ + Seq::new(0nat, |i: int| 0u8) =~= gmsg + seq![0x80u8]);
    }
    let mut zi: usize = 0;
    while zi < zcount
        invariant
            zi <= zcount,
            zcount == pad_zero_count(gmsg.len()),
            p@ == gmsg + seq![0x80u8] + Seq::new(zi as nat, |i: int| 0u8),
        decreases zcount - zi,
    {
        p.push(0);
        proof {
            assert(gmsg + seq![0x80u8] + Seq::new(zi as nat, |i: int| 0u8) + seq![0u8] =~= gmsg
                + seq![0x80u8] + Seq::new((zi + 1) as nat, |i: int| 0u8));
        }
        zi = zi + 1;
    }
    let bits: u64 = (msg.len() as u64) * 8;
    p.push(#[verifier::truncate] ((bits >> 56) as u8));
    p.push(#[verifier::truncate] ((bits >> 48) as u8));
    p.push(#[verifier::truncate] ((bits >> 40) as u8));
    p.push(#[verifier::truncate] ((bits >> 32) as u8));
    p.push(#[verifier::truncate] ((bits >> 24) as u8));
    p.push(#[verifier::truncate] ((bits >> 16) as u8));
    p.push(#[verifier::truncate] ((bits >> 8) as u8));
    p.push(#[verifier::truncate] (bits as u8));
    proof {
        assert(p@ =~= padded(gmsg));
        lemma_padded_len(gmsg);
    }
    let plen = p.len();
    let nblocks = plen / 64;
    proof {
        vstd::arithmetic::div_mod::lemma_fundamental_div_mod(plen as int, 64);
    }
    let mut h0: u32 = 0x67452301;
    let mut h1: u32 = 0xEFCDAB89;
    let mut h2: u32 = 0x98BADCFE;
    let mut h3: u32 = 0x10325476;
    let mut h4: u32 = 0xC3D2E1F0;
    let mut bi: usize = 0;
    let mut off: usize = 0;
    while bi < nblocks
        invariant
            bi <= nblocks,
            off == 64 * bi,
            plen == p@.len(),
            plen == 64 * nblocks,
            p@ == padded(gmsg),
            (h0, h1, h2, h3, h4) == hash_blocks(p@, bi as int),
        decreases nblocks - bi,
    {
        proof {
            vstd::arithmetic::mul::lemma_mul_inequality(bi as int + 1, nblocks as int, 64);
            assert((bi as int + 1) * 64 == 64 * bi + 64) by (nonlinear_arith);
            assert(nblocks as int * 64 == 64 * nblocks) by (nonlinear_arith);
        }
        let ghost block = p@.subrange(off as int, off as int + 64);
        let mut ws: Vec<u32> = Vec::new();
        let mut t: usize = 0;
        while t < 80
            invariant
                t <= 80,
                ws@.len() == t as int,
                forall|j: int| 0 <= j < t ==> ws@[j] == w(block, j),
                block == p@.subrange(off as int, off as int + 64),
                block.len() == 64,
                plen == p@.len(),
                off + 64 <= plen,
            decreases 80 - t,
        {
            if t < 16 {
                let b0 = p[off + 4 * t];
                let b1 = p[off + 4 * t + 1];
                let b2 = p[off + 4 * t + 2];
                let b3 = p[off + 4 * t + 3];
                let word = ((b0 as u32) << 24u32) | ((b1 as u32) << 16u32) | ((b2 as u32) << 8u32)
                    | (b3 as u32);
                proof {
                    assert(block[4 * t as int] == p@[off as int + 4 * t as int]);
                    assert(block[4 * t as int + 1] == p@[off as int + 4 * t as int + 1]);
                    assert(block[4 * t as int + 2] == p@[off as int + 4 * t as int + 2]);
                    assert(block[4 * t as int + 3] == p@[off as int + 4 * t as int + 3]);
                    assert(w(block, t as int) == be32(block, t as int));
                    assert(word == be32(block, t as int));
                }
                ws.push(word);
            } else {
                let x = ws[t - 3] ^ ws[t - 8] ^ ws[t - 14] ^ ws[t - 16];
                let word = (x << 1u32) | (x >> 31u32);
                proof {
                    assert(x == w(block, t as int - 3) ^ w(block, t as int - 8) ^ w(
                        block,
                        t as int - 14,
                    ) ^ w(block, t as int - 16));
                    assert(w(block, t as int) == rotl(
                        w(block, t as int - 3) ^ w(block, t as int - 8) ^ w(block, t as int - 14)
                            ^ w(block, t as int - 16),
                        1,
                    ));
                    assert(word == rotl(x, 1));
                }
                ws.push(word);
            }
            t = t + 1;
        }
        let mut a = h0;
        let mut b = h1;
        let mut c = h2;
        let mut d = h3;
        let mut e = h4;
        let mut t: usize = 0;
        while t < 80
            invariant
                t <= 80,
                ws@.len() == 80,
                block.len() == 64,
                forall|j: int| 0 <= j < 80 ==> ws@[j] == w(block, j),
                (a, b, c, d, e) == rounds(block, t as int, (h0, h1, h2, h3, h4)),
            decreases 80 - t,
        {
            let fv: u32 = if t < 20 {
                (b & c) | ((!b) & d)
            } else if t < 40 {
                b ^ c ^ d
            } else if t < 60 {
                (b & c) | (b & d) | (c & d)
            } else {
                b ^ c ^ d
            };
            let kv: u32 = if t < 20 {
                0x5A827999
            } else if t < 40 {
                0x6ED9EBA1
            } else if t < 60 {
                0x8F1BBCDC
            } else {
                0xCA62C1D6
            };
            let tmp = ((a << 5u32) | (a >> 27u32)).wrapping_add(fv).wrapping_add(e).wrapping_add(
                kv,
            ).wrapping_add(ws[t]);
            e = d;
            d = c;
            c = (b << 30u32) | (b >> 2u32);
            b = a;
            a = tmp;
            t = t + 1;
        }
        h0 = h0.wrapping_add(a);
        h1 = h1.wrapping_add(b);
        h2 = h2.wrapping_add(c);
        h3 = h3.wrapping_add(d);
        h4 = h4.wrapping_add(e);
        proof {
            assert(64 * (bi as int + 1) == 64 * bi + 64) by (nonlinear_arith);
            assert((h0, h1, h2, h3, h4) == hash_blocks(p@, bi as int + 1));
        }
        off = off + 64;
        bi = bi + 1;
    }
    let mut r: Vec<u8> = Vec::new();
    r.push(#[verifier::truncate] ((h0 >> 24) as u8));
    r.push(#[verifier::truncate] ((h0 >> 16) as u8));
    r.push(#[verifier::truncate] ((h0 >> 8) as u8));
    r.push(#[verifier::truncate] (h0 as u8));
    r.push(#[verifier::truncate] ((h1 >> 24) as u8));
    r.push(#[verifier::truncate] ((h1 >> 16) as u8));
    r.push(#[verifier::truncate] ((h1 >> 8) as u8));
    r.push(#[verifier::truncate] (h1 as u8));
    r.push(#[verifier::truncate] ((h2 >> 24) as u8));
    r.push(#[verifier::truncate] ((h2 >> 16) as u8));
    r.push(#[verifier::truncate] ((h2 >> 8) as u8));
    r.push(#[verifier::truncate] (h2 as u8));
    r.push(#[verifier::truncate] ((h3 >> 24) as u8));
    r.push(#[verifier::truncate] ((h3 >> 16) as u8));
    r.push(#[verifier::truncate] ((h3 >> 8) as u8));
    r.push(#[verifier::truncate] (h3 as u8));
    r.push(#[verifier::truncate] ((h4 >> 24) as u8));
    r.push(#[verifier::truncate] ((h4 >> 16) as u8));
    r.push(#[verifier::truncate] ((h4 >> 8) as u8));
    r.push(#[verifier::truncate] (h4 as u8));
    proof {
        assert(r@ =~= digest_spec(gmsg));
    }
    r
}

/// The ASCII hex digit (lowercase) for a 4-bit value.
pub open spec fn hex_digit(v: u8) -> u8
    recommends
        v < 16,
{
    if v < 10 {
        (48 + v) as u8
    } else {
        (87 + v) as u8
    }
}

/// The hex rendering of a byte sequence: two digits per byte.
pub open spec fn hex_spec(s: Seq<u8>) -> Seq<u8>
    decreases s.len(),
{
    if s.len() == 0 {
        Seq::empty()
    } else {
        seq![hex_digit(s[0] >> 4), hex_digit(s[0] & 0x0f)] + hex_spec(s.skip(1))
    }
}

/// Both 4-bit groups of a byte are below 16.
proof fn lemma_nibble_bounds()
    by (bit_vector)
    ensures
        forall|x: u8| #[trigger] (x >> 4) < 16,
        forall|x: u8| #[trigger] (x & 0x0f) < 16,
{
}

fn hex_digit_exec(v: u8) -> (r: u8)
    requires
        v < 16,
    ensures
        r == hex_digit(v),
{
    if v < 10 {
        48 + v
    } else {
        87 + v
    }
}

/// Render a byte sequence as lowercase hex, two digits per byte.
pub fn to_hex(bytes: &[u8]) -> (r: Vec<u8>)
    ensures
        r@ == hex_spec(bytes@),
        r@.len() == 2 * bytes@.len(),
{
    let n = bytes.len();
    let mut out: Vec<u8> = Vec::new();
    let mut i: usize = 0;
    proof {
        lemma_nibble_bounds();
        assert(bytes@.skip(0) =~= bytes@);
        assert(out@ + hex_spec(bytes@) =~= hex_spec(bytes@));
    }
    while i < n
        invariant
            i <= n,
            n == bytes@.len(),
            out@.len() == 2 * i,
            hex_spec(bytes@) == out@ + hex_spec(bytes@.skip(i as int)),
            forall|x: u8| #[trigger] (x >> 4) < 16,
            forall|x: u8| #[trigger] (x & 0x0f) < 16,
        decreases n - i,
    {
        let b = bytes[i];
        out.push(hex_digit_exec(b >> 4));
        out.push(hex_digit_exec(b & 0x0f));
        proof {
            assert(bytes@.skip(i as int).skip(1) =~= bytes@.skip(i as int + 1));
        }
        i = i + 1;
    }
    proof {
        assert(bytes@.skip(n as int) =~= Seq::<u8>::empty());
    }
    out
}

} // verus!
