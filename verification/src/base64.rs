//! Binary-to-text encoding over the standard 64-character alphabet
//! (`A-Z a-z 0-9 + /`) with `=` padding. Only the encode direction is
//! provided; it is all the handshake needs.

use vstd::prelude::*;

verus! {

/// The alphabet symbol (as an ASCII byte) for a 6-bit value.
pub open spec fn b64_char(v: u8) -> u8
    recommends
        v < 64,
{
    if v < 26 {
        (65 + v) as u8  // 'A'..='Z'
    } else if v < 52 {
        (71 + v) as u8  // 'a'..='z'
    } else if v < 62 {
        (v - 4) as u8  // '0'..='9'
    } else if v == 62 {
        43u8  // '+'
    } else {
        47u8  // '/'
    }
}

/// The encoding of a byte sequence: groups of 3 input bytes become 4
/// output symbols; a final group of 1 byte yields 2 symbols and `==`,
/// a final group of 2 bytes yields 3 symbols and `=`.
pub open spec fn encode_spec(s: Seq<u8>) -> Seq<u8>
    decreases s.len(),
{
    if s.len() == 0 {
        Seq::empty()
    } else if s.len() == 1 {
        seq![
            b64_char(s[0] >> 2),
            b64_char((s[0] & 0x03) << 4),
            61u8,
            61u8,
        ]
    } else if s.len() == 2 {
        seq![
            b64_char(s[0] >> 2),
            b64_char(((s[0] & 0x03) << 4) | (s[1] >> 4)),
            b64_char((s[1] & 0x0f) << 2),
            61u8,
        ]
    } else {
        seq![
            b64_char(s[0] >> 2),
            b64_char(((s[0] & 0x03) << 4) | (s[1] >> 4)),
            b64_char(((s[1] & 0x0f) << 2) | (s[2] >> 6)),
            b64_char(s[2] & 0x3f),
        ] + encode_spec(s.skip(3))
    }
}

/// Every 6-bit group fed to `b64_char` by `encode_spec` is below 64.
proof fn lemma_group_bounds()
    by (bit_vector)
    ensures
        forall|x: u8| #[trigger] (x >> 2) < 64,
        forall|x: u8| #[trigger] ((x & 0x03) << 4) < 64,
        forall|x: u8, y: u8| #[trigger] (((x & 0x03) << 4) | (y >> 4)) < 64,
        forall|x: u8| #[trigger] ((x & 0x0f) << 2) < 64,
        forall|x: u8, y: u8| #[trigger] (((x & 0x0f) << 2) | (y >> 6)) < 64,
        forall|x: u8| #[trigger] (x & 0x3f) < 64,
{
}

/// The encoding of `n` input bytes has exactly `4 * ceil(n / 3)` symbols.
pub proof fn lemma_encode_len(s: Seq<u8>)
    ensures
        encode_spec(s).len() == 4 * ((s.len() + 2) / 3),
    decreases s.len(),
{
    if s.len() >= 3 {
        lemma_encode_len(s.skip(3));
    }
}

fn b64_char_exec(v: u8) -> (r: u8)
    requires
        v < 64,
    ensures
        r == b64_char(v),
{
    if v < 26 {
        65 + v
    } else if v < 52 {
        71 + v
    } else if v < 62 {
        v - 4
    } else if v == 62 {
        43
    } else {
        47
    }
}

/// Encode a byte sequence; any input, including the empty one, is valid.
pub fn encode(input: &[u8]) -> (r: Vec<u8>)
    ensures
        r@ == encode_spec(input@),
        r@.len() == 4 * ((input@.len() + 2) / 3),
{
    let n = input.len();
    let mut out: Vec<u8> = Vec::new();
    let mut i: usize = 0;
    proof {
        lemma_group_bounds();
        assert(input@.skip(0) =~= input@);
        assert(out@ + encode_spec(input@) =~= encode_spec(input@));
    }
    while n - i >= 3
        invariant
            i <= n,
            n == input@.len(),
            encode_spec(input@) == out@ + encode_spec(input@.skip(i as int)),
            forall|x: u8| #[trigger] (x >> 2) < 64,
            forall|x: u8| #[trigger] ((x & 0x03) << 4) < 64,
            forall|x: u8, y: u8| #[trigger] (((x & 0x03) << 4) | (y >> 4)) < 64,
            forall|x: u8| #[trigger] ((x & 0x0f) << 2) < 64,
            forall|x: u8, y: u8| #[trigger] (((x & 0x0f) << 2) | (y >> 6)) < 64,
            forall|x: u8| #[trigger] (x & 0x3f) < 64,
        decreases n - i,
    {
        let b0 = input[i];
        let b1 = input[i + 1];
        let b2 = input[i + 2];
        out.push(b64_char_exec(b0 >> 2));
        out.push(b64_char_exec(((b0 & 0x03) << 4) | (b1 >> 4)));
        out.push(b64_char_exec(((b1 & 0x0f) << 2) | (b2 >> 6)));
        out.push(b64_char_exec(b2 & 0x3f));
        proof {
            assert(input@.skip(i as int).skip(3) =~= input@.skip(i as int + 3));
        }
        i = i + 3;
    }
    if n - i == 1 {
        let b0 = input[i];
        out.push(b64_char_exec(b0 >> 2));
        out.push(b64_char_exec((b0 & 0x03) << 4));
        out.push(61);
        out.push(61);
    } else if n - i == 2 {
        let b0 = input[i];
        let b1 = input[i + 1];
        out.push(b64_char_exec(b0 >> 2));
        out.push(b64_char_exec(((b0 & 0x03) << 4) | (b1 >> 4)));
        out.push(b64_char_exec((b1 & 0x0f) << 2));
        out.push(61);
    }
    proof {
        lemma_encode_len(input@);
    }
    out
}

} // verus!
