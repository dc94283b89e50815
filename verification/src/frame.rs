//! The frame codec: parse one complete client frame out of a byte
//! buffer, enforcing the masking and length-field rules, and recover
//! the payload by XOR with the 4-byte mask key.

use vstd::prelude::*;

verus! {

/// A decoded frame: application data, or one of the control signals.
#[derive(Debug)]
pub enum Frame {
    Data(Vec<u8>),
    Ping,
    Pong,
    Close,
}

/// Why a buffer was rejected by the codec.
#[derive(Debug, PartialEq, Eq, Structural, Clone, Copy)]
pub enum FrameError {
    TooShort,
    UnmaskedFrame,
    LengthTooLarge,
    UnsupportedOpcode,
}

/// The 4-bit opcode in the first header byte.
pub open spec fn opcode_of(b: Seq<u8>) -> u8
    recommends
        b.len() >= 1,
{
    b[0] & 0x0f
}

/// The mask flag: high bit of the second header byte.
pub open spec fn masked_of(b: Seq<u8>) -> bool
    recommends
        b.len() >= 2,
{
    b[1] & 0x80 != 0
}

/// The raw 7-bit length field of the second header byte.
pub open spec fn len_field(b: Seq<u8>) -> u8
    recommends
        b.len() >= 2,
{
    b[1] & 0x7f
}

/// Bytes taken by the fixed header and the optional 16-bit extension.
pub open spec fn header_len(b: Seq<u8>) -> int {
    if len_field(b) == 126 {
        4
    } else {
        2
    }
}

/// The declared payload length: the field itself for 0..=125, or the
/// big-endian 16-bit extension after marker 126.
pub open spec fn payload_len_of(b: Seq<u8>) -> int {
    if len_field(b) == 126 {
        (b[2] as int) * 256 + (b[3] as int)
    } else {
        len_field(b) as int
    }
}

/// The 4-byte mask key following the length field.
pub open spec fn mask_of(b: Seq<u8>) -> Seq<u8> {
    b.subrange(header_len(b), header_len(b) + 4)
}

/// How many bytes one complete frame occupies in the buffer.
pub open spec fn total_len(b: Seq<u8>) -> int {
    header_len(b) + 4 + payload_len_of(b)
}

/// The still-masked payload bytes.
pub open spec fn masked_payload(b: Seq<u8>) -> Seq<u8> {
    b.subrange(header_len(b) + 4, total_len(b))
}

/// XOR each payload byte with `m[i mod 4]`; its own inverse.
pub open spec fn apply_mask_spec(p: Seq<u8>, m: Seq<u8>) -> Seq<u8>
    recommends
        m.len() == 4,
{
    Seq::new(p.len(), |i: int| p[i] ^ m[i % 4])
}

/// Whether the opcode maps to a supported frame kind.
pub open spec fn opcode_supported(op: u8) -> bool {
    op == 1 || op == 2 || op == 8 || op == 9 || op == 10
}

/// The error, if any, that the codec reports for a buffer; checks are
/// made in this order.
pub open spec fn frame_err(b: Seq<u8>) -> Option<FrameError> {
    if b.len() < 2 {
        Some(FrameError::TooShort)
    } else if !masked_of(b) {
        Some(FrameError::UnmaskedFrame)
    } else if len_field(b) == 126 && b.len() < 4 {
        Some(FrameError::TooShort)
    } else if len_field(b) == 127 {
        Some(FrameError::LengthTooLarge)
    } else if b.len() < total_len(b) {
        Some(FrameError::TooShort)
    } else if !opcode_supported(opcode_of(b)) {
        Some(FrameError::UnsupportedOpcode)
    } else {
        None
    }
}

/// What a successfully decoded frame must be for a given buffer.
pub open spec fn frame_matches(f: Frame, b: Seq<u8>) -> bool {
    match f {
        Frame::Data(p) => (opcode_of(b) == 1 || opcode_of(b) == 2) && p@ == apply_mask_spec(
            masked_payload(b),
            mask_of(b),
        ),
        Frame::Close => opcode_of(b) == 8,
        Frame::Ping => opcode_of(b) == 9,
        Frame::Pong => opcode_of(b) == 10,
    }
}

/// Any buffer of fewer than 2 bytes is rejected as too short.
pub proof fn lemma_short_buffer_rejected(b: Seq<u8>)
    requires
        b.len() < 2,
    ensures
        frame_err(b) == Some(FrameError::TooShort),
{
}

/// Any buffer whose mask flag is clear is rejected as unmasked,
/// regardless of every other field.
pub proof fn lemma_unmasked_rejected(b: Seq<u8>)
    requires
        b.len() >= 2,
        b[1] & 0x80 == 0,
    ensures
        frame_err(b) == Some(FrameError::UnmaskedFrame),
{
}

/// A masked buffer whose length field is the 64-bit marker 127 is
/// rejected as too large.
pub proof fn lemma_length_marker_rejected(b: Seq<u8>)
    requires
        b.len() >= 2,
        b[1] & 0x80 != 0,
        b[1] & 0x7f == 127,
    ensures
        frame_err(b) == Some(FrameError::LengthTooLarge),
{
}

/// XOR twice with the same byte cancels.
proof fn lemma_xor_cancel()
    by (bit_vector)
    ensures
        forall|x: u8, y: u8| #[trigger] ((x ^ y) ^ y) == x,
{
}

/// Masking is a self-inverse XOR stream: unmasking a masked payload
/// with the same 4-byte key gives the payload back.
pub proof fn lemma_mask_involutive(p: Seq<u8>, m: Seq<u8>)
    requires
        m.len() == 4,
    ensures
        apply_mask_spec(apply_mask_spec(p, m), m) == p,
{
    lemma_xor_cancel();
    assert(apply_mask_spec(apply_mask_spec(p, m), m) =~= p);
}

/// Apply (or strip) a 4-byte mask to a payload.
pub fn apply_mask(payload: &[u8], mask: &[u8]) -> (r: Vec<u8>)
    requires
        mask@.len() == 4,
    ensures
        r@ == apply_mask_spec(payload@, mask@),
{
    let n = payload.len();
    let mut out: Vec<u8> = Vec::new();
    let mut i: usize = 0;
    while i < n
        invariant
            i <= n,
            n == payload@.len(),
            mask@.len() == 4,
            out@.len() == i,
            forall|j: int| 0 <= j < i ==> out@[j] == (payload@[j] ^ mask@[j % 4]),
        decreases n - i,
    {
        out.push(payload[i] ^ mask[i % 4]);
        i = i + 1;
    }
    proof {
        assert(out@ =~= apply_mask_spec(payload@, mask@));
    }
    out
}

/// Parse one complete frame out of `buffer`. Returns exactly the error
/// `frame_err` names, or the frame `frame_matches` describes.
pub fn parse_frame(buffer: &[u8]) -> (r: Result<Frame, FrameError>)
    ensures
        match r {
            Ok(f) => frame_err(buffer@) is None && frame_matches(f, buffer@),
            Err(e) => frame_err(buffer@) == Some(e),
        },
{
    if buffer.len() < 2 {
        return Err(FrameError::TooShort);
    }
    let first = buffer[0];
    let opcode = first & 0x0f;
    let second = buffer[1];
    if second & 0x80 == 0 {
        return Err(FrameError::UnmaskedFrame);
    }
    let lf = second & 0x7f;
    let mut offset: usize = 2;
    let payload_len: usize;
    if lf == 126 {
        if buffer.len() < 4 {
            return Err(FrameError::TooShort);
        }
        payload_len = (buffer[2] as usize) * 256 + (buffer[3] as usize);
        offset = 4;
    } else if lf == 127 {
        return Err(FrameError::LengthTooLarge);
    } else {
        payload_len = lf as usize;
    }
    proof {
        assert(offset as int == header_len(buffer@));
        assert(payload_len as int == payload_len_of(buffer@));
    }
    if buffer.len() < offset + 4 + payload_len {
        return Err(FrameError::TooShort);
    }
    let mut data: Vec<u8> = Vec::new();
    let mut i: usize = 0;
    while i < payload_len
        invariant
            i <= payload_len,
            offset as int == header_len(buffer@),
            payload_len as int == payload_len_of(buffer@),
            offset + 4 + payload_len <= buffer@.len(),
            data@.len() == i,
            forall|j: int|
                0 <= j < i ==> data@[j] == (buffer@[offset + 4 + j] ^ buffer@[
                    offset + (j % 4)
                ]),
        decreases payload_len - i,
    {
        data.push(buffer[offset + 4 + i] ^ buffer[offset + (i % 4)]);
        i = i + 1;
    }
    proof {
        assert(data@ =~= apply_mask_spec(masked_payload(buffer@), mask_of(buffer@)));
    }
    match opcode {
        1 => Ok(Frame::Data(data)),
        2 => Ok(Frame::Data(data)),
        8 => Ok(Frame::Close),
        9 => Ok(Frame::Ping),
        10 => Ok(Frame::Pong),
        _ => Err(FrameError::UnsupportedOpcode),
    }
}

/// The two bytes of a zero-length keepalive ping frame (FIN set,
/// opcode `0x9`).
pub fn ping_frame() -> (r: Vec<u8>)
    ensures
        r@ == seq![0x89u8, 0x00u8],
{
    let mut v: Vec<u8> = Vec::new();
    v.push(0x89);
    v.push(0x00);
    proof {
        assert(v@ =~= seq![0x89u8, 0x00u8]);
    }
    v
}

/// The two bytes of a zero-length pong reply frame (FIN set,
/// opcode `0xA`).
pub fn pong_frame() -> (r: Vec<u8>)
    ensures
        r@ == seq![0x8Au8, 0x00u8],
{
    let mut v: Vec<u8> = Vec::new();
    v.push(0x8A);
    v.push(0x00);
    proof {
        assert(v@ =~= seq![0x8Au8, 0x00u8]);
    }
    v
}

} // verus!
