use ws_engine::base64::encode;
use ws_engine::sha1::{digest, to_hex};

fn hex_of(input: &[u8]) -> Vec<u8> {
    to_hex(digest(input).as_slice())
}

#[test]
fn base64_empty() {
    assert_eq!(encode(b""), b"".to_vec());
}

#[test]
fn base64_one_byte() {
    assert_eq!(encode(b"f"), b"Zg==".to_vec());
}

#[test]
fn base64_two_bytes() {
    assert_eq!(encode(b"fo"), b"Zm8=".to_vec());
}

#[test]
fn base64_three_bytes() {
    assert_eq!(encode(b"foo"), b"Zm9v".to_vec());
}

#[test]
fn base64_longer_input() {
    assert_eq!(encode(b"foobar"), b"Zm9vYmFy".to_vec());
    assert_eq!(encode(b"foob"), b"Zm9vYg==".to_vec());
    assert_eq!(encode(b"fooba"), b"Zm9vYmE=".to_vec());
}

#[test]
fn base64_all_alphabet_rows() {
    // bytes that exercise digits, '+' and '/'
    assert_eq!(encode(&[0xFB, 0xEF, 0xBE]), b"++++".to_vec());
    assert_eq!(encode(&[0xFF, 0xFF, 0xFF]), b"////".to_vec());
    assert_eq!(encode(&[0xD7, 0x6D, 0xF8]), b"1234".to_vec());
}

#[test]
fn base64_length_formula() {
    for n in 0..32usize {
        let input = vec![0xA5u8; n];
        assert_eq!(encode(&input).len(), 4 * ((n + 2) / 3));
    }
}

#[test]
fn sha1_empty() {
    assert_eq!(hex_of(b""), b"da39a3ee5e6b4b0d3255bfef95601890afd80709".to_vec());
}

#[test]
fn sha1_abc() {
    assert_eq!(hex_of(b"abc"), b"a9993e364706816aba3e25717850c26c9cd0d89d".to_vec());
}

#[test]
fn sha1_long_input() {
    // spans the one-block / two-block padding boundary
    assert_eq!(
        hex_of(b"abcdbcdecdefdefgefghfghighijhijkijkljklmklmnlmnomnopnopq"),
        b"84983e441c3bd26ebaae4aa1f95129e5e54670f1".to_vec()
    );
    assert_eq!(
        hex_of(b"The quick brown fox jumps over the lazy dog"),
        b"2fd4e1c67a2d28fced849ee1bb76e7391b93eb12".to_vec()
    );
}

#[test]
fn sha1_padding_boundaries() {
    // 55, 56 and 64 bytes: the three padding shapes
    assert_eq!(
        hex_of(&[0x61u8; 55]),
        b"c1c8bbdc22796e28c0e15163d20899b65621d65a".to_vec()
    );
    assert_eq!(
        hex_of(&[0x61u8; 56]),
        b"c2db330f6083854c99d4b5bfb6e8f29f201be699".to_vec()
    );
    assert_eq!(
        hex_of(&[0x61u8; 64]),
        b"0098ba824b5c16427bd7a1122a5a442a25ec644d".to_vec()
    );
}

#[test]
fn sha1_digest_is_twenty_bytes() {
    assert_eq!(digest(b"anything").len(), 20);
    assert_eq!(to_hex(digest(b"anything").as_slice()).len(), 40);
}
