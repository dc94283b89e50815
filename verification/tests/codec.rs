use ws_engine::frame::{apply_mask, parse_frame, ping_frame, pong_frame, Frame, FrameError};

fn masked_frame(first: u8, mask: [u8; 4], payload: &[u8]) -> Vec<u8> {
    assert!(payload.len() <= 125);
    let mut v = vec![first, 0x80 | (payload.len() as u8)];
    v.extend_from_slice(&mask);
    for (i, b) in payload.iter().enumerate() {
        v.push(b ^ mask[i % 4]);
    }
    v
}

#[test]
fn masking_is_self_inverse() {
    let payload = b"round and round it goes";
    let mask = [0xAAu8, 0xBB, 0xCC, 0xDD];
    let once = apply_mask(payload, &mask);
    let twice = apply_mask(once.as_slice(), &mask);
    assert_eq!(twice, payload.to_vec());
}

#[test]
fn masking_zero_key_is_identity() {
    let payload = [0x48u8, 0x69];
    let once = apply_mask(&payload, &[0, 0, 0, 0]);
    assert_eq!(once, payload.to_vec());
}

#[test]
fn rejects_empty_and_one_byte() {
    assert_eq!(parse_frame(&[]).unwrap_err(), FrameError::TooShort);
    assert_eq!(parse_frame(&[0x81]).unwrap_err(), FrameError::TooShort);
}

#[test]
fn rejects_unmasked_whatever_else_is_set() {
    // data frame, length 2, unmasked
    assert_eq!(
        parse_frame(&[0x81, 0x02, 0x48, 0x69]).unwrap_err(),
        FrameError::UnmaskedFrame
    );
    // close frame, unmasked
    assert_eq!(parse_frame(&[0x88, 0x00]).unwrap_err(), FrameError::UnmaskedFrame);
    // unmasked with the 127 length marker: mask checked first
    assert_eq!(parse_frame(&[0x81, 0x7F]).unwrap_err(), FrameError::UnmaskedFrame);
}

#[test]
fn rejects_64_bit_length_marker() {
    assert_eq!(parse_frame(&[0x81, 0xFF]).unwrap_err(), FrameError::LengthTooLarge);
}

#[test]
fn rejects_truncated_extended_length() {
    // masked, marker 126, but only 3 bytes in the buffer
    assert_eq!(parse_frame(&[0x81, 0xFE, 0x00]).unwrap_err(), FrameError::TooShort);
}

#[test]
fn rejects_missing_mask_or_payload_bytes() {
    // declared length 1, mask present, payload byte missing
    assert_eq!(
        parse_frame(&[0x81, 0x81, 0x01, 0x02, 0x03, 0x04]).unwrap_err(),
        FrameError::TooShort
    );
    // mask itself truncated
    assert_eq!(parse_frame(&[0x81, 0x80, 0x01, 0x02]).unwrap_err(), FrameError::TooShort);
}

#[test]
fn rejects_unknown_opcodes() {
    // continuation (0x0) is unsupported by design
    assert_eq!(
        parse_frame(&[0x80, 0x80, 0, 0, 0, 0]).unwrap_err(),
        FrameError::UnsupportedOpcode
    );
    assert_eq!(
        parse_frame(&[0x83, 0x80, 0, 0, 0, 0]).unwrap_err(),
        FrameError::UnsupportedOpcode
    );
}

#[test]
fn decodes_zero_masked_text_frame() {
    // FIN=1, opcode 0x1, masked, length 2, zero mask key, payload "Hi"
    let buf = [0x81u8, 0x82, 0x00, 0x00, 0x00, 0x00, 0x48, 0x69];
    match parse_frame(&buf).unwrap() {
        Frame::Data(p) => assert_eq!(p, b"Hi".to_vec()),
        _ => panic!("expected a data frame"),
    }
}

#[test]
fn decodes_masked_text_frame() {
    let buf = masked_frame(0x81, [0x37, 0xFA, 0x21, 0x3D], b"Hello");
    match parse_frame(&buf).unwrap() {
        Frame::Data(p) => assert_eq!(p, b"Hello".to_vec()),
        _ => panic!("expected a data frame"),
    }
}

#[test]
fn decodes_binary_frame() {
    let buf = masked_frame(0x82, [9, 8, 7, 6], &[1, 2, 3, 4, 5]);
    match parse_frame(&buf).unwrap() {
        Frame::Data(p) => assert_eq!(p, vec![1, 2, 3, 4, 5]),
        _ => panic!("expected a data frame"),
    }
}

#[test]
fn decodes_extended_length_frame() {
    // 300-byte payload needs the 16-bit length extension
    let payload: Vec<u8> = (0..300u32).map(|i| (i % 251) as u8).collect();
    let mask = [0x10u8, 0x20, 0x30, 0x40];
    let mut buf = vec![0x82u8, 0x80 | 126, 0x01, 0x2C];
    buf.extend_from_slice(&mask);
    for (i, b) in payload.iter().enumerate() {
        buf.push(b ^ mask[i % 4]);
    }
    match parse_frame(&buf).unwrap() {
        Frame::Data(p) => assert_eq!(p, payload),
        _ => panic!("expected a data frame"),
    }
}

#[test]
fn decodes_control_frames() {
    assert!(matches!(parse_frame(&[0x88, 0x80, 0, 0, 0, 0]).unwrap(), Frame::Close));
    assert!(matches!(parse_frame(&[0x89, 0x80, 0, 0, 0, 0]).unwrap(), Frame::Ping));
    assert!(matches!(parse_frame(&[0x8A, 0x80, 0, 0, 0, 0]).unwrap(), Frame::Pong));
}

#[test]
fn keepalive_frames_are_two_bytes() {
    assert_eq!(ping_frame(), vec![0x89u8, 0x00]);
    assert_eq!(pong_frame(), vec![0x8Au8, 0x00]);
}
