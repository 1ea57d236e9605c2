use wstcp::frame::{decode_frame, encode_frame, Decoded, FrameError, Opcode};

fn encoded(fin: bool, op: Opcode, payload: &[u8]) -> Vec<u8> {
    let mut out: Vec<u8> = Vec::new();
    let p: Vec<u8> = payload.to_vec();
    encode_frame(fin, op, &p, &mut out);
    out
}

#[test]
fn encode_len_125() {
    let out = encoded(true, Opcode::Binary, &[7u8; 125]);
    assert_eq!(out.len(), 2 + 125);
    assert_eq!(&out[..2], &[0x82, 125]);
}

#[test]
fn encode_len_126() {
    let out = encoded(true, Opcode::Binary, &[7u8; 126]);
    assert_eq!(out.len(), 4 + 126);
    assert_eq!(&out[..4], &[0x82, 126, 0, 126]);
}

#[test]
fn encode_len_127() {
    let out = encoded(true, Opcode::Binary, &[7u8; 127]);
    assert_eq!(&out[..4], &[0x82, 126, 0, 127]);
}

#[test]
fn encode_len_65535() {
    let out = encoded(true, Opcode::Binary, &[7u8; 65535]);
    assert_eq!(out.len(), 4 + 65535);
    assert_eq!(&out[..4], &[0x82, 126, 255, 255]);
}

#[test]
fn encode_len_65536() {
    let out = encoded(true, Opcode::Binary, &[7u8; 65536]);
    assert_eq!(out.len(), 10 + 65536);
    assert_eq!(&out[..10], &[0x82, 127, 0, 0, 0, 0, 0, 1, 0, 0]);
}

#[test]
fn decode_masked_hello() {
    let key = [1u8, 2, 3, 4];
    let payload = b"hello";
    let mut buf: Vec<u8> = vec![0x81, 0x80 | 5];
    buf.extend_from_slice(&key);
    for (i, b) in payload.iter().enumerate() {
        buf.push(*b ^ key[i % 4]);
    }
    match decode_frame(&buf, 0, true) {
        Decoded::Complete { frame, size } => {
            assert_eq!(size, 11);
            assert!(frame.fin);
            assert!(matches!(frame.opcode, Opcode::Text));
            assert_eq!(frame.payload, b"hello".to_vec());
        },
        _ => panic!("expected a complete frame"),
    }
}

#[test]
fn decode_of_encode_round_trip() {
    for (op, fin) in [
        (Opcode::Binary, true),
        (Opcode::Text, false),
        (Opcode::Ping, true),
        (Opcode::Pong, true),
    ] {
        let wire = encoded(fin, op, b"payload");
        match decode_frame(&wire, 0, false) {
            Decoded::Complete { frame, size } => {
                assert_eq!(size, wire.len());
                assert_eq!(frame.fin, fin);
                assert_eq!(frame.opcode, op);
                assert_eq!(frame.payload, b"payload".to_vec());
            },
            _ => panic!("expected a complete frame"),
        }
    }
}

#[test]
fn decode_at_cursor() {
    let mut buf = vec![0xAA, 0xBB, 0xCC];
    buf.extend_from_slice(&encoded(true, Opcode::Binary, b"xy"));
    match decode_frame(&buf, 3, false) {
        Decoded::Complete { frame, size } => {
            assert_eq!(size, 4);
            assert_eq!(frame.payload, b"xy".to_vec());
        },
        _ => panic!("expected a complete frame"),
    }
}

#[test]
fn decode_rejects_reserved_bits() {
    let buf = vec![0x82 | 0x40, 0x80, 0, 0, 0, 0];
    assert!(matches!(
        decode_frame(&buf, 0, true),
        Decoded::Invalid { err: FrameError::ReservedBits }
    ));
}

#[test]
fn decode_rejects_reserved_opcode() {
    let buf = vec![0x83, 0x80, 0, 0, 0, 0];
    assert!(matches!(
        decode_frame(&buf, 0, true),
        Decoded::Invalid { err: FrameError::ReservedOpcode }
    ));
}

#[test]
fn decode_rejects_fragmented_control() {
    // ping without fin
    let buf = vec![0x09, 0x80, 0, 0, 0, 0];
    assert!(matches!(
        decode_frame(&buf, 0, true),
        Decoded::Invalid { err: FrameError::BadControlFrame }
    ));
}

#[test]
fn decode_rejects_oversize_control() {
    // ping with 16-bit length form
    let buf = vec![0x89, 0x80 | 126, 0, 200];
    assert!(matches!(
        decode_frame(&buf, 0, true),
        Decoded::Invalid { err: FrameError::BadControlFrame }
    ));
}

#[test]
fn decode_rejects_unmasked_client_frame() {
    let buf = vec![0x82, 2, 65, 66];
    assert!(matches!(
        decode_frame(&buf, 0, true),
        Decoded::Invalid { err: FrameError::BadMask }
    ));
}

#[test]
fn decode_rejects_oversize_payload() {
    // 64-bit length of 16 MiB + 1
    let buf = vec![0x82, 0x80 | 127, 0, 0, 0, 0, 0x01, 0, 0, 0x01];
    assert!(matches!(
        decode_frame(&buf, 0, true),
        Decoded::Invalid { err: FrameError::Oversize }
    ));
}

#[test]
fn decode_rejects_msb_length() {
    let buf = vec![0x82, 0x80 | 127, 0x80, 0, 0, 0, 0, 0, 0, 0];
    assert!(matches!(
        decode_frame(&buf, 0, true),
        Decoded::Invalid { err: FrameError::BadLength }
    ));
}

#[test]
fn decode_needs_more() {
    let buf = vec![0x82];
    assert!(matches!(decode_frame(&buf, 0, true), Decoded::NeedMore { need: 1 }));
    let buf2 = vec![0x82, 0x80 | 3, 1, 2, 3, 4, 9];
    // header complete, 3 payload bytes promised, 1 arrived
    assert!(matches!(decode_frame(&buf2, 0, true), Decoded::NeedMore { need: 2 }));
}

#[test]
fn encode_of_decode_round_trip() {
    // unmasked wire bytes in minimal length form decode and re-encode to
    // the same bytes
    let mut wires: Vec<Vec<u8>> = vec![
        vec![0x82, 3, 1, 2, 3],
        vec![0x81, 0],
        vec![0x88, 2, 0x03, 0xE8],
    ];
    let mut long = vec![0x82, 126, 1, 0];
    long.extend_from_slice(&[9u8; 256]);
    wires.push(long);
    for wire in wires {
        match decode_frame(&wire, 0, false) {
            Decoded::Complete { frame, size } => {
                assert_eq!(size, wire.len());
                let mut out: Vec<u8> = Vec::new();
                encode_frame(frame.fin, frame.opcode, &frame.payload, &mut out);
                assert_eq!(out, wire);
            },
            _ => panic!("expected a complete frame"),
        }
    }
}
