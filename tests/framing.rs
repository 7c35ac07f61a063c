use notifications::frame::{decode_frame, encode_frame, encode_length, FrameDecode};

#[test]
fn length_prefix_values() {
    assert_eq!(encode_length(0), vec![0x00]);
    assert_eq!(encode_length(1), vec![0x01]);
    assert_eq!(encode_length(127), vec![0x7f]);
    assert_eq!(encode_length(128), vec![0x80, 0x01]);
    assert_eq!(encode_length(300), vec![0xac, 0x02]);
    assert_eq!(encode_length(16384), vec![0x80, 0x80, 0x01]);
}

#[test]
fn frame_round_trip_with_trailing_bytes() {
    let payload: Vec<u8> = (0..200u32).map(|i| (i * 7 % 256) as u8).collect();
    let mut wire = encode_frame(&payload);
    assert_eq!(&wire[..2], &[0xc8, 0x01]);
    assert_eq!(wire.len(), 202);
    wire.extend_from_slice(&[9, 9, 9]);
    match decode_frame(&wire, 1024) {
        FrameDecode::Frame { payload: p, consumed } => {
            assert_eq!(p, payload);
            assert_eq!(consumed, 202);
        }
        other => panic!("unexpected {:?}", other),
    }
}

#[test]
fn empty_payload_frame() {
    let wire = encode_frame(&Vec::new());
    assert_eq!(wire, vec![0]);
    match decode_frame(&wire, 0) {
        FrameDecode::Frame { payload, consumed } => {
            assert!(payload.is_empty());
            assert_eq!(consumed, 1);
        }
        other => panic!("unexpected {:?}", other),
    }
}

#[test]
fn frame_over_limit_is_oversized() {
    let wire = encode_frame(&vec![5; 11]);
    assert!(matches!(decode_frame(&wire, 10), FrameDecode::Oversized));
    // the limit is checked on the prefix alone
    assert!(matches!(decode_frame(&vec![0x81, 0x08], 1024), FrameDecode::Oversized));
}

#[test]
fn partial_frames_are_incomplete() {
    assert!(matches!(decode_frame(&Vec::new(), 10), FrameDecode::Incomplete));
    assert!(matches!(decode_frame(&vec![0x80], 1024), FrameDecode::Incomplete));
    assert!(matches!(decode_frame(&vec![3, 1, 2], 10), FrameDecode::Incomplete));
}

#[test]
fn needless_zero_prefix_is_malformed() {
    assert!(matches!(decode_frame(&vec![0x81, 0x00, 1], 10), FrameDecode::Malformed));
    let long = vec![0xff; 12];
    assert!(matches!(decode_frame(&long, usize::MAX), FrameDecode::Malformed));
}
