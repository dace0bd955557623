use immortal::tokenizer::error::TokenizerError;
use immortal::tokenizer::format::{
    frame_payload, magic, unframe, FORMAT_VERSION_MAJOR, FORMAT_VERSION_MINOR, HEADER_LEN,
};

fn framed_sample() -> Vec<u8> {
    frame_payload(&[7, 8, 9, 10]).expect("frame")
}

#[test]
fn frame_then_unframe_gives_payload_back() {
    let bytes = framed_sample();
    assert_eq!(bytes.len(), HEADER_LEN + 4);
    let (minor, payload) = unframe(&bytes).expect("unframe");
    assert_eq!(minor, FORMAT_VERSION_MINOR);
    assert_eq!(payload, vec![7, 8, 9, 10]);
}

#[test]
fn header_is_little_endian() {
    let bytes = framed_sample();
    assert_eq!(&bytes[0..5], &magic());
    assert_eq!(&bytes[0..5], b"IMTK\0");
    assert_eq!(&bytes[5..7], &FORMAT_VERSION_MAJOR.to_le_bytes());
    assert_eq!(&bytes[7..9], &FORMAT_VERSION_MINOR.to_le_bytes());
    assert_eq!(&bytes[9..13], &4u32.to_le_bytes());
}

#[test]
fn unframe_rejects_bad_magic() {
    let mut bytes = framed_sample();
    bytes[0] = b'X';
    match unframe(&bytes) {
        Err(TokenizerError::HeaderCorrupt { reason }) => assert_eq!(
            reason,
            "bad magic: expected [73, 77, 84, 75, 0], got [88, 77, 84, 75, 0]"
        ),
        other => panic!("unexpected: {other:?}"),
    }
}

#[test]
fn unframe_rejects_wrong_major() {
    let mut bytes = framed_sample();
    bytes[5] = 99;
    match unframe(&bytes) {
        Err(TokenizerError::UnsupportedFormatVersion {
            found_major,
            supported_major,
        }) => {
            assert_eq!(found_major, 99);
            assert_eq!(supported_major, FORMAT_VERSION_MAJOR);
        }
        other => panic!("unexpected: {other:?}"),
    }
}

#[test]
fn unframe_reports_newer_minor() {
    let mut bytes = framed_sample();
    bytes[7] = 99;
    let (minor, payload) = unframe(&bytes).expect("still loads");
    assert_eq!(minor, 99);
    assert_eq!(payload.len(), 4);
}

#[test]
fn unframe_rejects_truncated_header() {
    match unframe(b"IM") {
        Err(TokenizerError::HeaderCorrupt { reason }) => {
            assert_eq!(reason, "file too small: 2 bytes < 13 header bytes")
        }
        other => panic!("unexpected: {other:?}"),
    }
}

#[test]
fn unframe_rejects_oversized_payload_length() {
    let mut bytes = framed_sample();
    bytes[9..13].copy_from_slice(&u32::MAX.to_le_bytes());
    match unframe(&bytes) {
        Err(TokenizerError::HeaderCorrupt { reason }) => assert_eq!(
            reason,
            "declared payload length 4294967295 exceeds available bytes 4"
        ),
        other => panic!("unexpected: {other:?}"),
    }
}

#[test]
fn unframe_ignores_trailing_bytes() {
    let mut bytes = framed_sample();
    bytes.extend_from_slice(&[1, 2, 3]);
    let (_, payload) = unframe(&bytes).expect("unframe");
    assert_eq!(payload, vec![7, 8, 9, 10]);
}

#[test]
fn empty_payload_frames() {
    let bytes = frame_payload(&[]).expect("frame");
    assert_eq!(bytes.len(), HEADER_LEN);
    let (_, payload) = unframe(&bytes).expect("unframe");
    assert!(payload.is_empty());
}
