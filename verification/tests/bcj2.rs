use r7z::bcj2::decode;
use r7z::R7zError;

#[test]
fn bcj2_plain_bytes_pass_through() {
    let out = decode(b"hello", &[], &[], &[0, 0, 0, 0, 0], 5).unwrap();
    assert_eq!(out, b"hello");
}

#[test]
fn bcj2_unconverted_call_keeps_the_opcode() {
    let out = decode(&[0xE8], &[], &[], &[0, 0, 0, 0, 0], 1).unwrap();
    assert_eq!(out, vec![0xE8]);
}

#[test]
fn bcj2_converted_call_becomes_relative() {
    let out = decode(&[0xE8], &[0, 0, 0, 0x15], &[], &[0, 0x7F, 0xFF, 0xFC, 0x00], 5).unwrap();
    assert_eq!(out, vec![0xE8, 0x10, 0, 0, 0]);
}

#[test]
fn bcj2_rejects_malformed_streams() {
    assert_eq!(decode(b"x", &[], &[], &[1, 0, 0, 0, 0], 1), Err(R7zError::Decompression));
    assert_eq!(decode(b"x", &[0], &[], &[0, 0, 0, 0, 0], 1), Err(R7zError::Decompression));
    assert_eq!(decode(b"x", &[], &[], &[0, 0xFF, 0xFF, 0xFF, 0xFF], 1), Err(R7zError::Decompression));
    assert_eq!(decode(b"xy", &[], &[], &[0, 0, 0, 0, 0], 1), Err(R7zError::Decompression));
    assert_eq!(decode(&[0xE8], &[], &[], &[0, 0x7F, 0xFF, 0xFC, 0x00], 5), Err(R7zError::Decompression));
}
