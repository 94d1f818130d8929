use feather_core::codec::{decode_patch, encode_patch, parse_patch, Patch};
use feather_core::CodecError;
use std::io::Write;

fn roundtrip(offset: usize, old_bytes: Vec<u8>, new_bytes: Vec<u8>) {
    let p = Patch { offset, old_bytes, new_bytes };
    let blob = encode_patch(&p);
    let q = decode_patch(&blob).expect("decode of encoded patch");
    assert_eq!(q.offset, p.offset);
    assert_eq!(q.old_bytes, p.old_bytes);
    assert_eq!(q.new_bytes, p.new_bytes);
}

#[test]
fn codec_roundtrip_empty() {
    roundtrip(0, vec![], vec![]);
}

#[test]
fn codec_roundtrip_small() {
    roundtrip(7, vec![1, 2, 3], vec![9, 8, 7]);
}

#[test]
fn codec_roundtrip_multikilobyte() {
    let old_bytes: Vec<u8> = (0..4096u32).map(|i| (i % 251) as u8).collect();
    let new_bytes: Vec<u8> = (0..4096u32).map(|i| (i % 13) as u8).collect();
    roundtrip(123_456, old_bytes, new_bytes);
}

#[test]
fn codec_blob_is_compressed() {
    // A run of equal bytes must shrink; a codec that handed the raw buffer
    // back unchanged could not.
    let p = Patch { offset: 0, old_bytes: vec![0u8; 4096], new_bytes: vec![0u8; 4096] };
    let blob = encode_patch(&p);
    assert!(blob.len() < 24 + 4096 + 4096);
    let q = decode_patch(&blob).expect("decode");
    assert_eq!(q.old_bytes, vec![0u8; 4096]);
}

#[test]
fn decode_garbage_is_corrupted() {
    let blob = vec![1u8, 2, 3, 4, 5, 6, 7, 8, 9];
    assert!(matches!(decode_patch(&blob), Err(CodecError::Corrupted)));
}

fn xz(data: &[u8]) -> Vec<u8> {
    let mut enc = xz2::write::XzEncoder::new(Vec::new(), 6);
    enc.write_all(data).unwrap();
    enc.finish().unwrap()
}

#[test]
fn decode_short_header_is_too_short() {
    let blob = xz(&[1u8, 2, 3]);
    assert!(matches!(decode_patch(&blob), Err(CodecError::TooShort)));
}

#[test]
fn decode_unequal_lengths_is_mismatch() {
    let mut raw = Vec::new();
    raw.extend_from_slice(&0u64.to_le_bytes());
    raw.extend_from_slice(&1u64.to_le_bytes());
    raw.extend_from_slice(&2u64.to_le_bytes());
    raw.extend_from_slice(&[5u8, 6, 7]);
    let blob = xz(&raw);
    assert!(matches!(decode_patch(&blob), Err(CodecError::LengthMismatch)));
}

#[test]
fn decode_overlong_lengths_is_mismatch() {
    let mut raw = Vec::new();
    raw.extend_from_slice(&0u64.to_le_bytes());
    raw.extend_from_slice(&100u64.to_le_bytes());
    raw.extend_from_slice(&100u64.to_le_bytes());
    raw.extend_from_slice(&[5u8, 6, 7]);
    let blob = xz(&raw);
    assert!(matches!(decode_patch(&blob), Err(CodecError::LengthMismatch)));
}

#[test]
fn parse_patch_exact() {
    let mut raw = Vec::new();
    raw.extend_from_slice(&42u64.to_le_bytes());
    raw.extend_from_slice(&2u64.to_le_bytes());
    raw.extend_from_slice(&2u64.to_le_bytes());
    raw.extend_from_slice(&[10u8, 11, 20, 21]);
    let p = parse_patch(&raw).expect("well-formed raw buffer");
    assert_eq!(p.offset, 42);
    assert_eq!(p.old_bytes, vec![10, 11]);
    assert_eq!(p.new_bytes, vec![20, 21]);
}

#[test]
fn parse_patch_trailing_bytes_rejected() {
    let mut raw = Vec::new();
    raw.extend_from_slice(&0u64.to_le_bytes());
    raw.extend_from_slice(&1u64.to_le_bytes());
    raw.extend_from_slice(&1u64.to_le_bytes());
    raw.extend_from_slice(&[1u8, 2, 3]);
    assert!(matches!(parse_patch(&raw), Err(CodecError::LengthMismatch)));
}
