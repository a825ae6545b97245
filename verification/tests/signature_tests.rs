//! Tests for signature generation and its options.

use rdiff::mksum::{generate_signature, SignatureOptions};
use rdiff::magic::SignatureFormat;
use rdiff::SigError;

#[test]
pub fn empty_signature_header() {
    let empty_input: Vec<u8> = Vec::new();
    let options = SignatureOptions::default();
    assert_eq!(options.block_len, 2 << 10);

    let sig_buf = generate_signature(&empty_input, &options).unwrap();
    assert_eq!(
        *sig_buf,
        [
            b'r', b's', 0x01, 0x37, // BLAKE2 sig magic
            0, 0, 8, 0, // 2kB blocks
            0, 0, 0, 8, // 8 byte hashes
        ]
    );
}

#[test]
fn default_options() {
    let options = SignatureOptions::default();
    assert_eq!(options.magic, SignatureFormat::Blake2Sig);
    assert_eq!(options.block_len, 2048);
    assert_eq!(options.strong_len, 8);
    assert!(options.validate().is_ok());
}

#[test]
fn zero_block_len_rejected() {
    let mut options = SignatureOptions::default();
    options.block_len = 0;
    assert_eq!(options.validate(), Err(SigError::BadBlockLen));
    let err = generate_signature(&[1, 2, 3], &options);
    assert_eq!(err, Err(SigError::BadBlockLen));
}

#[test]
fn bad_strong_len_rejected() {
    let mut options = SignatureOptions::default();
    options.strong_len = 0;
    assert_eq!(options.validate(), Err(SigError::BadStrongLen));
    assert_eq!(generate_signature(&[1], &options), Err(SigError::BadStrongLen));
    options.strong_len = 9;
    assert_eq!(options.validate(), Err(SigError::BadStrongLen));
    assert_eq!(generate_signature(&[1], &options), Err(SigError::BadStrongLen));
}

#[test]
fn one_record_per_block_with_short_tail() {
    // 5 bytes in 2-byte blocks: blocks (2, 2, 1), so three records of
    // 4 weak bytes + 8 strong bytes each after the 12-byte header.
    let mut options = SignatureOptions::default();
    options.block_len = 2;
    let sig = generate_signature(&[1, 2, 3, 4, 5], &options).unwrap();
    assert_eq!(sig.len(), 12 + 3 * (4 + 8));
}

#[test]
fn exact_block_multiple_has_no_extra_record() {
    let mut options = SignatureOptions::default();
    options.block_len = 2;
    let sig = generate_signature(&[1, 2, 3, 4], &options).unwrap();
    assert_eq!(sig.len(), 12 + 2 * (4 + 8));
}

#[test]
fn truncated_strong_len_shrinks_records() {
    let mut options = SignatureOptions::default();
    options.block_len = 2;
    options.strong_len = 4;
    let sig = generate_signature(&[1, 2, 3, 4, 5], &options).unwrap();
    assert_eq!(sig.len(), 12 + 3 * (4 + 4));
}

#[test]
fn weak_checksum_exact_value() {
    // s1 = 0+2+1 = 3; s2 = 0 + (0+2) + (0+2+1) = 5; weak = s1 | s2 << 16.
    assert_eq!(rdiff::rollsum::weak_sum_of(&[0, 2, 1]), 3 | (5 << 16));
    assert_eq!(rdiff::rollsum::weak_sum_of(&[]), 0);
}

#[test]
fn one_byte_basis_exact_record() {
    // One zero byte in a 1-byte block: weak checksum 0, and the strong
    // hash is one fold step from the offset basis:
    // (0xcbf29ce484222325 ^ 0) * 0x100000001b3 mod 2^64
    //   == 0xaf63bd4c8601b7df, stored big-endian.
    let mut options = SignatureOptions::default();
    options.block_len = 1;
    let sig = generate_signature(&[0], &options).unwrap();
    assert_eq!(
        sig[12..],
        [
            0, 0, 0, 0, // weak checksum of [0]
            0xaf, 0x63, 0xbd, 0x4c, 0x86, 0x01, 0xb7, 0xdf, // strong hash of [0]
        ]
    );
}

#[test]
fn magic_round_trip() {
    assert_eq!(SignatureFormat::Blake2Sig.magic_u32(), 0x72730137);
    assert_eq!(SignatureFormat::from_magic(0x72730137), Some(SignatureFormat::Blake2Sig));
    assert_eq!(SignatureFormat::from_magic(0x12345678), None);
}
