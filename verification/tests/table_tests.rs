//! Tests for parsing signatures into lookup tables.

use rdiff::mksum::{generate_signature, SignatureOptions};
use rdiff::rollsum::weak_sum_of;
use rdiff::table::{build, SignatureTable};
use rdiff::SigError;

fn err_of(r: Result<SignatureTable, SigError>) -> SigError {
    match r {
        Err(e) => e,
        Ok(_) => panic!("expected a format error"),
    }
}

fn options_with_block_len(block_len: u32) -> SignatureOptions {
    let mut options = SignatureOptions::default();
    options.block_len = block_len;
    options
}

#[test]
fn build_of_generated_signature_counts_blocks() {
    // ceil(5 / 2) = 3 blocks.
    let sig = generate_signature(&[1, 2, 3, 4, 5], &options_with_block_len(2)).unwrap();
    let table = build(&sig).unwrap();
    assert_eq!(table.len(), 3);
    assert_eq!(table.block_len, 2);
    assert_eq!(table.strong_len, 8);
}

#[test]
fn build_of_empty_signature_is_empty() {
    let sig = generate_signature(&[], &SignatureOptions::default()).unwrap();
    assert_eq!(sig.len(), 12);
    let table = build(&sig).unwrap();
    assert_eq!(table.len(), 0);
}

#[test]
fn short_header_rejected() {
    let sig = generate_signature(&[], &SignatureOptions::default()).unwrap();
    assert_eq!(err_of(build(&sig[..10])), SigError::ShortHeader);
    assert_eq!(err_of(build(&[])), SigError::ShortHeader);
}

#[test]
fn unknown_magic_rejected() {
    let mut sig = generate_signature(&[], &SignatureOptions::default()).unwrap();
    sig[0] = b'x';
    assert_eq!(err_of(build(&sig)), SigError::UnknownMagic);
}

#[test]
fn zero_block_len_header_rejected() {
    let mut sig = generate_signature(&[], &SignatureOptions::default()).unwrap();
    // Zero out the block_len field at offset 4..8.
    for i in 4..8 {
        sig[i] = 0;
    }
    assert_eq!(err_of(build(&sig)), SigError::BadBlockLen);
}

#[test]
fn oversized_strong_len_header_rejected() {
    let mut sig = generate_signature(&[], &SignatureOptions::default()).unwrap();
    // strong_len field at offset 8..12: set to 9, above the native length.
    sig[11] = 9;
    assert_eq!(err_of(build(&sig)), SigError::BadStrongLen);
}

#[test]
fn truncated_records_rejected() {
    let mut sig = generate_signature(&[1, 2, 3], &options_with_block_len(2)).unwrap();
    sig.pop();
    assert_eq!(err_of(build(&sig)), SigError::TruncatedRecords);
}

#[test]
fn lookup_returns_ascending_candidates_on_weak_collision() {
    // The blocks (0, 2, 1) and (1, 0, 2) have equal byte sums and equal
    // weighted sums, so they collide in the weak checksum while their
    // contents differ.
    let basis = [0u8, 2, 1, 1, 0, 2];
    let sig = generate_signature(&basis, &options_with_block_len(3)).unwrap();
    let table = build(&sig).unwrap();
    let weak = weak_sum_of(&[0, 2, 1]);
    assert_eq!(weak, weak_sum_of(&[1, 0, 2]));
    assert_eq!(table.lookup(weak), vec![0u32, 1]);
    assert_eq!(table.lookup(weak.wrapping_add(1)), Vec::<u32>::new());
}

#[test]
fn lookup_of_unshared_weak_is_empty() {
    let sig = generate_signature(&[1, 2, 3, 4], &options_with_block_len(2)).unwrap();
    let table = build(&sig).unwrap();
    assert_eq!(table.lookup(weak_sum_of(&[9, 9])), Vec::<u32>::new());
}
