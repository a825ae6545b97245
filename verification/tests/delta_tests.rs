//! Tests for the delta scanner: matching, literals, and round trips.

use rdiff::delta::{compute_delta, Instruction};
use rdiff::mksum::{generate_signature, SignatureOptions};
use rdiff::table::{build, SignatureTable};

fn options_with_block_len(block_len: u32) -> SignatureOptions {
    let mut options = SignatureOptions::default();
    options.block_len = block_len;
    options
}

fn table_for(basis: &[u8], block_len: u32) -> SignatureTable {
    let sig = generate_signature(basis, &options_with_block_len(block_len)).unwrap();
    build(&sig).unwrap()
}

/// Reconstruct the target from the basis and a delta, as an external
/// applier would.
fn apply(basis: &[u8], delta: &[Instruction]) -> Vec<u8> {
    let mut out: Vec<u8> = Vec::new();
    for ins in delta {
        match ins {
            Instruction::Copy { basis_offset, len } => {
                let start = *basis_offset as usize;
                let end = start + *len as usize;
                out.extend_from_slice(&basis[start..end]);
            }
            Instruction::Literal { bytes } => out.extend_from_slice(bytes),
        }
    }
    out
}

#[test]
fn empty_basis_and_target_give_empty_delta() {
    let table = table_for(&[], 2048);
    assert_eq!(table.len(), 0);
    let delta = compute_delta(&[], &table);
    assert_eq!(delta, Vec::new());
}

#[test]
fn delta_of_basis_against_itself_is_all_copies() {
    let basis = [10u8, 20, 30, 40, 50, 60, 70];
    let table = table_for(&basis, 3);
    let delta = compute_delta(&basis, &table);
    assert_eq!(
        delta,
        vec![
            Instruction::Copy { basis_offset: 0, len: 3 },
            Instruction::Copy { basis_offset: 3, len: 3 },
            Instruction::Copy { basis_offset: 6, len: 1 },
        ]
    );
    assert_eq!(apply(&basis, &delta), basis.to_vec());
}

#[test]
fn unrelated_target_is_one_literal() {
    let basis = [1u8, 2, 3, 4];
    let table = table_for(&basis, 2);
    let target = [9u8, 9, 9];
    let delta = compute_delta(&target, &table);
    assert_eq!(delta, vec![Instruction::Literal { bytes: vec![9, 9, 9] }]);
    assert_eq!(apply(&basis, &delta), target.to_vec());
}

#[test]
fn literal_runs_surround_a_moved_block() {
    // The basis block (5, 6) appears at offset 1 of the target, so the
    // scan must slide one byte (exercising the rolling update), flush
    // the pending byte as a Literal, copy the block, and flush the rest.
    let basis = [5u8, 6, 7, 8];
    let table = table_for(&basis, 2);
    let target = [170u8, 5, 6, 187];
    let delta = compute_delta(&target, &table);
    assert_eq!(
        delta,
        vec![
            Instruction::Literal { bytes: vec![170] },
            Instruction::Copy { basis_offset: 0, len: 2 },
            Instruction::Literal { bytes: vec![187] },
        ]
    );
    assert_eq!(apply(&basis, &delta), target.to_vec());
}

#[test]
fn short_final_block_still_matches() {
    // Basis length 5 is no multiple of 2: the final 1-byte block is
    // still signed, and a target ending in that tail still matches it.
    let basis = [1u8, 2, 3, 4, 5];
    let table = table_for(&basis, 2);
    let delta = compute_delta(&basis, &table);
    assert_eq!(
        delta,
        vec![
            Instruction::Copy { basis_offset: 0, len: 2 },
            Instruction::Copy { basis_offset: 2, len: 2 },
            Instruction::Copy { basis_offset: 4, len: 1 },
        ]
    );
    assert_eq!(apply(&basis, &delta), basis.to_vec());
}

#[test]
fn round_trip_of_mixed_target() {
    let basis = b"the quick brown fox jumps over the lazy dog".to_vec();
    let table = table_for(&basis, 4);
    let target = b"XXthe quick brown foxYY over the lazy dogsZZ".to_vec();
    let delta = compute_delta(&target, &table);
    assert_eq!(apply(&basis, &delta), target);
    // At least one whole block must have been matched as a Copy.
    assert!(delta.iter().any(|i| matches!(i, Instruction::Copy { .. })));
}

#[test]
fn round_trip_with_truncated_strong_hash() {
    let mut options = options_with_block_len(3);
    options.strong_len = 4;
    let basis = b"abcdefghij".to_vec();
    let sig = generate_signature(&basis, &options).unwrap();
    let table = build(&sig).unwrap();
    let target = b"defabcj".to_vec();
    let delta = compute_delta(&target, &table);
    assert_eq!(apply(&basis, &delta), target);
}

#[test]
fn weak_collision_resolved_by_strong_hash() {
    // Blocks (0, 2, 1) and (1, 0, 2) share a weak checksum but differ
    // in content. The scanner must reject block 0 by its strong hash
    // and copy block 1, never emitting an incorrect Copy.
    let basis = [0u8, 2, 1, 1, 0, 2];
    let table = table_for(&basis, 3);
    let target = [1u8, 0, 2];
    let delta = compute_delta(&target, &table);
    assert_eq!(delta, vec![Instruction::Copy { basis_offset: 3, len: 3 }]);
    assert_eq!(apply(&basis, &delta), target.to_vec());
}

#[test]
fn identical_blocks_copy_the_first_candidate() {
    // Two identical basis blocks: the scanner accepts the candidate
    // with the lowest block index both times.
    let basis = [7u8, 8, 7, 8];
    let table = table_for(&basis, 2);
    let delta = compute_delta(&basis, &table);
    assert_eq!(
        delta,
        vec![
            Instruction::Copy { basis_offset: 0, len: 2 },
            Instruction::Copy { basis_offset: 0, len: 2 },
        ]
    );
    assert_eq!(apply(&basis, &delta), basis.to_vec());
}

#[test]
fn truncation_collision_is_the_documented_risk() {
    // With the strong sum truncated to one byte, the blocks (26, 48, 0)
    // and (33, 34, 7) collide in both the weak checksum and the stored
    // strong byte. The scanner then copies the wrong block: exactly the
    // documented risk of truncation, which the round-trip law excludes
    // by its no-collision hypothesis.
    let mut options = SignatureOptions::default();
    options.block_len = 3;
    options.strong_len = 1;
    let basis = [26u8, 48, 0];
    let sig = generate_signature(&basis, &options).unwrap();
    let table = build(&sig).unwrap();
    let target = [33u8, 34, 7];
    let delta = compute_delta(&target, &table);
    assert_eq!(delta, vec![Instruction::Copy { basis_offset: 0, len: 3 }]);
    assert_ne!(apply(&basis, &delta), target.to_vec());
}

#[test]
fn empty_target_against_real_basis_is_empty() {
    let table = table_for(&[1, 2, 3, 4], 2);
    let delta = compute_delta(&[], &table);
    assert_eq!(delta, Vec::new());
}
