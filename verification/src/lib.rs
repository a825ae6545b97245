//! Network-delta library in the rsync style.
//!
//! A *signature* describes a basis (old) file as a list of per-block
//! checksums; a *delta* is a stream of copy/literal instructions that
//! rebuilds a target (new) file from the basis plus the delta, without
//! the two files ever being compared directly.

use vstd::prelude::*;

pub mod magic;
pub mod codec;
pub mod rollsum;
pub mod strong;
pub mod mksum;
pub mod table;
pub mod delta;

verus! {

/// Default length of a basis block in bytes.
pub const DEFAULT_BLOCK_LEN: u32 = 2048;

/// Default length of a stored strong hash in bytes: the whole native output.
pub const DEFAULT_STRONG_LEN: u32 = 8;

/// A typed failure of signature generation or parsing.
///
/// Configuration failures (`BadBlockLen`, `BadStrongLen`) are raised
/// before any bytes are produced or consumed; the others are format
/// failures raised while parsing a signature.
#[derive(Debug, Copy, Clone, PartialEq, Eq, Structural)]
pub enum SigError {
    /// The signature holds fewer than the 12 header bytes.
    ShortHeader,
    /// The magic number names no supported format.
    UnknownMagic,
    /// `block_len` is zero.
    BadBlockLen,
    /// `strong_len` is zero or exceeds the native strong-hash length.
    BadStrongLen,
    /// The record bytes do not divide into whole records.
    TruncatedRecords,
    /// More block records than a 32-bit index can number.
    TooManyBlocks,
}

} // verus!
