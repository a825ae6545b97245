//! Signature file formats and their magic numbers.

use vstd::prelude::*;

verus! {

/// The magic number that opens a BLAKE2-style signature file: the bytes
/// `b"rs"` followed by `0x01, 0x37`, read as a big-endian `u32`.
pub const BLAKE2_SIG_MAGIC: u32 = 0x72730137;

/// A supported on-wire signature format, identified by a 4-byte magic
/// number. Each variant fixes the (weak, strong) checksum pair used for
/// every block of one signature.
#[derive(Debug, Copy, Clone, PartialEq, Eq, Structural)]
pub enum SignatureFormat {
    /// Rolling weak checksum plus the truncatable strong block hash.
    Blake2Sig,
}

impl SignatureFormat {
    /// The 4-byte magic number of this format, as a big-endian `u32`.
    pub fn magic_u32(&self) -> (r: u32)
        ensures
            r == self.spec_magic_u32(),
    {
        match self {
            SignatureFormat::Blake2Sig => BLAKE2_SIG_MAGIC,
        }
    }

    /// The magic number of this format.
    pub open spec fn spec_magic_u32(&self) -> u32 {
        match self {
            SignatureFormat::Blake2Sig => BLAKE2_SIG_MAGIC,
        }
    }

    /// The format a magic number selects, if it is recognized.
    pub fn from_magic(m: u32) -> (r: Option<SignatureFormat>)
        ensures
            r == Self::spec_from_magic(m),
    {
        if m == BLAKE2_SIG_MAGIC {
            Some(SignatureFormat::Blake2Sig)
        } else {
            None
        }
    }

    /// The format a magic number selects, if any.
    pub open spec fn spec_from_magic(m: u32) -> Option<SignatureFormat> {
        if m == BLAKE2_SIG_MAGIC {
            Some(SignatureFormat::Blake2Sig)
        } else {
            None
        }
    }
}

} // verus!
