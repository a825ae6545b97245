//! The strong block hash.
//!
//! A 64-bit multiply-xor fold over the block's bytes, emitted as 8
//! big-endian digest bytes. Stored strong sums may be truncated to a
//! prefix of the digest: a documented trade of collision resistance for
//! signature size. The digest is a pure function of the block's bytes,
//! so equal blocks always carry equal stored sums.

use vstd::prelude::*;

verus! {

/// Initial value of the 64-bit fold.
pub const STRONG_OFFSET: u64 = 0xcbf29ce484222325;

/// Multiplier of the 64-bit fold.
pub const STRONG_PRIME: u64 = 0x100000001b3;

/// Native length of the strong digest in bytes.
pub const STRONG_NATIVE_LEN: u32 = 8;

/// The 64-bit fold over `s`: xor each byte in, then multiply, wrapping.
pub open spec fn strong_acc(s: Seq<u8>) -> u64
    decreases s.len(),
{
    if s.len() == 0 {
        STRONG_OFFSET
    } else {
        ((((strong_acc(s.drop_last()) ^ (s.last() as u64)) as nat) * (STRONG_PRIME as nat))
            % 0x10000000000000000) as u64
    }
}

/// Byte `i` (big-endian) of a 64-bit value.
pub open spec fn u64_be_byte(x: u64, i: int) -> u8
    recommends
        0 <= i < 8,
{
    ((x >> ((56 - 8 * i) as u64)) & 0xff) as u8
}

/// The full 8-byte strong digest of a block.
pub open spec fn strong_sum(s: Seq<u8>) -> Seq<u8> {
    Seq::new(8, |i: int| u64_be_byte(strong_acc(s), i))
}

/// The stored strong sum: the first `n` bytes of the digest.
pub open spec fn strong_trunc(s: Seq<u8>, n: int) -> Seq<u8>
    recommends
        0 <= n <= 8,
{
    strong_sum(s).take(n)
}

/// The strong sum of `block`, truncated to `strong_len` bytes.
pub fn strong_hash(block: &[u8], strong_len: usize) -> (r: Vec<u8>)
    requires
        strong_len <= 8,
    ensures
        r@ == strong_trunc(block@, strong_len as int),
        r@.len() == strong_len,
{
    let mut acc: u64 = STRONG_OFFSET;
    let mut i: usize = 0;
    proof {
        assert(block@.take(0) =~= Seq::<u8>::empty());
    }
    while i < block.len()
        invariant
            i <= block@.len(),
            acc == strong_acc(block@.take(i as int)),
        decreases block@.len() - i,
    {
        proof {
            assert(block@.take(i as int + 1).drop_last() =~= block@.take(i as int));
            assert(block@.take(i as int + 1).last() == block@[i as int]);
        }
        acc = (acc ^ (block[i] as u64)).wrapping_mul(STRONG_PRIME);
        i = i + 1;
    }
    proof {
        assert(block@.take(block@.len() as int) =~= block@);
    }
    let mut r: Vec<u8> = Vec::new();
    let mut k: usize = 0;
    while k < strong_len
        invariant
            k <= strong_len <= 8,
            acc == strong_acc(block@),
            r@.len() == k,
            forall|j: int| 0 <= j < k ==> r@[j] == u64_be_byte(acc, j),
        decreases strong_len - k,
    {
        let sh: u64 = 56 - 8 * (k as u64);
        proof {
            assert((acc >> sh) & 0xff < 256) by (bit_vector);
        }
        r.push(((acc >> sh) & 0xff) as u8);
        k = k + 1;
    }
    proof {
        assert(r@ =~= strong_trunc(block@, strong_len as int));
    }
    r
}

} // verus!
