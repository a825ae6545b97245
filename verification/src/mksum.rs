//! Generate file signatures.
//!
//! Signatures describe a 'base' or 'old' file, and allow deltas to be generated without
//! access to the old file.

use vstd::prelude::*;
use vstd::arithmetic::div_mod::{lemma_div_plus_one, lemma_fundamental_div_mod_converse};
use vstd::arithmetic::mul::{lemma_mul_inequality, lemma_mul_is_distributive_sub_other_way};
use crate::codec::{u32_be_bytes, write_u32be};
use crate::magic::SignatureFormat;
use crate::rollsum::{weak_sum, weak_sum_of};
use crate::strong::{strong_trunc, strong_hash, STRONG_NATIVE_LEN};
use crate::SigError;

verus! {

/// Configuration options for a generated signature file.
///
/// The values from `SignatureOptions::default()` are usually good, but applications
/// might want to set the `block_len`.
#[derive(Debug, Copy, Clone, PartialEq, Eq, Structural)]
pub struct SignatureOptions {
    /// Format of the signature, identified by its magic number.
    pub magic: SignatureFormat,
    /// Length of a block in bytes.
    ///
    /// Smaller blocks produce larger signatures because there are more blocks, but allow matching
    /// smaller common regions between files.
    pub block_len: u32,
    /// Length of strong signatures.
    ///
    /// This is normally best left at the default, which is the whole strong hash, but
    /// they may be truncated to get smaller signatures although with a risk of exploitable
    /// collisions.
    pub strong_len: u32,
}

impl SignatureOptions {
    /// The usual options: the default format, 2 kB blocks, whole strong hashes.
    pub fn default() -> (r: SignatureOptions)
        ensures
            r == (SignatureOptions {
                magic: SignatureFormat::Blake2Sig,
                block_len: crate::DEFAULT_BLOCK_LEN,
                strong_len: crate::DEFAULT_STRONG_LEN,
            }),
            r.spec_valid(),
    {
        SignatureOptions {
            magic: SignatureFormat::Blake2Sig,
            block_len: crate::DEFAULT_BLOCK_LEN,
            strong_len: crate::DEFAULT_STRONG_LEN,
        }
    }

    /// Options are valid when blocks are non-empty and the stored strong
    /// length is a non-empty prefix of the native strong hash.
    pub open spec fn spec_valid(&self) -> bool {
        &&& self.block_len > 0
        &&& 0 < self.strong_len <= STRONG_NATIVE_LEN
    }

    /// Check validity; says which field is rejected.
    pub fn validate(&self) -> (r: Result<(), SigError>)
        ensures
            self.spec_valid() <==> r is Ok,
            self.block_len == 0 ==> r == Err::<(), SigError>(SigError::BadBlockLen),
            self.block_len > 0 && !self.spec_valid() ==> r == Err::<(), SigError>(
                SigError::BadStrongLen,
            ),
    {
        if self.block_len == 0 {
            Err(SigError::BadBlockLen)
        } else if self.strong_len == 0 || self.strong_len > STRONG_NATIVE_LEN {
            Err(SigError::BadStrongLen)
        } else {
            Ok(())
        }
    }
}

/// How many blocks a basis of `len` bytes splits into: `ceil(len / b)`.
pub open spec fn num_blocks(len: nat, b: nat) -> nat
    decreases len,
{
    if len == 0 || b == 0 {
        0
    } else if len <= b {
        1
    } else {
        1 + num_blocks((len - b) as nat, b)
    }
}

/// The bytes of block `i` of `basis`: a full `b`-byte slice, except that
/// the final block keeps only the tail that is left.
pub open spec fn spec_block(basis: Seq<u8>, b: nat, i: int) -> Seq<u8> {
    basis.subrange(
        i * b,
        if (i + 1) * b <= basis.len() {
            (i + 1) * b
        } else {
            basis.len() as int
        },
    )
}

/// Block `i` exists exactly when it starts inside the basis.
pub proof fn lemma_num_blocks_index(len: nat, b: nat, i: int)
    requires
        b > 0,
        0 <= i,
    ensures
        i < num_blocks(len, b) <==> i * b < len,
    decreases len,
{
    if len == 0 {
        lemma_mul_inequality(0, i, b as int);
    } else if len <= b {
        if i >= 1 {
            lemma_mul_inequality(1, i, b as int);
        }
    } else {
        if i == 0 {
        } else {
            lemma_num_blocks_index((len - b) as nat, b, i - 1);
            lemma_mul_is_distributive_sub_other_way(b as int, i, 1);
            assert((i - 1) * b == i * b - b);
        }
    }
}

/// `num_blocks` is the rounded-up quotient.
pub proof fn lemma_num_blocks_is_ceil(len: nat, b: nat)
    requires
        b > 0,
    ensures
        num_blocks(len, b) == (len + b - 1) / (b as int),
    decreases len,
{
    if len == 0 {
        lemma_fundamental_div_mod_converse((b - 1) as int, b as int, 0, (b - 1) as int);
    } else if len <= b {
        lemma_fundamental_div_mod_converse((len + b - 1) as int, b as int, 1, (len - 1) as int);
    } else {
        lemma_num_blocks_is_ceil((len - b) as nat, b);
        lemma_div_plus_one((len - b + b - 1) as int, b as int);
    }
}

/// The per-block sums a signature stores, in basis order: the weak
/// checksum and the truncated strong sum of each block's bytes.
pub open spec fn block_sums(basis: Seq<u8>, b: nat, n: int) -> Seq<(u32, Seq<u8>)> {
    Seq::new(
        num_blocks(basis.len(), b),
        |i: int| (weak_sum(spec_block(basis, b, i)), strong_trunc(spec_block(basis, b, i), n)),
    )
}

/// The encoded block records from block `i` on: 4 weak-checksum bytes
/// then `n` strong-sum bytes per block.
pub open spec fn sig_records_from(basis: Seq<u8>, b: nat, n: int, i: int) -> Seq<u8>
    decreases num_blocks(basis.len(), b) - i,
{
    if b == 0 || i < 0 || i >= num_blocks(basis.len(), b) {
        Seq::empty()
    } else {
        u32_be_bytes(weak_sum(spec_block(basis, b, i))) + strong_trunc(spec_block(basis, b, i), n)
            + sig_records_from(basis, b, n, i + 1)
    }
}

/// The whole signature file: 12 header bytes, then one record per block.
pub open spec fn signature_bytes(basis: Seq<u8>, opts: SignatureOptions) -> Seq<u8> {
    u32_be_bytes(opts.magic.spec_magic_u32()) + u32_be_bytes(opts.block_len) + u32_be_bytes(
        opts.strong_len,
    ) + sig_records_from(basis, opts.block_len as nat, opts.strong_len as int, 0)
}

/// Law (boundary): an empty basis serializes to exactly the 12-byte
/// header, with no block records after it.
pub proof fn lemma_empty_basis_signature(opts: SignatureOptions)
    ensures
        signature_bytes(Seq::<u8>::empty(), opts) == u32_be_bytes(opts.magic.spec_magic_u32())
            + u32_be_bytes(opts.block_len) + u32_be_bytes(opts.strong_len),
        signature_bytes(Seq::<u8>::empty(), opts).len() == 12,
{
    assert(sig_records_from(Seq::<u8>::empty(), opts.block_len as nat, opts.strong_len as int, 0)
        == Seq::<u8>::empty());
    assert(signature_bytes(Seq::<u8>::empty(), opts) =~= u32_be_bytes(opts.magic.spec_magic_u32())
        + u32_be_bytes(opts.block_len) + u32_be_bytes(opts.strong_len));
}

/// Law (short tail): when the basis length is not a multiple of the
/// block length, a final block signature is still produced, covering
/// exactly the short tail that is left after the full blocks.
pub proof fn lemma_final_block_covers_tail(basis: Seq<u8>, b: nat, n: int)
    requires
        b > 0,
        basis.len() as int % (b as int) != 0,
    ensures
        num_blocks(basis.len(), b) == basis.len() as int / (b as int) + 1,
        spec_block(basis, b, basis.len() as int / (b as int)) == basis.skip(
            basis.len() as int / (b as int) * (b as int),
        ),
        spec_block(basis, b, basis.len() as int / (b as int)).len() == basis.len() as int % (
        b as int),
        block_sums(basis, b, n).last() == (
            weak_sum(basis.skip(basis.len() as int / (b as int) * (b as int))),
            strong_trunc(basis.skip(basis.len() as int / (b as int) * (b as int)), n),
        ),
{
    let len = basis.len() as int;
    let bi = b as int;
    let q = len / bi;
    let r = len % bi;
    vstd::arithmetic::div_mod::lemma_fundamental_div_mod(len, bi);
    vstd::arithmetic::div_mod::lemma_mod_bound(len, bi);
    assert(len == bi * q + r);
    assert(0 < r < bi);
    assert(q >= 0) by (nonlinear_arith)
        requires
            bi > 0 && bi * q + r == len && 0 <= r < bi && len >= 0,
    ;
    lemma_num_blocks_is_ceil(basis.len(), b);
    assert((q + 1) * bi == q * bi + bi) by (nonlinear_arith);
    lemma_fundamental_div_mod_converse(len + bi - 1, bi, q + 1, r - 1);
    assert(num_blocks(basis.len(), b) == q + 1);
    // Block q is the last one; it runs from q*b to the end.
    assert(q * bi == bi * q) by (nonlinear_arith);
    assert(spec_block(basis, b, q) == basis.subrange(q * bi, len));
    assert(basis.subrange(q * bi, len) =~= basis.skip(q * bi));
    lemma_num_blocks_index(basis.len(), b, q);
    assert(block_sums(basis, b, n).last() == block_sums(basis, b, n)[q]);
}
///
/// Writes the header, then reads the basis in consecutive `block_len`-byte
/// chunks (the final chunk may be shorter) and appends one record per
/// chunk. Invalid options are rejected before anything is produced; an
/// empty basis yields exactly the 12-byte header.
pub fn generate_signature(basis: &[u8], options: &SignatureOptions) -> (r: Result<
    Vec<u8>,
    SigError,
>)
    ensures
        options.spec_valid() ==> (r matches Ok(sig) && sig@ == signature_bytes(basis@, *options)),
        !options.spec_valid() ==> r is Err,
        options.block_len == 0 ==> r == Err::<Vec<u8>, SigError>(SigError::BadBlockLen),
        options.block_len > 0 && !options.spec_valid() ==> r == Err::<Vec<u8>, SigError>(
            SigError::BadStrongLen,
        ),
{
    match options.validate() {
        Err(e) => Err(e),
        Ok(()) => {
            let b: usize = options.block_len as usize;
            let s: usize = options.strong_len as usize;
            let ghost bn: nat = b as nat;
            let mut sig: Vec<u8> = Vec::new();
            write_u32be(&mut sig, options.magic.magic_u32());
            write_u32be(&mut sig, options.block_len);
            write_u32be(&mut sig, options.strong_len);
            let mut p: usize = 0;
            let ghost mut i: int = 0;
            proof {
                assert(sig@ + sig_records_from(basis@, bn, s as int, 0) =~= signature_bytes(
                    basis@,
                    *options,
                ));
            }
            while p < basis.len()
                invariant
                    options.spec_valid(),
                    b == options.block_len,
                    s == options.strong_len,
                    bn == b as nat,
                    0 <= i,
                    p == i * bn || (p == basis@.len() && i * bn >= p),
                    p <= basis@.len(),
                    sig@ + sig_records_from(basis@, bn, s as int, i) == signature_bytes(
                        basis@,
                        *options,
                    ),
                decreases basis@.len() - p,
            {
                proof {
                    lemma_num_blocks_index(basis@.len(), bn, i);
                }
                let e: usize = if basis.len() - p <= b {
                    basis.len()
                } else {
                    p + b
                };
                proof {
                    assert((i + 1) * bn == i * bn + bn) by (nonlinear_arith);
                    assert(spec_block(basis@, bn, i) =~= basis@.subrange(p as int, e as int));
                }
                let chunk = vstd::slice::slice_subrange(basis, p, e);
                let weak = weak_sum_of(chunk);
                write_u32be(&mut sig, weak);
                let mut strong = strong_hash(chunk, s);
                sig.append(&mut strong);
                p = e;
                proof {
                    i = i + 1;
                    assert(sig@ + sig_records_from(basis@, bn, s as int, i) =~= signature_bytes(
                        basis@,
                        *options,
                    ));
                }
            }
            proof {
                lemma_num_blocks_index(basis@.len(), bn, i);
                assert(sig@ =~= signature_bytes(basis@, *options));
            }
            Ok(sig)
        },
    }
}

} // verus!
