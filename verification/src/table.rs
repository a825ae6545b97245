//! Parse a signature into an in-memory lookup table.
//!
//! The table maps each weak checksum to the (ascending) indices of the
//! blocks that carry it, so a delta scan can find candidate blocks in
//! one average-constant-time probe. Weak-checksum collisions are valid
//! and expected; they are told apart later by the strong sum.

use std::collections::HashMap;
use vstd::prelude::*;
use vstd::arithmetic::div_mod::{
    lemma_small_mod, lemma_mod_sub_multiples_vanish, lemma_div_plus_one,
};
use crate::codec::{u32_of_be, u32_be_bytes, read_u32be, lemma_u32_be_round_trip};
use crate::magic::SignatureFormat;
use crate::mksum::{
    SignatureOptions, block_sums, sig_records_from, signature_bytes, num_blocks,
    lemma_num_blocks_is_ceil,
};
use crate::rollsum::weak_sum;
use crate::strong::{strong_trunc, STRONG_NATIVE_LEN};
use crate::SigError;

verus! {

/// What a well-formed signature denotes: its header fields and the
/// stored (weak, strong) pair of every block, in block order.
pub struct TableModel {
    /// The signature's format.
    pub magic: SignatureFormat,
    /// Length of a full block in bytes.
    pub block_len: u32,
    /// Length of each stored strong sum in bytes.
    pub strong_len: u32,
    /// Per-block stored sums, in block order.
    pub blocks: Seq<(u32, Seq<u8>)>,
}

/// Parse the block records of a signature body: each record is 4 weak
/// bytes then `n` strong bytes, and the body must divide evenly.
pub open spec fn parse_records(data: Seq<u8>, n: int) -> Option<Seq<(u32, Seq<u8>)>>
    decreases data.len(),
{
    if n < 1 {
        None
    } else if data.len() == 0 {
        Some(Seq::empty())
    } else if data.len() < 4 + n {
        None
    } else {
        match parse_records(data.skip(4 + n), n) {
            None => None,
            Some(rest) => Some(
                seq![(u32_of_be(data.take(4)), data.subrange(4, 4 + n))] + rest,
            ),
        }
    }
}

/// Parse a whole signature file into its model, if it is well formed.
pub open spec fn parse_signature(data: Seq<u8>) -> Option<TableModel> {
    if data.len() < 12 {
        None
    } else {
        let bl = u32_of_be(data.subrange(4, 8));
        let sl = u32_of_be(data.subrange(8, 12));
        match SignatureFormat::spec_from_magic(u32_of_be(data.subrange(0, 4))) {
            None => None,
            Some(fmt) => if bl == 0 || sl == 0 || sl > STRONG_NATIVE_LEN {
                None
            } else {
                match parse_records(data.skip(12), sl as int) {
                    None => None,
                    Some(blocks) => if blocks.len() > u32::MAX {
                        None
                    } else {
                        Some(TableModel { magic: fmt, block_len: bl, strong_len: sl, blocks })
                    },
                }
            },
        }
    }
}

/// The failure a malformed signature is reported with.
pub open spec fn parse_error(data: Seq<u8>) -> SigError {
    if data.len() < 12 {
        SigError::ShortHeader
    } else {
        let bl = u32_of_be(data.subrange(4, 8));
        let sl = u32_of_be(data.subrange(8, 12));
        if SignatureFormat::spec_from_magic(u32_of_be(data.subrange(0, 4))) is None {
            SigError::UnknownMagic
        } else if bl == 0 {
            SigError::BadBlockLen
        } else if sl == 0 || sl > STRONG_NATIVE_LEN {
            SigError::BadStrongLen
        } else if (data.len() - 12) % (4 + sl) != 0 {
            SigError::TruncatedRecords
        } else {
            SigError::TooManyBlocks
        }
    }
}

/// A record body parses exactly when it divides into whole records, and
/// then holds one parsed pair per record.
pub proof fn lemma_parse_records_some(data: Seq<u8>, n: int)
    requires
        1 <= n,
    ensures
        parse_records(data, n) is Some <==> data.len() as int % (4 + n) == 0,
        parse_records(data, n) matches Some(bs) ==> bs.len() == data.len() as int / (4 + n),
    decreases data.len(),
{
    if data.len() == 0 {
        lemma_small_mod(0, (4 + n) as nat);
    } else if data.len() < 4 + n {
        lemma_small_mod(data.len(), (4 + n) as nat);
    } else {
        lemma_parse_records_some(data.skip(4 + n), n);
        lemma_mod_sub_multiples_vanish(data.len() as int, 4 + n);
        assert(data.skip(4 + n).len() == data.len() - (4 + n));
        lemma_div_plus_one(data.len() - (4 + n), 4 + n);
    }
}

/// The records a signature of `basis` encodes from block `i` on parse
/// back into exactly the stored block sums from `i` on.
proof fn lemma_parse_records_of_generated(basis: Seq<u8>, b: nat, n: int, i: int)
    requires
        b >= 1,
        1 <= n <= 8,
        0 <= i <= num_blocks(basis.len(), b),
    ensures
        parse_records(sig_records_from(basis, b, n, i), n) == Some(
            block_sums(basis, b, n).skip(i),
        ),
    decreases num_blocks(basis.len(), b) - i,
{
    let nb = num_blocks(basis.len(), b) as int;
    let bs = block_sums(basis, b, n);
    if i == nb {
        assert(sig_records_from(basis, b, n, i) == Seq::<u8>::empty());
        assert(bs.skip(i) =~= Seq::<(u32, Seq<u8>)>::empty());
    } else {
        lemma_parse_records_of_generated(basis, b, n, i + 1);
        let w = weak_sum(crate::mksum::spec_block(basis, b, i));
        let st = crate::strong::strong_trunc(crate::mksum::spec_block(basis, b, i), n);
        let d = sig_records_from(basis, b, n, i);
        lemma_u32_be_round_trip();
        assert(st.len() == n);
        assert(d == u32_be_bytes(w) + st + sig_records_from(basis, b, n, i + 1));
        assert(d.len() >= 4 + n);
        assert(d.take(4) =~= u32_be_bytes(w));
        assert(d.subrange(4, 4 + n) =~= st);
        assert(d.skip(4 + n) =~= sig_records_from(basis, b, n, i + 1));
        assert(u32_of_be(d.take(4)) == w);
        assert(seq![(w, st)] + bs.skip(i + 1) =~= bs.skip(i));
    }
}

/// Law: a generated signature always parses back — into a table with
/// the generating options and one stored sum pair per basis block,
/// `ceil(len / block_len)` of them.
pub proof fn lemma_signature_round_trip(basis: Seq<u8>, opts: SignatureOptions)
    requires
        opts.spec_valid(),
        num_blocks(basis.len(), opts.block_len as nat) <= u32::MAX,
    ensures
        parse_signature(signature_bytes(basis, opts)) == Some(
            TableModel {
                magic: opts.magic,
                block_len: opts.block_len,
                strong_len: opts.strong_len,
                blocks: block_sums(basis, opts.block_len as nat, opts.strong_len as int),
            },
        ),
        block_sums(basis, opts.block_len as nat, opts.strong_len as int).len() == (basis.len()
            + opts.block_len - 1) / (opts.block_len as int),
{
    let bl = opts.block_len as nat;
    let sl = opts.strong_len as int;
    let d = signature_bytes(basis, opts);
    lemma_u32_be_round_trip();
    assert(d.subrange(0, 4) =~= u32_be_bytes(opts.magic.spec_magic_u32()));
    assert(d.subrange(4, 8) =~= u32_be_bytes(opts.block_len));
    assert(d.subrange(8, 12) =~= u32_be_bytes(opts.strong_len));
    assert(d.skip(12) =~= sig_records_from(basis, bl, sl, 0));
    match opts.magic {
        SignatureFormat::Blake2Sig => {
            assert(SignatureFormat::spec_from_magic(opts.magic.spec_magic_u32()) == Some(
                opts.magic,
            ));
        },
    }
    lemma_parse_records_of_generated(basis, bl, sl, 0);
    assert(block_sums(basis, bl, sl).skip(0) =~= block_sums(basis, bl, sl));
    lemma_num_blocks_is_ceil(basis.len(), bl);
}

/// The indices of the blocks whose stored weak checksum is `w`, in
/// ascending order.
pub open spec fn spec_candidates(blocks: Seq<(u32, Seq<u8>)>, w: u32) -> Seq<u32>
    decreases blocks.len(),
{
    if blocks.len() == 0 {
        Seq::empty()
    } else {
        let rest = spec_candidates(blocks.drop_last(), w);
        if blocks.last().0 == w {
            rest.push((blocks.len() - 1) as u32)
        } else {
            rest
        }
    }
}

/// The candidate list for `w` holds exactly the indices whose weak sum
/// is `w`, each once, in strictly ascending order.
pub proof fn lemma_candidates(blocks: Seq<(u32, Seq<u8>)>, w: u32)
    requires
        blocks.len() <= u32::MAX,
    ensures
        forall|j: int|
            0 <= j < spec_candidates(blocks, w).len() ==> (#[trigger] spec_candidates(blocks, w)[j])
                < blocks.len() && blocks[spec_candidates(blocks, w)[j] as int].0 == w,
        forall|j1: int, j2: int|
            0 <= j1 < j2 < spec_candidates(blocks, w).len() ==> spec_candidates(blocks, w)[j1]
                < spec_candidates(blocks, w)[j2],
        forall|b: int|
            0 <= b < blocks.len() && (#[trigger] blocks[b]).0 == w ==> exists|j: int|
                0 <= j < spec_candidates(blocks, w).len() && spec_candidates(blocks, w)[j] == b,
    decreases blocks.len(),
{
    if blocks.len() > 0 {
        let t = blocks.drop_last();
        lemma_candidates(t, w);
        assert forall|b: int| 0 <= b < blocks.len() && (#[trigger] blocks[b]).0 == w implies exists|
            j: int,
        |
            0 <= j < spec_candidates(blocks, w).len() && spec_candidates(blocks, w)[j] == b by {
            if b < blocks.len() - 1 {
                assert(t[b].0 == w);
                let j = choose|j: int|
                    0 <= j < spec_candidates(t, w).len() && spec_candidates(t, w)[j] == b;
                assert(spec_candidates(blocks, w)[j] == b);
            } else {
                assert(blocks.last().0 == w);
                let j = spec_candidates(blocks, w).len() - 1;
                assert(spec_candidates(blocks, w)[j] == b);
            }
        }
    }
}

/// One stored block signature: its position, weak checksum and
/// (possibly truncated) strong sum.
pub struct BlockSignature {
    /// 0-based, sequential position of the block in the basis.
    pub index: u32,
    /// The block's weak rolling checksum.
    pub weak: u32,
    /// The block's strong sum, `strong_len` bytes.
    pub strong: Vec<u8>,
}

/// An immutable in-memory index of one signature: the parsed records in
/// block order, plus a map from weak checksum to candidate blocks.
pub struct SignatureTable {
    /// The signature's format.
    pub magic: SignatureFormat,
    /// Length of a full block in bytes.
    pub block_len: u32,
    /// Length of each stored strong sum in bytes.
    pub strong_len: u32,
    /// The parsed block signatures, in block order.
    pub blocks: Vec<BlockSignature>,
    /// Weak checksum -> ascending indices of the blocks that carry it.
    pub index: HashMap<u32, Vec<u32>>,
}

impl View for SignatureTable {
    type V = TableModel;

    open spec fn view(&self) -> TableModel {
        TableModel {
            magic: self.magic,
            block_len: self.block_len,
            strong_len: self.strong_len,
            blocks: self.blocks@.map_values(|bs: BlockSignature| (bs.weak, bs.strong@)),
        }
    }
}

impl SignatureTable {
    /// The table is internally consistent: valid header fields, block
    /// records numbered in order, and an index that lists for every
    /// weak checksum exactly its ascending candidate indices.
    pub open spec fn wf(&self) -> bool {
        &&& self.block_len > 0
        &&& 0 < self.strong_len <= STRONG_NATIVE_LEN
        &&& self.blocks@.len() <= u32::MAX
        &&& forall|i: int|
            0 <= i < self.blocks@.len() ==> (#[trigger] self.blocks@[i]).index == i
        &&& forall|i: int|
            0 <= i < self.blocks@.len() ==> (#[trigger] self.blocks@[i]).strong@.len()
                == self.strong_len
        &&& forall|w: u32|
            (#[trigger] self.index@.contains_key(w)) ==> self.index@[w]@ == spec_candidates(
                self@.blocks,
                w,
            )
        &&& forall|w: u32|
            (#[trigger] spec_candidates(self@.blocks, w)).len() > 0 ==> self.index@.contains_key(w)
    }

    /// Number of block records in the table.
    pub fn len(&self) -> (r: usize)
        ensures
            r == self@.blocks.len(),
    {
        proof {
            assert(self@.blocks.len() == self.blocks@.len());
        }
        self.blocks.len()
    }

    /// The ascending indices of the blocks whose weak checksum is
    /// `weak`; empty when none carries it. Read-only.
    pub fn lookup(&self, weak: u32) -> (r: Vec<u32>)
        requires
            self.wf(),
        ensures
            r@ == spec_candidates(self@.blocks, weak),
    {
        match self.index.get(&weak) {
            Some(v) => copy_indices(v),
            None => {
                proof {
                    assert(spec_candidates(self@.blocks, weak) =~= Seq::<u32>::empty());
                }
                Vec::new()
            },
        }
    }
}

/// A plain element-by-element copy of an index list.
fn copy_indices(v: &Vec<u32>) -> (r: Vec<u32>)
    ensures
        r@ == v@,
{
    let mut r: Vec<u32> = Vec::new();
    let mut i: usize = 0;
    while i < v.len()
        invariant
            i <= v@.len(),
            r@ == v@.take(i as int),
        decreases v@.len() - i,
    {
        r.push(v[i]);
        proof {
            assert(v@.take(i as int).push(v@[i as int]) =~= v@.take(i as int + 1));
        }
        i = i + 1;
    }
    proof {
        assert(v@.take(v@.len() as int) =~= v@);
    }
    r
}

/// Build the lookup table for a signature.
///
/// Parses the header and every block record; fails eagerly, without
/// yielding any partial table, when the magic is unrecognized, a header
/// field is invalid, or the record bytes truncate mid-record.
pub fn build(data: &[u8]) -> (r: Result<SignatureTable, SigError>)
    ensures
        r matches Ok(t) ==> t.wf() && parse_signature(data@) == Some(t@),
        r matches Err(e) ==> parse_signature(data@) is None && e == parse_error(data@),
{
    if data.len() < 12 {
        return Err(SigError::ShortHeader);
    }
    let m = read_u32be(data, 0);
    let fmt = match SignatureFormat::from_magic(m) {
        None => {
            return Err(SigError::UnknownMagic);
        },
        Some(f) => f,
    };
    let bl = read_u32be(data, 4);
    if bl == 0 {
        return Err(SigError::BadBlockLen);
    }
    let sl = read_u32be(data, 8);
    if sl == 0 || sl > STRONG_NATIVE_LEN {
        return Err(SigError::BadStrongLen);
    }
    let slu: usize = sl as usize;
    let rec: usize = 4 + slu;
    let body_len: usize = data.len() - 12;
    proof {
        lemma_parse_records_some(data@.skip(12), slu as int);
    }
    if body_len % rec != 0 {
        return Err(SigError::TruncatedRecords);
    }
    let count: usize = body_len / rec;
    if count > (u32::MAX as usize) {
        return Err(SigError::TooManyBlocks);
    }
    let ghost full = parse_records(data@.skip(12), slu as int)->Some_0;
    let mut blocks: Vec<BlockSignature> = Vec::new();
    let mut index: HashMap<u32, Vec<u32>> = HashMap::new();
    let mut pos: usize = 12;
    proof {
        assert(full.take(0) =~= Seq::<(u32, Seq<u8>)>::empty());
        assert(blocks@.map_values(|bs: BlockSignature| (bs.weak, bs.strong@)) =~= full.take(0));
    }
    while pos < data.len()
        invariant
            1 <= slu <= 8,
            sl == slu,
            rec == 4 + slu,
            12 <= pos <= data@.len(),
            (data@.len() - pos) % (rec as int) == 0,
            blocks@.len() * rec == pos - 12,
            full.len() == (data@.len() - 12) as int / (rec as int),
            full.len() <= u32::MAX,
            blocks@.len() <= full.len(),
            parse_records(data@.skip(pos as int), slu as int) == Some(full.skip(
                blocks@.len() as int,
            )),
            blocks@.map_values(|bs: BlockSignature| (bs.weak, bs.strong@)) == full.take(
                blocks@.len() as int,
            ),
            forall|i: int| 0 <= i < blocks@.len() ==> (#[trigger] blocks@[i]).index == i,
            forall|i: int|
                0 <= i < blocks@.len() ==> (#[trigger] blocks@[i]).strong@.len() == slu,
            forall|w: u32|
                (#[trigger] index@.contains_key(w)) ==> index@[w]@ == spec_candidates(
                    full.take(blocks@.len() as int),
                    w,
                ),
            forall|w: u32|
                (#[trigger] spec_candidates(full.take(blocks@.len() as int), w)).len() > 0
                    ==> index@.contains_key(w),
        decreases data@.len() - pos,
    {
        let ghost k = blocks@.len() as int;
        let ghost tail = data@.skip(pos as int);
        proof {
            // A whole record is left: the remaining length is a positive
            // multiple of the record size.
            if data@.len() - pos < rec {
                lemma_small_mod((data@.len() - pos) as nat, rec as nat);
            }
            assert(tail.len() >= rec);
        }
        let w = read_u32be(data, pos);
        let strong_slice = vstd::slice::slice_subrange(data, pos + 4, pos + rec);
        let sv = vstd::slice::slice_to_vec(strong_slice);
        proof {
            assert(tail.take(4) =~= data@.subrange(pos as int, pos as int + 4));
            assert(tail.subrange(4, 4 + slu as int) =~= data@.subrange(
                pos as int + 4,
                pos as int + rec as int,
            ));
            assert(tail.skip(4 + slu as int) =~= data@.skip(pos as int + rec as int));
            assert(parse_records(tail.skip(4 + slu as int), slu as int) is Some);
            let rest = parse_records(tail.skip(4 + slu as int), slu as int)->Some_0;
            assert(tail.take(4) =~= tail.subrange(0, 4));
            assert(full.skip(k) == seq![(w, sv@)] + rest);
            assert(full.skip(k).len() == 1 + rest.len());
            assert(k < full.len());
            assert(full[k] == full.skip(k)[0]);
            assert(full[k] == (w, sv@));
            assert forall|j: int| 0 <= j < rest.len() implies rest[j] == full[k + 1 + j] by {
                assert(full.skip(k)[j + 1] == (seq![(w, sv@)] + rest)[j + 1]);
            }
            assert(rest =~= full.skip(k + 1));
        }
        let idx: u32 = blocks.len() as u32;
        let mut cand: Vec<u32> = match index.get(&w) {
            Some(v) => copy_indices(v),
            None => {
                proof {
                    assert(spec_candidates(full.take(k), w) =~= Seq::<u32>::empty());
                }
                Vec::new()
            },
        };
        cand.push(idx);
        index.insert(w, cand);
        blocks.push(BlockSignature { index: idx, weak: w, strong: sv });
        proof {
            lemma_mod_sub_multiples_vanish(data@.len() - pos, rec as int);
            assert((k + 1) * rec == k * rec + rec) by (nonlinear_arith);
        }
        pos = pos + rec;
        proof {
            assert(blocks@.map_values(|bs: BlockSignature| (bs.weak, bs.strong@)) =~= full.take(
                k + 1,
            ));
            assert(full.take(k + 1).drop_last() =~= full.take(k));
            assert(full.take(k + 1).last() == (w, sv@));
            assert(spec_candidates(full.take(k + 1), w) == spec_candidates(full.take(k), w).push(
                idx,
            ));
            assert forall|w2: u32| w2 != w implies spec_candidates(full.take(k + 1), w2)
                == spec_candidates(full.take(k), w2) by {
            }
            assert forall|w2: u32| (#[trigger] spec_candidates(full.take(k + 1), w2)).len() > 0
                implies index@.contains_key(w2) by {
                if w2 != w {
                    assert(spec_candidates(full.take(k + 1), w2) == spec_candidates(
                        full.take(k),
                        w2,
                    ));
                }
            }
        }
    }
    proof {
        vstd::arithmetic::div_mod::lemma_div_by_multiple(blocks@.len() as int, rec as int);
        assert(blocks@.len() == full.len());
        assert(full.take(full.len() as int) =~= full);
    }
    let t = SignatureTable { magic: fmt, block_len: bl, strong_len: sl, blocks, index };
    proof {
        assert(t@.blocks == full);
        assert(parse_signature(data@) == Some(t@));
    }
    Ok(t)
}

} // verus!
