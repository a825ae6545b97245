//! Compute deltas: scan a target stream for basis-block matches.
//!
//! The scanner slides a window of one block length over the target.
//! At each position it looks the window's weak checksum up in the
//! signature table, confirms candidates with the strong sum, and emits
//! a Copy for a confirmed block or grows a pending Literal run by one
//! byte. Near the end of the target the window shrinks byte by byte,
//! so a final short basis block can still be matched.

use vstd::prelude::*;
use crate::rollsum::{weak_sum, Rollsum};
use crate::strong::{strong_trunc, strong_hash};
use crate::table::{SignatureTable, TableModel, spec_candidates, lemma_candidates};
use crate::mksum::{spec_block, block_sums, num_blocks, lemma_num_blocks_index};

verus! {

/// One delta instruction.
///
/// Concatenating the bytes the instructions of a delta denote, in
/// order, reproduces the target exactly.
#[derive(Debug, PartialEq, Eq)]
pub enum Instruction {
    /// `len` bytes starting at `basis_offset` of the basis, verbatim.
    Copy {
        /// Byte offset into the basis.
        basis_offset: u64,
        /// Number of bytes to copy.
        len: u64,
    },
    /// Bytes embedded directly in the delta.
    Literal {
        /// The embedded bytes.
        bytes: Vec<u8>,
    },
}

/// The mathematical shape of one instruction.
pub enum InstrModel {
    /// `len` basis bytes starting at `basis_offset`.
    Copy {
        /// Byte offset into the basis.
        basis_offset: int,
        /// Number of bytes to copy.
        len: int,
    },
    /// Bytes embedded directly in the delta.
    Literal {
        /// The embedded bytes.
        bytes: Seq<u8>,
    },
}

impl View for Instruction {
    type V = InstrModel;

    open spec fn view(&self) -> InstrModel {
        match self {
            Instruction::Copy { basis_offset, len } => InstrModel::Copy {
                basis_offset: *basis_offset as int,
                len: *len as int,
            },
            Instruction::Literal { bytes } => InstrModel::Literal { bytes: bytes@ },
        }
    }
}

/// The views of a vector of instructions.
pub open spec fn delta_view(d: Seq<Instruction>) -> Seq<InstrModel> {
    d.map_values(|ins: Instruction| ins@)
}

/// A window matches block `b` of the table: same weak checksum and the
/// same stored (truncated) strong sum.
pub open spec fn is_match(t: TableModel, win: Seq<u8>, b: int) -> bool {
    &&& 0 <= b < t.blocks.len()
    &&& t.blocks[b].0 == weak_sum(win)
    &&& t.blocks[b].1 == strong_trunc(win, t.strong_len as int)
}

/// The least matching block index at or after `i`, if any: candidates
/// are tried in ascending block order and the first confirmed one wins.
pub open spec fn first_match_from(t: TableModel, win: Seq<u8>, i: int) -> Option<int>
    decreases t.blocks.len() - i,
{
    if i < 0 || i >= t.blocks.len() {
        None
    } else if is_match(t, win, i) {
        Some(i)
    } else {
        first_match_from(t, win, i + 1)
    }
}

/// The block the scanner accepts for a window: the least match.
pub open spec fn first_match(t: TableModel, win: Seq<u8>) -> Option<int> {
    first_match_from(t, win, 0)
}

/// What a `first_match_from` result means: a returned index is a match
/// with none before it, and `None` means nothing from `i` on matches.
pub proof fn lemma_first_match_from(t: TableModel, win: Seq<u8>, i: int)
    requires
        0 <= i,
    ensures
        first_match_from(t, win, i) matches Some(b) ==> i <= b < t.blocks.len() && is_match(
            t,
            win,
            b,
        ) && (forall|j: int| i <= j < b ==> !is_match(t, win, j)),
        first_match_from(t, win, i) is None ==> forall|j: int|
            i <= j < t.blocks.len() ==> !is_match(t, win, j),
    decreases t.blocks.len() - i,
{
    if i < t.blocks.len() && !is_match(t, win, i) {
        lemma_first_match_from(t, win, i + 1);
    }
}

/// `first_match` returns exactly the least matching index.
pub proof fn lemma_first_match_is_least(t: TableModel, win: Seq<u8>, b: int)
    requires
        is_match(t, win, b),
        forall|j: int| 0 <= j < b ==> !is_match(t, win, j),
    ensures
        first_match(t, win) == Some(b),
{
    lemma_first_match_from(t, win, 0);
    if first_match(t, win) is None {
        assert(!is_match(t, win, b));
    } else {
        let b2 = first_match(t, win)->Some_0;
        if b2 < b {
            assert(!is_match(t, win, b2));
        }
        if b < b2 {
            assert(!is_match(t, win, b));
        }
    }
}

/// With no matching index at all, `first_match` returns `None`.
pub proof fn lemma_first_match_none(t: TableModel, win: Seq<u8>)
    requires
        forall|j: int| 0 <= j < t.blocks.len() ==> !is_match(t, win, j),
    ensures
        first_match(t, win) is None,
{
    lemma_first_match_from(t, win, 0);
    match first_match(t, win) {
        Some(b) => {
            assert(!is_match(t, win, b));
        },
        None => {},
    }
}

/// A pending literal run as instructions: nothing for an empty run.
pub open spec fn flush(pending: Seq<u8>) -> Seq<InstrModel> {
    if pending.len() == 0 {
        Seq::empty()
    } else {
        seq![InstrModel::Literal { bytes: pending }]
    }
}

/// The instruction stream the scan emits from window position `p` with
/// a pending literal run starting at `q`.
///
/// While a full window fits, a confirmed match flushes the pending run,
/// emits a Copy of one whole block and restarts beyond it; otherwise
/// the window slides one byte. Past the last full window the window
/// shrinks instead, so the scan can still match a final short block;
/// whatever never matched is flushed as one terminal Literal.
pub open spec fn scan_from(t: TableModel, target: Seq<u8>, p: int, q: int) -> Seq<InstrModel>
    decreases target.len() - p,
{
    let bl = t.block_len as int;
    if t.block_len == 0 || !(0 <= q <= p) || p > target.len() {
        Seq::empty()
    } else if p + bl <= target.len() {
        match first_match(t, target.subrange(p, p + bl)) {
            Some(b) => flush(target.subrange(q, p)) + seq![
                InstrModel::Copy { basis_offset: b * bl, len: bl },
            ] + scan_from(t, target, p + bl, p + bl),
            None => scan_from(t, target, p + 1, q),
        }
    } else if p < target.len() {
        match first_match(t, target.subrange(p, target.len() as int)) {
            Some(b) => flush(target.subrange(q, p)) + seq![
                InstrModel::Copy { basis_offset: b * bl, len: target.len() - p },
            ],
            None => scan_from(t, target, p + 1, q),
        }
    } else {
        flush(target.subrange(q, target.len() as int))
    }
}

/// The whole delta instruction stream for `target` against table `t`.
pub open spec fn scan(t: TableModel, target: Seq<u8>) -> Seq<InstrModel> {
    scan_from(t, target, 0, 0)
}

/// The bytes one instruction denotes: a slice of the basis for a Copy
/// (nothing when it reaches outside the basis), its own bytes for a
/// Literal.
pub open spec fn instr_bytes(basis: Seq<u8>, ins: InstrModel) -> Seq<u8> {
    match ins {
        InstrModel::Copy { basis_offset, len } => if 0 <= basis_offset && 0 <= len && basis_offset
            + len <= basis.len() {
            basis.subrange(basis_offset, basis_offset + len)
        } else {
            Seq::empty()
        },
        InstrModel::Literal { bytes } => bytes,
    }
}

/// Applying a delta to a basis: the concatenation, in order, of the
/// bytes each instruction denotes.
pub open spec fn apply_delta(basis: Seq<u8>, delta: Seq<InstrModel>) -> Seq<u8>
    decreases delta.len(),
{
    if delta.len() == 0 {
        Seq::empty()
    } else {
        instr_bytes(basis, delta[0]) + apply_delta(basis, delta.drop_first())
    }
}

/// Applying distributes over concatenation of deltas.
pub proof fn lemma_apply_append(basis: Seq<u8>, a: Seq<InstrModel>, b: Seq<InstrModel>)
    ensures
        apply_delta(basis, a + b) == apply_delta(basis, a) + apply_delta(basis, b),
    decreases a.len(),
{
    if a.len() == 0 {
        assert(a + b =~= b);
        assert(apply_delta(basis, a) + apply_delta(basis, b) =~= apply_delta(basis, b));
    } else {
        lemma_apply_append(basis, a.drop_first(), b);
        assert((a + b).drop_first() =~= a.drop_first() + b);
        assert((a + b)[0] == a[0]);
        assert(instr_bytes(basis, a[0]) + (apply_delta(basis, a.drop_first()) + apply_delta(
            basis,
            b,
        )) =~= (instr_bytes(basis, a[0]) + apply_delta(basis, a.drop_first())) + apply_delta(
            basis,
            b,
        ));
    }
}

/// A one-instruction delta denotes that instruction's bytes.
pub proof fn lemma_apply_single(basis: Seq<u8>, ins: InstrModel)
    ensures
        apply_delta(basis, seq![ins]) == instr_bytes(basis, ins),
{
    let d = seq![ins];
    assert(d.drop_first() =~= Seq::<InstrModel>::empty());
    assert(d[0] == ins);
    assert(apply_delta(basis, d.drop_first()) == Seq::<u8>::empty());
    assert(apply_delta(basis, d) == instr_bytes(basis, ins) + Seq::<u8>::empty());
    assert(instr_bytes(basis, ins) + Seq::<u8>::empty() =~= instr_bytes(basis, ins));
}

/// A flushed literal run denotes exactly its own bytes.
pub proof fn lemma_apply_flush(basis: Seq<u8>, s: Seq<u8>)
    ensures
        apply_delta(basis, flush(s)) == s,
{
    if s.len() == 0 {
        assert(apply_delta(basis, flush(s)) =~= s);
    } else {
        lemma_apply_single(basis, InstrModel::Literal { bytes: s });
    }
}

/// `t` is the table a signature of `basis` denotes: same block length
/// and strong length, and one stored sum pair per basis block.
pub open spec fn table_of(t: TableModel, basis: Seq<u8>) -> bool {
    &&& t.block_len > 0
    &&& 0 < t.strong_len <= crate::strong::STRONG_NATIVE_LEN
    &&& t.blocks == block_sums(basis, t.block_len as nat, t.strong_len as int)
}

/// The table model a generated signature parses into is the table of
/// the basis it was generated from, so the scan laws below apply to
/// the whole generate-build-scan pipeline.
pub proof fn lemma_generated_table_of(basis: Seq<u8>, opts: crate::mksum::SignatureOptions)
    requires
        opts.spec_valid(),
        num_blocks(basis.len(), opts.block_len as nat) <= u32::MAX,
    ensures
        crate::table::parse_signature(crate::mksum::signature_bytes(basis, opts)) matches Some(m)
            && table_of(m, basis),
{
    crate::table::lemma_signature_round_trip(basis, opts);
}

/// No subrange of `target` carries a basis block's stored (weak,
/// truncated strong) pair without being that block's bytes. Truncated
/// sums make this possible to violate; the round-trip law is stated
/// under it.
pub open spec fn no_hash_collisions(t: TableModel, basis: Seq<u8>, target: Seq<u8>) -> bool {
    forall|p: int, e: int, b: int|
        #![trigger target.subrange(p, e), t.blocks[b]]
        0 <= p <= e <= target.len() && 0 <= b < t.blocks.len() && t.blocks[b].0 == weak_sum(
            target.subrange(p, e),
        ) && t.blocks[b].1 == strong_trunc(target.subrange(p, e), t.strong_len as int)
            ==> target.subrange(p, e) == spec_block(basis, t.block_len as nat, b)
}

/// A window that matches block `b` holds exactly block `b`'s bytes,
/// and a Copy of that block denotes them.
proof fn lemma_match_is_block(t: TableModel, basis: Seq<u8>, target: Seq<u8>, p: int, e: int, b: int)
    requires
        table_of(t, basis),
        no_hash_collisions(t, basis, target),
        0 <= p <= e <= target.len(),
        is_match(t, target.subrange(p, e), b),
    ensures
        0 <= b * (t.block_len as int),
        b * (t.block_len as int) + (e - p) <= basis.len(),
        basis.subrange(b * (t.block_len as int), b * (t.block_len as int) + (e - p)) == target
            .subrange(p, e),
        e - p <= t.block_len,
        e - p < t.block_len ==> b * (t.block_len as int) + (e - p) == basis.len(),
{
    let bl = t.block_len as int;
    let win = target.subrange(p, e);
    let blk = spec_block(basis, t.block_len as nat, b);
    assert(win == blk);
    lemma_num_blocks_index(basis.len(), t.block_len as nat, b);
    assert(b * bl < basis.len());
    assert(b * bl >= 0) by (nonlinear_arith)
        requires
            b >= 0 && bl >= 0,
    ;
    assert((b + 1) * bl == b * bl + bl) by (nonlinear_arith);
    if (b + 1) * bl <= basis.len() {
        assert(blk.len() == bl);
        assert(e - p == bl);
        assert(basis.subrange(b * bl, b * bl + (e - p)) == blk);
    } else {
        assert(blk == basis.subrange(b * bl, basis.len() as int));
        assert(blk.len() == win.len());
        assert(basis.len() - b * bl == e - p);
        assert(basis.subrange(b * bl, b * bl + (e - p)) == blk);
    }
}

/// Round-trip law, generalized over the scan position: applying what
/// the scan emits from `(p, q)` rebuilds the target from `q` on.
proof fn lemma_scan_from_round_trip(t: TableModel, basis: Seq<u8>, target: Seq<u8>, p: int, q: int)
    requires
        table_of(t, basis),
        no_hash_collisions(t, basis, target),
        0 <= q <= p <= target.len(),
    ensures
        apply_delta(basis, scan_from(t, target, p, q)) == target.subrange(q, target.len() as int),
    decreases target.len() - p,
{
    let bl = t.block_len as int;
    let n = target.len() as int;
    if p + bl <= n {
        let win = target.subrange(p, p + bl);
        lemma_first_match_from(t, win, 0);
        match first_match(t, win) {
            Some(b) => {
                lemma_match_is_block(t, basis, target, p, p + bl, b);
                lemma_scan_from_round_trip(t, basis, target, p + bl, p + bl);
                let copy = InstrModel::Copy { basis_offset: b * bl, len: bl };
                lemma_apply_append(
                    basis,
                    flush(target.subrange(q, p)) + seq![copy],
                    scan_from(t, target, p + bl, p + bl),
                );
                lemma_apply_append(basis, flush(target.subrange(q, p)), seq![copy]);
                lemma_apply_flush(basis, target.subrange(q, p));
                lemma_apply_single(basis, copy);
                assert(instr_bytes(basis, copy) == win);
                assert((target.subrange(q, p) + win) + target.subrange(p + bl, n) =~= target
                    .subrange(q, n));
            },
            None => {
                lemma_scan_from_round_trip(t, basis, target, p + 1, q);
            },
        }
    } else if p < n {
        let win = target.subrange(p, n);
        lemma_first_match_from(t, win, 0);
        match first_match(t, win) {
            Some(b) => {
                lemma_match_is_block(t, basis, target, p, n, b);
                let copy = InstrModel::Copy { basis_offset: b * bl, len: n - p };
                lemma_apply_append(basis, flush(target.subrange(q, p)), seq![copy]);
                lemma_apply_flush(basis, target.subrange(q, p));
                lemma_apply_single(basis, copy);
                assert(instr_bytes(basis, copy) == win);
                assert(target.subrange(q, p) + win =~= target.subrange(q, n));
            },
            None => {
                lemma_scan_from_round_trip(t, basis, target, p + 1, q);
            },
        }
    } else {
        lemma_apply_flush(basis, target.subrange(q, n));
    }
}

/// Law (round trip): applying the delta a scan of `target` emits to the
/// basis the table describes rebuilds `target` byte for byte, as long
/// as no truncated-hash collision occurs between a target window and a
/// stored block sum.
pub proof fn lemma_delta_round_trip(t: TableModel, basis: Seq<u8>, target: Seq<u8>)
    requires
        table_of(t, basis),
        no_hash_collisions(t, basis, target),
    ensures
        apply_delta(basis, scan(t, target)) == target,
{
    lemma_scan_from_round_trip(t, basis, target, 0, 0);
    assert(target.subrange(0, target.len() as int) =~= target);
}

/// No two blocks of the table store the same (weak, strong) pair.
pub open spec fn distinct_block_sums(t: TableModel) -> bool {
    forall|i: int, j: int|
        #![trigger t.blocks[i], t.blocks[j]]
        0 <= i < j < t.blocks.len() ==> t.blocks[i] != t.blocks[j]
}

/// One Copy instruction per basis block from block `k` on, each
/// covering exactly its own block, in order.
pub open spec fn copies_from(basis: Seq<u8>, b: nat, k: int) -> Seq<InstrModel>
    decreases num_blocks(basis.len(), b) - k,
{
    if b == 0 || k < 0 || k >= num_blocks(basis.len(), b) {
        Seq::empty()
    } else {
        seq![
            InstrModel::Copy {
                basis_offset: k * b,
                len: spec_block(basis, b, k).len() as int,
            },
        ] + copies_from(basis, b, k + 1)
    }
}

/// The block-covering Copies from block `k` on rebuild the basis from
/// byte `k * b` on.
pub proof fn lemma_copies_cover(basis: Seq<u8>, b: nat, k: int)
    requires
        b > 0,
        0 <= k <= num_blocks(basis.len(), b),
    ensures
        apply_delta(basis, copies_from(basis, b, k)) == basis.skip(
            if k * b <= basis.len() {
                k * b
            } else {
                basis.len() as int
            },
        ),
    decreases num_blocks(basis.len(), b) - k,
{
    let bi = b as int;
    let len = basis.len() as int;
    lemma_num_blocks_index(basis.len(), b, k);
    assert(k * bi >= 0) by (nonlinear_arith)
        requires
            k >= 0 && bi >= 0,
    ;
    if k == num_blocks(basis.len(), b) {
        assert(!(k * bi < len));
        assert(basis.skip(len) =~= Seq::<u8>::empty());
    } else {
        assert(k * bi < len);
        lemma_copies_cover(basis, b, k + 1);
        assert((k + 1) * bi == k * bi + bi) by (nonlinear_arith);
        let x = if (k + 1) * bi <= len {
            (k + 1) * bi
        } else {
            len
        };
        let blk = spec_block(basis, b, k);
        assert(blk == basis.subrange(k * bi, x));
        assert(blk.len() == x - k * bi);
        let copy = InstrModel::Copy { basis_offset: k * bi, len: blk.len() as int };
        assert(copies_from(basis, b, k) == seq![copy] + copies_from(basis, b, k + 1));
        lemma_apply_append(basis, seq![copy], copies_from(basis, b, k + 1));
        lemma_apply_single(basis, copy);
        assert(instr_bytes(basis, copy) == blk);
        lemma_num_blocks_index(basis.len(), b, k + 1);
        assert(apply_delta(basis, copies_from(basis, b, k + 1)) == basis.skip(x));
        assert(basis.subrange(k * bi, x) + basis.skip(x) =~= basis.skip(k * bi));
    }
}

/// Scanning the basis against its own table from block boundary `k`
/// emits exactly the block-covering Copies from `k` on.
proof fn lemma_self_scan_from(t: TableModel, basis: Seq<u8>, k: int)
    requires
        table_of(t, basis),
        distinct_block_sums(t),
        0 <= k,
        k * (t.block_len as int) <= basis.len(),
    ensures
        scan_from(t, basis, k * (t.block_len as int), k * (t.block_len as int)) == copies_from(
            basis,
            t.block_len as nat,
            k,
        ),
    decreases basis.len() - k * (t.block_len as int),
{
    let bl = t.block_len as int;
    let n = basis.len() as int;
    let p = k * bl;
    lemma_num_blocks_index(basis.len(), t.block_len as nat, k);
    assert((k + 1) * bl == k * bl + bl) by (nonlinear_arith);
    if p == n {
        assert(basis.subrange(p, p) =~= Seq::<u8>::empty());
        assert(scan_from(t, basis, p, p) == Seq::<InstrModel>::empty());
    } else {
        assert(k < num_blocks(basis.len(), t.block_len as nat));
        let blk = spec_block(basis, t.block_len as nat, k);
        let e = if p + bl <= n {
            p + bl
        } else {
            n
        };
        let win = basis.subrange(p, e);
        assert(win == blk);
        assert(is_match(t, win, k));
        assert forall|j: int| 0 <= j < k implies !is_match(t, win, j) by {
            if is_match(t, win, j) {
                assert(t.blocks[j] == t.blocks[k]);
            }
        }
        lemma_first_match_is_least(t, win, k);
        assert(basis.subrange(p, p) =~= Seq::<u8>::empty());
        if p + bl <= n {
            lemma_num_blocks_index(basis.len(), t.block_len as nat, k + 1);
            lemma_self_scan_from(t, basis, k + 1);
            assert(scan_from(t, basis, p, p) == flush(basis.subrange(p, p)) + seq![
                InstrModel::Copy { basis_offset: k * bl, len: bl },
            ] + scan_from(t, basis, p + bl, p + bl));
            assert(flush(basis.subrange(p, p)) + seq![
                InstrModel::Copy { basis_offset: k * bl, len: bl },
            ] + copies_from(basis, t.block_len as nat, k + 1) =~= copies_from(
                basis,
                t.block_len as nat,
                k,
            ));
        } else {
            lemma_num_blocks_index(basis.len(), t.block_len as nat, k + 1);
            assert(copies_from(basis, t.block_len as nat, k + 1) == Seq::<InstrModel>::empty());
            assert(scan_from(t, basis, p, p) == flush(basis.subrange(p, p)) + seq![
                InstrModel::Copy { basis_offset: k * bl, len: n - p },
            ]);
            assert(flush(basis.subrange(p, p)) + seq![
                InstrModel::Copy { basis_offset: k * bl, len: n - p },
            ] =~= copies_from(basis, t.block_len as nat, k));
        }
    }
}

/// Law (idempotence): scanning the basis against its own table yields
/// one Copy per block, covering the whole basis in order, with no
/// Literal, as long as no two blocks store the same sum pair.
pub proof fn lemma_self_delta_all_copies(t: TableModel, basis: Seq<u8>)
    requires
        table_of(t, basis),
        distinct_block_sums(t),
    ensures
        scan(t, basis) == copies_from(basis, t.block_len as nat, 0),
        apply_delta(basis, scan(t, basis)) == basis,
{
    assert(0 * (t.block_len as int) == 0);
    lemma_self_scan_from(t, basis, 0);
    lemma_num_blocks_index(basis.len(), t.block_len as nat, 0);
    lemma_copies_cover(basis, t.block_len as nat, 0);
    assert(basis.skip(0) =~= basis);
}

/// No subrange of the target holds any basis block's bytes.
pub open spec fn no_content_overlap(t: TableModel, basis: Seq<u8>, target: Seq<u8>) -> bool {
    forall|p: int, e: int, b: int|
        #![trigger target.subrange(p, e), t.blocks[b]]
        0 <= p <= e <= target.len() && 0 <= b < t.blocks.len() ==> target.subrange(p, e)
            != spec_block(basis, t.block_len as nat, b)
}

/// Law (literal-correctness): when no subrange of the target holds any
/// basis block's bytes (and no hash collision fakes one), the delta is
/// exactly one Literal carrying the whole target.
pub proof fn lemma_no_overlap_single_literal(t: TableModel, basis: Seq<u8>, target: Seq<u8>)
    requires
        table_of(t, basis),
        no_hash_collisions(t, basis, target),
        no_content_overlap(t, basis, target),
        target.len() > 0,
    ensures
        scan(t, target) == seq![InstrModel::Literal { bytes: target }],
{
    lemma_no_match_scan_from(t, basis, target, 0, 0);
    assert(target.subrange(0, target.len() as int) =~= target);
}

/// With no window matching any block, the scan flushes everything as
/// one pending literal run.
proof fn lemma_no_match_scan_from(t: TableModel, basis: Seq<u8>, target: Seq<u8>, p: int, q: int)
    requires
        table_of(t, basis),
        no_hash_collisions(t, basis, target),
        no_content_overlap(t, basis, target),
        0 <= q <= p <= target.len(),
    ensures
        scan_from(t, target, p, q) == flush(target.subrange(q, target.len() as int)),
    decreases target.len() - p,
{
    let bl = t.block_len as int;
    let n = target.len() as int;
    if p < n {
        let e = if p + bl <= n {
            p + bl
        } else {
            n
        };
        let win = target.subrange(p, e);
        lemma_first_match_from(t, win, 0);
        match first_match(t, win) {
            Some(b) => {
                lemma_match_is_block(t, basis, target, p, e, b);
                assert(win == spec_block(basis, t.block_len as nat, b));
                assert(false);
            },
            None => {
                lemma_no_match_scan_from(t, basis, target, p + 1, q);
            },
        }
    }
}

/// Law (boundary): an empty target scans to an empty delta.
pub proof fn lemma_empty_target_empty_delta(t: TableModel)
    ensures
        scan(t, Seq::<u8>::empty()) == Seq::<InstrModel>::empty(),
{
    assert(Seq::<u8>::empty().subrange(0, 0) =~= Seq::<u8>::empty());
}

/// Equality of two byte vectors.
fn bytes_eq(a: &Vec<u8>, b: &Vec<u8>) -> (r: bool)
    ensures
        r == (a@ == b@),
{
    if a.len() != b.len() {
        return false;
    }
    let mut i: usize = 0;
    while i < a.len()
        invariant
            a@.len() == b@.len(),
            i <= a@.len(),
            forall|j: int| 0 <= j < i ==> a@[j] == b@[j],
        decreases a@.len() - i,
    {
        if a[i] != b[i] {
            return false;
        }
        i = i + 1;
    }
    proof {
        assert(a@ =~= b@);
    }
    true
}

/// The rolling checksum of `target[p..e)`, computed afresh.
fn window_sum(target: &[u8], p: usize, e: usize) -> (r: Rollsum)
    requires
        p <= e <= target@.len(),
    ensures
        r.wf(),
        r.window@ == target@.subrange(p as int, e as int),
{
    let mut rs = Rollsum::new();
    let mut i: usize = p;
    proof {
        assert(target@.subrange(p as int, p as int) =~= Seq::<u8>::empty());
    }
    while i < e
        invariant
            p <= i <= e <= target@.len(),
            rs.wf(),
            rs.window@ == target@.subrange(p as int, i as int),
        decreases e - i,
    {
        rs.rollin(target[i]);
        proof {
            assert(target@.subrange(p as int, i as int).push(target@[i as int]) =~= target@
                .subrange(p as int, i as int + 1));
        }
        i = i + 1;
    }
    rs
}

/// Compute the delta that rebuilds `target` from the basis the table
/// describes: the instruction stream of the sliding-window scan.
///
/// The block length and strong length are the ones parsed from the
/// signature's header, so producer and consumer cannot disagree. The
/// rolling state is local to this one scan; a table can serve many
/// concurrent scans read-only.
#[verifier::loop_isolation(false)]
pub fn compute_delta(target: &[u8], table: &SignatureTable) -> (r: Vec<Instruction>)
    requires
        table.wf(),
    ensures
        delta_view(r@) == scan(table@, target@),
{
    let n: usize = target.len();
    let bl: usize = table.block_len as usize;
    let mut out: Vec<Instruction> = Vec::new();
    let mut p: usize = 0;
    let mut q: usize = 0;
    let mut e: usize = if n <= bl {
        n
    } else {
        bl
    };
    let mut rs = window_sum(target, 0, e);
    proof {
        assert(delta_view(out@) =~= Seq::<InstrModel>::empty());
        assert(delta_view(out@) + scan_from(table@, target@, 0, 0) =~= scan(table@, target@));
    }
    while p < n
        invariant
            q <= p <= n,
            p <= e <= n,
            n - p <= bl ==> e == n,
            n - p > bl ==> e == p + bl,
            rs.wf(),
            rs.window@ == target@.subrange(p as int, e as int),
            delta_view(out@) + scan_from(table@, target@, p as int, q as int) == scan(
                table@,
                target@,
            ),
        decreases n - p,
    {
        let ghost win = target@.subrange(p as int, e as int);
        let weak = rs.digest();
        let cands = table.lookup(weak);
        proof {
            lemma_candidates(table@.blocks, weak);
        }
        let mut found: Option<u32> = None;
        if cands.len() > 0 {
            let strong = strong_hash(
                vstd::slice::slice_subrange(target, p, e),
                table.strong_len as usize,
            );
            let mut ci: usize = 0;
            while ci < cands.len() && found.is_none()
                invariant
                    ci <= cands@.len(),
                    strong@ == strong_trunc(win, table@.strong_len as int),
                    found is None ==> forall|j: int|
                        0 <= j < ci ==> !is_match(table@, win, cands@[j] as int),
                    found matches Some(b) ==> ci > 0 && b == cands@[ci - 1] && is_match(
                        table@,
                        win,
                        b as int,
                    ) && (forall|j: int| 0 <= j < ci - 1 ==> !is_match(table@, win, cands@[j] as int)),
                decreases cands@.len() - ci,
            {
                let b = cands[ci];
                if bytes_eq(&strong, &table.blocks[b as usize].strong) {
                    found = Some(b);
                } else {
                    proof {
                        assert(!is_match(table@, win, b as int));
                    }
                }
                ci = ci + 1;
            }
        }
        match found {
            Some(b) => {
                proof {
                    assert(is_match(table@, win, b as int));
                    assert forall|j: int| 0 <= j < b as int implies !is_match(table@, win, j) by {
                        if is_match(table@, win, j) {
                            assert(table@.blocks[j].0 == weak);
                            let jj = choose|jj: int|
                                0 <= jj < spec_candidates(table@.blocks, weak).len()
                                    && spec_candidates(table@.blocks, weak)[jj] == j;
                            assert(false);
                        }
                    }
                    lemma_first_match_is_least(table@, win, b as int);
                }
                let ghost p0 = p as int;
                let ghost q0 = q as int;
                let ghost e0 = e as int;
                let ghost out0 = out@;
                if q < p {
                    let lit = vstd::slice::slice_to_vec(
                        vstd::slice::slice_subrange(target, q, p),
                    );
                    out.push(Instruction::Literal { bytes: lit });
                }
                proof {
                    assert((b as int) * (table.block_len as int) <= 0xffffffff * 0xffffffff)
                        by (nonlinear_arith)
                        requires
                            b as int <= 0xffffffff && table.block_len as int <= 0xffffffff,
                    ;
                }
                out.push(
                    Instruction::Copy {
                        basis_offset: (b as u64) * (table.block_len as u64),
                        len: (e - p) as u64,
                    },
                );
                p = e;
                q = e;
                e = if n - p <= bl {
                    n
                } else {
                    p + bl
                };
                rs = window_sum(target, p, e);
                proof {
                    let t = table@;
                    let copy = InstrModel::Copy {
                        basis_offset: (b as int) * (t.block_len as int),
                        len: e0 - p0,
                    };
                    assert(delta_view(out@) =~= delta_view(out0) + flush(
                        target@.subrange(q0, p0),
                    ) + seq![copy]);
                    if e0 - p0 == bl {
                        assert(target@.subrange(p0, p0 + bl as int) == win);
                        assert(scan_from(t, target@, p0, q0) == flush(target@.subrange(q0, p0))
                            + seq![copy] + scan_from(t, target@, e0, e0));
                    } else {
                        assert(e0 == n);
                        assert(target@.subrange(p0, n as int) == win);
                        assert(scan_from(t, target@, p0, q0) == flush(target@.subrange(q0, p0))
                            + seq![copy]);
                        assert(target@.subrange(n as int, n as int) =~= Seq::<u8>::empty());
                        assert(scan_from(t, target@, n as int, n as int) =~= Seq::<
                            InstrModel,
                        >::empty());
                    }
                    assert(delta_view(out@) + scan_from(t, target@, p as int, q as int) =~= scan(
                        t,
                        target@,
                    ));
                }
            },
            None => {
                proof {
                    assert forall|j: int| 0 <= j < table@.blocks.len() implies !is_match(
                        table@,
                        win,
                        j,
                    ) by {
                        if is_match(table@, win, j) {
                            assert(table@.blocks[j].0 == weak);
                            let jj = choose|jj: int|
                                0 <= jj < spec_candidates(table@.blocks, weak).len()
                                    && spec_candidates(table@.blocks, weak)[jj] == j;
                            assert(false);
                        }
                    }
                    lemma_first_match_none(table@, win);
                }
                rs.rollout(target[p]);
                let olde = e;
                p = p + 1;
                e = if n - p <= bl {
                    n
                } else {
                    p + bl
                };
                if olde < e {
                    rs.rollin(target[olde]);
                    proof {
                        assert(target@.subrange(p as int - 1, olde as int).drop_first().push(
                            target@[olde as int],
                        ) =~= target@.subrange(p as int, e as int));
                    }
                } else {
                    proof {
                        assert(target@.subrange(p as int - 1, olde as int).drop_first() =~= target@
                            .subrange(p as int, e as int));
                    }
                }
            },
        }
    }
    proof {
        assert(scan_from(table@, target@, p as int, q as int) == flush(
            target@.subrange(q as int, n as int),
        ));
    }
    if q < n {
        let ghost out0 = out@;
        let lit = vstd::slice::slice_to_vec(vstd::slice::slice_subrange(target, q, n));
        out.push(Instruction::Literal { bytes: lit });
        proof {
            assert(delta_view(out@) =~= delta_view(out0) + flush(
                target@.subrange(q as int, n as int),
            ));
        }
    } else {
        proof {
            assert(target@.subrange(q as int, n as int) =~= Seq::<u8>::empty());
            assert(delta_view(out@) + flush(target@.subrange(q as int, n as int)) =~= delta_view(
                out@,
            ));
        }
    }
    out
}

} // verus!
