//! Binary codec for the multi-byte fields of signature files.
//!
//! Every multi-byte integer on the wire is a `u32` in big-endian order.

use vstd::prelude::*;

verus! {

/// The four bytes that encode `x` in big-endian order.
pub open spec fn u32_be_bytes(x: u32) -> Seq<u8> {
    seq![
        ((x >> 24) & 0xff) as u8,
        ((x >> 16) & 0xff) as u8,
        ((x >> 8) & 0xff) as u8,
        (x & 0xff) as u8,
    ]
}

/// The `u32` a big-endian 4-byte sequence denotes.
pub open spec fn u32_of_be(s: Seq<u8>) -> u32
    recommends
        s.len() == 4,
{
    ((s[0] as u32) << 24) | ((s[1] as u32) << 16) | ((s[2] as u32) << 8) | (s[3] as u32)
}

/// Big-endian encoding and decoding of a `u32` invert each other.
pub proof fn lemma_u32_be_round_trip()
    ensures
        forall|x: u32|
            {
                &&& (#[trigger] u32_be_bytes(x)).len() == 4
                &&& u32_of_be(u32_be_bytes(x)) == x
            },
        forall|s: Seq<u8>| s.len() == 4 ==> #[trigger] u32_be_bytes(u32_of_be(s)) == s,
{
    assert forall|x: u32|
        {
            &&& (#[trigger] u32_be_bytes(x)).len() == 4
            &&& u32_of_be(u32_be_bytes(x)) == x
        } by {
        let s = u32_be_bytes(x);
        assert({
            &&& (x >> 24) & 0xff < 256
            &&& (x >> 16) & 0xff < 256
            &&& (x >> 8) & 0xff < 256
            &&& x & 0xff < 256
        }) by (bit_vector);
        assert(x == ((((x >> 24) & 0xff) << 24) | (((x >> 16) & 0xff) << 16) | (((x >> 8)
            & 0xff) << 8) | (x & 0xff))) by (bit_vector);
    }
    assert forall|s: Seq<u8>| s.len() == 4 implies #[trigger] u32_be_bytes(u32_of_be(s))
        == s by {
        let x = u32_of_be(s);
        let s0 = s[0] as u32;
        let s1 = s[1] as u32;
        let s2 = s[2] as u32;
        let s3 = s[3] as u32;
        assert((((s0 << 24) | (s1 << 16) | (s2 << 8) | s3) >> 24) & 0xff == s0
            && (((s0 << 24) | (s1 << 16) | (s2 << 8) | s3) >> 16) & 0xff == s1
            && (((s0 << 24) | (s1 << 16) | (s2 << 8) | s3) >> 8) & 0xff == s2 && ((s0 << 24) | (s1
            << 16) | (s2 << 8) | s3) & 0xff == s3) by (bit_vector)
            requires
                s0 < 256 && s1 < 256 && s2 < 256 && s3 < 256,
        ;
        assert(u32_be_bytes(x) =~= s);
    }
}

/// Append the big-endian encoding of `a` to `out`.
pub fn write_u32be(out: &mut Vec<u8>, a: u32)
    ensures
        final(out)@ == old(out)@ + u32_be_bytes(a),
{
    proof {
        assert({
            &&& (a >> 24) & 0xff < 256
            &&& (a >> 16) & 0xff < 256
            &&& (a >> 8) & 0xff < 256
            &&& a & 0xff < 256
        }) by (bit_vector);
    }
    out.push(((a >> 24) & 0xff) as u8);
    out.push(((a >> 16) & 0xff) as u8);
    out.push(((a >> 8) & 0xff) as u8);
    out.push((a & 0xff) as u8);
    assert(out@ =~= old(out)@ + u32_be_bytes(a));
}

/// Read the big-endian `u32` at offset `pos` of `s`.
pub fn read_u32be(s: &[u8], pos: usize) -> (r: u32)
    requires
        pos + 4 <= s@.len(),
    ensures
        r == u32_of_be(s@.subrange(pos as int, pos as int + 4)),
{
    let r = ((s[pos] as u32) << 24) | ((s[pos + 1] as u32) << 16) | ((s[pos + 2] as u32) << 8) | (
    s[pos + 3] as u32);
    proof {
        let w = s@.subrange(pos as int, pos as int + 4);
        assert(w[0] == s@[pos as int] && w[1] == s@[pos as int + 1] && w[2] == s@[pos as int + 2]
            && w[3] == s@[pos as int + 3]);
    }
    r
}

} // verus!
