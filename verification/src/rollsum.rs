//! The weak rolling checksum over a byte window.
//!
//! The checksum is the pair of two 16-bit sums: `s1`, the sum of the
//! window's bytes, and `s2`, the sum of `s1` over every prefix of the
//! window, both modulo 2^16, packed as `s1 + 2^16 * s2`. Both sums can
//! be updated in constant time when the window grows by one byte at the
//! right or shrinks by one byte at the left, which is what lets a delta
//! scan slide its window over the whole target in linear time.

use vstd::prelude::*;
use vstd::arithmetic::div_mod::{
    lemma_add_mod_noop, lemma_sub_mod_noop_right, lemma_mod_twice, lemma_mod_bound,
    lemma_mod_add_multiples_vanish, lemma_mul_mod_noop_left,
};

verus! {

/// Sum of the bytes of `s`, modulo 2^16.
pub open spec fn weak_s1(s: Seq<u8>) -> int
    decreases s.len(),
{
    if s.len() == 0 {
        0
    } else {
        (weak_s1(s.drop_last()) + s.last()) % 0x10000
    }
}

/// Sum of `weak_s1` over every non-empty prefix of `s`, modulo 2^16.
pub open spec fn weak_s2(s: Seq<u8>) -> int
    decreases s.len(),
{
    if s.len() == 0 {
        0
    } else {
        (weak_s2(s.drop_last()) + weak_s1(s)) % 0x10000
    }
}

/// The weak checksum of a byte window: `s1` in the low 16 bits, `s2` in
/// the high 16 bits.
pub open spec fn weak_sum(s: Seq<u8>) -> u32 {
    (weak_s1(s) + 0x10000 * weak_s2(s)) as u32
}

/// Both halves of the weak checksum lie below 2^16.
pub proof fn lemma_weak_bounds(s: Seq<u8>)
    ensures
        0 <= weak_s1(s) < 0x10000,
        0 <= weak_s2(s) < 0x10000,
{
    if s.len() != 0 {
        lemma_mod_bound(weak_s1(s.drop_last()) + s.last(), 0x10000);
        lemma_mod_bound(weak_s2(s.drop_last()) + weak_s1(s), 0x10000);
    }
}

proof fn lemma_madd_left(a: int, b: int)
    ensures
        ((a % 0x10000) + b) % 0x10000 == (a + b) % 0x10000,
{
    lemma_mod_twice(a, 0x10000);
    lemma_add_mod_noop(a % 0x10000, b, 0x10000);
    lemma_add_mod_noop(a, b, 0x10000);
}

proof fn lemma_msub_right(a: int, b: int)
    ensures
        (a - (b % 0x10000)) % 0x10000 == (a - b) % 0x10000,
{
    lemma_sub_mod_noop_right(a, b % 0x10000, 0x10000);
    lemma_mod_twice(b, 0x10000);
    lemma_sub_mod_noop_right(a, b, 0x10000);
}

/// Removing the first byte lowers `s1` by that byte, modulo 2^16.
pub proof fn lemma_s1_drop_first(s: Seq<u8>)
    requires
        s.len() > 0,
    ensures
        weak_s1(s.drop_first()) == (weak_s1(s) - s[0]) % 0x10000,
    decreases s.len(),
{
    lemma_weak_bounds(s.drop_first());
    if s.len() == 1 {
        assert(s.drop_first() =~= Seq::<u8>::empty());
        assert(s.drop_last() =~= Seq::<u8>::empty());
        vstd::arithmetic::div_mod::lemma_small_mod(s[0] as nat, 0x10000);
        assert(weak_s1(s) == s[0]);
        vstd::arithmetic::div_mod::lemma_small_mod(0, 0x10000);
    } else {
        let t = s.drop_last();
        let x = s.last();
        lemma_s1_drop_first(t);
        assert(s.drop_first().drop_last() =~= t.drop_first());
        assert(s.drop_first().last() == x);
        // weak_s1(s.drop_first()) == (weak_s1(t.drop_first()) + x) % 2^16
        //                         == ((weak_s1(t) - t[0]) % 2^16 + x) % 2^16
        //                         == (weak_s1(t) - t[0] + x) % 2^16
        lemma_madd_left(weak_s1(t) - t[0], x as int);
        // (weak_s1(s) - s[0]) % 2^16 == ((weak_s1(t) + x) % 2^16 - t[0]) % 2^16
        //                            == (weak_s1(t) + x - t[0]) % 2^16
        lemma_madd_left(weak_s1(t) + x, -(t[0] as int));
        assert(weak_s1(s.drop_first()) == (weak_s1(s) - s[0]) % 0x10000);
    }
}

/// Removing the first byte lowers `s2` by `len` times that byte, modulo 2^16.
pub proof fn lemma_s2_drop_first(s: Seq<u8>)
    requires
        s.len() > 0,
    ensures
        weak_s2(s.drop_first()) == (weak_s2(s) - s.len() * s[0]) % 0x10000,
    decreases s.len(),
{
    lemma_weak_bounds(s.drop_first());
    if s.len() == 1 {
        assert(s.drop_first() =~= Seq::<u8>::empty());
        assert(s.drop_last() =~= Seq::<u8>::empty());
        vstd::arithmetic::div_mod::lemma_small_mod(s[0] as nat, 0x10000);
        assert(weak_s1(s) == s[0]);
        assert(weak_s2(s) == s[0]);
        assert(s.len() * s[0] == s[0]);
        vstd::arithmetic::div_mod::lemma_small_mod(0, 0x10000);
    } else {
        let t = s.drop_last();
        let x = s.last();
        let n = s.len() as int;
        lemma_s2_drop_first(t);
        lemma_s1_drop_first(s);
        assert(s.drop_first().drop_last() =~= t.drop_first());
        assert(s.drop_first().last() == x);
        assert(s[0] == t[0]);
        let b0 = s[0] as int;
        // Reduce both sides to the normal form
        // (weak_s2(t) + weak_s1(s) - n * b0) % 2^16.
        //
        // Left side: weak_s2(s.drop_first())
        //   == (weak_s2(t.drop_first()) + weak_s1(s.drop_first())) % 2^16
        //   == ((weak_s2(t) - (n-1)*b0) % 2^16 + (weak_s1(s) - b0) % 2^16) % 2^16.
        lemma_add_mod_noop(weak_s2(t) - (n - 1) * b0, weak_s1(s) - b0, 0x10000);
        assert((n - 1) * b0 + b0 == n * b0) by (nonlinear_arith);
        assert(weak_s2(s.drop_first()) == (weak_s2(t) + weak_s1(s) - n * b0) % 0x10000);
        // Right side: weak_s2(s) == (weak_s2(t) + weak_s1(s)) % 2^16.
        lemma_madd_left(weak_s2(t) + weak_s1(s), -(n * b0));
        assert((weak_s2(s) - n * b0) % 0x10000 == (weak_s2(t) + weak_s1(s) - n * b0) % 0x10000);
    }
}

/// Rolling state for the weak checksum of a sliding byte window.
///
/// The ghost `window` holds the bytes currently covered; the two sums
/// always equal `weak_s1`/`weak_s2` of that window.
pub struct Rollsum {
    pub s1: u32,
    pub s2: u32,
    pub count: usize,
    pub window: Ghost<Seq<u8>>,
}

impl Rollsum {
    /// The sums agree with the ghost window.
    pub open spec fn wf(&self) -> bool {
        &&& self.s1 == weak_s1(self.window@)
        &&& self.s2 == weak_s2(self.window@)
        &&& self.count == self.window@.len()
    }

    /// An empty window.
    pub fn new() -> (r: Rollsum)
        ensures
            r.wf(),
            r.window@ == Seq::<u8>::empty(),
    {
        Rollsum { s1: 0, s2: 0, count: 0, window: Ghost(Seq::empty()) }
    }

    /// Number of bytes in the window.
    pub fn len(&self) -> (r: usize)
        requires
            self.wf(),
        ensures
            r == self.window@.len(),
    {
        self.count
    }

    /// Extend the window by one byte at the right.
    pub fn rollin(&mut self, b: u8)
        requires
            old(self).wf(),
            old(self).window@.len() < usize::MAX,
        ensures
            final(self).wf(),
            final(self).window@ == old(self).window@.push(b),
    {
        proof {
            lemma_weak_bounds(self.window@);
        }
        let ghost w = self.window@.push(b);
        proof {
            assert(w.drop_last() =~= self.window@);
            lemma_mod_bound(weak_s1(self.window@) + b, 0x10000);
            lemma_mod_bound(weak_s2(self.window@) + weak_s1(w), 0x10000);
        }
        self.s1 = (self.s1 + b as u32) % 0x10000;
        self.s2 = (self.s2 + self.s1) % 0x10000;
        self.count = self.count + 1;
        self.window = Ghost(w);
    }

    /// Shrink the window by one byte at the left; `b` must be that byte.
    pub fn rollout(&mut self, b: u8)
        requires
            old(self).wf(),
            old(self).window@.len() > 0,
            b == old(self).window@[0],
        ensures
            final(self).wf(),
            final(self).window@ == old(self).window@.drop_first(),
    {
        let ghost w = self.window@;
        proof {
            lemma_weak_bounds(w);
            lemma_s1_drop_first(w);
            lemma_s2_drop_first(w);
        }
        // s1 of the shrunk window: (s1 - b) mod 2^16, kept non-negative.
        let ns1 = (self.s1 + 0x10000 - b as u32) % 0x10000;
        proof {
            lemma_mod_add_multiples_vanish(self.s1 - b, 0x10000);
            assert(ns1 == (weak_s1(w) - w[0]) % 0x10000);
        }
        // s2 of the shrunk window: (s2 - len * b) mod 2^16.
        let c16 = self.count as u64 % 0x10000;
        proof {
            lemma_mod_bound(self.count as int, 0x10000);
        }
        proof {
            assert(c16 * (b as u64) <= 0xffff * 0xff) by (nonlinear_arith)
                requires
                    c16 <= 0xffff && b <= 0xff,
            ;
        }
        let nb = (c16 * (b as u64)) % 0x10000;
        proof {
            lemma_mul_mod_noop_left(self.count as int, b as int, 0x10000);
            lemma_mod_bound(self.count as int * b as int, 0x10000);
        }
        let ns2 = ((self.s2 as u64 + 0x10000 - nb) % 0x10000) as u32;
        proof {
            lemma_mod_add_multiples_vanish(self.s2 - nb, 0x10000);
            lemma_msub_right(self.s2 as int, w.len() * w[0]);
            assert(ns2 == (weak_s2(w) - w.len() * w[0]) % 0x10000);
        }
        self.s1 = ns1;
        self.s2 = ns2;
        self.count = self.count - 1;
        self.window = Ghost(w.drop_first());
    }

    /// The packed 32-bit weak checksum of the current window.
    pub fn digest(&self) -> (r: u32)
        requires
            self.wf(),
        ensures
            r == weak_sum(self.window@),
    {
        proof {
            lemma_weak_bounds(self.window@);
        }
        self.s1 + 0x10000 * self.s2
    }
}

/// The weak checksum of a whole byte slice, computed in one pass.
pub fn weak_sum_of(block: &[u8]) -> (r: u32)
    ensures
        r == weak_sum(block@),
{
    let mut rs = Rollsum::new();
    let mut i: usize = 0;
    proof {
        assert(block@.take(0) =~= Seq::<u8>::empty());
    }
    while i < block.len()
        invariant
            rs.wf(),
            i <= block@.len(),
            rs.window@ == block@.take(i as int),
        decreases block@.len() - i,
    {
        rs.rollin(block[i]);
        proof {
            assert(block@.take(i as int).push(block@[i as int]) =~= block@.take(i as int + 1));
        }
        i = i + 1;
    }
    proof {
        assert(block@.take(block@.len() as int) =~= block@);
    }
    rs.digest()
}

} // verus!
