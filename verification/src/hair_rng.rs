//! Per-strand random streams: a strand key from its origin, a seeded xorshift generator.
use vstd::prelude::*;
use vstd::arithmetic::div_mod::{lemma_add_mod_noop, lemma_mod_bound};

verus! {

pub open spec fn m32() -> int {
    0x1_0000_0000
}

/// A stable key for a generated strand: its source guide, mirror flag, auto-stack copy,
/// fill index and guide pair, mixed by multiplication with odd constants (mod 2^32).
pub open spec fn strand_key_of(src: u32, mirrored: u32, copy: u32, fill_k: u32, pair: u32) -> u32 {
    ((src * 0x9E3779B9int + mirrored * 0x85EBCA77int + copy * 0xC2B2AE3Dint + fill_k * 0x27D4EB2Fint
        + pair * 0x165667B1int) % m32()) as u32
}

proof fn lemma_wrap_add(a: u32, b: u32, x: int, y: int)
    requires
        a == x % m32(),
        b == y % m32(),
    ensures
        a.wrapping_add(b) == (x + y) % m32(),
{
    lemma_add_mod_noop(x, y, m32());
}

pub fn strand_key(src: u32, mirrored: u32, copy: u32, fill_k: u32, pair: u32) -> (r: u32)
    ensures
        r == strand_key_of(src, mirrored, copy, fill_k, pair),
{
    let a = src.wrapping_mul(0x9E3779B9);
    let b = mirrored.wrapping_mul(0x85EBCA77);
    let c = copy.wrapping_mul(0xC2B2AE3D);
    let d = fill_k.wrapping_mul(0x27D4EB2F);
    let e = pair.wrapping_mul(0x165667B1);
    let ab = a.wrapping_add(b);
    proof {
        lemma_wrap_add(a, b, src * 0x9E3779B9int, mirrored * 0x85EBCA77int);
    }
    let abc = ab.wrapping_add(c);
    proof {
        lemma_wrap_add(
            ab,
            c,
            src * 0x9E3779B9int + mirrored * 0x85EBCA77int,
            copy * 0xC2B2AE3Dint,
        );
    }
    let abcd = abc.wrapping_add(d);
    proof {
        lemma_wrap_add(
            abc,
            d,
            src * 0x9E3779B9int + mirrored * 0x85EBCA77int + copy * 0xC2B2AE3Dint,
            fill_k * 0x27D4EB2Fint,
        );
    }
    let r = abcd.wrapping_add(e);
    proof {
        lemma_wrap_add(
            abcd,
            e,
            src * 0x9E3779B9int + mirrored * 0x85EBCA77int + copy * 0xC2B2AE3Dint + fill_k
                * 0x27D4EB2Fint,
            pair * 0x165667B1int,
        );
    }
    r
}

/// The seed mix of a stream: `(seed + 1) * 0xA24BAED5 + id`, then a 32-bit finalizer
/// (xor-shift 16, multiply, xor-shift 15, multiply, xor-shift 16), all mod 2^32.
pub open spec fn rng_mix(seed: u32, id: u32) -> u32 {
    let x0 = ((((seed as int + 1) % m32()) * 0xA24BAED5int + id) % m32()) as u32;
    let x1 = x0 ^ (x0 >> 16u32);
    let x2 = ((x1 as int * 0x7FEB352Dint) % m32()) as u32;
    let x3 = x2 ^ (x2 >> 15u32);
    let x4 = ((x3 as int * 0x846CA68Bint) % m32()) as u32;
    x4 ^ (x4 >> 16u32)
}

/// The initial state of a stream: the seed mix with the low bit set.
pub open spec fn rng_seed(seed: u32, id: u32) -> u32 {
    rng_mix(seed, id) | 1u32
}

/// One xorshift32 step: `x ^= x << 13; x ^= x >> 17; x ^= x << 5`.
pub open spec fn xorshift(x: u32) -> u32 {
    let a = x ^ (x << 13u32);
    let b = a ^ (a >> 17u32);
    b ^ (b << 5u32)
}

/// A xorshift32 generator.
pub struct Rng(pub u32);

impl Rng {
    pub fn new(seed: u32, id: u32) -> (r: Rng)
        ensures
            r.0 == rng_seed(seed, id),
    {
        let s1 = seed.wrapping_add(1);
        let m = s1.wrapping_mul(0xA24BAED5);
        let mut x = m.wrapping_add(id);
        proof {
            assert(s1 == (seed as int + 1) % m32());
            lemma_mod_bound(s1 as int * 0xA24BAED5int, m32());
            lemma_wrap_add(m, id, s1 as int * 0xA24BAED5int, id as int);
            assert(id as int % m32() == id as int);
        }
        x = x ^ (x >> 16);
        x = x.wrapping_mul(0x7FEB352D);
        x = x ^ (x >> 15);
        x = x.wrapping_mul(0x846CA68B);
        x = x ^ (x >> 16);
        Rng(x | 1)
    }

    /// Advances the stream and returns the new state.
    pub fn next_u32(&mut self) -> (r: u32)
        ensures
            r == xorshift(old(self).0),
            final(self).0 == r,
    {
        let mut x = self.0;
        x = x ^ (x << 13);
        x = x ^ (x >> 17);
        x = x ^ (x << 5);
        self.0 = x;
        x
    }
}

/// A seeded stream never sits at zero, and xorshift never leaves a non-zero state: the
/// generator cannot get stuck.
pub proof fn law_rng_never_zero(seed: u32, id: u32, x: u32)
    ensures
        rng_seed(seed, id) != 0,
        x != 0 ==> xorshift(x) != 0,
{
    let z = rng_mix(seed, id);
    assert((z | 1u32) != 0) by (bit_vector);
    assert(x != 0 ==> xorshift(x) != 0) by (bit_vector);
}

} // verus!
