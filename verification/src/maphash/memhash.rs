//! The mixing primitive: one word from a window of bytes and a seed.
//!
//! Short windows are read as one or two words, which may overlap; longer ones
//! are taken sixteen bytes at a time, with three chains side by side while more
//! than forty-eight bytes are left. Every word is read least significant byte
//! first, at any offset.
use vstd::prelude::*;

use crate::maphash::HashKey;

verus! {

/// The constant that is folded into the seed with the key.
pub const M1: u64 = 0xa0761d6478bd642f;

/// The constant of the first chain of mixes and of the last step.
pub const M2: u64 = 0xe7037ed1a0b428db;

/// The constant of the second chain of mixes.
pub const M3: u64 = 0x8ebc6af09c88c6e3;

/// The constant of the third chain of mixes.
pub const M4: u64 = 0x589965cc75374cc3;

/// The constant that is folded into the length in the last step.
pub const M5: u64 = 0x1d8e4e27c47d124f;

/// The product of `a` and `b` in 128 bits, its high half folded onto its low half.
pub open spec fn spec_mix(a: u64, b: u64) -> u64 {
    let p = (a as int * b as int) as u128;
    ((p >> 64) as u64) ^ (p as u64)
}

/// The four bytes of `w` from `off` on, as a word.
pub open spec fn spec_r4(w: Seq<u8>, off: int) -> u64 {
    (w[off] as u64) | ((w[off + 1] as u64) << 8) | ((w[off + 2] as u64) << 16) | ((w[off
        + 3] as u64) << 24)
}

/// The eight bytes of `w` from `off` on, as a word.
pub open spec fn spec_r8(w: Seq<u8>, off: int) -> u64 {
    spec_r4(w, off) | (spec_r4(w, off + 4) << 32)
}

/// The word made of the first, the middle and the last byte of a window of one to three bytes.
pub open spec fn spec_r3(w: Seq<u8>) -> u64 {
    let s = w.len() as int;
    (w[0] as u64) | ((w[s / 2] as u64) << 8) | ((w[s - 1] as u64) << 16)
}

/// The seed after the sixteen-byte strides from `off` on, as long as more
/// than sixteen bytes are left.
pub open spec fn spec_fold16(w: Seq<u8>, off: int, seed: u64) -> u64
    decreases w.len() - off,
{
    if 0 <= off && w.len() - off > 16 {
        spec_fold16(w, off + 16, spec_mix(spec_r8(w, off) ^ M2, spec_r8(w, off + 8) ^ seed))
    } else {
        seed
    }
}

/// The seed after the strides of a long window from `off` on: three chains
/// over forty-eight bytes each as long as more than forty-eight are left,
/// then the three joined, then the sixteen-byte strides.
pub open spec fn spec_fold48(w: Seq<u8>, off: int, seed: u64, s1: u64, s2: u64) -> u64
    decreases w.len() - off,
{
    if 0 <= off && w.len() - off > 48 {
        spec_fold48(
            w,
            off + 48,
            spec_mix(spec_r8(w, off) ^ M2, spec_r8(w, off + 8) ^ seed),
            spec_mix(spec_r8(w, off + 16) ^ M3, spec_r8(w, off + 24) ^ s1),
            spec_mix(spec_r8(w, off + 32) ^ M4, spec_r8(w, off + 40) ^ s2),
        )
    } else {
        spec_fold16(w, off, seed ^ (s1 ^ s2))
    }
}

/// The seed that the last step of a long window works with.
pub open spec fn spec_long_seed(w: Seq<u8>, seed: u64) -> u64 {
    if w.len() > 48 {
        spec_fold48(w, 0, seed, seed, seed)
    } else {
        spec_fold16(w, 0, seed)
    }
}

/// The last step: the window's length and the two words go through two mixes.
pub open spec fn spec_finish(len: nat, a: u64, b: u64, seed: u64) -> u64 {
    spec_mix(M5 ^ (len as u64), spec_mix(a ^ M2, b ^ seed))
}

/// The hash of the window `w` under `seed` and the key word `k`.
#[verifier::opaque]
pub open spec fn spec_sum(w: Seq<u8>, seed: u64, k: u64) -> u64 {
    let s = w.len() as int;
    let seed = seed ^ (k ^ M1);
    if s == 0 {
        seed
    } else if s <= 3 {
        spec_finish(w.len(), spec_r3(w), 0, seed)
    } else if s <= 7 {
        spec_finish(w.len(), spec_r4(w, 0), spec_r4(w, s - 4), seed)
    } else if s <= 16 {
        spec_finish(w.len(), spec_r8(w, 0), spec_r8(w, s - 8), seed)
    } else {
        spec_finish(w.len(), spec_r8(w, s - 16), spec_r8(w, s - 8), spec_long_seed(w, seed))
    }
}

/// Returns the 128-bit product of `a` and `b`, its high half folded onto its low half.
pub fn mix(a: u64, b: u64) -> (r: u64)
    ensures
        r == spec_mix(a, b),
{
    assert(a as int * b as int <= 0xffff_ffff_ffff_ffff * 0xffff_ffff_ffff_ffff)
        by (nonlinear_arith)
        requires
            0 <= a <= 0xffff_ffff_ffff_ffff,
            0 <= b <= 0xffff_ffff_ffff_ffff,
    ;
    assert(0 <= a as int * b as int) by (nonlinear_arith)
        requires
            0 <= a,
            0 <= b,
    ;
    let p: u128 = (a as u128) * (b as u128);
    ((p >> 64) as u64) ^ (p as u64)
}

/// Reads four bytes of `p` from `off` on as a word, least significant byte first.
pub fn r4(p: &[u8], off: usize) -> (r: u64)
    requires
        off + 4 <= p.len(),
    ensures
        r == spec_r4(p@, off as int),
{
    (p[off] as u64) | ((p[off + 1] as u64) << 8) | ((p[off + 2] as u64) << 16) | ((p[off
        + 3] as u64) << 24)
}

/// Reads eight bytes of `p` from `off` on as a word, least significant byte first.
pub fn r8(p: &[u8], off: usize) -> (r: u64)
    requires
        off + 8 <= p.len(),
    ensures
        r == spec_r8(p@, off as int),
{
    r4(p, off) | (r4(p, off + 4) << 32)
}

/// Returns the hash of the bytes of `p` under `seed` and `key`.
pub fn sum(p: &[u8], seed: u64, key: &HashKey) -> (r: u64)
    ensures
        r == spec_sum(p@, seed, key.word()),
{
    reveal(spec_sum);
    let s: usize = p.len();
    let mut seed: u64 = seed ^ (key.first() ^ M1);
    let ghost seed0 = seed;
    let a: u64;
    let b: u64;
    if s == 0 {
        return seed;
    } else if s <= 3 {
        a = (p[0] as u64) | ((p[s / 2] as u64) << 8) | ((p[s - 1] as u64) << 16);
        b = 0;
    } else if s == 4 {
        a = r4(p, 0);
        b = a;
    } else if s <= 7 {
        a = r4(p, 0);
        b = r4(p, s - 4);
    } else if s == 8 {
        a = r8(p, 0);
        b = a;
    } else if s <= 16 {
        a = r8(p, 0);
        b = r8(p, s - 8);
    } else {
        let mut off: usize = 0;
        if s > 48 {
            let mut s1: u64 = seed;
            let mut s2: u64 = seed;
            while s - off > 48
                invariant
                    s == p@.len(),
                    off <= s,
                    spec_fold48(p@, off as int, seed, s1, s2) == spec_long_seed(p@, seed0),
                decreases s - off,
            {
                seed = mix(r8(p, off) ^ M2, r8(p, off + 8) ^ seed);
                s1 = mix(r8(p, off + 16) ^ M3, r8(p, off + 24) ^ s1);
                s2 = mix(r8(p, off + 32) ^ M4, r8(p, off + 40) ^ s2);
                off += 48;
            }
            seed ^= s1 ^ s2;
        }
        while s - off > 16
            invariant
                s == p@.len(),
                off <= s,
                spec_fold16(p@, off as int, seed) == spec_long_seed(p@, seed0),
            decreases s - off,
        {
            seed = mix(r8(p, off) ^ M2, r8(p, off + 8) ^ seed);
            off += 16;
        }
        a = r8(p, s - 16);
        b = r8(p, s - 8);
    }
    mix(M5 ^ (s as u64), mix(a ^ M2, b ^ seed))
}

} // verus!
