//! The FNV-1 and FNV-1a hashes of Fowler, Noll and Vo.
//!
//! A hash starts from the offset basis of its width. FNV-1 multiplies the
//! hash by the prime of the width and then adds the byte, bit by bit without
//! carry; FNV-1a adds the byte first. All products wrap at the width.
use vstd::prelude::*;

use crate::fnv::sum128::Sum128;
use crate::fnv::sum128a::Sum128a;
use crate::fnv::sum32::Sum32;
use crate::fnv::sum32a::Sum32a;
use crate::fnv::sum64::Sum64;
use crate::fnv::sum64a::Sum64a;

pub mod sum128;
pub mod sum128a;
pub mod sum32;
pub mod sum32a;
pub mod sum64;
pub mod sum64a;

verus! {

/// The 32-bit offset basis.
pub const OFFSET32: u32 = 2166136261;

/// The 64-bit offset basis.
pub const OFFSET64: u64 = 14695981039346656037;

/// The lower word of the 128-bit offset basis.
pub const OFFSET128_LOWER: u64 = 0x62b821756295c58d;

/// The higher word of the 128-bit offset basis.
pub const OFFSET128_HIGHER: u64 = 0x6c62272e07bb0142;

/// The 32-bit prime.
pub const PRIME32: u32 = 16777619;

/// The 64-bit prime.
pub const PRIME64: u64 = 1099511628211;

/// The low bits of the 128-bit prime.
pub const PRIME128_LOWER: u128 = 0x013b;

/// Where the one bit of the 128-bit prime stands in its higher word.
pub const PRIME128_SHIFT: u32 = 24;

/// The 128-bit prime.
pub const PRIME128: u128 = 0x0000000001000000000000000000013b;

/// One byte of 32-bit FNV-1.
pub open spec fn step32(h: u32, b: u8) -> u32 {
    h.wrapping_mul(PRIME32) ^ (b as u32)
}

/// One byte of 32-bit FNV-1a.
pub open spec fn step32a(h: u32, b: u8) -> u32 {
    (h ^ (b as u32)).wrapping_mul(PRIME32)
}

/// One byte of 64-bit FNV-1.
pub open spec fn step64(h: u64, b: u8) -> u64 {
    h.wrapping_mul(PRIME64) ^ (b as u64)
}

/// One byte of 64-bit FNV-1a.
pub open spec fn step64a(h: u64, b: u8) -> u64 {
    (h ^ (b as u64)).wrapping_mul(PRIME64)
}

/// One byte of 128-bit FNV-1.
pub open spec fn step128(h: u128, b: u8) -> u128 {
    h.wrapping_mul(PRIME128) ^ (b as u128)
}

/// One byte of 128-bit FNV-1a.
pub open spec fn step128a(h: u128, b: u8) -> u128 {
    (h ^ (b as u128)).wrapping_mul(PRIME128)
}

/// The 32-bit FNV-1 hash `h` continued by `bytes`.
pub open spec fn fold32(h: u32, bytes: Seq<u8>) -> u32
    decreases bytes.len(),
{
    if bytes.len() == 0 {
        h
    } else {
        step32(fold32(h, bytes.drop_last()), bytes.last())
    }
}

/// The 32-bit FNV-1a hash `h` continued by `bytes`.
pub open spec fn fold32a(h: u32, bytes: Seq<u8>) -> u32
    decreases bytes.len(),
{
    if bytes.len() == 0 {
        h
    } else {
        step32a(fold32a(h, bytes.drop_last()), bytes.last())
    }
}

/// The 64-bit FNV-1 hash `h` continued by `bytes`.
pub open spec fn fold64(h: u64, bytes: Seq<u8>) -> u64
    decreases bytes.len(),
{
    if bytes.len() == 0 {
        h
    } else {
        step64(fold64(h, bytes.drop_last()), bytes.last())
    }
}

/// The 64-bit FNV-1a hash `h` continued by `bytes`.
pub open spec fn fold64a(h: u64, bytes: Seq<u8>) -> u64
    decreases bytes.len(),
{
    if bytes.len() == 0 {
        h
    } else {
        step64a(fold64a(h, bytes.drop_last()), bytes.last())
    }
}

/// The 128-bit FNV-1 hash `h` continued by `bytes`.
pub open spec fn fold128(h: u128, bytes: Seq<u8>) -> u128
    decreases bytes.len(),
{
    if bytes.len() == 0 {
        h
    } else {
        step128(fold128(h, bytes.drop_last()), bytes.last())
    }
}

/// The 128-bit FNV-1a hash `h` continued by `bytes`.
pub open spec fn fold128a(h: u128, bytes: Seq<u8>) -> u128
    decreases bytes.len(),
{
    if bytes.len() == 0 {
        h
    } else {
        step128a(fold128a(h, bytes.drop_last()), bytes.last())
    }
}

/// The 128-bit word with the higher half `hi` and the lower half `lo`.
pub open spec fn join(hi: u64, lo: u64) -> u128 {
    ((hi as u128) << 64) | (lo as u128)
}

/// The higher half of a 128-bit word.
pub open spec fn higher(h: u128) -> u64 {
    (h >> 64) as u64
}

/// The lower half of a 128-bit word.
pub open spec fn lower(h: u128) -> u64 {
    h as u64
}

/// The halves of a joined word are the words that were joined.
pub proof fn lemma_join(hi: u64, lo: u64)
    by (bit_vector)
    ensures
        higher(join(hi, lo)) == hi,
        lower(join(hi, lo)) == lo,
{
}

/// The lower half of the product of the word with the halves `hi` and `lo`
/// and the 128-bit prime.
pub open spec fn product_lower(lo: u64) -> u64 {
    PRIME128_LOWER.wrapping_mul(lo as u128) as u64
}

/// The higher half of that product: what the lower half carries over, the
/// lower half of the word moved up by the shift, and the higher half times
/// the low bits of the prime, added with wrapping.
pub open spec fn product_higher(hi: u64, lo: u64) -> u64 {
    ((PRIME128_LOWER.wrapping_mul(lo as u128) >> 64) as u64).wrapping_add(
        lo.wrapping_shl(PRIME128_SHIFT).wrapping_add(
            PRIME128_LOWER.wrapping_mul(hi as u128) as u64,
        ),
    )
}

proof fn lemma_halves_value(v: u128)
    by (bit_vector)
    ensures
        (v >> 64) as u64 == v / 0x1_0000_0000_0000_0000,
        v as u64 == v % 0x1_0000_0000_0000_0000,
{
}

proof fn lemma_join_value(hi: u64, lo: u64)
    by (bit_vector)
    ensures
        lo << 24 == (lo * 0x100_0000) % 0x1_0000_0000_0000_0000,
        ((hi as u128) << 64) | (lo as u128) == hi * 0x1_0000_0000_0000_0000 + lo,
{
}

/// The two halves computed apart are the halves of the true 128-bit product
/// with the prime.
pub proof fn lemma_times_prime(hi: u64, lo: u64)
    ensures
        join(hi, lo).wrapping_mul(PRIME128) == join(product_higher(hi, lo), product_lower(lo)),
{
    let a: int = 0x1_0000_0000_0000_0000;
    let v = PRIME128_LOWER.wrapping_mul(lo as u128);
    let u = PRIME128_LOWER.wrapping_mul(hi as u128);
    let (h, l) = (hi as int, lo as int);
    assert(v == 0x13b * l);
    assert(u == 0x13b * h);
    let s1 = product_lower(lo);
    let s0 = product_higher(hi, lo);
    let c = (v >> 64) as u64;
    let r1 = lo.wrapping_shl(PRIME128_SHIFT);
    let r2 = u as u64;
    lemma_halves_value(v);
    lemma_halves_value(u);
    lemma_join_value(hi, lo);
    lemma_join_value(s0, s1);
    assert(r1 == lo << 24);
    let q1 = (l * 0x100_0000) / a;
    let q2 = (u as int) / a;
    let q3 = (c + r1 + r2) / a;
    assert(s0 == (c + r1 + r2) % a);
    let whole = (h * a + l) * (PRIME128 as int);
    assert(whole == (a * a) * (h * 0x100_0000 + q1 + q2 + q3) + (s0 * a + s1)) by {
        assert(whole == h * (a * (PRIME128 as int)) + l * (PRIME128 as int)) by (nonlinear_arith)
            requires
                whole == (h * a + l) * (PRIME128 as int),
        ;
    }
    vstd::arithmetic::div_mod::lemma_fundamental_div_mod_converse(
        whole,
        a * a,
        h * 0x100_0000 + q1 + q2 + q3,
        s0 * a + s1,
    );
}

/// Continuing a hash by `a` and then by `b` is continuing it by `a + b`.
pub proof fn lemma_fold32_concat(h: u32, a: Seq<u8>, b: Seq<u8>)
    ensures
        fold32(fold32(h, a), b) == fold32(h, a + b),
    decreases b.len(),
{
    if b.len() == 0 {
        assert(a + b =~= a);
    } else {
        lemma_fold32_concat(h, a, b.drop_last());
        assert((a + b).drop_last() =~= a + b.drop_last());
    }
}

/// Continuing a hash by `a` and then by `b` is continuing it by `a + b`.
pub proof fn lemma_fold32a_concat(h: u32, a: Seq<u8>, b: Seq<u8>)
    ensures
        fold32a(fold32a(h, a), b) == fold32a(h, a + b),
    decreases b.len(),
{
    if b.len() == 0 {
        assert(a + b =~= a);
    } else {
        lemma_fold32a_concat(h, a, b.drop_last());
        assert((a + b).drop_last() =~= a + b.drop_last());
    }
}

/// Continuing a hash by `a` and then by `b` is continuing it by `a + b`.
pub proof fn lemma_fold64_concat(h: u64, a: Seq<u8>, b: Seq<u8>)
    ensures
        fold64(fold64(h, a), b) == fold64(h, a + b),
    decreases b.len(),
{
    if b.len() == 0 {
        assert(a + b =~= a);
    } else {
        lemma_fold64_concat(h, a, b.drop_last());
        assert((a + b).drop_last() =~= a + b.drop_last());
    }
}

/// Continuing a hash by `a` and then by `b` is continuing it by `a + b`.
pub proof fn lemma_fold64a_concat(h: u64, a: Seq<u8>, b: Seq<u8>)
    ensures
        fold64a(fold64a(h, a), b) == fold64a(h, a + b),
    decreases b.len(),
{
    if b.len() == 0 {
        assert(a + b =~= a);
    } else {
        lemma_fold64a_concat(h, a, b.drop_last());
        assert((a + b).drop_last() =~= a + b.drop_last());
    }
}

/// Continuing a hash by `a` and then by `b` is continuing it by `a + b`.
pub proof fn lemma_fold128_concat(h: u128, a: Seq<u8>, b: Seq<u8>)
    ensures
        fold128(fold128(h, a), b) == fold128(h, a + b),
    decreases b.len(),
{
    if b.len() == 0 {
        assert(a + b =~= a);
    } else {
        lemma_fold128_concat(h, a, b.drop_last());
        assert((a + b).drop_last() =~= a + b.drop_last());
    }
}

/// Continuing a hash by `a` and then by `b` is continuing it by `a + b`.
pub proof fn lemma_fold128a_concat(h: u128, a: Seq<u8>, b: Seq<u8>)
    ensures
        fold128a(fold128a(h, a), b) == fold128a(h, a + b),
    decreases b.len(),
{
    if b.len() == 0 {
        assert(a + b =~= a);
    } else {
        lemma_fold128a_concat(h, a, b.drop_last());
        assert((a + b).drop_last() =~= a + b.drop_last());
    }
}

/// Adding a byte to a joined word adds it to the lower half.
pub proof fn lemma_join_byte(hi: u64, lo: u64, b: u8)
    by (bit_vector)
    ensures
        join(hi, lo ^ (b as u64)) == join(hi, lo) ^ (b as u128),
{
}

/// Returns a new engine for the 128-bit FNV-1 hash. Its `sum` gives the hash
/// most significant byte first.
pub fn new128() -> (h: Sum128)
    ensures
        h@ == join(OFFSET128_HIGHER, OFFSET128_LOWER),
{
    Sum128::new()
}

/// Returns a new engine for the 128-bit FNV-1a hash. Its `sum` gives the hash
/// most significant byte first.
pub fn new128a() -> (h: Sum128a)
    ensures
        h@ == join(OFFSET128_HIGHER, OFFSET128_LOWER),
{
    Sum128a::new()
}

/// Returns a new engine for the 32-bit FNV-1 hash. Its `sum` gives the hash
/// most significant byte first.
pub fn new32() -> (h: Sum32)
    ensures
        h@ == OFFSET32,
{
    Sum32::new()
}

/// Returns a new engine for the 32-bit FNV-1a hash. Its `sum` gives the hash
/// most significant byte first.
pub fn new32a() -> (h: Sum32a)
    ensures
        h@ == OFFSET32,
{
    Sum32a::new()
}

/// Returns a new engine for the 64-bit FNV-1 hash. Its `sum` gives the hash
/// most significant byte first.
pub fn new64() -> (h: Sum64)
    ensures
        h@ == OFFSET64,
{
    Sum64::new()
}

/// Returns a new engine for the 64-bit FNV-1a hash. Its `sum` gives the hash
/// most significant byte first.
pub fn new64a() -> (h: Sum64a)
    ensures
        h@ == OFFSET64,
{
    Sum64a::new()
}

} // verus!
