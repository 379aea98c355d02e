//! Why the two engines agree.
//!
//! A byte step is additive: the register after the sum (bit by bit, without
//! carry) of two inputs is the sum of the registers after each. So the eight
//! byte steps of one group come apart into the contribution of each byte of
//! the register and of the input, and each contribution is one table entry.
use vstd::prelude::*;

use crate::crc32::slicing8::{
    slicing_fold,
    slicing_step,
    spec_groups,
    spec_le_word,
    spec_slicing_from,
    spec_slicing_table,
    spec_slicing_update,
    zero_step,
    zero_steps,
};
use crate::crc32::{bit_step, bit_steps, byte_step, fold, spec_table, spec_update};

verus! {

/// A table of 256 words whose entry for the sum of two bytes is the sum of
/// their entries.
pub open spec fn additive(t: Seq<u32>) -> bool {
    &&& t.len() == 256
    &&& forall|a: u8, b: u8| #[trigger] t[(a ^ b) as int] == t[a as int] ^ t[b as int]
}

proof fn lemma_bit_step_additive(poly: u32, x: u32, y: u32)
    by (bit_vector)
    ensures
        bit_step(poly, x ^ y) == bit_step(poly, x) ^ bit_step(poly, y),
{
}

proof fn lemma_bit_steps_additive(poly: u32, x: u32, y: u32, n: nat)
    ensures
        bit_steps(poly, x ^ y, n) == bit_steps(poly, x, n) ^ bit_steps(poly, y, n),
    decreases n,
{
    if n > 0 {
        lemma_bit_steps_additive(poly, x, y, (n - 1) as nat);
        lemma_bit_step_additive(
            poly,
            bit_steps(poly, x, (n - 1) as nat),
            bit_steps(poly, y, (n - 1) as nat),
        );
    }
}

/// The table of a polynomial is additive.
pub proof fn lemma_table_additive(poly: u32)
    ensures
        additive(spec_table(poly)),
{
    let t = spec_table(poly);
    assert forall|a: u8, b: u8| #[trigger] t[(a ^ b) as int] == t[a as int] ^ t[b as int] by {
        lemma_bit_steps_additive(poly, a as u32, b as u32, 8);
        assert((a ^ b) as u32 == (a as u32) ^ (b as u32)) by (bit_vector);
    }
}

proof fn lemma_xor(a: u32, b: u32, c: u32, d: u32)
    by (bit_vector)
    ensures
        (a ^ b) ^ (c ^ d) == (a ^ c) ^ (b ^ d),
        (a ^ b) ^ c == (a ^ c) ^ b,
        a ^ (b ^ c) == (a ^ b) ^ c,
        a ^ a == 0,
        a ^ 0 == a,
{
}

proof fn lemma_split(x: u32, y: u32)
    by (bit_vector)
    ensures
        ((x ^ y) as u8) == (x as u8) ^ (y as u8),
        (x ^ y) >> 8 == (x >> 8) ^ (y >> 8),
{
}

proof fn lemma_bytes_of(w: u32)
    by (bit_vector)
    ensures
        (w >> 8) >> 8 == w >> 16,
        (w >> 16) >> 8 == w >> 24,
        (w >> 24) >> 8 == 0,
        0u32 as u8 == 0u8,
        0u32 >> 8 == 0u32,
{
}

proof fn lemma_ahead(x: u32, b: u8, v: u32)
    by (bit_vector)
    requires
        v < 0x100_0000,
    ensures
        (((x ^ (b as u32)) ^ (v << 8)) as u8) == (x as u8) ^ b,
        ((x ^ (b as u32)) ^ (v << 8)) >> 8 == (x >> 8) ^ v,
{
}

proof fn lemma_word(c: u32, s1: u32, s2: u32, b0: u8, b1: u8, b2: u8, b3: u8)
    by (bit_vector)
    ensures
        ((b1 as u32) | ((b2 as u32) << 8) | ((b3 as u32) << 16)) < 0x100_0000,
        ((b2 as u32) | ((b3 as u32) << 8)) < 0x100_0000,
        (b3 as u32) < 0x100_0000,
        c ^ ((b0 as u32) | ((b1 as u32) << 8) | ((b2 as u32) << 16) | ((b3 as u32) << 24)) == (c ^ (
        b0 as u32)) ^ (((b1 as u32) | ((b2 as u32) << 8) | ((b3 as u32) << 16)) << 8),
        s1 ^ ((b1 as u32) | ((b2 as u32) << 8) | ((b3 as u32) << 16)) == (s1 ^ (b1 as u32)) ^ (((
        b2 as u32) | ((b3 as u32) << 8)) << 8),
        s2 ^ ((b2 as u32) | ((b3 as u32) << 8)) == (s2 ^ (b2 as u32)) ^ ((b3 as u32) << 8),
{
}

proof fn lemma_regroup(
    a0: u32,
    a1: u32,
    a2: u32,
    a3: u32,
    a4: u32,
    a5: u32,
    a6: u32,
    a7: u32,
)
    by (bit_vector)
    ensures
        ((((a7 ^ (a6 ^ (a5 ^ a4))) ^ a3) ^ a2) ^ a1) ^ a0 == a0 ^ a1 ^ a2 ^ a3 ^ a4 ^ a5 ^ a6 ^ a7,
{
}

/// An additive table has a zero for the byte zero, and zero stays zero.
proof fn lemma_zero_stays(t: Seq<u32>, n: nat)
    requires
        additive(t),
    ensures
        t[0] == 0,
        zero_steps(t, 0, n) == 0,
    decreases n,
{
    assert(t[(0u8 ^ 0u8) as int] == t[0u8 as int] ^ t[0u8 as int]);
    assert(0u8 ^ 0u8 == 0u8) by (bit_vector);
    lemma_xor(t[0], 0, 0, 0);
    lemma_bytes_of(0);
    if n > 0 {
        lemma_zero_stays(t, (n - 1) as nat);
    }
}

proof fn lemma_zero_step_additive(t: Seq<u32>, x: u32, y: u32)
    requires
        additive(t),
    ensures
        zero_step(t, x ^ y) == zero_step(t, x) ^ zero_step(t, y),
{
    lemma_split(x, y);
    assert(t[((x as u8) ^ (y as u8)) as int] == t[(x as u8) as int] ^ t[(y as u8) as int]);
    lemma_xor(t[(x as u8) as int], t[(y as u8) as int], x >> 8, y >> 8);
}

proof fn lemma_zero_steps_additive(t: Seq<u32>, x: u32, y: u32, n: nat)
    requires
        additive(t),
    ensures
        zero_steps(t, x ^ y, n) == zero_steps(t, x, n) ^ zero_steps(t, y, n),
    decreases n,
{
    if n > 0 {
        lemma_zero_steps_additive(t, x, y, (n - 1) as nat);
        lemma_zero_step_additive(
            t,
            zero_steps(t, x, (n - 1) as nat),
            zero_steps(t, y, (n - 1) as nat),
        );
    }
}

/// `m` steps and then `n` steps are `m + n` steps.
proof fn lemma_zero_steps_add(t: Seq<u32>, x: u32, m: nat, n: nat)
    ensures
        zero_steps(t, zero_steps(t, x, m), n) == zero_steps(t, x, m + n),
    decreases n,
{
    if n > 0 {
        lemma_zero_steps_add(t, x, m, (n - 1) as nat);
    }
}

/// After `n` steps, a register is what its low byte and what the rest of it
/// have become, added.
proof fn lemma_peel(t: Seq<u32>, x: u32, n: nat)
    requires
        additive(t),
        n >= 1,
    ensures
        zero_steps(t, x, n) == zero_steps(t, t[(x as u8) as int], (n - 1) as nat) ^ zero_steps(
            t,
            x >> 8,
            (n - 1) as nat,
        ),
{
    lemma_zero_steps_add(t, x, 1, (n - 1) as nat);
    assert(zero_steps(t, x, 1) == zero_step(t, x)) by {
        reveal_with_fuel(zero_steps, 2);
    }
    lemma_zero_steps_additive(t, t[(x as u8) as int], x >> 8, (n - 1) as nat);
}

/// A byte step is a zero step of the register, and the entry of the byte added.
proof fn lemma_byte_step_split(t: Seq<u32>, x: u32, b: u8)
    requires
        additive(t),
    ensures
        byte_step(t, x, b) == zero_step(t, x) ^ t[b as int],
{
    assert(t[((x as u8) ^ b) as int] == t[(x as u8) as int] ^ t[b as int]);
    lemma_xor(t[(x as u8) as int], t[b as int], x >> 8, 0);
}

/// A zero step on a register that holds the next bytes one place up gives
/// the register after a byte step, with those bytes one place down.
proof fn lemma_byte_step_ahead(t: Seq<u32>, x: u32, b: u8, v: u32)
    requires
        v < 0x100_0000,
    ensures
        zero_step(t, (x ^ (b as u32)) ^ (v << 8)) == byte_step(t, x, b) ^ v,
{
    lemma_ahead(x, b, v);
    lemma_xor(t[((x as u8) ^ b) as int], x >> 8, v, 0);
}

/// The register after eight bytes, all named.
pub open spec fn fold8(
    t: Seq<u32>,
    c: u32,
    b0: u8,
    b1: u8,
    b2: u8,
    b3: u8,
    b4: u8,
    b5: u8,
    b6: u8,
    b7: u8,
) -> u32 {
    let s1 = byte_step(t, c, b0);
    let s2 = byte_step(t, s1, b1);
    let s3 = byte_step(t, s2, b2);
    let s4 = byte_step(t, s3, b3);
    let s5 = byte_step(t, s4, b4);
    let s6 = byte_step(t, s5, b5);
    let s7 = byte_step(t, s6, b6);
    byte_step(t, s7, b7)
}

proof fn lemma_fold_push(t: Seq<u32>, c: u32, bytes: Seq<u8>, b: u8)
    ensures
        fold(t, c, bytes.push(b)) == byte_step(t, fold(t, c, bytes), b),
{
    assert(bytes.push(b).drop_last() =~= bytes);
}

proof fn lemma_fold_is_fold8(t: Seq<u32>, c: u32, bytes: Seq<u8>, off: int)
    requires
        0 <= off,
        off + 8 <= bytes.len(),
    ensures
        fold(t, c, bytes.subrange(off, off + 8)) == fold8(
            t,
            c,
            bytes[off],
            bytes[off + 1],
            bytes[off + 2],
            bytes[off + 3],
            bytes[off + 4],
            bytes[off + 5],
            bytes[off + 6],
            bytes[off + 7],
        ),
{
    let g0 = Seq::<u8>::empty();
    let g1 = g0.push(bytes[off]);
    let g2 = g1.push(bytes[off + 1]);
    let g3 = g2.push(bytes[off + 2]);
    let g4 = g3.push(bytes[off + 3]);
    let g5 = g4.push(bytes[off + 4]);
    let g6 = g5.push(bytes[off + 5]);
    let g7 = g6.push(bytes[off + 6]);
    let g8 = g7.push(bytes[off + 7]);
    lemma_fold_push(t, c, g0, bytes[off]);
    lemma_fold_push(t, c, g1, bytes[off + 1]);
    lemma_fold_push(t, c, g2, bytes[off + 2]);
    lemma_fold_push(t, c, g3, bytes[off + 3]);
    lemma_fold_push(t, c, g4, bytes[off + 4]);
    lemma_fold_push(t, c, g5, bytes[off + 5]);
    lemma_fold_push(t, c, g6, bytes[off + 6]);
    lemma_fold_push(t, c, g7, bytes[off + 7]);
    assert(g8 =~= bytes.subrange(off, off + 8));
}

/// The first four byte steps of a group are four zero steps of the register
/// with the four bytes added as one word.
proof fn lemma_first_half(t: Seq<u32>, c: u32, b0: u8, b1: u8, b2: u8, b3: u8)
    ensures
        zero_steps(
            t,
            c ^ ((b0 as u32) | ((b1 as u32) << 8) | ((b2 as u32) << 16) | ((b3 as u32) << 24)),
            4,
        ) == byte_step(t, byte_step(t, byte_step(t, byte_step(t, c, b0), b1), b2), b3),
{
    let s1 = byte_step(t, c, b0);
    let s2 = byte_step(t, s1, b1);
    let s3 = byte_step(t, s2, b2);
    let v1 = (b1 as u32) | ((b2 as u32) << 8) | ((b3 as u32) << 16);
    let v2 = (b2 as u32) | ((b3 as u32) << 8);
    let v3 = b3 as u32;
    let w = c ^ ((b0 as u32) | ((b1 as u32) << 8) | ((b2 as u32) << 16) | ((b3 as u32) << 24));
    lemma_word(c, s1, s2, b0, b1, b2, b3);
    lemma_byte_step_ahead(t, c, b0, v1);
    lemma_byte_step_ahead(t, s1, b1, v2);
    lemma_byte_step_ahead(t, s2, b2, v3);
    lemma_byte_step_ahead(t, s3, b3, 0);
    assert(0u32 << 8 == 0u32) by (bit_vector);
    lemma_xor(s3 ^ (b3 as u32), 0, 0, 0);
    lemma_xor(byte_step(t, s3, b3), 0, 0, 0);
    reveal_with_fuel(zero_steps, 5);
}

/// One group of the slicing engine is eight byte steps.
pub proof fn lemma_slicing_step(t: Seq<u32>, c: u32, bytes: Seq<u8>, off: int)
    requires
        additive(t),
        0 <= off,
        off + 8 <= bytes.len(),
    ensures
        slicing_step(spec_slicing_from(t), c, bytes, off) == fold(
            t,
            c,
            bytes.subrange(off, off + 8),
        ),
{
    let t8 = spec_slicing_from(t);
    let (b0, b1, b2, b3) = (bytes[off], bytes[off + 1], bytes[off + 2], bytes[off + 3]);
    let (b4, b5, b6, b7) = (bytes[off + 4], bytes[off + 5], bytes[off + 6], bytes[off + 7]);
    let w = c ^ spec_le_word(bytes, off);
    let s4 = byte_step(t, byte_step(t, byte_step(t, byte_step(t, c, b0), b1), b2), b3);
    let s5 = byte_step(t, s4, b4);
    let s6 = byte_step(t, s5, b5);
    let s7 = byte_step(t, s6, b6);
    let s8 = byte_step(t, s7, b7);
    lemma_fold_is_fold8(t, c, bytes, off);
    lemma_first_half(t, c, b0, b1, b2, b3);
    // the register's own bytes, eight steps on
    let (w0, w1, w2, w3) = (w as u8, (w >> 8) as u8, (w >> 16) as u8, (w >> 24) as u8);
    let e7 = zero_steps(t, t[w0 as int], 7);
    let e6 = zero_steps(t, t[w1 as int], 6);
    let e5 = zero_steps(t, t[w2 as int], 5);
    let e4 = zero_steps(t, t[w3 as int], 4);
    lemma_bytes_of(w);
    lemma_peel(t, w, 8);
    lemma_peel(t, w >> 8, 7);
    lemma_peel(t, w >> 16, 6);
    lemma_peel(t, w >> 24, 5);
    lemma_zero_stays(t, 4);
    lemma_xor(e4, 0, 0, 0);
    assert(zero_steps(t, w, 8) == e7 ^ (e6 ^ (e5 ^ e4)));
    // the last four bytes, each as many steps on as bytes follow it
    let z1 = zero_steps(t, s4, 1);
    let z2 = zero_steps(t, s4, 2);
    let z3 = zero_steps(t, s4, 3);
    let z4 = zero_steps(t, s4, 4);
    lemma_zero_steps_add(t, w, 4, 4);
    let (e3, f2, f1) = (
        zero_steps(t, t[b4 as int], 3),
        zero_steps(t, t[b4 as int], 2),
        zero_steps(t, t[b4 as int], 1),
    );
    let (e2, g1) = (zero_steps(t, t[b5 as int], 2), zero_steps(t, t[b5 as int], 1));
    let e1 = zero_steps(t, t[b6 as int], 1);
    let e0 = t[b7 as int];
    reveal_with_fuel(zero_steps, 5);
    lemma_byte_step_split(t, s4, b4);
    assert(s5 == z1 ^ t[b4 as int]);
    lemma_byte_step_split(t, s5, b5);
    lemma_zero_step_additive(t, z1, t[b4 as int]);
    assert(s6 == (z2 ^ f1) ^ t[b5 as int]);
    lemma_byte_step_split(t, s6, b6);
    lemma_zero_step_additive(t, z2 ^ f1, t[b5 as int]);
    lemma_zero_step_additive(t, z2, f1);
    assert(s7 == ((z3 ^ f2) ^ g1) ^ t[b6 as int]);
    lemma_byte_step_split(t, s7, b7);
    lemma_zero_step_additive(t, (z3 ^ f2) ^ g1, t[b6 as int]);
    lemma_zero_step_additive(t, z3 ^ f2, g1);
    lemma_zero_step_additive(t, z3, f2);
    assert(s8 == (((z4 ^ e3) ^ e2) ^ e1) ^ e0);
    lemma_regroup(e0, e1, e2, e3, e4, e5, e6, e7);
}

/// The register after `a + b` is the register after `b` that starts from the
/// register after `a`.
pub proof fn lemma_fold_concat(t: Seq<u32>, c: u32, a: Seq<u8>, b: Seq<u8>)
    ensures
        fold(t, c, a + b) == fold(t, fold(t, c, a), b),
    decreases b.len(),
{
    if b.len() == 0 {
        assert(a + b =~= a);
    } else {
        lemma_fold_concat(t, c, a, b.drop_last());
        assert((a + b).drop_last() =~= a + b.drop_last());
    }
}

/// Continuing a checksum by nothing leaves it as it is, and continuing it
/// by `a` and then by `b` is continuing it by `a + b`.
pub proof fn lemma_update_concat(t: Seq<u32>, crc: u32, a: Seq<u8>, b: Seq<u8>)
    ensures
        spec_update(t, crc, Seq::<u8>::empty()) == crc,
        spec_update(t, spec_update(t, crc, a), b) == spec_update(t, crc, a + b),
{
    crate::crc32::slicing8::lemma_complement(crc);
    crate::crc32::slicing8::lemma_complement(fold(t, !crc, a));
    lemma_fold_concat(t, !crc, a, b);
}

proof fn lemma_slicing_fold(t: Seq<u32>, c: u32, bytes: Seq<u8>, n: nat)
    requires
        additive(t),
        8 * n <= bytes.len(),
    ensures
        slicing_fold(spec_slicing_from(t), c, bytes, n) == fold(t, c, bytes.take(8 * (n as int))),
    decreases n,
{
    if n == 0 {
        assert(bytes.take(0) =~= Seq::<u8>::empty());
    } else {
        let k = 8 * (n - 1);
        lemma_slicing_fold(t, c, bytes, (n - 1) as nat);
        lemma_slicing_step(t, fold(t, c, bytes.take(k)), bytes, k);
        lemma_fold_concat(t, c, bytes.take(k), bytes.subrange(k, k + 8));
        assert(bytes.take(k) + bytes.subrange(k, k + 8) =~= bytes.take(k + 8));
    }
}

/// Engine equivalence: with the eight tables that follow from an additive
/// table, the slicing engine continues every checksum by every input as the
/// byte-wise engine does with that table.
pub proof fn lemma_slicing_is_bytewise_from(t: Seq<u32>, crc: u32, bytes: Seq<u8>)
    requires
        additive(t),
    ensures
        spec_slicing_update(spec_slicing_from(t), crc, bytes) == spec_update(t, crc, bytes),
{
    let n = spec_groups(bytes.len());
    let t8 = spec_slicing_from(t);
    assert(t8[0] =~= t) by {
        reveal_with_fuel(zero_steps, 1);
    }
    lemma_slicing_fold(t, !crc, bytes, n);
    let k = 8 * (n as int);
    lemma_fold_concat(t, !crc, bytes.take(k), bytes.skip(k));
    assert(bytes.take(k) + bytes.skip(k) =~= bytes);
}

/// Engine equivalence: for every polynomial, every checksum to start from and
/// every input, the slicing engine with the eight tables of the polynomial
/// gives what the byte-wise engine gives with its table.
pub proof fn lemma_slicing_is_bytewise(poly: u32, crc: u32, bytes: Seq<u8>)
    ensures
        spec_slicing_update(spec_slicing_table(poly), crc, bytes) == spec_update(
            spec_table(poly),
            crc,
            bytes,
        ),
{
    lemma_table_additive(poly);
    lemma_slicing_is_bytewise_from(spec_table(poly), crc, bytes);
}

} // verus!
