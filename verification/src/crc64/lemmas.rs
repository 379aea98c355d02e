//! Why eight bytes at a time give the checksums of the byte-wise walk.
//!
//! A byte step is additive: the register after the sum (bit by bit, without
//! carry) of two inputs is the sum of the registers after each. So eight byte
//! steps on a register to which eight bytes were added as one word come apart
//! into the contribution of each byte of that word, and each contribution is
//! one table entry.
use vstd::prelude::*;

use crate::crc64::slicing8::{
    lemma_complement,
    slicing_fold,
    slicing_step,
    spec_groups,
    spec_le_word,
    spec_slicing_from,
    spec_slicing_table,
    spec_slicing_update,
    zero_step,
    zero_steps,
};
use crate::crc64::{bit_step, bit_steps, byte_step, fold, spec_table, spec_update};

verus! {

/// A table of 256 words whose entry for the sum of two bytes is the sum of
/// their entries.
pub open spec fn additive(t: Seq<u64>) -> bool {
    &&& t.len() == 256
    &&& forall|a: u8, b: u8| #[trigger] t[(a ^ b) as int] == t[a as int] ^ t[b as int]
}

proof fn lemma_bit_step_additive(poly: u64, x: u64, y: u64)
    by (bit_vector)
    ensures
        bit_step(poly, x ^ y) == bit_step(poly, x) ^ bit_step(poly, y),
{
}

proof fn lemma_bit_steps_additive(poly: u64, x: u64, y: u64, n: nat)
    ensures
        bit_steps(poly, x ^ y, n) == bit_steps(poly, x, n) ^ bit_steps(poly, y, n),
    decreases n,
{
    if n > 0 {
        lemma_bit_steps_additive(poly, x, y, (n - 1) as nat);
        lemma_bit_step_additive(
            poly,
            bit_steps(poly, x, (n - 1) as nat),
            bit_steps(poly, y, (n - 1) as nat),
        );
    }
}

/// The table of a polynomial is additive.
pub proof fn lemma_table_additive(poly: u64)
    ensures
        additive(spec_table(poly)),
{
    let t = spec_table(poly);
    assert forall|a: u8, b: u8| #[trigger] t[(a ^ b) as int] == t[a as int] ^ t[b as int] by {
        lemma_bit_steps_additive(poly, a as u64, b as u64, 8);
        assert((a ^ b) as u64 == (a as u64) ^ (b as u64)) by (bit_vector);
    }
}

proof fn lemma_xor(a: u64, b: u64, c: u64, d: u64)
    by (bit_vector)
    ensures
        (a ^ b) ^ (c ^ d) == (a ^ c) ^ (b ^ d),
        (a ^ b) ^ c == (a ^ c) ^ b,
        a ^ (b ^ c) == (a ^ b) ^ c,
        a ^ a == 0,
        a ^ 0 == a,
{
}

proof fn lemma_split(x: u64, y: u64)
    by (bit_vector)
    ensures
        ((x ^ y) as u8) == (x as u8) ^ (y as u8),
        (x ^ y) >> 8 == (x >> 8) ^ (y >> 8),
{
}

proof fn lemma_bytes_of(w: u64)
    by (bit_vector)
    ensures
        (w >> 8) >> 8 == w >> 16,
        (w >> 16) >> 8 == w >> 24,
        (w >> 24) >> 8 == w >> 32,
        (w >> 32) >> 8 == w >> 40,
        (w >> 40) >> 8 == w >> 48,
        (w >> 48) >> 8 == w >> 56,
        (w >> 56) >> 8 == 0,
        0u64 as u8 == 0u8,
        0u64 >> 8 == 0u64,
        0u64 << 8 == 0u64,
{
}

proof fn lemma_ahead(x: u64, b: u8, v: u64)
    by (bit_vector)
    requires
        v < 0x100_0000_0000_0000,
    ensures
        (((x ^ (b as u64)) ^ (v << 8)) as u8) == (x as u8) ^ b,
        ((x ^ (b as u64)) ^ (v << 8)) >> 8 == (x >> 8) ^ v,
{
}

/// What is left of the word of `b0` to `b7` after its lowest bytes are gone.
pub open spec fn tail_word(b1: u8, b2: u8, b3: u8, b4: u8, b5: u8, b6: u8, b7: u8) -> u64 {
    (b1 as u64) | ((b2 as u64) << 8) | ((b3 as u64) << 16) | ((b4 as u64) << 24) | ((b5 as u64)
        << 32) | ((b6 as u64) << 40) | ((b7 as u64) << 48)
}

proof fn lemma_word(x: u64, b0: u8, b1: u8, b2: u8, b3: u8, b4: u8, b5: u8, b6: u8, b7: u8)
    by (bit_vector)
    ensures
        tail_word(b1, b2, b3, b4, b5, b6, b7) < 0x100_0000_0000_0000,
        x ^ ((b0 as u64) | ((b1 as u64) << 8) | ((b2 as u64) << 16) | ((b3 as u64) << 24) | ((
        b4 as u64) << 32) | ((b5 as u64) << 40) | ((b6 as u64) << 48) | ((b7 as u64) << 56)) == (x
            ^ (b0 as u64)) ^ (tail_word(b1, b2, b3, b4, b5, b6, b7) << 8),
        x ^ tail_word(b0, b1, b2, b3, b4, b5, b6) == (x ^ (b0 as u64)) ^ (tail_word(
            b1,
            b2,
            b3,
            b4,
            b5,
            b6,
            0,
        ) << 8),
{
}

proof fn lemma_regroup(
    a0: u64,
    a1: u64,
    a2: u64,
    a3: u64,
    a4: u64,
    a5: u64,
    a6: u64,
    a7: u64,
)
    by (bit_vector)
    ensures
        a7 ^ (a6 ^ (a5 ^ (a4 ^ (a3 ^ (a2 ^ (a1 ^ a0)))))) == a7 ^ a6 ^ a5 ^ a4 ^ a3 ^ a2 ^ a1 ^ a0,
{
}

/// An additive table has a zero for the byte zero, and zero stays zero.
proof fn lemma_zero_stays(t: Seq<u64>, n: nat)
    requires
        additive(t),
    ensures
        t[0] == 0,
        zero_steps(t, 0, n) == 0,
    decreases n,
{
    assert(t[(0u8 ^ 0u8) as int] == t[0u8 as int] ^ t[0u8 as int]);
    assert(0u8 ^ 0u8 == 0u8) by (bit_vector);
    lemma_xor(t[0], 0, 0, 0);
    lemma_bytes_of(0);
    if n > 0 {
        lemma_zero_stays(t, (n - 1) as nat);
    }
}

proof fn lemma_zero_step_additive(t: Seq<u64>, x: u64, y: u64)
    requires
        additive(t),
    ensures
        zero_step(t, x ^ y) == zero_step(t, x) ^ zero_step(t, y),
{
    lemma_split(x, y);
    assert(t[((x as u8) ^ (y as u8)) as int] == t[(x as u8) as int] ^ t[(y as u8) as int]);
    lemma_xor(t[(x as u8) as int], t[(y as u8) as int], x >> 8, y >> 8);
}

proof fn lemma_zero_steps_additive(t: Seq<u64>, x: u64, y: u64, n: nat)
    requires
        additive(t),
    ensures
        zero_steps(t, x ^ y, n) == zero_steps(t, x, n) ^ zero_steps(t, y, n),
    decreases n,
{
    if n > 0 {
        lemma_zero_steps_additive(t, x, y, (n - 1) as nat);
        lemma_zero_step_additive(
            t,
            zero_steps(t, x, (n - 1) as nat),
            zero_steps(t, y, (n - 1) as nat),
        );
    }
}

/// `m` steps and then `n` steps are `m + n` steps.
proof fn lemma_zero_steps_add(t: Seq<u64>, x: u64, m: nat, n: nat)
    ensures
        zero_steps(t, zero_steps(t, x, m), n) == zero_steps(t, x, m + n),
    decreases n,
{
    if n > 0 {
        lemma_zero_steps_add(t, x, m, (n - 1) as nat);
    }
}

/// After `n` steps, a register is what its low byte and what the rest of it
/// have become, added.
proof fn lemma_peel(t: Seq<u64>, x: u64, n: nat)
    requires
        additive(t),
        n >= 1,
    ensures
        zero_steps(t, x, n) == zero_steps(t, t[(x as u8) as int], (n - 1) as nat) ^ zero_steps(
            t,
            x >> 8,
            (n - 1) as nat,
        ),
{
    lemma_zero_steps_add(t, x, 1, (n - 1) as nat);
    assert(zero_steps(t, x, 1) == zero_step(t, x)) by {
        reveal_with_fuel(zero_steps, 2);
    }
    lemma_zero_steps_additive(t, t[(x as u8) as int], x >> 8, (n - 1) as nat);
}

/// A zero step on a register that holds the next bytes one place up gives
/// the register after a byte step, with those bytes one place down.
proof fn lemma_byte_step_ahead(t: Seq<u64>, x: u64, b: u8, v: u64)
    requires
        v < 0x100_0000_0000_0000,
    ensures
        zero_step(t, (x ^ (b as u64)) ^ (v << 8)) == byte_step(t, x, b) ^ v,
{
    lemma_ahead(x, b, v);
    lemma_xor(t[((x as u8) ^ b) as int], x >> 8, v, 0);
}

proof fn lemma_fold_push(t: Seq<u64>, c: u64, bytes: Seq<u8>, b: u8)
    ensures
        fold(t, c, bytes.push(b)) == byte_step(t, fold(t, c, bytes), b),
{
    assert(bytes.push(b).drop_last() =~= bytes);
}

/// Eight byte steps are eight zero steps of the register with the eight
/// bytes added as one word.
proof fn lemma_ahead8(t: Seq<u64>, c: u64, bytes: Seq<u8>, off: int)
    requires
        0 <= off,
        off + 8 <= bytes.len(),
    ensures
        zero_steps(t, c ^ spec_le_word(bytes, off), 8) == fold(
            t,
            c,
            bytes.subrange(off, off + 8),
        ),
{
    let (b0, b1, b2, b3) = (bytes[off], bytes[off + 1], bytes[off + 2], bytes[off + 3]);
    let (b4, b5, b6, b7) = (bytes[off + 4], bytes[off + 5], bytes[off + 6], bytes[off + 7]);
    let g0 = Seq::<u8>::empty();
    let g1 = g0.push(b0);
    let g2 = g1.push(b1);
    let g3 = g2.push(b2);
    let g4 = g3.push(b3);
    let g5 = g4.push(b4);
    let g6 = g5.push(b5);
    let g7 = g6.push(b6);
    let g8 = g7.push(b7);
    lemma_fold_push(t, c, g0, b0);
    lemma_fold_push(t, c, g1, b1);
    lemma_fold_push(t, c, g2, b2);
    lemma_fold_push(t, c, g3, b3);
    lemma_fold_push(t, c, g4, b4);
    lemma_fold_push(t, c, g5, b5);
    lemma_fold_push(t, c, g6, b6);
    lemma_fold_push(t, c, g7, b7);
    assert(g8 =~= bytes.subrange(off, off + 8));
    let (s1, s2, s3, s4) = (fold(t, c, g1), fold(t, c, g2), fold(t, c, g3), fold(t, c, g4));
    let (s5, s6, s7, s8) = (fold(t, c, g5), fold(t, c, g6), fold(t, c, g7), fold(t, c, g8));
    let v1 = tail_word(b1, b2, b3, b4, b5, b6, b7);
    let v2 = tail_word(b2, b3, b4, b5, b6, b7, 0);
    let v3 = tail_word(b3, b4, b5, b6, b7, 0, 0);
    let v4 = tail_word(b4, b5, b6, b7, 0, 0, 0);
    let v5 = tail_word(b5, b6, b7, 0, 0, 0, 0);
    let v6 = tail_word(b6, b7, 0, 0, 0, 0, 0);
    let v7 = tail_word(b7, 0, 0, 0, 0, 0, 0);
    let v8 = tail_word(0, 0, 0, 0, 0, 0, 0);
    let w = c ^ spec_le_word(bytes, off);
    lemma_word(c, b0, b1, b2, b3, b4, b5, b6, b7);
    lemma_word(s1, b1, b2, b3, b4, b5, b6, b7, 0);
    lemma_word(s2, b2, b3, b4, b5, b6, b7, 0, 0);
    lemma_word(s3, b3, b4, b5, b6, b7, 0, 0, 0);
    lemma_word(s4, b4, b5, b6, b7, 0, 0, 0, 0);
    lemma_word(s5, b5, b6, b7, 0, 0, 0, 0, 0);
    lemma_word(s6, b6, b7, 0, 0, 0, 0, 0, 0);
    lemma_word(s7, b7, 0, 0, 0, 0, 0, 0, 0);
    lemma_word(s8, 0, 0, 0, 0, 0, 0, 0, 0);
    lemma_byte_step_ahead(t, c, b0, v1);
    lemma_byte_step_ahead(t, s1, b1, v2);
    lemma_byte_step_ahead(t, s2, b2, v3);
    lemma_byte_step_ahead(t, s3, b3, v4);
    lemma_byte_step_ahead(t, s4, b4, v5);
    lemma_byte_step_ahead(t, s5, b5, v6);
    lemma_byte_step_ahead(t, s6, b6, v7);
    lemma_byte_step_ahead(t, s7, b7, v8);
    assert(v8 == 0) by (bit_vector)
        requires
            v8 == tail_word(0, 0, 0, 0, 0, 0, 0),
    ;
    lemma_xor(s8, 0, 0, 0);
    let z1 = zero_step(t, w);
    let z2 = zero_step(t, z1);
    let z3 = zero_step(t, z2);
    let z4 = zero_step(t, z3);
    let z5 = zero_step(t, z4);
    let z6 = zero_step(t, z5);
    let z7 = zero_step(t, z6);
    let z8 = zero_step(t, z7);
    assert(z1 == s1 ^ v1);
    assert(z2 == s2 ^ v2);
    assert(z3 == s3 ^ v3);
    assert(z4 == s4 ^ v4);
    assert(z5 == s5 ^ v5);
    assert(z6 == s6 ^ v6);
    assert(z7 == s7 ^ v7);
    assert(z8 == s8);
    assert(zero_steps(t, w, 8) == z8) by {
        reveal_with_fuel(zero_steps, 9);
    }
}

/// One group of eight bytes at a time is eight byte steps.
pub proof fn lemma_slicing_step(t: Seq<u64>, c: u64, bytes: Seq<u8>, off: int)
    requires
        additive(t),
        0 <= off,
        off + 8 <= bytes.len(),
    ensures
        slicing_step(spec_slicing_from(t), c, bytes, off) == fold(
            t,
            c,
            bytes.subrange(off, off + 8),
        ),
{
    let w = c ^ spec_le_word(bytes, off);
    lemma_ahead8(t, c, bytes, off);
    let e7 = zero_steps(t, t[(w as u8) as int], 7);
    let e6 = zero_steps(t, t[((w >> 8) as u8) as int], 6);
    let e5 = zero_steps(t, t[((w >> 16) as u8) as int], 5);
    let e4 = zero_steps(t, t[((w >> 24) as u8) as int], 4);
    let e3 = zero_steps(t, t[((w >> 32) as u8) as int], 3);
    let e2 = zero_steps(t, t[((w >> 40) as u8) as int], 2);
    let e1 = zero_steps(t, t[((w >> 48) as u8) as int], 1);
    let e0 = zero_steps(t, t[((w >> 56) as u8) as int], 0);
    lemma_bytes_of(w);
    lemma_peel(t, w, 8);
    lemma_peel(t, w >> 8, 7);
    lemma_peel(t, w >> 16, 6);
    lemma_peel(t, w >> 24, 5);
    lemma_peel(t, w >> 32, 4);
    lemma_peel(t, w >> 40, 3);
    lemma_peel(t, w >> 48, 2);
    lemma_peel(t, w >> 56, 1);
    lemma_zero_stays(t, 0);
    lemma_xor(e0, 0, 0, 0);
    assert(zero_steps(t, w, 8) == e7 ^ (e6 ^ (e5 ^ (e4 ^ (e3 ^ (e2 ^ (e1 ^ e0)))))));
    lemma_regroup(e0, e1, e2, e3, e4, e5, e6, e7);
}

/// The register after `a + b` is the register after `b` that starts from the
/// register after `a`.
pub proof fn lemma_fold_concat(t: Seq<u64>, c: u64, a: Seq<u8>, b: Seq<u8>)
    ensures
        fold(t, c, a + b) == fold(t, fold(t, c, a), b),
    decreases b.len(),
{
    if b.len() == 0 {
        assert(a + b =~= a);
    } else {
        lemma_fold_concat(t, c, a, b.drop_last());
        assert((a + b).drop_last() =~= a + b.drop_last());
    }
}

/// Continuing a checksum by nothing leaves it as it is, and continuing it
/// by `a` and then by `b` is continuing it by `a + b`.
pub proof fn lemma_update_concat(t: Seq<u64>, crc: u64, a: Seq<u8>, b: Seq<u8>)
    ensures
        spec_update(t, crc, Seq::<u8>::empty()) == crc,
        spec_update(t, spec_update(t, crc, a), b) == spec_update(t, crc, a + b),
{
    lemma_complement(crc);
    lemma_complement(fold(t, !crc, a));
    lemma_fold_concat(t, !crc, a, b);
}

proof fn lemma_slicing_fold(t: Seq<u64>, c: u64, bytes: Seq<u8>, n: nat)
    requires
        additive(t),
        8 * n <= bytes.len(),
    ensures
        slicing_fold(spec_slicing_from(t), c, bytes, n) == fold(t, c, bytes.take(8 * (n as int))),
    decreases n,
{
    if n == 0 {
        assert(bytes.take(0) =~= Seq::<u8>::empty());
    } else {
        let k = 8 * (n - 1);
        lemma_slicing_fold(t, c, bytes, (n - 1) as nat);
        lemma_slicing_step(t, fold(t, c, bytes.take(k)), bytes, k);
        lemma_fold_concat(t, c, bytes.take(k), bytes.subrange(k, k + 8));
        assert(bytes.take(k) + bytes.subrange(k, k + 8) =~= bytes.take(k + 8));
    }
}

/// Engine equivalence: with the eight tables that follow from an additive
/// table, eight bytes at a time continue every checksum by every input as
/// the byte-wise walk does with that table.
pub proof fn lemma_slicing_is_bytewise_from(t: Seq<u64>, crc: u64, bytes: Seq<u8>)
    requires
        additive(t),
    ensures
        spec_slicing_update(spec_slicing_from(t), crc, bytes) == spec_update(t, crc, bytes),
{
    let n = spec_groups(bytes.len());
    let t8 = spec_slicing_from(t);
    assert(t8[0] =~= t) by {
        reveal_with_fuel(zero_steps, 1);
    }
    lemma_slicing_fold(t, !crc, bytes, n);
    let k = 8 * (n as int);
    lemma_fold_concat(t, !crc, bytes.take(k), bytes.skip(k));
    assert(bytes.take(k) + bytes.skip(k) =~= bytes);
}

/// Engine equivalence: for every polynomial, every checksum to start from and
/// every input, eight bytes at a time with the eight tables of the
/// polynomial give what the byte-wise walk gives with its table.
pub proof fn lemma_slicing_is_bytewise(poly: u64, crc: u64, bytes: Seq<u8>)
    ensures
        spec_slicing_update(spec_slicing_table(poly), crc, bytes) == spec_update(
            spec_table(poly),
            crc,
            bytes,
        ),
{
    lemma_table_additive(poly);
    lemma_slicing_is_bytewise_from(spec_table(poly), crc, bytes);
}

} // verus!
