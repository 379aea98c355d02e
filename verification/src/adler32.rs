//! The Adler-32 checksum.
//!
//! Two sums run over the input: `s1` is one plus the sum of the bytes, `s2` is
//! the sum of the values that `s1` takes after each byte. Both are kept modulo
//! 65521. The checksum holds `s2` in its high half and `s1` in its low half.
use vstd::arithmetic::div_mod::{lemma_add_mod_noop, lemma_mul_mod_noop_right, lemma_small_mod};
use vstd::prelude::*;

use crate::encoding::{be_bytes_u32, push_u32_be, start};

verus! {

/// The size of an Adler-32 checksum in bytes.
pub const SIZE: usize = 4;

/// The largest prime below 65536.
pub const MODULO: u32 = 65521;

/// The largest number of bytes that can be summed, from sums below 65536,
/// before a sum may pass `u32::MAX`.
pub const NMAX: usize = 5552;

/// `s1` after `bytes`, not reduced.
pub open spec fn sum1(s1: int, bytes: Seq<u8>) -> int
    decreases bytes.len(),
{
    if bytes.len() == 0 {
        s1
    } else {
        sum1(s1, bytes.drop_last()) + bytes.last()
    }
}

/// `s2` after `bytes`, not reduced: to `s2` is added what `s1` is after each byte.
pub open spec fn sum2(s1: int, s2: int, bytes: Seq<u8>) -> int
    decreases bytes.len(),
{
    if bytes.len() == 0 {
        s2
    } else {
        sum2(s1, s2, bytes.drop_last()) + sum1(s1, bytes)
    }
}

/// The low half of a checksum, `s1`.
pub open spec fn low(d: u32) -> u32 {
    d & 0xffff
}

/// The high half of a checksum, `s2`.
pub open spec fn high(d: u32) -> u32 {
    d >> 16
}

/// The checksum made of the two sums.
pub open spec fn pack(s1: u32, s2: u32) -> u32 {
    (s2 << 16) | s1
}

/// The checksum `d` continued by `bytes`. Without bytes it is `d` as it stands;
/// with any, both sums come out reduced.
pub open spec fn spec_update(d: u32, bytes: Seq<u8>) -> u32 {
    if bytes.len() == 0 {
        d
    } else {
        pack(
            (sum1(low(d) as int, bytes) % (MODULO as int)) as u32,
            (sum2(low(d) as int, high(d) as int, bytes) % (MODULO as int)) as u32,
        )
    }
}

/// The Adler-32 checksum of `bytes`.
pub open spec fn spec_checksum(bytes: Seq<u8>) -> u32 {
    spec_update(1, bytes)
}

proof fn lemma_halves(d: u32, s1: u32, s2: u32)
    by (bit_vector)
    requires
        s1 < 65536,
        s2 < 65536,
    ensures
        d & 0xffff < 65536,
        d >> 16 < 65536,
        ((s2 << 16) | s1) & 0xffff == s1,
        ((s2 << 16) | s1) >> 16 == s2,
        ((d >> 16) << 16) | (d & 0xffff) == d,
{
}

proof fn lemma_sum_push(s1: int, s2: int, bytes: Seq<u8>, b: u8)
    ensures
        sum1(s1, bytes.push(b)) == sum1(s1, bytes) + b,
        sum2(s1, s2, bytes.push(b)) == sum2(s1, s2, bytes) + sum1(s1, bytes) + b,
{
    assert(bytes.push(b).drop_last() =~= bytes);
}

/// The sums over `a + b` are the sums over `b` that start from the sums over `a`.
proof fn lemma_sum_split(s1: int, s2: int, a: Seq<u8>, b: Seq<u8>)
    ensures
        sum1(s1, a + b) == sum1(sum1(s1, a), b),
        sum2(s1, s2, a + b) == sum2(sum1(s1, a), sum2(s1, s2, a), b),
    decreases b.len(),
{
    if b.len() == 0 {
        assert(a + b =~= a);
    } else {
        lemma_sum_split(s1, s2, a, b.drop_last());
        assert((a + b).drop_last() =~= a + b.drop_last());
    }
}

/// The sums are linear in the values they start from.
proof fn lemma_sum_shift(s1: int, s2: int, bytes: Seq<u8>)
    ensures
        sum1(s1, bytes) == s1 + sum1(0, bytes),
        sum2(s1, s2, bytes) == s2 + bytes.len() * s1 + sum2(0, 0, bytes),
        0 <= sum1(0, bytes) <= 255 * bytes.len(),
        0 <= 2 * sum2(0, 0, bytes) <= 255 * (bytes.len() * (bytes.len() + 1)),
    decreases bytes.len(),
{
    if bytes.len() > 0 {
        let n = bytes.len() as int;
        lemma_sum_shift(s1, s2, bytes.drop_last());
        assert((n - 1) * s1 + s1 == n * s1) by (nonlinear_arith);
        assert((n - 1) * n + 2 * n == n * (n + 1)) by (nonlinear_arith);
    } else {
        assert(bytes.len() * s1 == 0) by (nonlinear_arith)
            requires
                bytes.len() == 0,
        ;
        assert(bytes.len() * (bytes.len() + 1) == 0) by (nonlinear_arith)
            requires
                bytes.len() == 0,
        ;
    }
}

/// From sums below 65536, a block of at most `NMAX` bytes keeps both sums in 32 bits.
proof fn lemma_block_fits(s1: int, s2: int, bytes: Seq<u8>)
    requires
        0 <= s1 < 65536,
        0 <= s2 < 65536,
        bytes.len() <= NMAX,
    ensures
        0 <= sum1(s1, bytes) <= 1481295,
        0 <= sum2(s1, s2, bytes) <= 0xffff_ffff,
{
    let n = bytes.len() as int;
    lemma_sum_shift(s1, s2, bytes);
    assert(n * s1 <= 5552 * 65535) by (nonlinear_arith)
        requires
            0 <= n <= 5552,
            0 <= s1 <= 65535,
    ;
    assert(0 <= n * s1) by (nonlinear_arith)
        requires
            0 <= n,
            0 <= s1,
    ;
    assert(n * (n + 1) <= 5552 * 5553) by (nonlinear_arith)
        requires
            0 <= n <= 5552,
    ;
}

/// Reducing the sums that a run starts from does not change the reduced sums it ends with.
proof fn lemma_sum_reduced(s1: int, s2: int, bytes: Seq<u8>)
    ensures
        sum1(s1 % (MODULO as int), bytes) % (MODULO as int) == sum1(s1, bytes) % (MODULO as int),
        sum2(s1 % (MODULO as int), s2 % (MODULO as int), bytes) % (MODULO as int) == sum2(
            s1,
            s2,
            bytes,
        ) % (MODULO as int),
{
    let m = MODULO as int;
    let n = bytes.len() as int;
    let k1 = sum1(0, bytes);
    let k2 = sum2(0, 0, bytes);
    lemma_sum_shift(s1, s2, bytes);
    lemma_sum_shift(s1 % m, s2 % m, bytes);
    lemma_add_mod_noop(s1, k1, m);
    lemma_add_mod_noop(s1 % m, k1, m);
    lemma_small_mod((s1 % m) as nat, m as nat);
    lemma_small_mod((s2 % m) as nat, m as nat);
    // n * (s1 % m) and n * s1 agree modulo m
    lemma_mul_mod_noop_right(n, s1, m);
    lemma_mul_mod_noop_right(n, s1 % m, m);
    lemma_add_mod_noop(s2, n * s1 + k2, m);
    lemma_add_mod_noop(s2 % m, n * (s1 % m) + k2, m);
    lemma_add_mod_noop(n * s1, k2, m);
    lemma_add_mod_noop(n * (s1 % m), k2, m);
}

/// Continuing a checksum by `a` and then by `b` is continuing it by `a + b`.
pub proof fn lemma_update_concat(d: u32, a: Seq<u8>, b: Seq<u8>)
    ensures
        spec_update(spec_update(d, a), b) == spec_update(d, a + b),
{
    let m = MODULO as int;
    if a.len() == 0 {
        assert(a + b =~= b);
    } else if b.len() == 0 {
        assert(a + b =~= a);
    } else {
        let (l, h) = (low(d) as int, high(d) as int);
        let (a1, a2) = (sum1(l, a), sum2(l, h, a));
        lemma_halves(d, 0, 0);
        lemma_sum_shift(l, h, a);
        assert(0 <= a.len() * l) by (nonlinear_arith)
            requires
                0 <= l,
        ;
        lemma_halves(d, (a1 % m) as u32, (a2 % m) as u32);
        lemma_sum_split(l, h, a, b);
        lemma_sum_reduced(a1, a2, b);
    }
}

/// Returns the Adler-32 checksum of `data`.
pub fn checksum(data: &[u8]) -> (r: u32)
    ensures
        r == spec_checksum(data@),
{
    update(1, data)
}

/// Returns the checksum `d` continued by the bytes of `p`.
///
/// The bytes are summed in blocks of at most `NMAX`, four at a time as long
/// as four are left, and the sums are reduced once at the end of each block.
pub fn update(d: u32, p: &[u8]) -> (r: u32)
    ensures
        r == spec_update(d, p@),
{
    let mut s1: u32 = d & 0xffff;
    let mut s2: u32 = d >> 16;
    let n: usize = p.len();
    let mut i: usize = 0;
    proof {
        lemma_halves(d, 0, 0);
    }
    while i < n
        invariant
            n == p@.len(),
            i <= n,
            s1 < 65536,
            s2 < 65536,
            i == 0 ==> s1 == low(d) && s2 == high(d),
            i > 0 ==> s1 == sum1(low(d) as int, p@.take(i as int)) % (MODULO as int),
            i > 0 ==> s2 == sum2(low(d) as int, high(d) as int, p@.take(i as int)) % (
            MODULO as int),
        decreases n - i,
    {
        let end: usize = if n - i > NMAX {
            i + NMAX
        } else {
            n
        };
        let ghost b1 = s1 as int;
        let ghost b2 = s2 as int;
        let mut j: usize = i;
        while end - j >= 4
            invariant
                n == p@.len(),
                i <= j <= end <= n,
                end - i <= NMAX,
                0 <= b1 < 65536,
                0 <= b2 < 65536,
                s1 == sum1(b1, p@.subrange(i as int, j as int)),
                s2 == sum2(b1, b2, p@.subrange(i as int, j as int)),
            decreases end - j,
        {
            proof {
                let c0 = p@.subrange(i as int, j as int);
                let c1 = c0.push(p@[j as int]);
                let c2 = c1.push(p@[j + 1]);
                let c3 = c2.push(p@[j + 2]);
                let c4 = c3.push(p@[j + 3]);
                lemma_sum_push(b1, b2, c0, p@[j as int]);
                lemma_sum_push(b1, b2, c1, p@[j + 1]);
                lemma_sum_push(b1, b2, c2, p@[j + 2]);
                lemma_sum_push(b1, b2, c3, p@[j + 3]);
                lemma_block_fits(b1, b2, c1);
                lemma_block_fits(b1, b2, c2);
                lemma_block_fits(b1, b2, c3);
                lemma_block_fits(b1, b2, c4);
                assert(c4 =~= p@.subrange(i as int, j + 4));
            }
            s1 += p[j] as u32;
            s2 += s1;
            s1 += p[j + 1] as u32;
            s2 += s1;
            s1 += p[j + 2] as u32;
            s2 += s1;
            s1 += p[j + 3] as u32;
            s2 += s1;
            j += 4;
        }
        while j < end
            invariant
                n == p@.len(),
                i <= j <= end <= n,
                end - i <= NMAX,
                0 <= b1 < 65536,
                0 <= b2 < 65536,
                s1 == sum1(b1, p@.subrange(i as int, j as int)),
                s2 == sum2(b1, b2, p@.subrange(i as int, j as int)),
            decreases end - j,
        {
            proof {
                let c0 = p@.subrange(i as int, j as int);
                let c1 = c0.push(p@[j as int]);
                lemma_sum_push(b1, b2, c0, p@[j as int]);
                lemma_block_fits(b1, b2, c1);
                assert(c1 =~= p@.subrange(i as int, j + 1));
            }
            s1 += p[j] as u32;
            s2 += s1;
            j += 1;
        }
        proof {
            let (l, h) = (low(d) as int, high(d) as int);
            let head = p@.take(i as int);
            let block = p@.subrange(i as int, end as int);
            assert(p@.take(end as int) =~= head + block);
            lemma_sum_split(l, h, head, block);
            if i > 0 {
                lemma_sum_reduced(sum1(l, head), sum2(l, h, head), block);
            } else {
                assert(head =~= Seq::<u8>::empty());
            }
            lemma_block_fits(b1, b2, block);
        }
        s1 %= MODULO;
        s2 %= MODULO;
        i = end;
    }
    proof {
        if n == 0 {
            assert(p@.len() == 0);
        } else {
            assert(p@.take(n as int) =~= p@);
        }
    }
    (s2 << 16) | s1
}

/// An Adler-32 engine. Its view is the checksum of what was written.
pub struct Digest {
    register: u32,
}

impl View for Digest {
    type V = u32;

    open spec fn view(&self) -> u32 {
        self.spec_register()
    }
}

impl Digest {
    /// The checksum that the engine holds.
    pub closed spec fn spec_register(&self) -> u32 {
        self.register
    }

    /// Returns an engine that has taken no bytes.
    pub fn new() -> (d: Digest)
        ensures
            d@ == 1,
    {
        Digest { register: 1 }
    }
}

impl crate::Hash for Digest {
    open spec fn spec_write(m: u32, bytes: Seq<u8>) -> u32 {
        spec_update(m, bytes)
    }

    open spec fn spec_reset(m: u32) -> u32 {
        1
    }

    open spec fn spec_sum(m: u32) -> Seq<u8> {
        be_bytes_u32(m)
    }

    proof fn lemma_write_concat(m: u32, a: Seq<u8>, b: Seq<u8>) {
        lemma_update_concat(m, a, b);
    }

    proof fn lemma_reset_forgets(m: u32, bytes: Seq<u8>) {
    }

    fn write(&mut self, buf: &[u8]) -> (n: usize) {
        self.register = update(self.register, buf);
        buf.len()
    }

    fn sum(&mut self, b: Option<Vec<u8>>) -> (out: Vec<u8>) {
        let mut v = start(b);
        push_u32_be(&mut v, self.register);
        v
    }

    fn reset(&mut self) {
        self.register = 1;
    }

    fn size(&self) -> (n: usize)
        ensures
            n == SIZE,
    {
        SIZE
    }

    fn block_size(&self) -> (n: usize)
        ensures
            n == 4,
    {
        4
    }
}

impl crate::Hash32 for Digest {
    open spec fn spec_sum32(m: u32) -> u32 {
        m
    }

    proof fn lemma_sum_is_word(m: u32) {
    }

    fn sum32(&mut self) -> (r: u32) {
        self.register
    }
}

/// Returns a new engine that computes the Adler-32 checksum. Its `sum` gives
/// the checksum most significant byte first.
pub fn new() -> (d: Digest)
    ensures
        d@ == 1,
{
    Digest::new()
}

} // verus!
