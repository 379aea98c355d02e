//! Eight tables, eight bytes at a time.
//!
//! Table 0 is the table of the polynomial. Entry `i` of table `j` is entry `i`
//! of table `j - 1` after one more byte step with a zero byte, so that table
//! `j` says what a byte contributes `j` bytes further on.
use vstd::prelude::*;

use crate::crc64::{fold, simple_update, spec_table, Table};

verus! {

/// The length from which on an update takes eight bytes at a time.
pub const SLICING8_CUTOFF: usize = 64;

/// The register after a byte step with a zero byte.
pub open spec fn zero_step(t: Seq<u64>, c: u64) -> u64 {
    t[(c as u8) as int] ^ (c >> 8)
}

/// The register after `n` byte steps with zero bytes.
pub open spec fn zero_steps(t: Seq<u64>, c: u64, n: nat) -> u64
    decreases n,
{
    if n == 0 {
        c
    } else {
        zero_step(t, zero_steps(t, c, (n - 1) as nat))
    }
}

/// The eight tables that follow from the table `t`.
pub open spec fn spec_slicing_from(t: Seq<u64>) -> Seq<Seq<u64>> {
    Seq::new(8, |j: int| Seq::new(256, |i: int| zero_steps(t, t[i], j as nat)))
}

/// The eight tables of `poly`.
pub open spec fn spec_slicing_table(poly: u64) -> Seq<Seq<u64>> {
    spec_slicing_from(spec_table(poly))
}

/// The words of eight tables.
pub open spec fn spec_tables(h: [Table; 8]) -> Seq<Seq<u64>> {
    Seq::new(8, |j: int| h@[j]@)
}

/// The eight bytes of `bytes` from `off` on as a word, least significant first.
pub open spec fn spec_le_word(bytes: Seq<u8>, off: int) -> u64 {
    (bytes[off] as u64)
        | ((bytes[off + 1] as u64) << 8)
        | ((bytes[off + 2] as u64) << 16)
        | ((bytes[off + 3] as u64) << 24)
        | ((bytes[off + 4] as u64) << 32)
        | ((bytes[off + 5] as u64) << 40)
        | ((bytes[off + 6] as u64) << 48)
        | ((bytes[off + 7] as u64) << 56)
}

/// The register after the eight bytes of `bytes` from `off` on: they are
/// added to the register, whose bytes then index tables 7 to 0.
pub open spec fn slicing_step(t: Seq<Seq<u64>>, c: u64, bytes: Seq<u8>, off: int) -> u64 {
    let w = c ^ spec_le_word(bytes, off);
    t[7][(w as u8) as int]
        ^ t[6][((w >> 8) as u8) as int]
        ^ t[5][((w >> 16) as u8) as int]
        ^ t[4][((w >> 24) as u8) as int]
        ^ t[3][((w >> 32) as u8) as int]
        ^ t[2][((w >> 40) as u8) as int]
        ^ t[1][((w >> 48) as u8) as int]
        ^ t[0][((w >> 56) as u8) as int]
}

/// The register after the first `n` groups of eight bytes.
pub open spec fn slicing_fold(t: Seq<Seq<u64>>, c: u64, bytes: Seq<u8>, n: nat) -> u64
    decreases n,
{
    if n == 0 {
        c
    } else {
        slicing_step(t, slicing_fold(t, c, bytes, (n - 1) as nat), bytes, 8 * (n - 1))
    }
}

/// How many groups of eight bytes an update of `len` bytes takes: none below
/// the cutoff, and above it as many as leave at least one byte.
pub open spec fn spec_groups(len: nat) -> nat {
    if len >= SLICING8_CUTOFF {
        ((len - 1) / 8) as nat
    } else {
        0
    }
}

/// The checksum `crc` continued by `bytes`, as it is computed with the eight
/// tables `t`: groups of eight, then the rest byte by byte with table 0.
pub open spec fn spec_slicing_update(t: Seq<Seq<u64>>, crc: u64, bytes: Seq<u8>) -> u64 {
    let n = spec_groups(bytes.len());
    !fold(t[0], slicing_fold(t, !crc, bytes, n), bytes.skip(8 * (n as int)))
}

/// The complement of the complement is the word itself.
pub proof fn lemma_complement(c: u64)
    by (bit_vector)
    ensures
        !!c == c,
{
}

/// Returns the eight tables that follow from `t`.
pub fn make_table(t: Table) -> (out: [Table; 8])
    ensures
        spec_tables(out) == spec_slicing_from(t@),
{
    let zeros = Table::default();
    let mut out = [t, zeros, zeros, zeros, zeros, zeros, zeros, zeros];
    let ghost base = t@;
    let mut i: usize = 0;
    while i < 256
        invariant
            i <= 256,
            base == t@,
            out@[0] == t,
            forall|j: int, k: int|
                1 <= j < 8 && 0 <= k < i ==> #[trigger] out@[j]@[k] == zero_steps(
                    base,
                    base[k],
                    j as nat,
                ),
        decreases 256 - i,
    {
        let mut crc: u64 = t.0[i];
        let mut j: usize = 1;
        while j < 8
            invariant
                1 <= j <= 8,
                i < 256,
                base == t@,
                out@[0] == t,
                crc == zero_steps(base, base[i as int], (j - 1) as nat),
                forall|j2: int, k: int|
                    1 <= j2 < 8 && 0 <= k < i ==> #[trigger] out@[j2]@[k] == zero_steps(
                        base,
                        base[k],
                        j2 as nat,
                    ),
                forall|j2: int|
                    1 <= j2 < j ==> #[trigger] out@[j2]@[i as int] == zero_steps(
                        base,
                        base[i as int],
                        j2 as nat,
                    ),
            decreases 8 - j,
        {
            let ghost held = out@;
            crc = t.0[(crc as u8) as usize] ^ (crc >> 8);
            out[j].0[i] = crc;
            proof {
                assert(out@[j as int]@ == held[j as int]@.update(i as int, crc));
                assert forall|j2: int| 0 <= j2 < 8 && j2 != j implies out@[j2] == held[j2] by {}
                assert forall|j2: int, k: int|
                    1 <= j2 < 8 && 0 <= k < i implies #[trigger] out@[j2]@[k] == zero_steps(
                    base,
                    base[k],
                    j2 as nat,
                ) by {
                    assert(out@[j2]@[k] == held[j2]@[k]);
                }
                assert forall|j2: int| 1 <= j2 < j + 1 implies #[trigger] out@[j2]@[i as int]
                    == zero_steps(base, base[i as int], j2 as nat) by {
                    if j2 < j {
                        assert(out@[j2]@[i as int] == held[j2]@[i as int]);
                    }
                }
            }
            j += 1;
        }
        i += 1;
    }
    proof {
        assert forall|j: int, k: int| 0 <= j < 8 && 0 <= k < 256 implies #[trigger] spec_tables(
            out,
        )[j][k] == zero_steps(base, base[k], j as nat) by {
            if j == 0 {
                reveal_with_fuel(zero_steps, 1);
            } else {
                assert(out@[j]@[k] == zero_steps(base, base[k], j as nat));
            }
        }
        assert(spec_tables(out) =~~= spec_slicing_from(base));
    }
    out
}

/// Returns the checksum `crc` continued by the bytes of `p`, with the eight
/// tables `t`.
///
/// From [`SLICING8_CUTOFF`] bytes on, the bytes are taken eight at a time as
/// long as more than eight are left. The rest is taken byte by byte with
/// table 0.
pub fn update(crc: u64, t: &[Table; 8], p: &[u8]) -> (r: u64)
    ensures
        r == spec_slicing_update(spec_tables(*t), crc, p@),
{
    let mut crc: u64 = crc;
    let mut off: usize = 0;
    let ghost n = spec_groups(p@.len());
    if p.len() >= SLICING8_CUTOFF {
        crc = !crc;
        let ghost start = crc;
        while p.len() - off > 8
            invariant
                off < p.len(),
                off % 8 == 0,
                p.len() >= SLICING8_CUTOFF,
                crc == slicing_fold(spec_tables(*t), start, p@, (off / 8) as nat),
            decreases p.len() - off,
        {
            crc ^= (p[off] as u64)
                | ((p[off + 1] as u64) << 8)
                | ((p[off + 2] as u64) << 16)
                | ((p[off + 3] as u64) << 24)
                | ((p[off + 4] as u64) << 32)
                | ((p[off + 5] as u64) << 40)
                | ((p[off + 6] as u64) << 48)
                | ((p[off + 7] as u64) << 56);
            crc = t[7].0[(crc as u8) as usize]
                ^ t[6].0[((crc >> 8) as u8) as usize]
                ^ t[5].0[((crc >> 16) as u8) as usize]
                ^ t[4].0[((crc >> 24) as u8) as usize]
                ^ t[3].0[((crc >> 32) as u8) as usize]
                ^ t[2].0[((crc >> 40) as u8) as usize]
                ^ t[1].0[((crc >> 48) as u8) as usize]
                ^ t[0].0[((crc >> 56) as u8) as usize];
            off += 8;
        }
        assert(off / 8 == n);
        proof {
            lemma_complement(crc);
        }
        crc = !crc;
    }
    if p.len() - off == 0 {
        proof {
            lemma_complement(crc);
            assert(p@.skip(0) =~= p@);
        }
        return crc;
    }
    let rest = vstd::slice::slice_subrange(p, off, p.len());
    proof {
        assert(rest@ =~= p@.skip(off as int));
        assert(spec_tables(*t)[0] == t[0]@);
    }
    simple_update(crc, &t[0], rest)
}

} // verus!
