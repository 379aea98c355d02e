//! The slicing-by-8 engine: eight tables, eight bytes at a time.
//!
//! Table 0 is the table of the polynomial. Entry `i` of table `j` is entry `i`
//! of table `j - 1` after one more byte step with a zero byte, so that table
//! `j` says what a byte contributes `j` bytes further on.
use vstd::prelude::*;

use crate::crc32::{fold, simple, spec_table, spec_update, Table};

verus! {

/// The length from which on an update takes eight bytes at a time.
pub const SLICING8_CUTOFF: usize = 16;

/// The register after a byte step with a zero byte.
pub open spec fn zero_step(t: Seq<u32>, c: u32) -> u32 {
    t[(c as u8) as int] ^ (c >> 8)
}

/// The register after `n` byte steps with zero bytes.
pub open spec fn zero_steps(t: Seq<u32>, c: u32, n: nat) -> u32
    decreases n,
{
    if n == 0 {
        c
    } else {
        zero_step(t, zero_steps(t, c, (n - 1) as nat))
    }
}

/// The eight tables that follow from the table `t`.
pub open spec fn spec_slicing_from(t: Seq<u32>) -> Seq<Seq<u32>> {
    Seq::new(8, |j: int| Seq::new(256, |i: int| zero_steps(t, t[i], j as nat)))
}

/// The eight tables of `poly`.
pub open spec fn spec_slicing_table(poly: u32) -> Seq<Seq<u32>> {
    spec_slicing_from(spec_table(poly))
}

/// The four bytes of `bytes` from `off` on as a word, least significant first.
pub open spec fn spec_le_word(bytes: Seq<u8>, off: int) -> u32 {
    (bytes[off] as u32)
        | ((bytes[off + 1] as u32) << 8)
        | ((bytes[off + 2] as u32) << 16)
        | ((bytes[off + 3] as u32) << 24)
}

/// The register after the eight bytes of `bytes` from `off` on: the first
/// four are added to the register, whose bytes then index tables 7 to 4, and
/// the last four index tables 3 to 0.
pub open spec fn slicing_step(t: Seq<Seq<u32>>, c: u32, bytes: Seq<u8>, off: int) -> u32 {
    let w = c ^ spec_le_word(bytes, off);
    t[0][bytes[off + 7] as int]
        ^ t[1][bytes[off + 6] as int]
        ^ t[2][bytes[off + 5] as int]
        ^ t[3][bytes[off + 4] as int]
        ^ t[4][((w >> 24) as u8) as int]
        ^ t[5][((w >> 16) as u8) as int]
        ^ t[6][((w >> 8) as u8) as int]
        ^ t[7][(w as u8) as int]
}

/// The register after the first `n` groups of eight bytes.
pub open spec fn slicing_fold(t: Seq<Seq<u32>>, c: u32, bytes: Seq<u8>, n: nat) -> u32
    decreases n,
{
    if n == 0 {
        c
    } else {
        slicing_step(t, slicing_fold(t, c, bytes, (n - 1) as nat), bytes, 8 * (n - 1))
    }
}

/// How many groups of eight bytes an update of `len` bytes takes: none below
/// the cutoff, and above it as many as leave at least one byte.
pub open spec fn spec_groups(len: nat) -> nat {
    if len >= SLICING8_CUTOFF {
        ((len - 1) / 8) as nat
    } else {
        0
    }
}

/// The checksum `crc` continued by `bytes`, as the slicing engine computes it
/// with the tables `t`: groups of eight, then the rest byte by byte with
/// table 0.
pub open spec fn spec_slicing_update(t: Seq<Seq<u32>>, crc: u32, bytes: Seq<u8>) -> u32 {
    let n = spec_groups(bytes.len());
    !fold(t[0], slicing_fold(t, !crc, bytes, n), bytes.skip(8 * (n as int)))
}

/// Eight tables for one polynomial. Its view is the sequence of their views.
pub struct Slicing8Table(pub [Table; 8]);

impl View for Slicing8Table {
    type V = Seq<Seq<u32>>;

    open spec fn view(&self) -> Seq<Seq<u32>> {
        Seq::new(8, |j: int| self.0@[j]@)
    }
}

impl Default for Slicing8Table {
    /// Eight tables of zeros.
    fn default() -> (t: Slicing8Table)
        ensures
            t@ == Seq::new(8, |j: int| Seq::new(256, |i: int| 0u32)),
    {
        let zeros = Table::default();
        let t = Slicing8Table([zeros, zeros, zeros, zeros, zeros, zeros, zeros, zeros]);
        assert(t@ =~~= Seq::new(8, |j: int| Seq::new(256, |i: int| 0u32)));
        t
    }
}

/// The complement of the complement is the word itself.
pub proof fn lemma_complement(c: u32)
    by (bit_vector)
    ensures
        !!c == c,
{
}

/// Makes `t` the table of `poly`.
pub fn simple_populate_table(poly: u32, t: &mut Table)
    ensures
        final(t)@ == spec_table(poly),
{
    simple::populate_table(poly, t)
}

/// Returns the checksum `crc` continued by the bytes of `p`, byte by byte
/// with the table `t`.
pub fn simple_update(crc: u32, t: &Table, p: &[u8]) -> (r: u32)
    ensures
        r == spec_update(t@, crc, p@),
{
    simple::update(crc, t, p)
}

/// Returns the eight tables of `poly`.
pub fn slicing_make_table(poly: u32) -> (t: Slicing8Table)
    ensures
        t@ == spec_slicing_table(poly),
{
    let mut out = Slicing8Table::default();
    simple_populate_table(poly, &mut out.0[0]);
    let ghost base = spec_table(poly);
    let mut i: usize = 0;
    while i < 256
        invariant
            i <= 256,
            out@[0] == base,
            forall|j: int, k: int|
                0 <= j < 8 && 0 <= k < i ==> #[trigger] out@[j][k] == zero_steps(
                    base,
                    base[k],
                    j as nat,
                ),
        decreases 256 - i,
    {
        let mut crc: u32 = out.0[0].0[i];
        let mut j: usize = 1;
        while j < 8
            invariant
                1 <= j <= 8,
                i < 256,
                out@[0] == base,
                crc == zero_steps(base, base[i as int], (j - 1) as nat),
                forall|j2: int, k: int|
                    0 <= j2 < 8 && 0 <= k < i ==> #[trigger] out@[j2][k] == zero_steps(
                        base,
                        base[k],
                        j2 as nat,
                    ),
                forall|j2: int|
                    0 <= j2 < j ==> #[trigger] out@[j2][i as int] == zero_steps(
                        base,
                        base[i as int],
                        j2 as nat,
                    ),
            decreases 8 - j,
        {
            let ghost held = out@;
            crc = out.0[0].0[(crc as u8) as usize] ^ (crc >> 8);
            out.0[j].0[i] = crc;
            proof {
                assert(out@[j as int] == held[j as int].update(i as int, crc));
                assert forall|j2: int| 0 <= j2 < 8 && j2 != j implies out@[j2] == held[j2] by {}
                assert forall|j2: int, k: int|
                    0 <= j2 < 8 && 0 <= k < i implies #[trigger] out@[j2][k] == zero_steps(
                    base,
                    base[k],
                    j2 as nat,
                ) by {
                    assert(out@[j2][k] == held[j2][k]);
                }
                assert forall|j2: int| 0 <= j2 < j + 1 implies #[trigger] out@[j2][i as int]
                    == zero_steps(base, base[i as int], j2 as nat) by {
                    if j2 < j {
                        assert(out@[j2][i as int] == held[j2][i as int]);
                    }
                }
            }
            j += 1;
        }
        i += 1;
    }
    assert(out@ =~~= spec_slicing_table(poly));
    out
}

/// Returns the checksum `crc` continued by the bytes of `p`, with the eight
/// tables `t`.
///
/// From [`SLICING8_CUTOFF`] bytes on, the bytes are taken eight at a time as
/// long as more than eight are left. The rest is taken byte by byte with
/// table 0.
pub fn slicing_update(crc: u32, t: &Slicing8Table, p: &[u8]) -> (r: u32)
    ensures
        r == spec_slicing_update(t@, crc, p@),
{
    let mut crc: u32 = crc;
    let mut off: usize = 0;
    let ghost n = spec_groups(p@.len());
    if p.len() >= SLICING8_CUTOFF {
        crc = !crc;
        let ghost start = crc;
        while p.len() - off > 8
            invariant
                off < p.len(),
                off % 8 == 0,
                p.len() >= SLICING8_CUTOFF,
                crc == slicing_fold(t@, start, p@, (off / 8) as nat),
            decreases p.len() - off,
        {
            crc ^= (p[off] as u32)
                | ((p[off + 1] as u32) << 8)
                | ((p[off + 2] as u32) << 16)
                | ((p[off + 3] as u32) << 24);
            crc = t.0[0].0[p[off + 7] as usize]
                ^ t.0[1].0[p[off + 6] as usize]
                ^ t.0[2].0[p[off + 5] as usize]
                ^ t.0[3].0[p[off + 4] as usize]
                ^ t.0[4].0[((crc >> 24) as u8) as usize]
                ^ t.0[5].0[((crc >> 16) as u8) as usize]
                ^ t.0[6].0[((crc >> 8) as u8) as usize]
                ^ t.0[7].0[(crc as u8) as usize];
            off += 8;
        }
        assert(off / 8 == n);
        proof {
            lemma_complement(crc);
        }
        crc = !crc;
    }
    if p.len() - off == 0 {
        proof {
            lemma_complement(crc);
            assert(p@.skip(0) =~= p@);
        }
        return crc;
    }
    let rest = vstd::slice::slice_subrange(p, off, p.len());
    proof {
        assert(rest@ =~= p@.skip(off as int));
        assert(t@[0] == t.0[0]@);
    }
    simple_update(crc, &t.0[0], rest)
}

} // verus!
