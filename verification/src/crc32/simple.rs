//! The byte-wise engine: one table, one byte at a time.
use vstd::prelude::*;

use crate::crc32::{bit_steps, fold, spec_table, spec_update, Table};

verus! {

/// Returns what eight steps of the division by `poly` leave of the byte `i`.
pub fn table_entry(poly: u32, i: u8) -> (r: u32)
    ensures
        r == bit_steps(poly, i as u32, 8),
{
    let mut crc: u32 = i as u32;
    let mut j: usize = 0;
    while j < 8
        invariant
            j <= 8,
            crc == bit_steps(poly, i as u32, j as nat),
        decreases 8 - j,
    {
        crc = if (crc & 1) == 1 {
            (crc >> 1) ^ poly
        } else {
            crc >> 1
        };
        j += 1;
    }
    crc
}

/// Returns the table of `poly`.
pub fn make_table(poly: u32) -> (t: Table)
    ensures
        t@ == spec_table(poly),
{
    let mut out = Table::default();
    populate_table(poly, &mut out);
    out
}

/// Makes `t` the table of `poly`.
pub fn populate_table(poly: u32, t: &mut Table)
    ensures
        final(t)@ == spec_table(poly),
{
    let mut i: usize = 0;
    while i < 256
        invariant
            i <= 256,
            forall|k: int| 0 <= k < i ==> t@[k] == bit_steps(poly, k as u32, 8),
        decreases 256 - i,
    {
        let ghost held = t@;
        let e = table_entry(poly, i as u8);
        t.0[i] = e;
        proof {
            assert(t@ == held.update(i as int, e));
            assert forall|k: int| 0 <= k < i + 1 implies t@[k] == bit_steps(
                poly,
                k as u32,
                8,
            ) by {
                if k < i {
                    assert(t@[k] == held[k]);
                }
            }
        }
        i += 1;
    }
    assert(t@ =~= spec_table(poly));
}

/// Returns the checksum `crc` continued by the bytes of `p`, with the table `t`.
pub fn update(crc: u32, t: &Table, p: &[u8]) -> (r: u32)
    ensures
        r == spec_update(t@, crc, p@),
{
    let mut crc: u32 = !crc;
    let ghost start = crc;
    let mut i: usize = 0;
    while i < p.len()
        invariant
            i <= p.len(),
            crc == fold(t@, start, p@.take(i as int)),
        decreases p.len() - i,
    {
        assert(p@.take(i + 1).drop_last() =~= p@.take(i as int));
        crc = t.0[((crc as u8) ^ p[i]) as usize] ^ (crc >> 8);
        i += 1;
    }
    assert(p@.take(p.len() as int) =~= p@);
    !crc
}

} // verus!
