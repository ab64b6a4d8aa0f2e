//! The field splitter: carves a byte into the values of bit ranges.

use crate::bits::{bits_of, lemma_bits_of_slice, value_of};
use crate::error::TemplateError;
use crate::template::{group_value, lemma_contiguous_group, BitSpec};
use vstd::arithmetic::power2::{lemma2_to64, lemma_pow2_pos, lemma_pow2_strictly_increases, pow2};
use vstd::bits::{
    lemma_u16_low_bits_mask_is_mod, lemma_u16_shl_is_mul, lemma_u16_shr_is_div, low_bits_mask,
};
use vstd::prelude::*;

verus! {

/// Whether `(high, low)` is a range of bits of a byte, bit 0 being the least
/// significant one: `low` is not above `high`, and both are below 8.
pub open spec fn range_valid(range: (u8, u8)) -> bool {
    range.1 <= range.0 && range.0 < 8
}

/// Whether every range of `ranges` is a range of bits of a byte.
pub open spec fn ranges_valid(ranges: Seq<(u8, u8)>) -> bool {
    forall|k: int| 0 <= k < ranges.len() ==> range_valid(#[trigger] ranges[k])
}

/// The bits `high` down to `low` of `byte`, as an unsigned number:
/// `(byte >> low) & ((1 << (high - low + 1)) - 1)`, with the mask computed
/// in 16 bits.
pub open spec fn field_of(byte: u8, range: (u8, u8)) -> u8 {
    let count = (range.0 - range.1 + 1) as u16;
    let mask = ((1u16 << count) - 1) as u16;
    ((byte as u16 >> range.1 as u16) & mask) as u8
}

/// The values of the ranges of `ranges` in `byte`, in order.
pub open spec fn fields_of(byte: u8, ranges: Seq<(u8, u8)>) -> Seq<u8> {
    ranges.map_values(|range: (u8, u8)| field_of(byte, range))
}

/// The value of a range is what a division and a remainder by powers of two
/// leave of the byte, and it is the number written by the bits of the range.
pub proof fn lemma_field_is_slice(byte: u8, range: (u8, u8))
    requires
        range_valid(range),
    ensures
        field_of(byte, range) == (byte as nat / pow2(range.1 as nat)) % pow2(
            (range.0 - range.1 + 1) as nat,
        ),
        field_of(byte, range) == value_of(
            bits_of(byte as nat, 8).subrange(7 - range.0, 8 - range.1),
        ),
{
    let count = (range.0 - range.1 + 1) as u16;
    let wide = byte as u16;
    let shifted = wide >> range.1 as u16;
    lemma2_to64();
    lemma_pow2_pos(count as nat);
    if count < 8 {
        lemma_pow2_strictly_increases(count as nat, 8);
    }
    lemma_u16_shr_is_div(wide, range.1 as u16);
    lemma_u16_shl_is_mul(1u16, count);
    lemma_u16_low_bits_mask_is_mod(shifted, count as nat);
    assert(((1u16 << count) - 1) as u16 == low_bits_mask(count as nat) as u16);
    lemma_bits_of_slice(byte as nat, 8, 7 - range.0, 8 - range.1);
}

/// Splitting recovers what was packed: in a template of eight bits, a group
/// whose positions are the bits `high` down to `low` captures from a byte
/// the value of the range `(high, low)` of that byte.
pub proof fn lemma_split_recovers_group(bits: Seq<BitSpec>, byte: u8, name: char, range: (u8, u8))
    requires
        bits.len() == 8,
        range_valid(range),
        forall|i: int| 7 - range.0 <= i < 8 - range.1 ==> bits[i] == BitSpec::Capture(name),
        forall|i: int|
            0 <= i < 8 && !(7 - range.0 <= i < 8 - range.1) ==> bits[i] != BitSpec::Capture(name),
    ensures
        group_value(bits, byte as nat, name) == field_of(byte, range),
{
    lemma_field_is_slice(byte, range);
    lemma_contiguous_group(
        bits,
        byte as nat,
        name,
        7 - range.0,
        8 - range.1,
        pow2(range.1 as nat),
        pow2((range.0 - range.1 + 1) as nat),
    );
}

/// Computes the value of one range of bits of `byte`.
fn split_one(byte: u8, range: (u8, u8)) -> (v: u8)
    requires
        range_valid(range),
    ensures
        v == field_of(byte, range),
{
    let count: u16 = (range.0 - range.1 + 1) as u16;
    let one: u16 = 1;
    assert(1 <= (one << count) <= 256) by (bit_vector)
        requires
            one == 1,
            1 <= count <= 8,
    ;
    let mask: u16 = (one << count) - 1;
    let shifted: u16 = byte as u16 >> range.1 as u16;
    assert(shifted & mask <= 255) by (bit_vector)
        requires
            mask <= 255,
    ;
    (shifted & mask) as u8
}

/// Splits `byte` into the values of the bit ranges of `ranges`, each given
/// as `(high, low)` with bit 0 the least significant bit of the byte.
///
/// The result holds one value for each range, in order. The whole list is
/// refused with `InvalidRange` when a range has its high bit below its low
/// bit, or a bit above 7.
pub fn split_fields(byte: u8, ranges: &[(u8, u8)]) -> (r: Result<Vec<u8>, TemplateError>)
    ensures
        match r {
            Ok(values) => ranges_valid(ranges@) && values@ == fields_of(byte, ranges@),
            Err(e) => e == TemplateError::InvalidRange && !ranges_valid(ranges@),
        },
{
    let mut values: Vec<u8> = Vec::new();
    let mut k: usize = 0;
    while k < ranges.len()
        invariant
            k <= ranges@.len(),
            forall|j: int| 0 <= j < k ==> range_valid(#[trigger] ranges@[j]),
            values@ == fields_of(byte, ranges@).take(k as int),
        decreases ranges@.len() - k,
    {
        let range = ranges[k];
        if range.0 < range.1 || range.0 >= 8 {
            return Err(TemplateError::InvalidRange);
        }
        let v = split_one(byte, range);
        values.push(v);
        proof {
            let all = fields_of(byte, ranges@);
            assert(all.take(k + 1) =~= all.take(k as int).push(v));
        }
        k += 1;
    }
    proof {
        let all = fields_of(byte, ranges@);
        assert(all.take(k as int) =~= all);
    }
    Ok(values)
}

} // verus!
