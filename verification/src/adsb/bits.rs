//! Frames as strings of bits: bit `k` is counted from the most significant
//! bit of byte 0, and a field is a run of bits read as a binary number.

use vstd::arithmetic::power2::{
    lemma2_to64, lemma_pow2_strictly_increases, lemma_pow2_unfold, pow2,
};
use vstd::prelude::*;

verus! {

/// Bit `k` of `data`, counted from the most significant bit of byte 0.
pub open spec fn bit_at(data: Seq<u8>, k: int) -> bool {
    (data[k / 8] >> ((7 - k % 8) as u8)) & 1u8 == 1u8
}

/// The `width` bits of `data` that start at bit `from`, as a binary number
/// with the first bit the most significant.
pub open spec fn field(data: Seq<u8>, from: int, width: nat) -> nat
    decreases width,
{
    if width == 0 {
        0
    } else {
        2 * field(data, from, (width - 1) as nat) + (if bit_at(data, from + width - 1) {
            1nat
        } else {
            0nat
        })
    }
}

/// The binary number that `bits` spell, first bit the most significant.
pub open spec fn value_of_bits(bits: Seq<bool>) -> nat
    decreases bits.len(),
{
    if bits.len() == 0 {
        0
    } else {
        2 * value_of_bits(bits.drop_last()) + (if bits.last() {
            1nat
        } else {
            0nat
        })
    }
}

/// A number of `n` bits is below 2^`n`.
pub proof fn lemma_value_of_bits_bound(bits: Seq<bool>)
    ensures
        value_of_bits(bits) < pow2(bits.len()),
    decreases bits.len(),
{
    if bits.len() == 0 {
        lemma2_to64();
    } else {
        lemma_value_of_bits_bound(bits.drop_last());
        lemma_pow2_unfold(bits.len());
    }
}

/// A field of `width` bits is below 2^`width`.
pub proof fn lemma_field_bound(data: Seq<u8>, from: int, width: nat)
    ensures
        field(data, from, width) < pow2(width),
    decreases width,
{
    if width == 0 {
        lemma2_to64();
    } else {
        lemma_field_bound(data, from, (width - 1) as nat);
        lemma_pow2_unfold(width);
    }
}

/// A field has the same value in two sequences that agree on its bits.
pub proof fn lemma_field_same_bits(a: Seq<u8>, b: Seq<u8>, from: int, width: nat)
    requires
        forall|k: int| from <= k < from + width ==> #[trigger] bit_at(a, k) == bit_at(b, k),
    ensures
        field(a, from, width) == field(b, from, width),
    decreases width,
{
    if width > 0 {
        lemma_field_same_bits(a, b, from, (width - 1) as nat);
        assert(bit_at(a, from + width - 1) == bit_at(b, from + width - 1));
    }
}

/// Reads bit `k` of `data`.
pub fn read_bit(data: &[u8], k: usize) -> (bit: bool)
    requires
        k < 8 * data@.len(),
    ensures
        bit == bit_at(data@, k as int),
{
    let byte: u8 = data[k / 8];
    let shift: u8 = (7 - k % 8) as u8;
    (byte >> shift) & 1u8 == 1u8
}

/// Reads the `width` bits of `data` that start at bit `from`.
pub fn read_field(data: &[u8], from: usize, width: usize) -> (value: u32)
    requires
        width <= 32,
        from + width <= 8 * data@.len(),
        from + width <= usize::MAX,
    ensures
        value == field(data@, from as int, width as nat),
{
    let mut value: u32 = 0;
    let mut i: usize = 0;
    while i < width
        invariant
            i <= width <= 32,
            from + width <= 8 * data@.len(),
            from + width <= usize::MAX,
            value == field(data@, from as int, i as nat),
        decreases width - i,
    {
        let bit: bool = read_bit(data, from + i);
        proof {
            lemma_field_bound(data@, from as int, i as nat);
            lemma2_to64();
            if i < 31 {
                lemma_pow2_strictly_increases(i as nat, 31);
            }
        }
        value = 2 * value + (if bit { 1 } else { 0 });
        i += 1;
    }
    value
}

} // verus!
