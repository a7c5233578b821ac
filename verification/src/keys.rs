//! Height keys: the bit pattern of a height turned into an integer that sorts the way the
//! height does, so every comparison a flood makes is an integer comparison and two builds pop
//! the same node at the same moment.
//!
//! A key is computed from the IEEE-754 bit pattern of an `f64` (its `to_bits`), which is the
//! one thing the library is handed; the pattern is sign, then magnitude.
use vstd::prelude::*;

verus! {

/// The sign bit of a 64-bit pattern.
pub open spec fn sign_set(bits: u64) -> bool {
    bits >> 63u64 == 1u64
}

/// The total order IEEE-754 puts on bit patterns of the same sign-magnitude shape: every
/// pattern with its sign bit set comes before every one without; among non-negative patterns
/// a larger magnitude is larger, among negative ones a larger magnitude is smaller. On finite
/// values this is the order of the numbers, with `-0.0` just below `+0.0`.
pub open spec fn bits_le(a: u64, b: u64) -> bool {
    if sign_set(a) && sign_set(b) {
        b <= a
    } else if sign_set(a) {
        true
    } else if sign_set(b) {
        false
    } else {
        a <= b
    }
}

/// What `sortable_bits` computes: negatives flipped whole, non-negatives with the sign bit set.
pub open spec fn sortable_spec(bits: u64) -> u64 {
    if sign_set(bits) {
        !bits
    } else {
        bits | 0x8000_0000_0000_0000u64
    }
}

/// What `unsortable_bits` computes.
pub open spec fn unsortable_spec(key: u64) -> u64 {
    if sign_set(key) {
        key & 0x7fff_ffff_ffff_ffffu64
    } else {
        !key
    }
}

/// The key of a height's bit pattern.
pub fn sortable_bits(bits: u64) -> (key: u64)
    ensures
        key == sortable_spec(bits),
{
    if bits >> 63u64 == 1u64 {
        !bits
    } else {
        bits | 0x8000_0000_0000_0000u64
    }
}

/// The bit pattern a key was made from.
pub fn unsortable_bits(key: u64) -> (bits: u64)
    ensures
        bits == unsortable_spec(key),
{
    if key >> 63u64 == 1u64 {
        key & 0x7fff_ffff_ffff_ffffu64
    } else {
        !key
    }
}

/// A key gives back exactly the bit pattern it was made from.
pub proof fn lemma_unsortable_undoes_sortable(bits: u64)
    ensures
        unsortable_spec(sortable_spec(bits)) == bits,
{
    assert(bits >> 63u64 == 1u64 ==> (!bits) >> 63u64 != 1u64 && !(!bits) == bits) by (bit_vector);
    assert(bits >> 63u64 != 1u64 ==> (bits | 0x8000_0000_0000_0000u64) >> 63u64 == 1u64
        && ((bits | 0x8000_0000_0000_0000u64) & 0x7fff_ffff_ffff_ffffu64) == bits) by (bit_vector);
}

/// Every key is the key of exactly one bit pattern: the one `unsortable_spec` gives back.
pub proof fn lemma_sortable_undoes_unsortable(key: u64)
    ensures
        sortable_spec(unsortable_spec(key)) == key,
{
    assert(key >> 63u64 == 1u64 ==> (key & 0x7fff_ffff_ffff_ffffu64) >> 63u64 != 1u64
        && ((key & 0x7fff_ffff_ffff_ffffu64) | 0x8000_0000_0000_0000u64) == key) by (bit_vector);
    assert(key >> 63u64 != 1u64 ==> (!key) >> 63u64 == 1u64 && !(!key) == key) by (bit_vector);
}

/// Keys order the way the heights do: one bit pattern comes at or before another in the
/// IEEE-754 total order exactly when its key is no larger.
pub proof fn lemma_sortable_orders_like_the_numbers(a: u64, b: u64)
    ensures
        bits_le(a, b) <==> sortable_spec(a) <= sortable_spec(b),
{
    assert(a >> 63u64 == 1u64 && b >> 63u64 == 1u64 ==> (b <= a <==> !a <= !b)) by (bit_vector);
    assert(a >> 63u64 == 1u64 && b >> 63u64 != 1u64 ==> !a < (b | 0x8000_0000_0000_0000u64))
        by (bit_vector);
    assert(a >> 63u64 != 1u64 && b >> 63u64 == 1u64 ==> !b < (a | 0x8000_0000_0000_0000u64))
        by (bit_vector);
    assert(a >> 63u64 != 1u64 && b >> 63u64 != 1u64 ==> (a <= b <==> (a
        | 0x8000_0000_0000_0000u64) <= (b | 0x8000_0000_0000_0000u64))) by (bit_vector);
}

} // verus!
