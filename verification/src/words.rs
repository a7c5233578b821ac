//! Integers as the 64-bit patterns of the `f64` words that carry them.
//!
//! A count, an index, a flag or an enum code travels as the `f64` of the same value, and "no
//! value" as `-1.0`. Reading one back accepts exactly the patterns of a finite, non-negative,
//! integral value no larger than `u32::MAX` -- which is the integer's own pattern, or `-0.0`
//! for zero -- and refuses every other.
use vstd::prelude::*;

verus! {

/// The pattern of `-0.0`.
pub const NEG_ZERO: u64 = 0x8000_0000_0000_0000u64;

/// The pattern of `-1.0`, the word for "no value".
pub const MINUS_ONE: u64 = 0xbff0_0000_0000_0000u64;

/// The 52 fraction bits of a pattern.
pub const FRACTION: u64 = 0x000f_ffff_ffff_ffffu64;

/// The highest set bit of `n` among bits `0..=k` (0 when none is set).
pub open spec fn top_bit_upto(n: u64, k: u64) -> u64
    decreases k,
{
    if k == 0 {
        0
    } else if (n >> k) != 0 {
        k
    } else {
        top_bit_upto(n, (k - 1) as u64)
    }
}

/// The highest set bit of a 32-bit value.
pub open spec fn top_bit(n: u32) -> u64 {
    top_bit_upto(n as u64, 31)
}

/// The pattern an integer `n` has as an `f64`: zero is all zeros; otherwise the exponent says
/// where `n`'s highest bit is, and the fraction holds the bits below it.
pub open spec fn u32_word(n: u32) -> u64 {
    if n == 0 {
        0
    } else {
        ieee_of(n as u64, top_bit(n))
    }
}

/// The pattern of `n` given that its highest bit is bit `k`.
pub open spec fn ieee_of(n: u64, k: u64) -> u64 {
    (((1023 + k) as u64) << 52u64) | (((n - (1u64 << k)) as u64) << ((52 - k) as u64))
}

/// What reading a pattern as an index gives: zero for either zero; otherwise the value if the
/// pattern is positive, finite, at least one, below `2^32` and has no fraction.
pub open spec fn word_to_u32_spec(w: u64) -> Option<u32> {
    if w == 0 || w == NEG_ZERO {
        Some(0)
    } else if (w >> 63u64) != 0 {
        None
    } else if (w >> 52u64) < 1023 || (w >> 52u64) > 1054 {
        None
    } else {
        let shift = (1075 - (w >> 52u64)) as u64;
        if (w & FRACTION) & (((1u64 << shift) - 1) as u64) != 0 {
            None
        } else {
            Some(((((1u64 << 52u64) | (w & FRACTION)) >> shift) as u32))
        }
    }
}

/// Word `w` stands for the integer `n`.
pub open spec fn denotes_u32(w: u64, n: u32) -> bool {
    w == u32_word(n) || (n == 0 && w == NEG_ZERO)
}

/// Word `w` stands for the optional integer `o`: `-1.0` for none.
pub open spec fn denotes_optional(w: u64, o: Option<u32>) -> bool {
    match o {
        Some(n) => denotes_u32(w, n),
        None => w == MINUS_ONE,
    }
}

/// The word of an optional integer.
pub open spec fn optional_word(o: Option<u32>) -> u64 {
    match o {
        Some(n) => u32_word(n),
        None => MINUS_ONE,
    }
}

/// A finite, non-negative length: `+0.0`, `-0.0`, or any positive finite pattern.
pub open spec fn is_distance(w: u64) -> bool {
    w == NEG_ZERO || (w >> 52u64) < 0x7ff
}

proof fn lemma_shift_facts(n: u64, k: u64)
    requires
        k < 32,
        n < 0x1_0000_0000,
    ensures
        (n >> k) != 0 ==> (1u64 << k) <= n,
        (n >> k) == 0 ==> n < (1u64 << k),
        (1u64 << k) <= n && n < (1u64 << (k + 1) as u64) ==> (n >> k) != 0,
{
    assert((n >> k) != 0 ==> (1u64 << k) <= n) by (bit_vector)
        requires k < 32;
    assert((n >> k) == 0 ==> n < (1u64 << k)) by (bit_vector)
        requires k < 32;
    assert((1u64 << k) <= n ==> (n >> k) != 0) by (bit_vector)
        requires k < 32;
}

proof fn lemma_top_bit_upto(n: u64, k: u64)
    requires
        k < 32,
        0 < n < 0x1_0000_0000,
        k == 31 || n < (1u64 << (k + 1) as u64),
    ensures
        top_bit_upto(n, k) <= k,
        (1u64 << top_bit_upto(n, k)) <= n,
        n < (1u64 << (top_bit_upto(n, k) + 1) as u64),
    decreases k,
{
    lemma_shift_facts(n, k);
    if k == 31 {
        assert(n < (1u64 << 32u64)) by (bit_vector)
            requires n < 0x1_0000_0000;
    }
    if k == 0 {
        assert(1u64 << 0u64 == 1) by (bit_vector);
    } else if (n >> k) == 0 {
        lemma_top_bit_upto(n, (k - 1) as u64);
    }
}

/// The highest set bit of a nonzero value bounds it on both sides.
pub proof fn lemma_top_bit(n: u32)
    requires
        n > 0,
    ensures
        top_bit(n) < 32,
        (1u64 << top_bit(n)) <= n,
        (n as u64) < (1u64 << (top_bit(n) + 1) as u64),
{
    lemma_top_bit_upto(n as u64, 31);
}

proof fn lemma_top_bit_unique_upto(n: u64, k: u64, j: u64)
    requires
        k < 32,
        j <= k,
        0 < n < 0x1_0000_0000,
        (1u64 << j) <= n,
        n < (1u64 << (j + 1) as u64),
    ensures
        top_bit_upto(n, k) == j,
    decreases k,
{
    lemma_shift_facts(n, k);
    if k > j {
        assert((n >> k) == 0) by (bit_vector)
            requires n < (1u64 << (j + 1) as u64), j < k, k < 32;
        lemma_top_bit_unique_upto(n, (k - 1) as u64, j);
    } else {
        assert(k == j);
        if k > 0 {
            assert((n >> k) != 0);
        }
    }
}

/// The pattern of a value whose highest bit is `k` reads back as that value.
proof fn lemma_ieee_reads_back(n: u64, k: u64)
    requires
        k < 32,
        (1u64 << k) <= n,
        n < (1u64 << (k + 1) as u64),
    ensures
        ieee_of(n, k) != 0,
        ieee_of(n, k) != NEG_ZERO,
        word_to_u32_spec(ieee_of(n, k)) == Some(n as u32),
{
    let w = ieee_of(n, k);
    assert({
        let w = (((1023 + k) as u64) << 52u64) | (((n - (1u64 << k)) as u64) << ((52 - k) as u64));
        &&& w != 0
        &&& w != 0x8000_0000_0000_0000u64
        &&& (w >> 63u64) == 0
        &&& (w >> 52u64) == 1023 + k
        &&& (w & 0x000f_ffff_ffff_ffffu64) & (((1u64 << (1075 - (1023 + k)) as u64) - 1) as u64) == 0
        &&& ((((1u64 << 52u64) | (w & 0x000f_ffff_ffff_ffffu64)) >> (1075 - (1023 + k)) as u64) as u32) == n as u32
    }) by (bit_vector)
        requires
            k < 32,
            (1u64 << k) <= n,
            n < (1u64 << (k + 1) as u64),
    ;
}

/// A pattern that reads back as a value is that value's pattern, or `-0.0` for zero.
proof fn lemma_read_is_ieee(w: u64)
    requires
        w != 0,
        w != NEG_ZERO,
        word_to_u32_spec(w) is Some,
    ensures
        ({
            let k = ((w >> 52u64) - 1023) as u64;
            let n = word_to_u32_spec(w)->Some_0 as u64;
            &&& k < 32
            &&& (1u64 << k) <= n
            &&& n < (1u64 << (k + 1) as u64)
            &&& ieee_of(n, k) == w
        }),
{
    let e = w >> 52u64;
    assert(e >= 1023 && e <= 1054);
    assert({
        let k = ((w >> 52u64) - 1023) as u64;
        let shift = (1075 - (w >> 52u64)) as u64;
        let n = (((1u64 << 52u64) | (w & 0x000f_ffff_ffff_ffffu64)) >> shift);
        &&& n < 0x1_0000_0000
        &&& (1u64 << k) <= n
        &&& n < (1u64 << (k + 1) as u64)
        &&& (((1023 + k) as u64) << 52u64) | (((n - (1u64 << k)) as u64) << ((52 - k) as u64)) == w
    }) by (bit_vector)
        requires
            (w >> 63u64) == 0,
            (w >> 52u64) >= 1023,
            (w >> 52u64) <= 1054,
            (w & 0x000f_ffff_ffff_ffffu64) & (((1u64 << (1075 - (w >> 52u64)) as u64) - 1) as u64) == 0,
    ;
}

/// Reading a word as an index gives `n` exactly when the word stands for `n`.
pub proof fn lemma_word_to_u32_denotes(w: u64, n: u32)
    ensures
        word_to_u32_spec(w) == Some(n) <==> denotes_u32(w, n),
{
    if n > 0 {
        lemma_top_bit(n);
        lemma_ieee_reads_back(n as u64, top_bit(n));
    }
    if word_to_u32_spec(w) == Some(n) && w != 0 && w != NEG_ZERO {
        lemma_read_is_ieee(w);
        let k = ((w >> 52u64) - 1023) as u64;
        assert(n > 0) by {
            if n == 0 {
                assert((1u64 << k) >= 1) by (bit_vector)
                    requires k < 32;
            }
        }
        lemma_top_bit_unique_upto(n as u64, 31, k);
    }
}

/// Every integer's word reads back as that integer.
pub proof fn lemma_u32_word_reads_back(n: u32)
    ensures
        word_to_u32_spec(u32_word(n)) == Some(n),
{
    lemma_word_to_u32_denotes(u32_word(n), n);
}

/// The word of an integer: its pattern as an `f64`.
pub fn u32_word_of(n: u32) -> (w: u64)
    ensures
        w == u32_word(n),
{
    if n == 0 {
        return 0;
    }
    let v = n as u64;
    let mut k: u64 = 31;
    while k > 0 && (v >> k) == 0
        invariant
            k <= 31,
            top_bit_upto(v, k) == top_bit(n),
            v == n as u64,
        decreases k,
    {
        k = k - 1;
    }
    proof {
        lemma_top_bit(n);
    }
    assert((1u64 << k) <= v && k < 32);
    ((1023 + k) << 52u64) | ((v - (1u64 << k)) << (52 - k))
}

/// Reads a word as an index: finite, non-negative, integral and no larger than `u32::MAX`.
pub fn word_to_u32(w: u64) -> (n: Option<u32>)
    ensures
        n == word_to_u32_spec(w),
        forall|m: u32| n == Some(m) <==> denotes_u32(w, m),
{
    proof {
        assert forall|m: u32| word_to_u32_spec(w) == Some(m) <==> denotes_u32(w, m) by {
            lemma_word_to_u32_denotes(w, m);
        }
    }
    if w == 0 || w == NEG_ZERO {
        Some(0)
    } else if (w >> 63u64) != 0 {
        None
    } else if (w >> 52u64) < 1023 || (w >> 52u64) > 1054 {
        None
    } else {
        let shift = 1075 - (w >> 52u64);
        assert(shift <= 52);
        assert((1u64 << shift) >= 1) by (bit_vector)
            requires shift <= 52;
        if (w & FRACTION) & ((1u64 << shift) - 1) != 0 {
            None
        } else {
            Some((((1u64 << 52u64) | (w & FRACTION)) >> shift) as u32)
        }
    }
}

/// Reads a word as an optional index: `-1.0` is none, anything else must be an index.
pub fn word_to_optional(w: u64) -> (o: Option<Option<u32>>)
    ensures
        forall|v: Option<u32>| o == Some(v) <==> denotes_optional(w, v),
{
    proof {
        assert(!denotes_u32(MINUS_ONE, 0)) by {
            assert(u32_word(0) == 0);
        }
        assert forall|m: u32| !denotes_u32(MINUS_ONE, m) by {
            lemma_word_to_u32_denotes(MINUS_ONE, m);
            assert((0xbff0_0000_0000_0000u64 >> 63u64) != 0) by (bit_vector);
            assert(word_to_u32_spec(MINUS_ONE) is None);
        }
    }
    if w == MINUS_ONE {
        Some(None)
    } else {
        match word_to_u32(w) {
            Some(n) => Some(Some(n)),
            None => None,
        }
    }
}

/// The word of an optional index.
pub fn optional_word_of(o: Option<u32>) -> (w: u64)
    ensures
        w == optional_word(o),
{
    match o {
        Some(n) => u32_word_of(n),
        None => MINUS_ONE,
    }
}

/// Whether a word is a usable length: finite and not negative.
pub fn word_is_distance(w: u64) -> (ok: bool)
    ensures
        ok == is_distance(w),
{
    w == NEG_ZERO || (w >> 52u64) < 0x7ff
}

} // verus!
