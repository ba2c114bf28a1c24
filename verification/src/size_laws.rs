//! What holds of the number and the length of the segments of a map.

use vstd::prelude::*;
#[allow(unused_imports)]
use vstd::arithmetic::power::*;
#[allow(unused_imports)]
use vstd::arithmetic::power2::*;
#[allow(unused_imports)]
use vstd::bits::*;

#[allow(unused_imports)]
use crate::{construction, placement, sizing};

verus! {

/// `e` is `log(size) / log(3.33) + 2.25`, rounded down: with `3.33` as `333 / 100` and all
/// exponents multiplied by four, `3.33^(4 * e - 9) <= size^4 < 3.33^(4 * e - 5)`, of which the first
/// holds of every `e` up to two.
pub open spec fn is_rounded_logarithm(size: int, e: nat) -> bool {
    &&& 2 <= e <= 20
    &&& e > 2 ==> pow(333, (4 * e - 9) as nat) <= pow(size, 4) * pow(100, (4 * e - 9) as nat)
    &&& pow(size, 4) * pow(100, (4 * e - 5) as nat) < pow(333, (4 * e - 5) as nat)
}

/// The segment length that suits some keys is 2 to the power of `log(size) / log(3.33) + 2.25`,
/// rounded down, and 4 for no keys.
pub proof fn lemma_segment_length_by_formula(size: u32)
    ensures
        size == 0 ==> sizing::segment_length(size) == 4,
        size > 0 ==> exists|e: nat| #[trigger]
            is_rounded_logarithm(size as int, e) && sizing::segment_length(size) == pow(2, e),
{
    if size > 0 {
        let x = sizing::segment_exponent(size);
        let e = x as nat;
        sizing::lemma_segment_exponent(size);
        assert(pow(size as int, 4) == size * size * size * size) by {
            reveal_with_fuel(pow, 5);
            let s = size as int;
            assert(s * (s * (s * (s * 1))) == s * s * s * s) by (nonlinear_arith);
        }
        assert((4 * (e + 1) - 9) as nat == (4 * e - 5) as nat);
        lemma_u32_pow2_no_overflow(e);
        lemma_u32_shl_is_mul(1, x);
        lemma_pow2(e);
        assert(is_rounded_logarithm(size as int, e));
    }
}

/// A map is built with the segment length that suits its keys, but none longer than 262144.
pub proof fn lemma_segments_are_not_too_long(size: u32)
    ensures
        sizing::segment_length(size) <= 262144 ==> sizing::capped_segment_length(size)
            == sizing::segment_length(size),
        sizing::segment_length(size) > 262144 ==> sizing::capped_segment_length(size) == 262144,
{
}

/// Some keys need their number times `max(1.125, 0.875 + 0.25 * log(1000000) / log(size))` cells,
/// rounded to the nearest integer. Up to a million keys it is the logarithm that counts: with
/// `c` cells, `log(size) * (8 * c - 4 - 7 * size) <= log(10) * 12 * size`, and no longer with one
/// more.
pub proof fn lemma_capacity_by_formula(size: u32)
    ensures
        size <= 1 ==> sizing::capacity(size) == 0,
        2 <= size <= 1000000 ==> ({
            let excess = 8 * sizing::capacity(size) - 4 - 7 * size;
            &&& excess > 0 ==> pow(size as int, excess as nat) <= pow(10, (12 * size) as nat)
            &&& excess + 8 > 0
            &&& pow(10, (12 * size) as nat) < pow(size as int, (excess + 8) as nat)
        }),
        size >= 1000000 ==> 9 * size - 4 < 8 * sizing::capacity(size) <= 9 * size + 4,
{
    if 2 <= size {
        sizing::lemma_capacity(size);
        if size <= 1000000 {
            let c = sizing::capacity(size);
            assert(sizing::needs(size as int, c));
            assert(!sizing::needs(size as int, c + 1));
        }
    }
}

/// A map has as few segments, but three at least, as hold the cells that its keys need; all but
/// two of them can be the first of a key.
pub proof fn lemma_segments_hold_the_cells(size: u32)
    requires
        size <= sizing::MAX_KEYS,
    ensures
        ({
            let g = sizing::initial_geometry(size);
            let total = g.segment_count + 2;
            let length = sizing::capped_segment_length(size);
            &&& total >= 3
            &&& sizing::capacity(size) <= total * length
            &&& total > 3 ==> (total - 1) * length < sizing::capacity(size)
            &&& g.segment_length == length
            &&& g.segment_length_mask == length - 1
            &&& g.segment_count_length == (total - 2) * length
            &&& sizing::cell_count(size) == total * length
            &&& sizing::total_segments(size) == total
            &&& g.divides(total * length)
        }),
{
    sizing::lemma_initial_geometry(size);
    let length = sizing::capped_segment_length(size) as int;
    let c = sizing::capacity(size);
    let quotient = (c + length - 1) / length;
    assert(c <= quotient * length < c + length) by (nonlinear_arith)
        requires
            length > 0,
            c >= 0,
            quotient == (c + length - 1) / length,
    ;
    assert((quotient - 1) * length == quotient * length - length) by (nonlinear_arith);
    let total = sizing::total_segments(size);
    assert(quotient * length <= total * length) by (nonlinear_arith)
        requires
            quotient <= total,
            length > 0,
    ;
    assert(total <= total * length) by (nonlinear_arith)
        requires
            length >= 1,
            total >= 0,
    ;
}

/// Every attempt is made with the geometry for its number of keys. Only, of more than four keys and
/// fewer than a million, the third attempt and every fourth from there on is made with segments of
/// half the length, and as many more as divide the same cells.
pub proof fn lemma_geometry_of_attempts(size: u32, number: nat)
    requires
        1 <= size <= sizing::MAX_KEYS,
    ensures
        ({
            let base = sizing::initial_geometry(size);
            let g = construction::geometry_at(size, number);
            let halved = 4 < size && size < 1000000 && number % 4 == 2;
            &&& !halved ==> g == base
            &&& halved ==> 2 * g.segment_length == base.segment_length
            &&& g.segment_count + 2 == (base.segment_count + 2) * (if halved {
                2int
            } else {
                1int
            })
            &&& g.divides(sizing::cell_count(size))
        }),
{
    construction::lemma_geometry_at(size, number);
    let base = sizing::initial_geometry(size);
    let g = construction::geometry_at(size, number);
    if 4 < size && size < 1000000 && number % 4 == 2 {
        let e = choose|e: u32| e < 32 && base.segment_length == #[trigger] (1u32 << e);
        assert((1u32 << e) % 2 == 0) by (bit_vector)
            requires
                e < 32,
                1u32 << e >= 8,
        ;
        assert((base.segment_count + 2) * 4 <= (base.segment_count + 2) * base.segment_length)
            by (nonlinear_arith)
            requires
                base.segment_length >= 4,
        ;
    }
}

/// The upper bits of a hash that name its block are as few, but one at least, as can count the
/// segments.
pub proof fn lemma_block_bits_count_segments(count: u32)
    requires
        count <= 0x8000_0000,
    ensures
        ({
            let bits = placement::block_bits(count);
            &&& 1 <= bits <= 31
            &&& count <= pow2(bits as nat)
            &&& bits > 1 ==> pow2((bits - 1) as nat) < count
        }),
{
    lemma_bits_from(count, 1);
}

proof fn lemma_bits_from(count: u32, bits: u32)
    requires
        count <= 0x8000_0000,
        1 <= bits <= 31,
        bits > 1 ==> pow2((bits - 1) as nat) < count,
    ensures
        ({
            let r = placement::bits_from(count, bits);
            &&& 1 <= r <= 31
            &&& count <= pow2(r as nat)
            &&& r > 1 ==> pow2((r - 1) as nat) < count
        }),
    decreases 31 - bits,
{
    lemma_u32_pow2_no_overflow(bits as nat);
    lemma_u32_shl_is_mul(1, bits);
    lemma2_to64();
    if bits < 31 && (1u32 << bits) < count {
        lemma_bits_from(count, (bits + 1) as u32);
    }
}

/// Maps are built of as many keys as there are 32-bit numbers for: those for whose cells there is
/// one, with a segment more.
pub proof fn lemma_most_keys(size: u32)
    ensures
        size <= sizing::MAX_KEYS <==> sizing::capacity(size) + sizing::capped_segment_length(size)
            < 0x1_0000_0000,
        size <= sizing::MAX_KEYS ==> sizing::cell_count(size) < 0x1_0000_0000,
{
    if size <= sizing::MAX_KEYS {
        sizing::lemma_initial_geometry(size);
    } else {
        sizing::lemma_capacity(size);
        lemma_longest_segments(size);
    }
}

/// Very many keys get the longest segments.
proof fn lemma_longest_segments(size: u32)
    requires
        size > sizing::MAX_KEYS,
    ensures
        sizing::capped_segment_length(size) == 262144,
{
    sizing::lemma_segment_exponent_of_many(size);
    assert(1u32 << 20u32 == 1048576) by (bit_vector);
}

} // verus!
