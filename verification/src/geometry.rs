//! Where the three cells of a hash lie.
//!
//! The cells are grouped in segments of equal length, a power of two. A hash has one cell in
//! each of three consecutive segments.

use vstd::prelude::*;
#[allow(unused_imports)]
use vstd::arithmetic::div_mod::*;
#[allow(unused_imports)]
use vstd::arithmetic::mul::*;
#[allow(unused_imports)]
use vstd::arithmetic::power2::*;
#[allow(unused_imports)]
use vstd::bits::*;

verus! {

/// How the cells are divided into segments.
#[derive(Clone, Copy, Debug, PartialEq, Eq, Structural)]
pub struct Geometry {
    /// The number of cells in a segment.
    pub segment_length: u32,
    /// `segment_length - 1`: selects the offset of a cell in its segment.
    pub segment_length_mask: u32,
    /// The number of segments in which the first cell of a hash can lie.
    pub segment_count: u32,
    /// `segment_count * segment_length`: the number of cells that can be a first cell.
    pub segment_count_length: u32,
}

/// `x` is a power of two.
pub open spec fn is_power_of_two(x: u32) -> bool {
    exists|e: u32| e < 32 && x == #[trigger] (1u32 << e)
}

impl Geometry {
    /// The geometry of `segment_count` possible first segments of `segment_length` cells, where
    /// the products are taken modulo 2^32.
    pub open spec fn of(segment_length: u32, segment_count: u32) -> Geometry {
        Geometry {
            segment_length,
            segment_length_mask: segment_length.wrapping_sub(1),
            segment_count,
            segment_count_length: segment_count.wrapping_mul(segment_length),
        }
    }

    /// The geometry divides `len` cells into segments, with room for three of them.
    pub open spec fn divides(self, len: int) -> bool {
        &&& is_power_of_two(self.segment_length)
        &&& self.segment_length_mask == self.segment_length - 1
        &&& self.segment_count >= 1
        &&& self.segment_count_length == self.segment_count * self.segment_length
        &&& len == (self.segment_count + 2) * self.segment_length
        &&& len <= u32::MAX
    }

    /// The first cell of `hash`: the hash scaled down to the cells that can be a first cell.
    pub open spec fn first(self, hash: u64) -> u32 {
        ((hash * self.segment_count_length) / 0x1_0000_0000_0000_0000) as u32
    }

    /// The second cell of `hash`: one segment on, at an offset changed by 18 bits of the hash up.
    pub open spec fn second(self, hash: u64) -> u32 {
        self.first(hash).wrapping_add(self.segment_length) ^ ((hash >> 18) as u32
            & self.segment_length_mask)
    }

    /// The third cell of `hash`: two segments on, at an offset changed by the low bits of the hash.
    pub open spec fn third(self, hash: u64) -> u32 {
        self.first(hash).wrapping_add(self.segment_length).wrapping_add(self.segment_length) ^ (
        hash as u32 & self.segment_length_mask)
    }

    /// Cell number `which` of `hash`, which counts 0, 1, 2 and starts over.
    pub open spec fn cell(self, hash: u64, which: int) -> int {
        if which % 3 == 0 {
            self.first(hash) as int
        } else if which % 3 == 1 {
            self.second(hash) as int
        } else {
            self.third(hash) as int
        }
    }

    /// `cell` is one of the three cells of `hash`.
    pub open spec fn touches(self, hash: u64, cell: int) -> bool {
        cell == self.first(hash) || cell == self.second(hash) || cell == self.third(hash)
    }

    /// Every cell of `hash` is less than `len`.
    pub open spec fn within(self, hash: u64, len: int) -> bool {
        self.first(hash) < len && self.second(hash) < len && self.third(hash) < len
    }

    /// The exclusive or of what `table` holds in the three cells of `hash`.
    pub open spec fn lookup(self, table: Seq<u64>, hash: u64) -> u64 {
        table[self.first(hash) as int] ^ table[self.second(hash) as int] ^ table[self.third(
            hash,
        ) as int]
    }

    /// The number of cells that the geometry divides.
    pub fn cells(&self) -> (len: usize)
        requires
            exists|len: int| #[trigger] self.divides(len),
        ensures
            self.divides(len as int),
            len == (self.segment_count + 2) * self.segment_length,
    {
        assert(self.segment_length >= 1 && self.segment_count + 2 <= (self.segment_count + 2)
            * self.segment_length) by {
            let e = choose|e: u32| e < 32 && self.segment_length == #[trigger] (1u32 << e);
            assert(1u32 << e >= 1) by (bit_vector)
                requires
                    e < 32,
            ;
            assert(self.segment_count + 2 <= (self.segment_count + 2) * self.segment_length)
                by (nonlinear_arith)
                requires
                    self.segment_length >= 1,
            ;
        }
        ((self.segment_count + 2) * self.segment_length) as usize
    }

    /// The three cells of `hash`.
    pub fn get_hash_from_hash(&self, hash: u64) -> (r: (u32, u32, u32))
        ensures
            r == (self.first(hash), self.second(hash), self.third(hash)),
            r.0 * 0x1_0000_0000_0000_0000 <= hash * self.segment_count_length < (r.0 + 1)
                * 0x1_0000_0000_0000_0000,
            r.1 ^ ((hash >> 18) as u32 & self.segment_length_mask) == (r.0 + self.segment_length)
                % 0x1_0000_0000,
            r.2 ^ (hash as u32 & self.segment_length_mask) == (r.0 + 2 * self.segment_length)
                % 0x1_0000_0000,
    {
        assert(hash * self.segment_count_length <= 0xffff_ffff_ffff_ffff * 0xffff_ffff)
            by (nonlinear_arith)
            requires
                0 <= hash <= 0xffff_ffff_ffff_ffff,
                0 <= self.segment_count_length <= 0xffff_ffff,
        ;
        let product: u128 = hash as u128 * self.segment_count_length as u128;
        proof {
            lemma_u128_shr_is_div(product, 64);
            lemma2_to64();
        }
        let h0: u32 = (product >> 64) as u32;
        let mut h1: u32 = h0.wrapping_add(self.segment_length);
        let mut h2: u32 = h1.wrapping_add(self.segment_length);
        h1 = h1 ^ ((hash >> 18) as u32 & self.segment_length_mask);
        h2 = h2 ^ (hash as u32 & self.segment_length_mask);
        proof {
            crate::cell_laws::lemma_first_cell_is_scaled(*self, hash);
            crate::cell_laws::lemma_cells_lead_back(*self, hash);
        }
        (h0, h1, h2)
    }
}

proof fn lemma_segments_bv(e: u32, limit: u32, x: u32, a: u32, b: u32)
    by (bit_vector)
    requires
        e < 32,
        limit & (((1u32 << e) - 1) as u32) == 0,
        limit + (1u32 << e) + (1u32 << e) <= 0xffff_ffff,
        x < limit,
    ensures
        x < ((x + (1u32 << e)) as u32) ^ (a & (((1u32 << e) - 1) as u32)),
        ((x + (1u32 << e)) as u32) ^ (a & (((1u32 << e) - 1) as u32)) < ((x + (1u32 << e) + (1u32
            << e)) as u32) ^ (b & (((1u32 << e) - 1) as u32)),
        ((x + (1u32 << e) + (1u32 << e)) as u32) ^ (b & (((1u32 << e) - 1) as u32)) < limit + (1u32
            << e) + (1u32 << e),
{
}

proof fn lemma_multiple_bv(e: u32, count: u32)
    by (bit_vector)
    requires
        e < 32,
    ensures
        (count << e) & (((1u32 << e) - 1) as u32) == 0,
        (1u32 << e) > 0,
{
}

/// The product of a number and a power of two has none of the bits below that power.
proof fn lemma_multiple(count: u32, e: u32)
    requires
        e < 32,
        count * (1u32 << e) <= u32::MAX,
    ensures
        ((count * (1u32 << e)) as u32) & (((1u32 << e) - 1) as u32) == 0,
        (1u32 << e) > 0,
{
    lemma_multiple_bv(e, count);
    lemma_u32_pow2_no_overflow(e as nat);
    lemma_u32_shl_is_mul(1, e);
    lemma_u32_shl_is_mul(count, e);
}

/// The scaled hash is less than the number it is scaled to.
proof fn lemma_scaled(hash: u64, limit: u32)
    requires
        limit > 0,
    ensures
        0 <= (hash * limit) / 0x1_0000_0000_0000_0000 < limit,
{
    let modulus: int = 0x1_0000_0000_0000_0000;
    assert(0 <= hash * limit < modulus * limit) by (nonlinear_arith)
        requires
            0 <= hash < modulus,
            limit > 0,
    ;
    lemma_fundamental_div_mod(hash * limit, modulus);
    assert(0 <= (hash * limit) / modulus < limit) by (nonlinear_arith)
        requires
            0 <= hash * limit < modulus * limit,
            hash * limit == modulus * ((hash * limit) / modulus) + (hash * limit) % modulus,
            0 <= (hash * limit) % modulus < modulus,
            modulus == 0x1_0000_0000_0000_0000,
    ;
}

/// In a geometry that divides `len` cells the three cells of every hash come one after the
/// other and are less than `len`.
pub proof fn lemma_cells_ordered(g: Geometry, len: int, hash: u64)
    requires
        g.divides(len),
    ensures
        g.first(hash) < g.second(hash) < g.third(hash) < len,
        g.first(hash) < g.segment_count_length,
        g.within(hash, len),
{
    let e = choose|e: u32| e < 32 && g.segment_length == #[trigger] (1u32 << e);
    let s = g.segment_length;
    assert((g.segment_count + 2) * s == g.segment_count * s + 2 * s) by (nonlinear_arith);
    assert(g.segment_count * s >= 1) by (nonlinear_arith)
        requires
            g.segment_count >= 1,
            s >= 1,
    ;
    lemma_multiple(g.segment_count, e);
    lemma_scaled(hash, g.segment_count_length);
    let x = g.first(hash);
    lemma_segments_bv(e, g.segment_count_length, x, (hash >> 18) as u32, hash as u32);
}

proof fn lemma_shifted_bv(e: u32, y: u32, a: u32)
    by (bit_vector)
    requires
        e < 31,
        y + (1u32 << e) + (1u32 << e) <= 0xffff_ffff,
    ensures
        (y ^ (a & (((1u32 << e) - 1) as u32))) + (1u32 << e) <= 0xffff_ffff,
        (y ^ (a & (((1u32 << e) - 1) as u32))) + (1u32 << e) == ((y + (1u32 << e)) as u32) ^ (a & (((
        1u32 << e) - 1) as u32)),
{
}

/// Changing the offset of a cell and going on one segment can be done in either order.
proof fn lemma_shifted(length: u32, y: u32, a: u32)
    requires
        is_power_of_two(length),
        y + 2 * length <= u32::MAX,
    ensures
        length >= 1,
        (y ^ (a & (length - 1) as u32)) + length == (((y + length) as u32) ^ (a & (length
            - 1) as u32)),
{
    let e = choose|e: u32| e < 32 && length == #[trigger] (1u32 << e);
    assert(e < 32 && 2 * (1u32 << e) <= 0xffff_ffff ==> e < 31) by (bit_vector);
    assert(1u32 << e >= 1) by (bit_vector)
        requires
            e < 31,
    ;
    lemma_shifted_bv(e, y, a);
}

/// How the three cells of a hash follow from each other: `a` and `b` are what the offsets of
/// the second and the third are changed by.
pub proof fn lemma_other_cells(g: Geometry, len: int, hash: u64)
    requires
        g.divides(len),
    ensures
        ({
            let length = g.segment_length;
            let a = (hash >> 18) as u32 & g.segment_length_mask;
            let b = hash as u32 & g.segment_length_mask;
            let (first, second, third) = (g.first(hash), g.second(hash), g.third(hash));
            &&& second == ((first + length) as u32) ^ a
            &&& third == ((first + 2 * length) as u32) ^ b
            &&& first + 2 * length <= u32::MAX
            &&& second >= length
            &&& third >= 2 * length
            &&& second + length <= u32::MAX
            &&& third == ((second + length) as u32) ^ (a ^ b)
            &&& first == ((second - length) as u32) ^ a
            &&& first == ((third - 2 * length) as u32) ^ b
            &&& second == ((third - length) as u32) ^ (a ^ b)
        }),
{
    lemma_cells_ordered(g, len, hash);
    let length = g.segment_length;
    assert((g.segment_count + 2) * length == g.segment_count_length + 2 * length)
        by (nonlinear_arith)
        requires
            g.segment_count_length == g.segment_count * length,
    ;
    let a = (hash >> 18) as u32 & g.segment_length_mask;
    let b = hash as u32 & g.segment_length_mask;
    let x = g.first(hash);
    let x1 = (x + length) as u32;
    let x2 = (x + 2 * length) as u32;
    lemma_shifted(length, x, (hash >> 18) as u32);
    lemma_shifted(length, x, hash as u32);
    lemma_xor_shuffle(x, a, b);
    lemma_xor_shuffle(x, b, a);
    lemma_xor_shuffle(x1, a, b);
    lemma_xor_shuffle(x2, a, b);
    // The second cell, one segment on, is not beyond the last segment.
    let e = choose|e: u32| e < 32 && length == #[trigger] (1u32 << e);
    assert(e < 32 && 2 * (1u32 << e) <= 0xffff_ffff ==> e < 31) by (bit_vector);
    lemma_multiple(g.segment_count, e);
    lemma_offset_bv(e, g.segment_count_length, x, (hash >> 18) as u32);
    lemma_offset_bv(e, g.segment_count_length, x, hash as u32);
    let first_a = x ^ a;
    let first_b = x ^ b;
    assert(first_a + length == x1 ^ a);
    assert(first_b + length == x1 ^ b);
    lemma_shift_again_bv(e, g.segment_count_length, x, (hash >> 18) as u32);
    lemma_shift_again_bv(e, g.segment_count_length, x, hash as u32);
}

proof fn lemma_xor_shuffle(x: u32, a: u32, b: u32)
    by (bit_vector)
    ensures
        (x ^ a) ^ a == x,
        (x ^ a) ^ (a ^ b) == x ^ b,
        (x ^ b) ^ (a ^ b) == x ^ a,
{
}

proof fn lemma_offset_bv(e: u32, limit: u32, x: u32, a: u32)
    by (bit_vector)
    requires
        e < 31,
        limit & (((1u32 << e) - 1) as u32) == 0,
        x < limit,
    ensures
        x ^ (a & (((1u32 << e) - 1) as u32)) < limit,
{
}

proof fn lemma_shift_again_bv(e: u32, limit: u32, x: u32, a: u32)
    by (bit_vector)
    requires
        e < 31,
        limit & (((1u32 << e) - 1) as u32) == 0,
        limit + (1u32 << e) + (1u32 << e) <= 0xffff_ffff,
        x < limit,
    ensures
        (((x + (1u32 << e)) as u32) ^ (a & (((1u32 << e) - 1) as u32))) + (1u32 << e) == ((x + (1u32
            << e) + (1u32 << e)) as u32) ^ (a & (((1u32 << e) - 1) as u32)),
{
}

} // verus!
