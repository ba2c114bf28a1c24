//! What holds of the cells of a hash.

use vstd::prelude::*;
#[allow(unused_imports)]
use vstd::arithmetic::div_mod::*;
#[allow(unused_imports)]
use vstd::arithmetic::power2::*;
#[allow(unused_imports)]
use vstd::bits::*;

use crate::geometry::Geometry;
#[allow(unused_imports)]
use crate::geometry;

verus! {

/// The first cell is the hash scaled down from 64 bits to the cells that can be a first cell.
pub proof fn lemma_first_cell_is_scaled(g: Geometry, hash: u64)
    ensures
        g.first(hash) * 0x1_0000_0000_0000_0000 <= hash * g.segment_count_length < (g.first(hash)
            + 1) * 0x1_0000_0000_0000_0000,
{
    let modulus: int = 0x1_0000_0000_0000_0000;
    let product = hash * g.segment_count_length;
    assert(0 <= product < modulus * 0x1_0000_0000) by (nonlinear_arith)
        requires
            0 <= hash < modulus,
            0 <= g.segment_count_length < 0x1_0000_0000,
            product == hash * g.segment_count_length,
            modulus == 0x1_0000_0000_0000_0000,
    ;
    lemma_fundamental_div_mod(product, modulus);
    assert(0 <= product / modulus < 0x1_0000_0000);
}

proof fn lemma_undone(x: u32, y: u32)
    by (bit_vector)
    ensures
        (x ^ y) ^ y == x,
{
}

/// The second and the third cell lead back to the first: without the bits of the hash by which
/// their offsets are changed, they are one and two segments on, modulo 2^32.
pub proof fn lemma_cells_lead_back(g: Geometry, hash: u64)
    ensures
        g.second(hash) ^ ((hash >> 18) as u32 & g.segment_length_mask) == (g.first(hash)
            + g.segment_length) % 0x1_0000_0000,
        g.third(hash) ^ (hash as u32 & g.segment_length_mask) == (g.first(hash) + 2
            * g.segment_length) % 0x1_0000_0000,
{
    let one = g.first(hash).wrapping_add(g.segment_length);
    let two = one.wrapping_add(g.segment_length);
    lemma_undone(one, (hash >> 18) as u32 & g.segment_length_mask);
    lemma_undone(two, hash as u32 & g.segment_length_mask);
    lemma_add_mod_noop(
        g.first(hash) + g.segment_length,
        g.segment_length as int,
        0x1_0000_0000,
    );
    lemma_small_mod(g.segment_length as nat, 0x1_0000_0000);
}

proof fn lemma_segment_bv(e: u32, x: u32, a: u32)
    by (bit_vector)
    requires
        e < 31,
        x + (1u32 << e) + (1u32 << e) <= 0xffff_ffff,
    ensures
        (((x + (1u32 << e)) as u32) ^ (a & (((1u32 << e) - 1) as u32))) >> e == (x >> e) + 1,
        (((x + (1u32 << e) + (1u32 << e)) as u32) ^ (a & (((1u32 << e) - 1) as u32))) >> e == (x
            >> e) + 2,
        (((x + (1u32 << e)) as u32) ^ (a & (((1u32 << e) - 1) as u32))) & (((1u32 << e)
            - 1) as u32) == (x & (((1u32 << e) - 1) as u32)) ^ (a & (((1u32 << e) - 1) as u32)),
        (((x + (1u32 << e) + (1u32 << e)) as u32) ^ (a & (((1u32 << e) - 1) as u32))) & (((1u32
            << e) - 1) as u32) == (x & (((1u32 << e) - 1) as u32)) ^ (a & (((1u32 << e)
            - 1) as u32)),
{
}

/// The three cells of a hash lie in consecutive segments. Their offsets in these are that of the
/// first, changed for the second by the bits of the hash from bit 18 on, and for the third by its
/// lowest bits.
pub proof fn lemma_cells_in_segments(g: Geometry, len: int, hash: u64)
    requires
        g.divides(len),
    ensures
        ({
            let length = g.segment_length;
            let (a, b, c) = (g.first(hash), g.second(hash), g.third(hash));
            &&& length > 0
            &&& 0 <= a / length < g.segment_count
            &&& b / length == a / length + 1
            &&& c / length == a / length + 2
            &&& b % length == (a % length) ^ ((hash >> 18) as u32 % length)
            &&& c % length == (a % length) ^ (hash as u32 % length)
            &&& c < len
        }),
{
    geometry::lemma_cells_ordered(g, len, hash);
    geometry::lemma_other_cells(g, len, hash);
    let length = g.segment_length;
    let e = choose|e: u32| e < 32 && length == #[trigger] (1u32 << e);
    assert(e < 32 && 2 * (1u32 << e) <= 0xffff_ffff ==> e < 31) by (bit_vector);
    let (a, b, c) = (g.first(hash), g.second(hash), g.third(hash));
    let (p, q) = ((hash >> 18) as u32, hash as u32);
    lemma_segment_bv(e, a, p);
    lemma_segment_bv(e, a, q);
    lemma_part(e, a);
    lemma_part(e, b);
    lemma_part(e, c);
    lemma_part(e, p);
    lemma_part(e, q);
    assert((g.segment_count * length) as int / length as int == g.segment_count)
        by (nonlinear_arith)
        requires
            length > 0,
    ;
    assert(a as int / (length as int) < g.segment_count) by (nonlinear_arith)
        requires
            a < g.segment_count * length,
            length > 0,
    ;
}

/// The segment and the offset of a cell by its bits.
proof fn lemma_part(e: u32, x: u32)
    requires
        e < 31,
    ensures
        (1u32 << e) > 0,
        x >> e == x / (1u32 << e),
        x & (((1u32 << e) - 1) as u32) == x % (1u32 << e),
{
    lemma_u32_pow2_no_overflow(e as nat);
    lemma_u32_shl_is_mul(1, e);
    lemma_u32_shr_is_div(x, e);
    lemma_pow2_pos(e as nat);
    lemma_u32_low_bits_mask_is_mod(x, e as nat);
    assert(low_bits_mask(e as nat) == pow2(e as nat) - 1);
}

/// The cells of a hash are the three, counted around; they are the ones that it touches, it is
/// within a table where each of them is, and finds there what the three yield together.
pub proof fn lemma_cells_are_three(g: Geometry, hash: u64, which: int, cell: int, table: Seq<u64>)
    ensures
        g.cell(hash, 0) == g.first(hash),
        g.cell(hash, 1) == g.second(hash),
        g.cell(hash, 2) == g.third(hash),
        g.cell(hash, which + 3) == g.cell(hash, which),
        g.touches(hash, cell) <==> (cell == g.cell(hash, 0) || cell == g.cell(hash, 1) || cell
            == g.cell(hash, 2)),
        g.within(hash, table.len() as int) <==> (g.cell(hash, 0) < table.len() && g.cell(hash, 1)
            < table.len() && g.cell(hash, 2) < table.len()),
        g.lookup(table, hash) == table[g.cell(hash, 0)] ^ table[g.cell(hash, 1)] ^ table[g.cell(
            hash,
            2,
        )],
{
    assert(1int % 3 == 1 && 2int % 3 == 2 && 0int % 3 == 0);
    assert((which + 3) % 3 == which % 3);
}

/// What a geometry is that divides some cells: segments of a power of two of cells each, as many
/// as there are first segments and two more.
pub proof fn lemma_geometry_divides(g: Geometry, len: int)
    ensures
        g.divides(len) <==> {
            &&& exists|e: nat| e < 32 && g.segment_length == #[trigger] pow2(e)
            &&& g.segment_count >= 1
            &&& len == (g.segment_count + 2) * g.segment_length
            &&& len < 0x1_0000_0000
            &&& g.segment_length_mask + 1 == g.segment_length
            &&& g.segment_count_length == g.segment_count * g.segment_length
        },
{
    if g.divides(len) {
        let e = choose|e: u32| e < 32 && g.segment_length == #[trigger] (1u32 << e);
        lemma_u32_pow2_no_overflow(e as nat);
        lemma_u32_shl_is_mul(1, e);
        assert(g.segment_length == pow2(e as nat));
    }
    if exists|e: nat| e < 32 && g.segment_length == #[trigger] pow2(e) {
        let e = choose|e: nat| e < 32 && g.segment_length == #[trigger] pow2(e);
        lemma_u32_pow2_no_overflow(e);
        lemma_u32_shl_is_mul(1, e as u32);
        assert(g.segment_length == 1u32 << (e as u32));
    }
}

/// The products of a geometry follow from its segments, modulo 2^32.
pub proof fn lemma_geometry_of_segments(length: u32, count: u32)
    ensures
        ({
            let g = Geometry::of(length, count);
            &&& g.segment_length == length
            &&& g.segment_count == count
            &&& (g.segment_length_mask + 1) % 0x1_0000_0000 == length
            &&& g.segment_count_length == (length * count) % 0x1_0000_0000
        }),
{
    assert(length * count == count * length) by (nonlinear_arith);
}

} // verus!
