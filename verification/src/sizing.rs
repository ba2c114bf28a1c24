//! How many segments, and of which length, a map of a given number of keys gets.

use vstd::prelude::*;
#[allow(unused_imports)]
use vstd::arithmetic::power::*;

use crate::geometry::Geometry;
use crate::logarithm::{log, power_at_most, Log};
#[allow(unused_imports)]
use crate::logarithm;

verus! {

/// The largest number of keys for which the number of cells fits in 32 bits.
pub const MAX_KEYS: usize = 3817515690;

/// The longest segment that a map is built with.
pub const MAX_SEGMENT_LENGTH: u32 = 262144;

/// From this number of keys on, a map needs nine cells for every eight keys.
pub const LARGE_SIZE: u32 = 1000000;

/// `log(size) / log(3.33) + 2.25` is at least `exponent`, for `exponent >= 3`: both sides of
/// `3.33^(exponent - 2.25) <= size` are raised to the fourth power.
pub open spec fn reaches(size: int, exponent: nat) -> bool {
    pow(333, (4 * exponent - 9) as nat) <= size * size * size * size * pow(
        100,
        (4 * exponent - 9) as nat,
    )
}

/// `exponent` is `log(size) / log(3.33) + 2.25`, rounded down, for `size >= 1`.
pub open spec fn is_segment_exponent(size: u32, exponent: u32) -> bool {
    &&& 2 <= exponent < 32
    &&& exponent == 2 || reaches(size as int, exponent as nat)
    &&& !reaches(size as int, (exponent + 1) as nat)
}

/// The base-two logarithm of the segment length that suits `size` keys.
pub open spec fn segment_exponent(size: u32) -> u32 {
    choose|exponent: u32| is_segment_exponent(size, exponent)
}

/// The segment length that suits `size` keys.
pub open spec fn segment_length(size: u32) -> u32 {
    if size == 0 {
        4
    } else {
        1u32 << segment_exponent(size)
    }
}

/// The segment length that a map of `size` keys is built with.
pub open spec fn capped_segment_length(size: u32) -> u32 {
    if segment_length(size) > MAX_SEGMENT_LENGTH {
        MAX_SEGMENT_LENGTH
    } else {
        segment_length(size)
    }
}

proof fn lemma_product_ordered(a: int, b: int)
    requires
        0 <= a <= b,
    ensures
        a * a * a * a <= b * b * b * b,
{
    assert(a * a <= b * b) by (nonlinear_arith)
        requires
            0 <= a <= b,
    ;
    let (c, d) = (a * a, b * b);
    assert(0 <= c) by (nonlinear_arith)
        requires
            c == a * a,
    ;
    assert(c * c <= d * d) by (nonlinear_arith)
        requires
            0 <= c <= d,
    ;
    assert(a * a * a * a == c * c) by (nonlinear_arith)
        requires
            c == a * a,
    ;
    assert(b * b * b * b == d * d) by (nonlinear_arith)
        requires
            d == b * b,
    ;
}

proof fn lemma_next_powers(p: nat, a: int, b: int)
    requires
        pow(333, p) == a,
        pow(100, p) == b,
    ensures
        pow(333, p + 4) == a * 12296370321,
        pow(100, p + 4) == b * 100000000,
{
    lemma_pow_adds(333, p, 4);
    lemma_pow_adds(100, p, 4);
    assert(pow(333, 4) == 12296370321 && pow(100, 4) == 100000000) by {
        reveal_with_fuel(pow, 5);
    }
}

/// Where `threshold` is the least size that reaches `exponent`, a size reaches it exactly from
/// there on.
proof fn lemma_threshold(exponent: nat, a: int, b: int, threshold: int)
    requires
        exponent >= 3,
        threshold >= 1,
        b > 0,
        pow(333, (4 * exponent - 9) as nat) == a,
        pow(100, (4 * exponent - 9) as nat) == b,
        a <= threshold * threshold * threshold * threshold * b,
        (threshold - 1) * (threshold - 1) * (threshold - 1) * (threshold - 1) * b < a,
    ensures
        forall|size: int| size >= 0 ==> (#[trigger] reaches(size, exponent) <==> size >= threshold),
{
    assert forall|size: int| size >= 0 implies (#[trigger] reaches(size, exponent) <==> size
        >= threshold) by {
        let t = threshold - 1;
        let s4 = size * size * size * size;
        if size >= threshold {
            lemma_product_ordered(threshold, size);
            let t4 = threshold * threshold * threshold * threshold;
            assert(t4 * b <= s4 * b) by (nonlinear_arith)
                requires
                    t4 <= s4,
                    b > 0,
            ;
        } else {
            lemma_product_ordered(size, t);
            let t4 = t * t * t * t;
            assert(s4 * b <= t4 * b) by (nonlinear_arith)
                requires
                    s4 <= t4,
                    b > 0,
            ;
        }
    }
}

/// A size that reaches an exponent reaches the one before.
proof fn lemma_reaches_before(size: int, exponent: nat)
    requires
        exponent >= 3,
        size >= 0,
        reaches(size, exponent + 1),
    ensures
        reaches(size, exponent),
{
    let p = (4 * exponent - 9) as nat;
    let (a, b) = (pow(333, p), pow(100, p));
    lemma_next_powers(p, a, b);
    lemma_pow_positive(100, p);
    lemma_product_ordered(0, size);
    let s = size * size * size * size;
    assert((4 * (exponent + 1) - 9) as nat == p + 4);
    assert(a <= s * b) by (nonlinear_arith)
        requires
            a * 12296370321 <= s * (b * 100000000),
            s >= 0,
            b > 0,
    ;
}

proof fn lemma_reaches_below(size: int, low: nat, high: nat)
    requires
        3 <= low <= high,
        size >= 0,
        reaches(size, high),
    ensures
        reaches(size, low),
    decreases high,
{
    if low < high {
        lemma_reaches_before(size, (high - 1) as nat);
        lemma_reaches_below(size, low, (high - 1) as nat);
    }
}

/// At most one number is the segment exponent of a size.
proof fn lemma_segment_exponent_unique(size: u32, exponent: u32)
    requires
        is_segment_exponent(size, exponent),
    ensures
        segment_exponent(size) == exponent,
{
    let other = segment_exponent(size);
    assert(is_segment_exponent(size, other));
    if other < exponent {
        lemma_reaches_below(size as int, (other + 1) as nat, exponent as nat);
    }
    if exponent < other {
        lemma_reaches_below(size as int, (exponent + 1) as nat, other as nat);
    }
}

/// The sizes at which the segment exponent grows.
#[verifier::spinoff_prover]
proof fn lemma_thresholds()
    ensures
        forall|size: int| size >= 0 ==> (#[trigger] reaches(size, 3) <==> size >= 3),
        forall|size: int| size >= 0 ==> (#[trigger] reaches(size, 4) <==> size >= 9),
        forall|size: int| size >= 0 ==> (#[trigger] reaches(size, 5) <==> size >= 28),
        forall|size: int| size >= 0 ==> (#[trigger] reaches(size, 6) <==> size >= 92),
        forall|size: int| size >= 0 ==> (#[trigger] reaches(size, 7) <==> size >= 304),
        forall|size: int| size >= 0 ==> (#[trigger] reaches(size, 8) <==> size >= 1010),
        forall|size: int| size >= 0 ==> (#[trigger] reaches(size, 9) <==> size >= 3362),
        forall|size: int| size >= 0 ==> (#[trigger] reaches(size, 10) <==> size >= 11193),
        forall|size: int| size >= 0 ==> (#[trigger] reaches(size, 11) <==> size >= 37273),
        forall|size: int| size >= 0 ==> (#[trigger] reaches(size, 12) <==> size >= 124118),
        forall|size: int| size >= 0 ==> (#[trigger] reaches(size, 13) <==> size >= 413310),
        forall|size: int| size >= 0 ==> (#[trigger] reaches(size, 14) <==> size >= 1376322),
        forall|size: int| size >= 0 ==> (#[trigger] reaches(size, 15) <==> size >= 4583150),
        forall|size: int| size >= 0 ==> (#[trigger] reaches(size, 16) <==> size >= 15261887),
        forall|size: int| size >= 0 ==> (#[trigger] reaches(size, 17) <==> size >= 50822082),
        forall|size: int| size >= 0 ==> (#[trigger] reaches(size, 18) <==> size >= 169237530),
        forall|size: int| size >= 0 ==> (#[trigger] reaches(size, 19) <==> size >= 563560975),
        forall|size: int| size >= 0 ==> (#[trigger] reaches(size, 20) <==> size >= 1876658045),
        forall|size: int| 0 <= size <= u32::MAX ==> !#[trigger] reaches(size, 21),
{
    let (a3, b3): (int, int) = (36926037, 1000000);
    assert(pow(333, 3) == a3 && pow(100, 3) == b3) by {
        reveal_with_fuel(pow, 4);
    }
    lemma_threshold(3, a3, b3, 3);
    lemma_next_powers(3, a3, b3);
    let (a4, b4): (int, int) = (a3 * 12296370321, b3 * 100000000);
    lemma_threshold(4, a4, b4, 9);
    lemma_next_powers(7, a4, b4);
    let (a5, b5): (int, int) = (a4 * 12296370321, b4 * 100000000);
    lemma_threshold(5, a5, b5, 28);
    lemma_next_powers(11, a5, b5);
    let (a6, b6): (int, int) = (a5 * 12296370321, b5 * 100000000);
    lemma_threshold(6, a6, b6, 92);
    lemma_next_powers(15, a6, b6);
    let (a7, b7): (int, int) = (a6 * 12296370321, b6 * 100000000);
    lemma_threshold(7, a7, b7, 304);
    lemma_next_powers(19, a7, b7);
    let (a8, b8): (int, int) = (a7 * 12296370321, b7 * 100000000);
    lemma_threshold(8, a8, b8, 1010);
    lemma_next_powers(23, a8, b8);
    let (a9, b9): (int, int) = (a8 * 12296370321, b8 * 100000000);
    lemma_threshold(9, a9, b9, 3362);
    lemma_next_powers(27, a9, b9);
    let (a10, b10): (int, int) = (a9 * 12296370321, b9 * 100000000);
    lemma_threshold(10, a10, b10, 11193);
    lemma_next_powers(31, a10, b10);
    let (a11, b11): (int, int) = (a10 * 12296370321, b10 * 100000000);
    lemma_threshold(11, a11, b11, 37273);
    lemma_next_powers(35, a11, b11);
    let (a12, b12): (int, int) = (a11 * 12296370321, b11 * 100000000);
    lemma_threshold(12, a12, b12, 124118);
    lemma_next_powers(39, a12, b12);
    let (a13, b13): (int, int) = (a12 * 12296370321, b12 * 100000000);
    lemma_threshold(13, a13, b13, 413310);
    lemma_next_powers(43, a13, b13);
    let (a14, b14): (int, int) = (a13 * 12296370321, b13 * 100000000);
    lemma_threshold(14, a14, b14, 1376322);
    lemma_next_powers(47, a14, b14);
    let (a15, b15): (int, int) = (a14 * 12296370321, b14 * 100000000);
    lemma_threshold(15, a15, b15, 4583150);
    lemma_next_powers(51, a15, b15);
    let (a16, b16): (int, int) = (a15 * 12296370321, b15 * 100000000);
    lemma_threshold(16, a16, b16, 15261887);
    lemma_next_powers(55, a16, b16);
    let (a17, b17): (int, int) = (a16 * 12296370321, b16 * 100000000);
    lemma_threshold(17, a17, b17, 50822082);
    lemma_next_powers(59, a17, b17);
    let (a18, b18): (int, int) = (a17 * 12296370321, b17 * 100000000);
    lemma_threshold(18, a18, b18, 169237530);
    lemma_next_powers(63, a18, b18);
    let (a19, b19): (int, int) = (a18 * 12296370321, b18 * 100000000);
    lemma_threshold(19, a19, b19, 563560975);
    lemma_next_powers(67, a19, b19);
    let (a20, b20): (int, int) = (a19 * 12296370321, b19 * 100000000);
    lemma_threshold(20, a20, b20, 1876658045);
    lemma_next_powers(71, a20, b20);
    let (a21, b21): (int, int) = (a20 * 12296370321, b20 * 100000000);
    lemma_threshold(21, a21, b21, 6249271288);
}

proof fn lemma_segment_exponent_from(size: u32, top: u32)
    requires
        2 <= top <= 20,
        !reaches(size as int, (top + 1) as nat),
    ensures
        is_segment_exponent(size, segment_exponent(size)),
        segment_exponent(size) <= 20,
    decreases top,
{
    if top == 2 || reaches(size as int, top as nat) {
        assert(is_segment_exponent(size, top));
        lemma_segment_exponent_unique(size, top);
    } else {
        lemma_segment_exponent_from(size, (top - 1) as u32);
    }
}

/// Every size has a segment exponent.
pub proof fn lemma_segment_exponent(size: u32)
    ensures
        is_segment_exponent(size, segment_exponent(size)),
        segment_exponent(size) <= 20,
        size > 4 ==> segment_exponent(size) >= 3,
        size < LARGE_SIZE ==> segment_exponent(size) <= 13,
{
    lemma_thresholds();
    lemma_segment_exponent_from(size, 20);
    if size < LARGE_SIZE && segment_exponent(size) >= 14 {
        lemma_reaches_below(size as int, 14, segment_exponent(size) as nat);
    }
}

/// The greatest segment exponent.
pub proof fn lemma_segment_exponent_of_many(size: u32)
    requires
        size >= 1876658045,
    ensures
        segment_exponent(size) == 20,
{
    lemma_thresholds();
    assert(reaches(size as int, 20));
    assert(!reaches(size as int, 21));
    assert(is_segment_exponent(size, 20));
    lemma_segment_exponent_unique(size, 20);
}

/// The segment length that suits `size` keys: 2 to the power of
/// `log(size) / log(3.33) + 2.25`, rounded down.
pub fn calculate_segment_length(size: u32) -> (r: u32)
    ensures
        r == segment_length(size),
{
    if size == 0 {
        return 4;
    }
    let exponent: u32 = if size < 3 {
        2
    } else if size < 9 {
        3
    } else if size < 28 {
        4
    } else if size < 92 {
        5
    } else if size < 304 {
        6
    } else if size < 1010 {
        7
    } else if size < 3362 {
        8
    } else if size < 11193 {
        9
    } else if size < 37273 {
        10
    } else if size < 124118 {
        11
    } else if size < 413310 {
        12
    } else if size < 1376322 {
        13
    } else if size < 4583150 {
        14
    } else if size < 15261887 {
        15
    } else if size < 50822082 {
        16
    } else if size < 169237530 {
        17
    } else if size < 563560975 {
        18
    } else if size < 1876658045 {
        19
    } else {
        20
    };
    proof {
        lemma_thresholds();
        assert(is_segment_exponent(size, exponent));
        lemma_segment_exponent_unique(size, exponent);
    }
    1u32 << exponent
}

/// `size * (0.875 + 0.25 * log(1000000) / log(size))`, rounded to the nearest integer, is at least
/// `cells`, for `size >= 2`: with the half that rounding adds taken to the other side, both sides
/// are multiplied by `8 * log(size)`, and stand here as exponents.
pub open spec fn needs(size: int, cells: int) -> bool {
    let excess = 8 * cells - 4 - 7 * size;
    excess <= 0 || pow(size, excess as nat) <= pow(10, (12 * size) as nat)
}

/// `size * (0.875 + 0.25 * log(1000000) / log(size))`, rounded to the nearest integer, is `cells`,
/// for `size >= 2`.
pub open spec fn is_small_capacity(size: int, cells: int) -> bool {
    needs(size, cells) && !needs(size, cells + 1)
}

/// `1.125 * size`, rounded to the nearest integer.
pub open spec fn large_capacity(size: int) -> int {
    (9 * size + 4) / 8
}

/// The number of cells that `size` keys need: `size` times
/// `max(1.125, 0.875 + 0.25 * log(1000000) / log(size))`, rounded to the nearest integer.
pub open spec fn capacity(size: u32) -> int {
    if size <= 1 {
        0
    } else {
        let small = choose|cells: int| is_small_capacity(size as int, cells);
        if small < large_capacity(size as int) {
            large_capacity(size as int)
        } else {
            small
        }
    }
}

/// The number of segments that a map of `size` keys gets, three at least.
pub open spec fn total_segments(size: u32) -> int {
    let length = capped_segment_length(size) as int;
    let total = (capacity(size) + length - 1) / length;
    if total < 3 {
        3
    } else {
        total
    }
}

/// The geometry that a map of `size` keys starts with.
pub open spec fn initial_geometry(size: u32) -> Geometry {
    Geometry::of(capped_segment_length(size), (total_segments(size) - 2) as u32)
}

/// The number of cells of a map of `size` keys.
pub open spec fn cell_count(size: u32) -> int {
    total_segments(size) * capped_segment_length(size)
}

proof fn lemma_powers_of_two(e: u32)
    by (bit_vector)
    requires
        2 <= e <= 20,
    ensures
        4 <= (1u32 << e) <= 1048576,
        e >= 3 ==> (1u32 << e) >= 8,
        e <= 13 ==> (1u32 << e) <= 8192,
        (1u32 << 18u32) == 262144,
{
}

/// Keys that need some cells need fewer.
proof fn lemma_needs_fewer(size: int, fewer: int, cells: int)
    requires
        size >= 2,
        fewer <= cells,
        needs(size, cells),
    ensures
        needs(size, fewer),
{
    let (a, b) = (8 * fewer - 4 - 7 * size, 8 * cells - 4 - 7 * size);
    if a > 0 {
        lemma_pow_increases(size as nat, a as nat, b as nat);
    }
}

/// No keys need more than seven cells each.
proof fn lemma_needs_bounded(size: int, cells: int)
    requires
        size >= 2,
        needs(size, cells),
    ensures
        cells <= 7 * size,
{
    let excess = 8 * cells - 4 - 7 * size;
    if excess > 48 * size {
        let b = (12 * size) as nat;
        assert(pow(2, 4) == 16) by {
            reveal_with_fuel(pow, 5);
        }
        logarithm::lemma_base_ordered(10, 16, b);
        lemma_pow_multiplies(2, 4, b);
        logarithm::lemma_base_ordered(2, size, excess as nat);
        lemma_pow_strictly_increases(2, 4 * b, excess as nat);
    }
}

proof fn lemma_small_capacity_from(size: int, top: int)
    requires
        size >= 2,
        top >= 0,
        !needs(size, top + 1),
    ensures
        exists|cells: int| 0 <= cells && #[trigger] is_small_capacity(size, cells),
    decreases top,
{
    if needs(size, top) {
        assert(is_small_capacity(size, top));
    } else {
        lemma_small_capacity_from(size, top - 1);
    }
}

/// Fewer than `LARGE_SIZE` keys need nine cells for every eight keys at least.
proof fn lemma_needs_large_capacity(size: int)
    requires
        2 <= size <= LARGE_SIZE,
    ensures
        needs(size, large_capacity(size)),
{
    let excess = 8 * large_capacity(size) - 4 - 7 * size;
    if excess > 0 {
        lemma_million();
        lemma_pow_increases(size as nat, excess as nat, (2 * size) as nat);
        logarithm::lemma_base_ordered(size, 1000000, (2 * size) as nat);
        lemma_pow_multiplies(10, 6, (2 * size) as nat);
    }
}

/// From `LARGE_SIZE` keys on, they need nine cells for every eight keys at most.
proof fn lemma_needs_no_more(size: int, cells: int)
    requires
        size >= LARGE_SIZE,
        needs(size, cells),
    ensures
        cells <= large_capacity(size),
{
    let excess = 8 * cells - 4 - 7 * size;
    if excess > 2 * size {
        lemma_million();
        logarithm::lemma_base_ordered(1000000, size, excess as nat);
        lemma_pow_multiplies(10, 6, excess as nat);
        lemma_pow_strictly_increases(10, (12 * size) as nat, (6 * excess) as nat);
    }
}

proof fn lemma_million()
    ensures
        pow(10, 6) == 1000000,
{
    reveal_with_fuel(pow, 7);
}

/// Every number of keys needs one number of cells. Up to `LARGE_SIZE` keys it is the logarithm
/// that counts, and from there on it is nine cells for every eight keys.
pub proof fn lemma_capacity(size: u32)
    requires
        size >= 2,
    ensures
        size <= LARGE_SIZE ==> forall|cells: int|
            #[trigger] needs(size as int, cells) <==> cells <= capacity(size),
        size >= LARGE_SIZE ==> capacity(size) == large_capacity(size as int),
        large_capacity(size as int) <= capacity(size) <= 7 * size,
{
    let s = size as int;
    if needs(s, 7 * s + 1) {
        lemma_needs_bounded(s, 7 * s + 1);
    }
    lemma_small_capacity_from(s, 7 * s);
    let small = choose|cells: int| is_small_capacity(s, cells);
    assert(is_small_capacity(s, small));
    lemma_needs_bounded(s, small);
    if size >= LARGE_SIZE {
        lemma_needs_no_more(s, small);
    }
    if size <= LARGE_SIZE {
        lemma_needs_large_capacity(s);
        if small < large_capacity(s) {
            lemma_needs_fewer(s, small + 1, large_capacity(s));
        }
        assert forall|cells: int| #[trigger] needs(s, cells) <==> cells <= capacity(size) by {
            if cells <= small {
                lemma_needs_fewer(s, cells, small);
            } else if needs(s, cells) {
                lemma_needs_fewer(s, small + 1, cells);
            }
        }
    }
}

/// The initial geometry divides the cells of the map.
pub proof fn lemma_initial_geometry(size: u32)
    requires
        size <= MAX_KEYS,
    ensures
        initial_geometry(size).divides(cell_count(size)),
        3 <= total_segments(size),
        4 <= capped_segment_length(size) <= MAX_SEGMENT_LENGTH,
        4 < size ==> capped_segment_length(size) >= 8,
        size < LARGE_SIZE ==> total_segments(size) <= 0x40_0000,
        0 <= capacity(size),
        capacity(size) + capped_segment_length(size) <= u32::MAX,
        cell_count(size) <= u32::MAX,
        segment_length(size) >= 4,
        size < LARGE_SIZE ==> segment_length(size) <= 8192,
{
    lemma_segment_exponent(size);
    lemma_powers_of_two(segment_exponent(size));
    if size >= 2 {
        lemma_capacity(size);
    }
    let length = capped_segment_length(size);
    let total = total_segments(size);
    assert(crate::geometry::is_power_of_two(length)) by {
        if size == 0 {
            assert(4u32 == 1u32 << 2u32) by (bit_vector);
        } else if segment_length(size) > MAX_SEGMENT_LENGTH {
            assert(length == 1u32 << 18u32);
        } else {
            assert(length == 1u32 << segment_exponent(size));
        }
    }
    let needed = capacity(size) + length - 1;
    assert((needed / length as int) * length <= needed && needed / length as int <= needed)
        by (nonlinear_arith)
        requires
            length > 0,
            needed >= 0,
    ;
    if size < LARGE_SIZE {
        assert(needed / length as int <= 0x40_0000) by (nonlinear_arith)
            requires
                length >= 4,
                0 <= needed <= 0x100_0000,
        ;
    } else {
        assert(needed / length as int >= 3) by (nonlinear_arith)
            requires
                4 <= length <= 262144,
                needed >= 1125000 + length - 1,
        ;
    }
    assert((total - 2) * length <= total * length) by (nonlinear_arith)
        requires
            length >= 0,
    ;
    assert(total <= total * length) by (nonlinear_arith)
        requires
            length >= 1,
            total >= 0,
    ;
    let count = (total - 2) as u32;
    assert((count as nat * length as nat) % 0x1_0000_0000 == count * length) by {
        vstd::arithmetic::div_mod::lemma_small_mod((count * length) as nat, 0x1_0000_0000);
    }
}

/// The number of segments of `length` cells that hold the cells that `size` keys need.
fn count_segments(size: u32, length: u32) -> (r: u32)
    requires
        2 <= size < LARGE_SIZE,
        4 <= length <= 8192,
    ensures
        r == (capacity(size) + length - 1) / length as int,
{
    let size_log: Log = log(size);
    let ten_log: Log = log(10);
    let mut total: u32 = 0;
    proof {
        lemma_capacity(size);
    }
    loop
        invariant
            2 <= size < LARGE_SIZE,
            4 <= length <= 8192,
            size_log.encloses(size as int),
            ten_log.encloses(10),
            0 <= capacity(size) <= 7 * size,
            forall|cells: int|
                #[trigger] needs(size as int, cells) <==> cells <= capacity(size),
            total * length <= capacity(size) + length - 1,
        ensures
            capacity(size) <= total * length <= capacity(size) + length - 1,
        decreases capacity(size) - total,
    {
        assert(0 <= total <= total * length) by (nonlinear_arith)
            requires
                length >= 1,
        ;
        let cells: u64 = total as u64 * length as u64 + 1;
        let least: u64 = 7 * size as u64 + 4;
        assert(needs(size as int, cells as int) <==> cells <= capacity(size));
        if 8 * cells > least && !power_at_most(
            size,
            8 * cells - least,
            &size_log,
            10,
            12 * size as u64,
            &ten_log,
        ) {
            break;
        }
        assert((total + 1) * length == total * length + length) by (nonlinear_arith);
        total = total + 1;
    }
    proof {
        let (c, t, l) = (capacity(size), total as int, length as int);
        assert((c + l - 1) / l == t) by (nonlinear_arith)
            requires
                l > 0,
                c <= t * l <= c + l - 1,
        ;
    }
    total
}

impl Geometry {
    /// The geometry that a map of `size` keys starts with.
    pub fn initialize_parameters(size: u32) -> (g: Geometry)
        requires
            size <= MAX_KEYS,
        ensures
            g == initial_geometry(size),
            g.divides(cell_count(size)),
    {
        proof {
            lemma_initial_geometry(size);
        }
        let mut length: u32 = calculate_segment_length(size);
        if length > MAX_SEGMENT_LENGTH {
            length = MAX_SEGMENT_LENGTH;
        }
        let mut total: u32 = if size <= 1 {
            (length - 1) / length
        } else if size < LARGE_SIZE {
            count_segments(size, length)
        } else {
            proof {
                lemma_capacity(size);
            }
            let cells: u32 = ((9 * size as u64 + 4) / 8) as u32;
            (cells + length - 1) / length
        };
        if total < 3 {
            total = 3;
        }
        let count: u32 = total - 2;
        Geometry {
            segment_length: length,
            segment_length_mask: length - 1,
            segment_count: count,
            segment_count_length: count * length,
        }
    }
}

} // verus!
