//! Comparing powers by the logarithms of their bases.

use vstd::prelude::*;
#[allow(unused_imports)]
use vstd::arithmetic::power::*;

use crate::natural::{at_most, power};

verus! {

/// How many times the number is squared whose binary logarithm is enclosed: once for every binary
/// digit of the logarithm behind the point.
pub const FRACTION_BITS: u32 = 40;

/// The largest factor that is kept of a power.
const FACTOR_LIMIT: u128 = 0x4000_0000_0000_0000;

/// What the logarithm is multiplied by.
pub open spec fn scale() -> nat {
    pow(2, FRACTION_BITS as nat) as nat
}

/// Bounds on the binary logarithm of a number, multiplied by `scale()`.
#[derive(Clone, Copy, Debug)]
pub struct Log {
    pub low: u64,
    pub high: u64,
}

impl Log {
    /// The binary logarithm of `x` lies within the bounds.
    pub open spec fn encloses(self, x: int) -> bool {
        pow(2, self.low as nat) <= pow(x, scale()) <= pow(2, self.high as nat)
    }
}

/// A greater base makes a greater power.
pub proof fn lemma_base_ordered(a: int, b: int, e: nat)
    requires
        0 <= a <= b,
    ensures
        0 <= pow(a, e) <= pow(b, e),
        a < b && e > 0 ==> pow(a, e) < pow(b, e),
    decreases e,
{
    reveal(pow);
    if e > 0 {
        let p = (e - 1) as nat;
        lemma_base_ordered(a, b, p);
        if b > 0 {
            lemma_pow_positive(b, p);
        }
        let (x, y) = (pow(a, p), pow(b, p));
        assert(0 <= a * x <= b * y) by (nonlinear_arith)
            requires
                0 <= a <= b,
                0 <= x <= y,
        ;
        if a < b {
            assert(a * x < b * y) by (nonlinear_arith)
                requires
                    0 <= a < b,
                    0 <= x <= y,
                    0 < y,
            ;
        }
    }
}

/// Where the logarithm of one power is no greater than that of the other, neither is the power.
proof fn lemma_at_most(x: int, a: nat, x_log: Log, y: int, b: nat, y_log: Log)
    requires
        x >= 1,
        y >= 1,
        x_log.encloses(x),
        y_log.encloses(y),
        a * x_log.high <= b * y_log.low,
    ensures
        pow(x, a) <= pow(y, b),
{
    let k = scale();
    lemma_pow_positive(2, FRACTION_BITS as nat);
    lemma_pow_positive(x, k);
    lemma_pow_positive(x, a);
    lemma_pow_positive(y, b);
    lemma_pow_multiplies(x, a, k);
    lemma_pow_multiplies(x, k, a);
    lemma_pow_multiplies(y, b, k);
    lemma_pow_multiplies(y, k, b);
    lemma_pow_multiplies(2, x_log.high as nat, a);
    lemma_pow_multiplies(2, y_log.low as nat, b);
    lemma_pow_positive(2, y_log.low as nat);
    lemma_base_ordered(pow(x, k), pow(2, x_log.high as nat), a);
    lemma_base_ordered(pow(2, y_log.low as nat), pow(y, k), b);
    assert(a * k == k * a && b * k == k * b) by (nonlinear_arith);
    assert(x_log.high * a == a * x_log.high && y_log.low * b == b * y_log.low)
        by (nonlinear_arith);
    lemma_pow_increases(2, x_log.high as nat * a, y_log.low as nat * b);
    if pow(x, a) > pow(y, b) {
        lemma_base_ordered(pow(y, b), pow(x, a), k);
    }
}

/// Where the logarithm of one power is greater than that of the other, so is the power.
proof fn lemma_exceeds(x: int, a: nat, x_log: Log, y: int, b: nat, y_log: Log)
    requires
        x >= 1,
        y >= 1,
        x_log.encloses(x),
        y_log.encloses(y),
        a * x_log.low > b * y_log.high,
    ensures
        pow(x, a) > pow(y, b),
{
    let k = scale();
    lemma_pow_positive(2, FRACTION_BITS as nat);
    lemma_pow_positive(y, k);
    lemma_pow_positive(x, a);
    lemma_pow_positive(y, b);
    lemma_pow_multiplies(x, a, k);
    lemma_pow_multiplies(x, k, a);
    lemma_pow_multiplies(y, b, k);
    lemma_pow_multiplies(y, k, b);
    lemma_pow_multiplies(2, x_log.low as nat, a);
    lemma_pow_multiplies(2, y_log.high as nat, b);
    lemma_pow_positive(2, x_log.low as nat);
    lemma_base_ordered(pow(2, x_log.low as nat), pow(x, k), a);
    lemma_base_ordered(pow(y, k), pow(2, y_log.high as nat), b);
    assert(a * k == k * a && b * k == k * b) by (nonlinear_arith);
    assert(x_log.low * a == a * x_log.low && y_log.high * b == b * y_log.high)
        by (nonlinear_arith);
    lemma_pow_strictly_increases(2, y_log.high as nat * b, x_log.low as nat * a);
    if pow(x, a) <= pow(y, b) {
        lemma_base_ordered(pow(x, a), pow(y, b), k);
    }
}

/// The bounds on the square of a number, of which so many factors of two are taken out that the
/// greater factor is within `FACTOR_LIMIT`.
proof fn lemma_squared(x: int, n: nat, low: int, high: int, e: nat, low2: int, high2: int, s: nat)
    requires
        x >= 1,
        0 <= low,
        low * pow(2, e) <= pow(x, n) <= high * pow(2, e),
        low2 * pow(2, s) <= low * low,
        high * high <= high2 * pow(2, s),
    ensures
        low2 * pow(2, 2 * e + s) <= pow(x, 2 * n) <= high2 * pow(2, 2 * e + s),
{
    let (p, d, v) = (pow(2, e), pow(2, s), pow(x, n));
    lemma_pow_adds(x, n, n);
    lemma_pow_adds(2, e, e);
    lemma_pow_adds(2, 2 * e, s);
    lemma_pow_positive(2, e);
    lemma_pow_positive(x, n);
    let p2 = pow(2, 2 * e);
    assert(p2 == p * p && pow(x, 2 * n) == v * v);
    assert((low * p) * (low * p) <= v * v) by (nonlinear_arith)
        requires
            0 <= low,
            0 < p,
            low * p <= v,
    ;
    assert(v * v <= (high * p) * (high * p)) by (nonlinear_arith)
        requires
            0 < v,
            v <= high * p,
    ;
    assert(low2 * (p2 * d) <= (low * p) * (low * p)) by (nonlinear_arith)
        requires
            low2 * d <= low * low,
            p2 == p * p,
            p > 0,
    ;
    assert((high * p) * (high * p) <= high2 * (p2 * d)) by (nonlinear_arith)
        requires
            high * high <= high2 * d,
            p2 == p * p,
            p > 0,
    ;
}

/// Powers of two that are used as numbers.
proof fn lemma_sixty()
    ensures
        pow(2, 40) == 0x100_0000_0000,
        pow(2, 60) == 0x1000_0000_0000_0000,
        pow(2, 62) == 0x4000_0000_0000_0000,
{
    reveal_with_fuel(pow, 21);
    assert(pow(2, 20) == 0x10_0000);
    lemma_pow_adds(2, 20, 20);
    lemma_pow_adds(2, 40, 20);
    lemma_pow_adds(2, 60, 2);
    assert(pow(2, 2) == 4);
}

/// A number of factors of two, and their product, that bring `square` within `FACTOR_LIMIT` when
/// they are taken out.
fn shift_for(square: u128) -> (r: (u32, u128))
    requires
        square <= 0x1000_0000_0000_0000_0000_0000_0000_0000,
    ensures
        r.0 <= 62,
        r.1 == pow(2, r.0 as nat),
        0 < r.1 <= FACTOR_LIMIT,
        square <= FACTOR_LIMIT * r.1,
{
    let mut s: u32 = 0;
    let mut d: u128 = 1;
    let mut most: u128 = FACTOR_LIMIT;
    proof {
        lemma_pow0(2);
    }
    if square > 0x0400_0000_0000_0000_0000_0000_0000_0000 {
        s = 60;
        d = 0x1000_0000_0000_0000;
        most = 0x0400_0000_0000_0000_0000_0000_0000_0000;
        proof {
            lemma_sixty();
        }
    }
    while square > most
        invariant
            square <= 0x1000_0000_0000_0000_0000_0000_0000_0000,
            s <= 62,
            d == pow(2, s as nat),
            most == FACTOR_LIMIT * d,
            d > 0,
        decreases 62 - s,
    {
        proof {
            if s == 62 {
                lemma_sixty();
            }
            reveal(pow);
            lemma_pow_increases(2, (s + 1) as nat, 62);
            lemma_sixty();
        }
        s = s + 1;
        d = d * 2;
        most = most * 2;
    }
    proof {
        lemma_sixty();
        lemma_pow_increases(2, s as nat, 62);
    }
    (s, d)
}

/// The greatest exponent of a power of two that is at most `x`.
fn floor_log(x: u128) -> (r: u32)
    requires
        1 <= x <= FACTOR_LIMIT,
    ensures
        pow(2, r as nat) <= x < pow(2, (r + 1) as nat),
        r <= 62,
{
    let mut r: u32 = 0;
    let mut p: u128 = 1;
    proof {
        lemma_pow0(2);
    }
    while p * 2 <= x
        invariant
            x <= FACTOR_LIMIT,
            r <= 62,
            p == pow(2, r as nat),
            p <= x,
        decreases 62 - r,
    {
        proof {
            reveal(pow);
            lemma_sixty();
            if r == 62 {
                assert(p == FACTOR_LIMIT);
            }
        }
        p = p * 2;
        r = r + 1;
    }
    proof {
        reveal(pow);
    }
    r
}

/// The smallest exponent of a power of two that is at least `x`.
fn ceil_log(x: u128) -> (r: u32)
    requires
        x <= FACTOR_LIMIT,
    ensures
        x <= pow(2, r as nat),
        r > 0 ==> pow(2, (r - 1) as nat) < x,
        r <= 62,
{
    let mut r: u32 = 0;
    let mut p: u128 = 1;
    proof {
        lemma_pow0(2);
    }
    while p < x
        invariant
            x <= FACTOR_LIMIT,
            r <= 62,
            p == pow(2, r as nat),
            p > 0,
            r > 0 ==> pow(2, (r - 1) as nat) < x,
        decreases 62 - r,
    {
        proof {
            reveal(pow);
            lemma_sixty();
            if r == 62 {
                assert(p == FACTOR_LIMIT);
            }
        }
        p = p * 2;
        r = r + 1;
    }
    r
}

/// Bounds on the binary logarithm of `x`: `x` is squared over and over, and of the power only a
/// lower and an upper bound are kept, each a factor times the same power of two.
pub fn log(x: u32) -> (r: Log)
    requires
        x >= 1,
    ensures
        r.encloses(x as int),
{
    let mut low: u128 = x as u128;
    let mut high: u128 = x as u128;
    let mut e: u64 = 0;
    let mut j: u32 = 0;
    proof {
        lemma_pow0(2);
        lemma_pow1(x as int);
    }
    while j < FRACTION_BITS
        invariant
            x >= 1,
            j <= FRACTION_BITS,
            low <= high <= FACTOR_LIMIT,
            e + 62 <= 62 * pow(2, j as nat),
            low * pow(2, e as nat) <= pow(x as int, pow(2, j as nat) as nat) <= high * pow(
                2,
                e as nat,
            ),
        decreases FRACTION_BITS - j,
    {
        let ghost n = pow(2, j as nat) as nat;
        proof {
            lemma_sixty();
            lemma_pow_positive(2, j as nat);
            lemma_pow_increases(2, j as nat, FRACTION_BITS as nat);
            assert(high * high <= FACTOR_LIMIT * FACTOR_LIMIT && low * low <= high * high)
                by (nonlinear_arith)
                requires
                    0 <= low <= high <= FACTOR_LIMIT,
            ;
            assert(pow(2, (j + 1) as nat) == 2 * n) by {
                reveal(pow);
            }
        }
        let (s, d) = shift_for(high * high);
        let low2: u128 = low * low / d;
        let high2: u128 = (high * high + (d - 1)) / d;
        proof {
            let (sq, sq2) = ((low * low) as int, (high * high) as int);
            let dd = d as int;
            assert((sq / dd) * dd <= sq) by (nonlinear_arith)
                requires
                    dd > 0,
            ;
            assert(sq2 <= ((sq2 + (dd - 1)) / dd) * dd) by (nonlinear_arith)
                requires
                    dd > 0,
            ;
            assert((sq2 + (dd - 1)) / dd <= FACTOR_LIMIT) by (nonlinear_arith)
                requires
                    dd > 0,
                    sq2 <= FACTOR_LIMIT * dd,
            ;
            assert(sq / dd <= (sq2 + (dd - 1)) / dd) by (nonlinear_arith)
                requires
                    dd > 0,
                    sq <= sq2,
            ;
            lemma_squared(
                x as int,
                n,
                low as int,
                high as int,
                e as nat,
                low2 as int,
                high2 as int,
                s as nat,
            );
        }
        low = low2;
        high = high2;
        e = 2 * e + s as u64;
        j = j + 1;
    }
    proof {
        lemma_sixty();
    }
    let down: u64 = if low == 0 {
        0
    } else {
        e + floor_log(low) as u64
    };
    let up: u32 = ceil_log(high);
    proof {
        let p = pow(2, e as nat);
        lemma_pow_positive(2, e as nat);
        lemma_pow_positive(x as int, scale());
        if low == 0 {
            lemma_pow0(2);
        } else {
            let a = (down - e) as nat;
            lemma_pow_adds(2, e as nat, a);
            assert(p * pow(2, a) <= low * p) by (nonlinear_arith)
                requires
                    p > 0,
                    pow(2, a) <= low,
            ;
        }
        lemma_pow_adds(2, e as nat, up as nat);
        assert(high * p <= p * pow(2, up as nat)) by (nonlinear_arith)
            requires
                p > 0,
                high <= pow(2, up as nat),
        ;
    }
    Log { low: down, high: e + up as u64 }
}

/// Whether `x` to the power of `a` is at most `y` to the power of `b`.
///
/// The logarithms decide wherever their bounds do not overlap. Where they do, the powers
/// themselves are compared.
pub fn power_at_most(x: u32, a: u64, x_log: &Log, y: u32, b: u64, y_log: &Log) -> (r: bool)
    requires
        x >= 1,
        y >= 1,
        x_log.encloses(x as int),
        y_log.encloses(y as int),
    ensures
        r == (pow(x as int, a as nat) <= pow(y as int, b as nat)),
{
    proof {
        lemma_product_fits(a, x_log.high);
        lemma_product_fits(a, x_log.low);
        lemma_product_fits(b, y_log.high);
        lemma_product_fits(b, y_log.low);
    }
    if a as u128 * x_log.high as u128 <= b as u128 * y_log.low as u128 {
        proof {
            lemma_at_most(x as int, a as nat, *x_log, y as int, b as nat, *y_log);
        }
        return true;
    }
    if a as u128 * x_log.low as u128 > b as u128 * y_log.high as u128 {
        proof {
            lemma_exceeds(x as int, a as nat, *x_log, y as int, b as nat, *y_log);
        }
        return false;
    }
    at_most(&power(x, a), &power(y, b))
}

proof fn lemma_product_fits(a: u64, b: u64)
    ensures
        0 <= a * b <= u128::MAX,
{
    assert(0 <= a * b <= 0xffff_ffff_ffff_ffff * 0xffff_ffff_ffff_ffff) by (nonlinear_arith)
        requires
            a <= 0xffff_ffff_ffff_ffff,
            b <= 0xffff_ffff_ffff_ffff,
    ;
}

} // verus!
