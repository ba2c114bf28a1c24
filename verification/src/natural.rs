//! Natural numbers of any size.

use vstd::prelude::*;
#[allow(unused_imports)]
use vstd::arithmetic::power::*;

verus! {

/// What a digit is worth that of the one before it.
pub const BASE: u64 = 0x1_0000_0000;

/// The number of which `limbs` are the digits, the least significant first.
pub open spec fn value(limbs: Seq<u32>) -> int
    decreases limbs.len(),
{
    if limbs.len() == 0 {
        0
    } else {
        value(limbs.drop_last()) + limbs.last() * pow(BASE as int, (limbs.len() - 1) as nat)
    }
}

/// The number of the first `i` digits.
spec fn low(limbs: Seq<u32>, i: int) -> int {
    value(limbs.take(if i < limbs.len() {
        i
    } else {
        limbs.len() as int
    }))
}

/// The digit `i`.
spec fn limb(limbs: Seq<u32>, i: int) -> int {
    if i < limbs.len() {
        limbs[i] as int
    } else {
        0
    }
}

proof fn lemma_next_power(e: nat)
    ensures
        pow(BASE as int, e + 1) == BASE * pow(BASE as int, e),
        pow(BASE as int, e) > 0,
{
    reveal(pow);
    lemma_pow_positive(BASE as int, e);
}

/// One more digit, and what the digits so far can be worth.
proof fn lemma_low(limbs: Seq<u32>, i: int)
    requires
        0 <= i,
    ensures
        low(limbs, i + 1) == low(limbs, i) + limb(limbs, i) * pow(BASE as int, i as nat),
        0 <= low(limbs, i) < pow(BASE as int, i as nat),
    decreases i,
{
    if i < limbs.len() {
        assert(limbs.take(i + 1).drop_last() =~= limbs.take(i));
    }
    if i == 0 {
        assert(limbs.take(0) =~= Seq::empty());
        reveal(pow);
    } else {
        lemma_low(limbs, i - 1);
        lemma_next_power((i - 1) as nat);
        let (p, d, x) = (pow(BASE as int, (i - 1) as nat), limb(limbs, i - 1), low(limbs, i - 1));
        assert(0 <= x + d * p < BASE * p) by (nonlinear_arith)
            requires
                0 <= x < p,
                0 <= d < BASE,
        ;
    }
}

/// The product of the number and `factor`.
pub fn times(limbs: &Vec<u32>, factor: u32) -> (r: Vec<u32>)
    ensures
        value(r@) == value(limbs@) * factor,
{
    let mut out: Vec<u32> = Vec::new();
    let mut carry: u64 = 0;
    let mut i: usize = 0;
    proof {
        assert(limbs@.take(0) =~= Seq::empty());
    }
    while i < limbs.len()
        invariant
            i <= limbs.len(),
            out.len() == i,
            carry < BASE,
            value(out@) + carry * pow(BASE as int, i as nat) == value(limbs@.take(i as int))
                * factor,
        decreases limbs.len() - i,
    {
        let digit: u64 = limbs[i] as u64;
        assert(digit * factor <= 0xffff_ffff * 0xffff_ffff) by (nonlinear_arith)
            requires
                digit <= 0xffff_ffff,
                factor <= 0xffff_ffff,
        ;
        let product: u64 = digit * factor as u64 + carry;
        let kept: u32 = (product % BASE) as u32;
        proof {
            let p = pow(BASE as int, i as nat);
            let (before, sum) = (value(limbs@.take(i as int)), value(out@));
            lemma_next_power(i as nat);
            assert(limbs@.take(i + 1).drop_last() =~= limbs@.take(i as int));
            assert(out@.push(kept).drop_last() =~= out@);
            let next = (product / BASE) as int;
            assert(product == next * BASE + kept);
            assert((sum + kept * p) + next * (BASE * p) == (before + digit * p) * factor)
                by (nonlinear_arith)
                requires
                    sum + carry * p == before * factor,
                    digit * factor + carry == next * BASE + kept,
            ;
        }
        out.push(kept);
        carry = product / BASE;
        i = i + 1;
    }
    proof {
        assert(limbs@.take(i as int) =~= limbs@);
        assert(out@.push(carry as u32).drop_last() =~= out@);
    }
    out.push(carry as u32);
    out
}

/// `base` to the power of `exponent`.
pub fn power(base: u32, exponent: u64) -> (r: Vec<u32>)
    ensures
        value(r@) == pow(base as int, exponent as nat),
{
    let mut out: Vec<u32> = vec![1u32];
    let mut i: u64 = 0;
    proof {
        lemma_pow0(BASE as int);
        lemma_pow0(base as int);
        reveal_with_fuel(value, 2);
        assert(out@.drop_last() =~= Seq::empty());
    }
    while i < exponent
        invariant
            i <= exponent,
            value(out@) == pow(base as int, i as nat),
        decreases exponent - i,
    {
        proof {
            reveal(pow);
            assert(pow(base as int, i as nat) * base == base * pow(base as int, i as nat))
                by (nonlinear_arith);
        }
        out = times(&out, base);
        i = i + 1;
    }
    out
}

/// Whether the number `a` is at most the number `b`.
pub fn at_most(a: &Vec<u32>, b: &Vec<u32>) -> (r: bool)
    ensures
        r == (value(a@) <= value(b@)),
{
    let mut i: usize = if a.len() < b.len() {
        b.len()
    } else {
        a.len()
    };
    proof {
        assert(a@.take(a@.len() as int) =~= a@);
        assert(b@.take(b@.len() as int) =~= b@);
    }
    while i > 0
        invariant
            value(a@) - low(a@, i as int) == value(b@) - low(b@, i as int),
        decreases i,
    {
        i = i - 1;
        let x: u32 = if i < a.len() {
            a[i]
        } else {
            0
        };
        let y: u32 = if i < b.len() {
            b[i]
        } else {
            0
        };
        proof {
            lemma_low(a@, i as int);
            lemma_low(b@, i as int);
            let p = pow(BASE as int, i as nat);
            if x < y {
                assert(x * p + p <= y * p) by (nonlinear_arith)
                    requires
                        x + 1 <= y,
                        p > 0,
                ;
            } else if y < x {
                assert(y * p + p <= x * p) by (nonlinear_arith)
                    requires
                        y + 1 <= x,
                        p > 0,
                ;
            }
        }
        if x < y {
            return true;
        }
        if y < x {
            return false;
        }
    }
    proof {
        assert(a@.take(0) =~= Seq::empty());
        assert(b@.take(0) =~= Seq::empty());
    }
    true
}

} // verus!
