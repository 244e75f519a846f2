use vstd::prelude::*;

verus! {

use vstd::arithmetic::div_mod::{lemma_div_is_ordered, lemma_div_multiples_vanish, lemma_div_pos_is_pos};

/// One whole unit of the fixed-point encoding. Stored values carry six
/// decimal places, so `1_000_000` stands for the real value 1.0.
pub const UNIT: i64 = 1_000_000;

/// Largest magnitude accepted for an audio sample or a parameter value
/// (one million whole units), chosen so that a product with `UNIT`
/// still fits comfortably in an `i64`.
pub const SAMPLE_LIMIT: i64 = 1_000_000_000_000;

/// Largest argument accepted by `nth_root`, large enough for the ratio of
/// the two most extreme parameter values expressed in `UNIT` scale.
pub const ROOT_ARG_LIMIT: i64 = 1_000_000_000_000_000_000;

/// Absolute value of a mathematical integer.
pub open spec fn abs_val(x: int) -> int {
    if x < 0 {
        -x
    } else {
        x
    }
}

/// Truncated (round-toward-zero) division of a scaled product by `UNIT`,
/// written with Euclidean division on non-negative operands only.
pub open spec fn div_unit(n: int) -> int {
    if n >= 0 {
        n / (UNIT as int)
    } else {
        -((-n) / (UNIT as int))
    }
}

/// The truncated fixed-point power: start at `UNIT` (one) and multiply by
/// `r / UNIT` a total of `n` times, truncating after every step. This is
/// exactly the value an `n`-step multiplicative ramp with per-step ratio
/// `r` produces from a starting value of one unit.
pub open spec fn powt(r: int, n: nat) -> int
    decreases n,
{
    if n == 0 {
        UNIT as int
    } else {
        powt(r, (n - 1) as nat) * r / (UNIT as int)
    }
}

/// `r` is the integer `n`-th root of `x` in `UNIT` scale: the largest
/// ratio whose truncated `n`-step power still stays at or below `x`.
pub open spec fn is_nth_root(r: int, x: int, n: nat) -> bool {
    &&& 0 <= r
    &&& powt(r, n) <= x
    &&& x < powt(r + 1, n)
}

pub proof fn lemma_powt_nonneg(r: int, n: nat)
    requires
        0 <= r,
    ensures
        0 <= powt(r, n),
    decreases n,
{
    if n > 0 {
        lemma_powt_nonneg(r, (n - 1) as nat);
        let p = powt(r, (n - 1) as nat);
        assert(0 <= p * r) by (nonlinear_arith)
            requires
                0 <= p,
                0 <= r,
        ;
        lemma_div_pos_is_pos(p * r, UNIT as int);
    }
}

/// For a ratio at or below one unit the power never rises above one unit,
/// never goes negative, and after at least one step stays at or below the
/// ratio itself.
pub proof fn lemma_powt_shrinks(r: int, n: nat)
    requires
        0 <= r <= UNIT,
    ensures
        0 <= powt(r, n) <= UNIT,
        n >= 1 ==> powt(r, n) <= r,
    decreases n,
{
    if n > 0 {
        lemma_powt_shrinks(r, (n - 1) as nat);
        let p = powt(r, (n - 1) as nat);
        assert(p * r <= UNIT * r && 0 <= p * r) by (nonlinear_arith)
            requires
                0 <= p <= UNIT,
                0 <= r,
        ;
        lemma_div_is_ordered(p * r, UNIT * r, UNIT as int);
        lemma_div_multiples_vanish(r, UNIT as int);
        assert(UNIT * r / (UNIT as int) == r);
        lemma_div_pos_is_pos(p * r, UNIT as int);
        assert(powt(r, n) <= r);
        assert(r <= UNIT);
    }
}

/// The power of one unit is one unit: multiplying by one changes nothing.
pub proof fn lemma_powt_unit(n: nat)
    ensures
        powt(UNIT as int, n) == UNIT,
    decreases n,
{
    if n > 0 {
        lemma_powt_unit((n - 1) as nat);
        lemma_div_multiples_vanish(UNIT as int, UNIT as int);
    }
}

/// A zero ratio collapses the power to zero after the first step.
pub proof fn lemma_powt_zero(n: nat)
    requires
        n >= 1,
    ensures
        powt(0, n) == 0,
{
    let p = powt(0, (n - 1) as nat);
    assert(p * 0 == 0);
}

/// For a ratio at or above one unit the power never falls when the step
/// count grows, and after at least one step it is at or above the ratio.
pub proof fn lemma_powt_grows(r: int, n: nat)
    requires
        r >= UNIT,
    ensures
        powt(r, n) >= UNIT,
        n >= 1 ==> powt(r, n) >= powt(r, (n - 1) as nat) && powt(r, n) >= r,
    decreases n,
{
    if n > 0 {
        lemma_powt_grows(r, (n - 1) as nat);
        let p = powt(r, (n - 1) as nat);
        assert(p * UNIT <= p * r) by (nonlinear_arith)
            requires
                0 <= p,
                UNIT <= r,
        ;
        lemma_div_is_ordered(p * UNIT, p * r, UNIT as int);
        lemma_div_multiples_vanish(p, UNIT as int);
        assert(UNIT * p == p * UNIT) by (nonlinear_arith);
        assert(p * UNIT / (UNIT as int) == p);
        assert(powt(r, n) >= p);
        if n == 1 {
            lemma_div_multiples_vanish(r, UNIT as int);
            assert(powt(r, 0) * r == UNIT * r);
            assert(powt(r, 1) == r);
        }
    }
}

/// With a ratio at or above one unit the power only rises with the step
/// count.
pub proof fn lemma_powt_mono_steps(r: int, m: nat, n: nat)
    requires
        r >= UNIT,
        m <= n,
    ensures
        powt(r, m) <= powt(r, n),
    decreases n,
{
    if m < n {
        lemma_powt_mono_steps(r, m, (n - 1) as nat);
        lemma_powt_grows(r, n);
    }
}

/// The truncated power is monotone in the ratio.
pub proof fn lemma_powt_mono_ratio(r1: int, r2: int, n: nat)
    requires
        0 <= r1 <= r2,
    ensures
        powt(r1, n) <= powt(r2, n),
    decreases n,
{
    if n > 0 {
        lemma_powt_mono_ratio(r1, r2, (n - 1) as nat);
        lemma_powt_nonneg(r1, (n - 1) as nat);
        let p1 = powt(r1, (n - 1) as nat);
        let p2 = powt(r2, (n - 1) as nat);
        assert(p1 * r1 <= p2 * r2) by (nonlinear_arith)
            requires
                0 <= p1 <= p2,
                0 <= r1 <= r2,
        ;
        lemma_div_is_ordered(p1 * r1, p2 * r2, UNIT as int);
    }
}

/// Decides whether the truncated `n`-step power of `r` stays at or below
/// `x`, without ever materialising a value that overflows: as soon as the
/// accumulator passes `x` with a growing ratio the outcome is settled.
#[verifier::loop_isolation(false)]
pub fn pow_le(r: i64, n: u32, x: i64) -> (b: bool)
    requires
        0 <= r <= ROOT_ARG_LIMIT + 1,
        0 <= x <= ROOT_ARG_LIMIT,
    ensures
        b == (powt(r as int, n as nat) <= x as int),
{
    if r <= UNIT {
        let mut acc: i64 = UNIT;
        let mut i: u32 = 0;
        while i < n
            invariant
                i <= n,
                0 <= acc <= UNIT,
                acc == powt(r as int, i as nat),
            decreases n - i,
        {
            proof {
                lemma_powt_shrinks(r as int, (i + 1) as nat);
            }
            acc = ((acc as u64 * r as u64) / (UNIT as u64)) as i64;
            i = i + 1;
        }
        acc <= x
    } else {
        // The accumulator only ever grows, so it stays representable while
        // it has not yet passed `x`, and once it passes `x` it never
        // returns.
        if x < UNIT {
            proof {
                lemma_powt_grows(r as int, n as nat);
            }
            return false;
        }
        let mut acc: i64 = UNIT;
        let mut i: u32 = 0;
        while i < n
            invariant
                i <= n,
                UNIT <= acc <= x,
                acc == powt(r as int, i as nat),
            decreases n - i,
        {
            proof {
                assert(acc as u128 * r as u128 <= u128::MAX) by (nonlinear_arith)
                    requires
                        0 <= acc as u128 <= 0x2000_0000_0000_0000u128,
                        0 <= r as u128 <= 0x2000_0000_0000_0000u128,
                ;
            }
            let prod: u128 = acc as u128 * r as u128;
            let next: u128 = prod / (UNIT as u128);
            proof {
                lemma_powt_nonneg(r as int, i as nat);
                assert(prod == powt(r as int, i as nat) * (r as int)) by (nonlinear_arith)
                    requires
                        prod == (acc as u128) * (r as u128),
                        acc == powt(r as int, i as nat),
                        0 <= acc,
                        0 < r,
                ;
                assert(next == powt(r as int, (i + 1) as nat));
            }
            if next > x as u128 {
                proof {
                    lemma_powt_mono_steps(r as int, (i + 1) as nat, n as nat);
                }
                return false;
            }
            acc = next as i64;
            proof {
                lemma_powt_grows(r as int, (i + 1) as nat);
            }
            i = i + 1;
        }
        true
    }
}

/// The integer `n`-th root in `UNIT` scale: the largest ratio `r` with
/// `powt(r, n) <= x`, found by binary search between a known-low and a
/// known-high bound.
#[verifier::loop_isolation(false)]
pub fn nth_root(x: i64, n: u32) -> (r: i64)
    requires
        1 <= n,
        0 <= x <= ROOT_ARG_LIMIT,
    ensures
        is_nth_root(r as int, x as int, n as nat),
        0 <= r <= ROOT_ARG_LIMIT,
{
    let mut lo: i64 = 0;
    let mut hi: i64 = if x < UNIT {
        UNIT
    } else {
        x + 1
    };
    proof {
        lemma_powt_zero(n as nat);
        if x < UNIT {
            lemma_powt_unit(n as nat);
        } else {
            lemma_powt_grows(x as int + 1, n as nat);
        }
    }
    while lo + 1 < hi
        invariant
            0 <= lo < hi <= ROOT_ARG_LIMIT + 1,
            powt(lo as int, n as nat) <= x as int,
            powt(hi as int, n as nat) > x as int,
        decreases hi - lo,
    {
        let mid: i64 = lo + (hi - lo) / 2;
        if pow_le(mid, n, x) {
            lo = mid;
        } else {
            hi = mid;
        }
    }
    lo
}

} // verus!
