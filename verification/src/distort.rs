use vstd::prelude::*;

verus! {

use vstd::arithmetic::div_mod::lemma_div_multiples_vanish;
use crate::fixed::{UNIT, SAMPLE_LIMIT, div_unit};

/// Symmetric hard clip: values beyond the threshold on either side are
/// pinned to it, values within the band pass unchanged.
pub open spec fn clamp_spec(x: int, th: int) -> int {
    if x > th {
        th
    } else if x < -th {
        -th
    } else {
        x
    }
}

/// Wet/dry blend in fixed point: `mix` parts of the distorted signal per
/// `UNIT`, the rest of the clean signal, truncated toward zero.
pub open spec fn blend_spec(clean: int, distorted: int, mix: int) -> int {
    div_unit((UNIT - mix) * clean + mix * distorted)
}

/// The whole per-sample transfer function: clip to the threshold, then
/// blend against the unprocessed sample.
pub open spec fn sample_out_spec(x: int, th: int, mix: int) -> int {
    blend_spec(x, clamp_spec(x, th), mix)
}

/// Clamp one sample to the symmetric band around zero given by a strictly
/// positive threshold.
pub fn clamp_sample(x: i64, threshold: i64) -> (r: i64)
    requires
        0 < threshold <= SAMPLE_LIMIT,
        -SAMPLE_LIMIT <= x <= SAMPLE_LIMIT,
    ensures
        r == clamp_spec(x as int, threshold as int),
        -threshold <= r <= threshold,
        -threshold <= x <= threshold ==> r == x,
        x > threshold ==> r == threshold,
        x < -threshold ==> r == -threshold,
{
    if x > threshold {
        threshold
    } else if x < -threshold {
        -threshold
    } else {
        x
    }
}

/// Blend the clean and distorted signals: a zero mix passes the clean
/// signal through untouched and a full mix delivers the distorted signal
/// alone.
pub fn blend(clean: i64, distorted: i64, mix: i64) -> (r: i64)
    requires
        0 <= mix <= UNIT,
        -SAMPLE_LIMIT <= clean <= SAMPLE_LIMIT,
        -SAMPLE_LIMIT <= distorted <= SAMPLE_LIMIT,
    ensures
        r == blend_spec(clean as int, distorted as int, mix as int),
        mix == 0 ==> r == clean,
        mix == UNIT ==> r == distorted,
        -SAMPLE_LIMIT <= r <= SAMPLE_LIMIT,
{
    proof {
        assert(-((UNIT as int) * SAMPLE_LIMIT) <= ((UNIT - mix) as int) * (clean as int)
            <= (UNIT as int) * SAMPLE_LIMIT) by (nonlinear_arith)
            requires
                0 <= mix <= UNIT,
                -SAMPLE_LIMIT <= clean <= SAMPLE_LIMIT,
        ;
        assert(-((UNIT as int) * SAMPLE_LIMIT) <= (mix as int) * (distorted as int)
            <= (UNIT as int) * SAMPLE_LIMIT) by (nonlinear_arith)
            requires
                0 <= mix <= UNIT,
                -SAMPLE_LIMIT <= distorted <= SAMPLE_LIMIT,
        ;
    }
    let num: i128 = (UNIT - mix) as i128 * clean as i128 + mix as i128 * distorted as i128;
    proof {
        assert(-((UNIT as int) * SAMPLE_LIMIT) <= num <= (UNIT as int) * SAMPLE_LIMIT)
            by (nonlinear_arith)
            requires
                num == ((UNIT - mix) as int) * (clean as int) + (mix as int) * (distorted as int),
                0 <= mix <= UNIT,
                -SAMPLE_LIMIT <= clean <= SAMPLE_LIMIT,
                -SAMPLE_LIMIT <= distorted <= SAMPLE_LIMIT,
        ;
        if mix == 0 {
            assert(num == (UNIT as int) * (clean as int)) by (nonlinear_arith)
                requires
                    mix == 0,
                    num == ((UNIT - mix) as int) * (clean as int) + (mix as int) * (distorted
                        as int),
            ;
            assert((UNIT as int) * (-(clean as int)) == -((UNIT as int) * (clean as int)))
                by (nonlinear_arith);
            lemma_div_multiples_vanish(clean as int, UNIT as int);
            lemma_div_multiples_vanish(-(clean as int), UNIT as int);
        }
        if mix == UNIT {
            assert(num == (UNIT as int) * (distorted as int)) by (nonlinear_arith)
                requires
                    mix == UNIT,
                    num == ((UNIT - mix) as int) * (clean as int) + (mix as int) * (distorted
                        as int),
            ;
            assert((UNIT as int) * (-(distorted as int)) == -((UNIT as int) * (distorted as int)))
                by (nonlinear_arith);
            lemma_div_multiples_vanish(distorted as int, UNIT as int);
            lemma_div_multiples_vanish(-(distorted as int), UNIT as int);
        }
    }
    if num >= 0 {
        ((num as u128) / (UNIT as u128)) as i64
    } else {
        -((((-num) as u128) / (UNIT as u128)) as i64)
    }
}

/// The mix endpoints of the transfer function, stated over the model
/// itself: a zero mix is a pure bypass for every sample, and a full mix
/// delivers exactly the clamped value, whatever the threshold.
pub proof fn lemma_mix_endpoints(x: int, th: int)
    requires
        -SAMPLE_LIMIT <= x <= SAMPLE_LIMIT,
    ensures
        sample_out_spec(x, th, 0) == x,
        sample_out_spec(x, th, UNIT as int) == clamp_spec(x, th),
{
    let d = clamp_spec(x, th);
    assert((UNIT - 0) * x + 0 * d == (UNIT as int) * x) by (nonlinear_arith);
    assert((UNIT as int) * (-x) == -((UNIT as int) * x)) by (nonlinear_arith);
    lemma_div_multiples_vanish(x, UNIT as int);
    lemma_div_multiples_vanish(-x, UNIT as int);
    assert((UNIT - UNIT) * x + (UNIT as int) * d == (UNIT as int) * d) by (nonlinear_arith);
    assert((UNIT as int) * (-d) == -((UNIT as int) * d)) by (nonlinear_arith);
    lemma_div_multiples_vanish(d, UNIT as int);
    lemma_div_multiples_vanish(-d, UNIT as int);
}

/// One full sample through the distortion stage.
pub fn process_sample(x: i64, threshold: i64, mix: i64) -> (r: i64)
    requires
        0 < threshold <= SAMPLE_LIMIT,
        0 <= mix <= UNIT,
        -SAMPLE_LIMIT <= x <= SAMPLE_LIMIT,
    ensures
        r == sample_out_spec(x as int, threshold as int, mix as int),
        mix == 0 ==> r == x,
        mix == UNIT ==> r == clamp_spec(x as int, threshold as int),
        -SAMPLE_LIMIT <= r <= SAMPLE_LIMIT,
{
    let distorted = clamp_sample(x, threshold);
    blend(x, distorted, mix)
}

} // verus!
