use vstd::prelude::*;

verus! {

use vstd::arithmetic::div_mod::{lemma_div_is_ordered, lemma_div_multiples_vanish, lemma_div_pos_is_pos};
use vstd::arithmetic::mul::lemma_mul_inequality;
use crate::fixed::{UNIT, SAMPLE_LIMIT, abs_val, is_nth_root, nth_root};
use crate::fixed::{lemma_powt_shrinks, lemma_powt_unit};
use crate::smooth::MAX_SAMPLE_RATE;

/// Sentinel the meter rests at before any signal was seen: the
/// negative-infinity-equivalent, -100.0 in `UNIT` scale. Any measured
/// amplitude (which is never negative) immediately replaces it.
pub const PEAK_FLOOR: i64 = -100_000_000;

/// Length of the decay window in milliseconds: the per-sample decay
/// weight is chosen so that the peak falls to a quarter over this window.
pub const PEAK_DECAY_MS: u32 = 150;

/// Number of samples the decay window spans at the given sample rate.
pub open spec fn decay_steps(sample_rate: u32) -> int {
    sample_rate * PEAK_DECAY_MS / 1000
}

/// The per-sample decay weight for a sample rate: the integer
/// `decay_steps`-th root of one quarter, in `UNIT` scale, so that
/// `decay_steps` applications of the weight take a peak down to a quarter.
pub fn decay_weight_for_rate(sample_rate: u32) -> (w: i64)
    requires
        7 <= sample_rate <= MAX_SAMPLE_RATE,
    ensures
        is_nth_root(w as int, (UNIT / 4) as int, decay_steps(sample_rate) as nat),
        UNIT / 4 <= w < UNIT,
{
    let n = ((sample_rate as u64 * PEAK_DECAY_MS as u64) / 1000) as u32;
    let w = nth_root(UNIT / 4, n);
    proof {
        let nn = decay_steps(sample_rate) as nat;
        lemma_powt_unit(nn);
        if w >= UNIT {
            crate::fixed::lemma_powt_mono_ratio(UNIT as int, w as int, nn);
            assert(false);
        }
        if w + 1 <= UNIT / 4 {
            lemma_powt_shrinks(w as int + 1, nn);
            assert(false);
        }
    }
    w
}

/// One meter update: a louder block replaces the peak outright, a quieter
/// one folds in with the decay weight, pulling the peak down toward the
/// new amplitude.
pub open spec fn fold_spec(p: int, a: int, w: int) -> int {
    if a > p {
        a
    } else {
        (p * w + a * (UNIT - w)) / (UNIT as int)
    }
}

/// Fold a block amplitude into the running peak.
pub fn fold_peak(current_peak: i64, amplitude: i64, decay_weight: i64) -> (r: i64)
    requires
        0 <= amplitude <= SAMPLE_LIMIT,
        PEAK_FLOOR <= current_peak <= SAMPLE_LIMIT,
        0 <= decay_weight <= UNIT,
    ensures
        r == fold_spec(current_peak as int, amplitude as int, decay_weight as int),
        amplitude > current_peak ==> r == amplitude,
        0 <= r <= SAMPLE_LIMIT,
        r <= current_peak || r == amplitude,
{
    if amplitude > current_peak {
        amplitude
    } else {
        let p = current_peak;
        let a = amplitude;
        let w = decay_weight;
        proof {
            assert(0 <= (p as int) * (w as int) <= SAMPLE_LIMIT * (UNIT as int))
                by (nonlinear_arith)
                requires
                    0 <= p <= SAMPLE_LIMIT,
                    0 <= w <= UNIT,
            ;
            assert(0 <= (a as int) * ((UNIT - w) as int) <= SAMPLE_LIMIT * (UNIT as int))
                by (nonlinear_arith)
                requires
                    0 <= a <= SAMPLE_LIMIT,
                    0 <= w <= UNIT,
            ;
            let num = (p as int) * (w as int) + (a as int) * ((UNIT - w) as int);
            lemma_mul_inequality(a as int, p as int, (UNIT - w) as int);
            assert((p as int) * (w as int) + (p as int) * ((UNIT - w) as int) == (p as int) * (
            UNIT as int)) by (nonlinear_arith);
            assert((p as int) * (UNIT as int) == (UNIT as int) * (p as int)) by (nonlinear_arith);
            lemma_div_is_ordered(num, (UNIT as int) * (p as int), UNIT as int);
            lemma_div_multiples_vanish(p as int, UNIT as int);
            lemma_div_pos_is_pos(num, UNIT as int);
        }
        let num: u128 = p as u128 * w as u128 + a as u128 * (UNIT - w) as u128;
        (num / (UNIT as u128)) as i64
    }
}

/// Sum of the absolute values of a run of samples.
pub open spec fn sum_abs_samples(s: Seq<i64>) -> int
    decreases s.len(),
{
    if s.len() == 0 {
        0
    } else {
        sum_abs_samples(s.drop_last()) + abs_val(s.last() as int)
    }
}

/// Sum of the absolute values of every sample in a block of channels.
pub open spec fn sum_abs_block(b: Seq<Vec<i64>>) -> int
    decreases b.len(),
{
    if b.len() == 0 {
        0
    } else {
        sum_abs_block(b.drop_last()) + sum_abs_samples(b.last()@)
    }
}

/// Total number of samples in a block of channels.
pub open spec fn block_sample_count(b: Seq<Vec<i64>>) -> int
    decreases b.len(),
{
    if b.len() == 0 {
        0
    } else {
        block_sample_count(b.drop_last()) + b.last()@.len()
    }
}

/// Mean absolute amplitude of a block, truncated; meaningful only for a
/// block that holds at least one sample.
pub open spec fn mean_abs_spec(b: Seq<Vec<i64>>) -> int {
    sum_abs_block(b) / block_sample_count(b)
}

pub open spec fn samples_bounded(s: Seq<i64>) -> bool {
    forall|i: int| 0 <= i < s.len() ==> -SAMPLE_LIMIT <= #[trigger] s[i] <= SAMPLE_LIMIT
}

pub open spec fn block_bounded(b: Seq<Vec<i64>>) -> bool {
    forall|c: int| 0 <= c < b.len() ==> samples_bounded(#[trigger] b[c]@)
}

pub proof fn lemma_sum_abs_samples_bounds(s: Seq<i64>)
    requires
        samples_bounded(s),
    ensures
        0 <= sum_abs_samples(s) <= s.len() * SAMPLE_LIMIT,
    decreases s.len(),
{
    if s.len() > 0 {
        lemma_sum_abs_samples_bounds(s.drop_last());
    }
}

pub proof fn lemma_sum_abs_block_bounds(b: Seq<Vec<i64>>)
    requires
        block_bounded(b),
    ensures
        0 <= block_sample_count(b),
        0 <= sum_abs_block(b) <= block_sample_count(b) * SAMPLE_LIMIT,
    decreases b.len(),
{
    if b.len() > 0 {
        assert(block_bounded(b.drop_last()));
        lemma_sum_abs_block_bounds(b.drop_last());
        lemma_sum_abs_samples_bounds(b.last()@);
    }
}

/// Mean absolute amplitude of a whole block of channels.
#[verifier::loop_isolation(false)]
pub fn block_amplitude(buffer: &Vec<Vec<i64>>) -> (r: i64)
    requires
        block_bounded(buffer@),
        1 <= block_sample_count(buffer@) < 0x1_0000_0000_0000_0000,
    ensures
        r == mean_abs_spec(buffer@),
        0 <= r <= SAMPLE_LIMIT,
{
    let mut sum: u128 = 0;
    let mut count: u128 = 0;
    let channels = buffer.len();
    let mut c: usize = 0;
    proof {
        assert(buffer@.subrange(0, 0) =~= Seq::<Vec<i64>>::empty());
        lemma_sum_abs_block_bounds(buffer@);
    }
    while c < channels
        invariant
            c <= channels,
            sum == sum_abs_block(buffer@.subrange(0, c as int)),
            count == block_sample_count(buffer@.subrange(0, c as int)),
        decreases channels - c,
    {
        proof {
            assert(block_bounded(buffer@.subrange(0, c as int)));
            lemma_sum_abs_block_bounds(buffer@.subrange(0, c as int));
        }
        let row_len = buffer[c].len();
        let mut i: usize = 0;
        let mut row_sum: u128 = 0;
        proof {
            assert(buffer@[c as int]@.subrange(0, 0) =~= Seq::<i64>::empty());
        }
        while i < row_len
            invariant
                i <= row_len,
                row_sum == sum_abs_samples(buffer@[c as int]@.subrange(0, i as int)),
            decreases row_len - i,
        {
            proof {
                assert(samples_bounded(buffer@[c as int]@.subrange(0, i as int)));
                lemma_sum_abs_samples_bounds(buffer@[c as int]@.subrange(0, i as int));
                assert(buffer@[c as int]@.subrange(0, i as int + 1).drop_last() =~= buffer@[
                    c as int]@.subrange(0, i as int));
                assert((i as int) * SAMPLE_LIMIT <= 0x1_0000_0000_0000_0000 * (SAMPLE_LIMIT as int))
                    by (nonlinear_arith)
                    requires
                        0 <= i < 0x1_0000_0000_0000_0000,
                ;
            }
            let x = buffer[c][i];
            let magnitude: i64 = if x < 0 {
                -x
            } else {
                x
            };
            row_sum = row_sum + magnitude as u128;
            i = i + 1;
        }
        proof {
            assert(buffer@[c as int]@.subrange(0, row_len as int) =~= buffer@[c as int]@);
            assert(buffer@.subrange(0, c as int + 1).drop_last() =~= buffer@.subrange(0, c as int));
            lemma_sum_abs_samples_bounds(buffer@[c as int]@);
            assert(block_sample_count(buffer@.subrange(0, c as int + 1)) <= block_sample_count(
                buffer@,
            ) && sum_abs_block(buffer@.subrange(0, c as int + 1)) <= sum_abs_block(buffer@)) by {
                lemma_block_prefix_le(buffer@, c as int + 1);
            }
            lemma_sum_abs_block_bounds(buffer@);
            assert(block_sample_count(buffer@) * SAMPLE_LIMIT <= 0x1_0000_0000_0000_0000 * (
            SAMPLE_LIMIT as int)) by (nonlinear_arith)
                requires
                    0 <= block_sample_count(buffer@) < 0x1_0000_0000_0000_0000,
            ;
        }
        sum = sum + row_sum;
        count = count + row_len as u128;
        c = c + 1;
    }
    proof {
        assert(buffer@.subrange(0, channels as int) =~= buffer@);
        let total = block_sample_count(buffer@);
        let s = sum_abs_block(buffer@);
        lemma_div_pos_is_pos(s, total);
        lemma_mul_inequality(s, total * SAMPLE_LIMIT, 1);
        lemma_div_is_ordered(s, total * SAMPLE_LIMIT, total);
        assert(total * SAMPLE_LIMIT == total * (SAMPLE_LIMIT as int)) by (nonlinear_arith);
        lemma_div_multiples_vanish(SAMPLE_LIMIT as int, total);
    }
    (sum / count) as i64
}

/// Every prefix of a block carries at most the whole block's sample count
/// and amplitude sum.
proof fn lemma_block_prefix_le(b: Seq<Vec<i64>>, k: int)
    requires
        block_bounded(b),
        0 <= k <= b.len(),
    ensures
        block_sample_count(b.subrange(0, k)) <= block_sample_count(b),
        sum_abs_block(b.subrange(0, k)) <= sum_abs_block(b),
    decreases b.len() - k,
{
    if k == b.len() {
        assert(b.subrange(0, k) =~= b);
    } else {
        lemma_block_prefix_le(b, k + 1);
        assert(b.subrange(0, k + 1).drop_last() =~= b.subrange(0, k));
        lemma_sum_abs_samples_bounds(b.subrange(0, k + 1).last()@);
    }
}

/// A block whose samples all carry one constant amplitude has exactly that
/// mean, so a louder constant block lifts the peak to its amplitude and a
/// silent block decays the peak by exactly the decay weight.
pub proof fn lemma_constant_block_meter(b: Seq<Vec<i64>>, a: i64, p: int, w: int)
    requires
        0 <= a <= SAMPLE_LIMIT,
        forall|c: int, i: int|
            0 <= c < b.len() && 0 <= i < b[c]@.len() ==> #[trigger] b[c]@[i] == a,
        block_sample_count(b) >= 1,
        0 <= w <= UNIT,
    ensures
        mean_abs_spec(b) == a,
        a > p ==> fold_spec(p, a as int, w) == a,
        a == 0 && p >= 0 ==> fold_spec(p, 0, w) == p * w / (UNIT as int),
    decreases b.len(),
{
    lemma_sum_abs_block_constant(b, a);
    let total = block_sample_count(b);
    assert(total * (a as int) == (total as int) * (a as int));
    lemma_div_multiples_vanish(a as int, total);
    assert(total * (a as int) == (total as int) * (a as int)) by (nonlinear_arith);
    assert(mean_abs_spec(b) == (total * (a as int)) / total);
    if a == 0 && p >= 0 {
        assert(fold_spec(p, 0, w) == (p * w + 0 * ((UNIT - w) as int)) / (UNIT as int));
        assert(0 * ((UNIT - w) as int) == 0) by (nonlinear_arith);
    }
}

proof fn lemma_sum_abs_samples_constant(s: Seq<i64>, a: i64)
    requires
        0 <= a,
        forall|i: int| 0 <= i < s.len() ==> s[i] == a,
    ensures
        sum_abs_samples(s) == s.len() * (a as int),
    decreases s.len(),
{
    if s.len() == 0 {
        assert(s.len() * (a as int) == 0) by (nonlinear_arith)
            requires
                s.len() == 0,
        ;
    } else {
        lemma_sum_abs_samples_constant(s.drop_last(), a);
        assert((s.len() - 1) * (a as int) + (a as int) == s.len() * (a as int))
            by (nonlinear_arith);
    }
}

proof fn lemma_sum_abs_block_constant(b: Seq<Vec<i64>>, a: i64)
    requires
        0 <= a,
        forall|c: int, i: int|
            0 <= c < b.len() && 0 <= i < b[c]@.len() ==> #[trigger] b[c]@[i] == a,
    ensures
        sum_abs_block(b) == block_sample_count(b) * (a as int),
        block_sample_count(b) >= 0,
    decreases b.len(),
{
    if b.len() == 0 {
        assert(block_sample_count(b) * (a as int) == 0) by (nonlinear_arith)
            requires
                block_sample_count(b) == 0,
        ;
    } else {
        lemma_sum_abs_block_constant(b.drop_last(), a);
        lemma_sum_abs_samples_constant(b.last()@, a);
        let rest = block_sample_count(b.drop_last());
        let row = b.last()@.len() as int;
        assert(rest * (a as int) + row * (a as int) == (rest + row) * (a as int))
            by (nonlinear_arith);
    }
}

} // verus!
