use vstd::prelude::*;

verus! {

use vstd::arithmetic::div_mod::{lemma_div_is_ordered, lemma_div_multiples_vanish, lemma_div_pos_is_pos};
use crate::fixed::{UNIT, SAMPLE_LIMIT, ROOT_ARG_LIMIT, powt, is_nth_root, nth_root};
use crate::fixed::{lemma_powt_shrinks, lemma_powt_grows};

/// Longest ramp duration a smoothing law may carry, in milliseconds.
pub const MAX_RAMP_MS: u32 = 600_000;

/// Highest sample rate the engine accepts, in hertz.
pub const MAX_SAMPLE_RATE: u32 = 1_000_000;

/// How a parameter moves from its current value to a newly set target:
/// instantly, along a straight line, or multiplicatively so that
/// exponential quantities ramp perceptually evenly. The payload is the
/// ramp duration in milliseconds.
#[derive(Clone, Copy, PartialEq, Eq, Structural, Debug)]
pub enum SmoothingStyle {
    NoSmoothing,
    Linear(u32),
    Logarithmic(u32),
}

impl SmoothingStyle {
    /// Duration of the configured ramp in milliseconds.
    pub open spec fn duration_ms(self) -> int {
        match self {
            SmoothingStyle::NoSmoothing => 0,
            SmoothingStyle::Linear(ms) => ms as int,
            SmoothingStyle::Logarithmic(ms) => ms as int,
        }
    }

    pub open spec fn wf(self) -> bool {
        self.duration_ms() <= MAX_RAMP_MS
    }

    /// Number of samples a ramp covers at the given sample rate.
    pub open spec fn ramp_steps(self, sample_rate: u32) -> int {
        match self {
            SmoothingStyle::NoSmoothing => 0,
            _ => sample_rate * self.duration_ms() / 1000,
        }
    }
}

/// Number of whole samples the configured ramp spans at `sample_rate`.
pub fn ramp_step_count(style: SmoothingStyle, sample_rate: u32) -> (steps: u32)
    requires
        style.wf(),
        sample_rate <= MAX_SAMPLE_RATE,
    ensures
        steps == style.ramp_steps(sample_rate),
        steps <= 600_000_000,
{
    let ms: u32 = match style {
        SmoothingStyle::NoSmoothing => 0,
        SmoothingStyle::Linear(d) => d,
        SmoothingStyle::Logarithmic(d) => d,
    };
    proof {
        assert((sample_rate as int) * (ms as int) <= 600_000_000_000) by (nonlinear_arith)
            requires
                sample_rate <= 1_000_000,
                ms <= 600_000,
        ;
    }
    ((sample_rate as u64 * ms as u64) / 1000) as u32
}

/// One logarithmic ramp step: multiply by the fixed per-ramp ratio
/// (truncating) and never move past the target.
pub open spec fn log_advance(cur: int, ratio: int, target: int) -> int {
    let raw = cur * ratio / (UNIT as int);
    if cur == target {
        target
    } else if cur < target {
        if raw > target {
            target
        } else {
            raw
        }
    } else {
        if raw < target {
            target
        } else {
            raw
        }
    }
}

/// Per-parameter runtime ramp state. `current` is the value most recently
/// delivered, `target` the value being ramped towards, `steps_left` the
/// number of produce calls until settlement, and `step` the precomputed
/// per-step increment (linear law) or per-step ratio in `UNIT` scale
/// (logarithmic law).
#[derive(Clone, Copy, PartialEq, Eq, Structural, Debug)]
pub struct Smoother {
    pub style: SmoothingStyle,
    pub current: i64,
    pub target: i64,
    pub steps_left: u32,
    pub step: i64,
}

impl Smoother {
    /// While a ramp is active its precomputed step stays consistent with
    /// the distance still to cover, so the ramp can neither overshoot nor
    /// leave the representable range.
    pub open spec fn ramp_wf(self) -> bool {
        match self.style {
            SmoothingStyle::NoSmoothing => false,
            SmoothingStyle::Linear(_) => {
                &&& (self.step > 0 ==> self.steps_left * self.step <= self.target - self.current)
                &&& (self.step < 0 ==> self.steps_left * self.step >= self.target - self.current)
            },
            SmoothingStyle::Logarithmic(_) => {
                &&& 0 < self.current
                &&& 0 < self.target
                &&& 0 <= self.step <= ROOT_ARG_LIMIT
                &&& (self.current < self.target ==> self.step >= UNIT)
                &&& (self.current > self.target ==> self.step <= UNIT)
            },
        }
    }

    pub open spec fn wf(self) -> bool {
        &&& self.style.wf()
        &&& -SAMPLE_LIMIT <= self.current <= SAMPLE_LIMIT
        &&& -SAMPLE_LIMIT <= self.target <= SAMPLE_LIMIT
        &&& (self.steps_left == 0 ==> self.current == self.target)
        &&& (self.steps_left > 0 ==> self.ramp_wf())
    }

    /// The value one un-settled ramp step moves `current` to.
    pub open spec fn advanced_value(self) -> int {
        match self.style {
            SmoothingStyle::NoSmoothing => self.target as int,
            SmoothingStyle::Linear(_) => self.current + self.step,
            SmoothingStyle::Logarithmic(_) => log_advance(
                self.current as int,
                self.step as int,
                self.target as int,
            ),
        }
    }

    /// The state after one produce call: settled states are left alone,
    /// the final ramp step lands exactly on the target, and any earlier
    /// step advances by the precomputed increment or ratio.
    pub open spec fn step_spec(self) -> Smoother {
        if self.steps_left == 0 {
            self
        } else if self.steps_left == 1 {
            Smoother { current: self.target, steps_left: 0, ..self }
        } else {
            Smoother {
                current: self.advanced_value() as i64,
                steps_left: (self.steps_left - 1) as u32,
                ..self
            }
        }
    }

    /// The state after `k` produce calls.
    pub open spec fn after_steps(self, k: nat) -> Smoother
        decreases k,
    {
        if k == 0 {
            self
        } else {
            self.step_spec().after_steps((k - 1) as nat)
        }
    }

    /// The value returned by the `k`-th produce call, counted from one.
    pub open spec fn produced(self, k: nat) -> int {
        self.after_steps(k).current as int
    }
}

/// One produce call keeps the ramp well formed, never moves the value past
/// the target, and leaves the target, style and step untouched.
pub proof fn lemma_step_preserves(s: Smoother)
    requires
        s.wf(),
    ensures
        s.step_spec().wf(),
        s.step_spec().style == s.style,
        s.step_spec().target == s.target,
        s.step_spec().step == s.step,
        s.step_spec().steps_left == if s.steps_left == 0 {
            0
        } else {
            s.steps_left - 1
        },
        s.current <= s.target ==> s.current <= s.step_spec().current <= s.target,
        s.current >= s.target ==> s.target <= s.step_spec().current <= s.current,
        s.steps_left > 1 ==> -SAMPLE_LIMIT <= s.advanced_value() <= SAMPLE_LIMIT
            && s.step_spec().current == s.advanced_value(),
{
    if s.steps_left > 1 {
        let c = s.current as int;
        let t = s.target as int;
        let st = s.step as int;
        let sl = s.steps_left as int;
        match s.style {
            SmoothingStyle::NoSmoothing => {
                assert(false);
            },
            SmoothingStyle::Linear(_) => {
                assert((sl - 1) * st == sl * st - st) by (nonlinear_arith);
                if st > 0 {
                    assert(st <= sl * st) by (nonlinear_arith)
                        requires
                            st > 0,
                            sl >= 1,
                    ;
                } else if st < 0 {
                    assert(sl * st <= st) by (nonlinear_arith)
                        requires
                            st < 0,
                            sl >= 1,
                    ;
                }
            },
            SmoothingStyle::Logarithmic(_) => {
                let raw = c * st / (UNIT as int);
                if c < t {
                    assert(c * UNIT <= c * st) by (nonlinear_arith)
                        requires
                            c >= 0,
                            UNIT <= st,
                    ;
                    lemma_div_is_ordered(c * UNIT, c * st, UNIT as int);
                    lemma_div_multiples_vanish(c, UNIT as int);
                    assert(c * UNIT == UNIT * c) by (nonlinear_arith);
                    assert(raw >= c);
                } else if c > t {
                    assert(c * st <= c * UNIT) by (nonlinear_arith)
                        requires
                            c >= 0,
                            st <= UNIT,
                    ;
                    lemma_div_is_ordered(c * st, c * UNIT, UNIT as int);
                    lemma_div_multiples_vanish(c, UNIT as int);
                    assert(c * UNIT == UNIT * c) by (nonlinear_arith);
                    assert(raw <= c);
                    assert(c * st >= 0) by (nonlinear_arith)
                        requires
                            c >= 0,
                            st >= 0,
                    ;
                    lemma_div_pos_is_pos(c * st, UNIT as int);
                }
            },
        }
    }
}

/// A settled smoother never changes again.
pub proof fn lemma_settled_fixed(s: Smoother, k: nat)
    requires
        s.wf(),
        s.steps_left == 0,
    ensures
        s.after_steps(k) == s,
    decreases k,
{
    if k > 0 {
        lemma_settled_fixed(s, (k - 1) as nat);
    }
}

/// Ramps settle: after exactly the remaining step count the delivered
/// value equals the target, and every later produce call returns the
/// target unchanged.
pub proof fn lemma_ramp_settles(s: Smoother, k: nat)
    requires
        s.wf(),
        k >= s.steps_left,
    ensures
        s.after_steps(k).current == s.target,
        s.after_steps(k) == s.after_steps(s.steps_left as nat),
    decreases k,
{
    if s.steps_left == 0 {
        lemma_settled_fixed(s, k);
    } else {
        lemma_step_preserves(s);
        lemma_ramp_settles(s.step_spec(), (k - 1) as nat);
        assert(s.after_steps(k) == s.step_spec().after_steps((k - 1) as nat));
        assert(s.after_steps(s.steps_left as nat) == s.step_spec().after_steps(
            (s.steps_left - 1) as nat,
        ));
    }
}

/// Peeling a produce call off the end instead of the front.
pub proof fn lemma_after_steps_snoc(s: Smoother, k: nat)
    ensures
        s.after_steps((k + 1) as nat) == s.after_steps(k).step_spec(),
    decreases k,
{
    if k == 0 {
        assert(s.after_steps(1) == s.step_spec().after_steps(0));
        assert(s.step_spec().after_steps(0) == s.step_spec());
    } else {
        lemma_after_steps_snoc(s.step_spec(), (k - 1) as nat);
        assert(s.after_steps((k + 1) as nat) == s.step_spec().after_steps(k));
        assert(s.after_steps(k) == s.step_spec().after_steps((k - 1) as nat));
    }
}

/// Every state a ramp passes through is well formed, keeps the style,
/// target and step, and stays between the starting value and the target.
pub proof fn lemma_after_steps_props(s: Smoother, k: nat)
    requires
        s.wf(),
    ensures
        s.after_steps(k).wf(),
        s.after_steps(k).style == s.style,
        s.after_steps(k).target == s.target,
        s.after_steps(k).step == s.step,
        s.current <= s.target ==> s.current <= s.after_steps(k).current <= s.target,
        s.current >= s.target ==> s.target <= s.after_steps(k).current <= s.current,
    decreases k,
{
    if k > 0 {
        lemma_step_preserves(s);
        lemma_after_steps_props(s.step_spec(), (k - 1) as nat);
    }
}

/// The sequence a ramp produces is monotone: it moves from the starting
/// value toward the target and never past it, whichever law is active.
/// Consecutive un-settled logarithmic steps all apply the one per-ramp
/// ratio `s.step`.
pub proof fn lemma_ramp_monotone(s: Smoother, k: nat)
    requires
        s.wf(),
    ensures
        s.after_steps(k).step == s.step,
        s.current <= s.target ==> s.current <= s.after_steps(k).current <= s.after_steps(
            (k + 1) as nat,
        ).current <= s.target,
        s.current >= s.target ==> s.target <= s.after_steps((k + 1) as nat).current
            <= s.after_steps(k).current <= s.current,
        s.after_steps(k).steps_left > 1 ==> s.after_steps((k + 1) as nat).current
            == s.after_steps(k).advanced_value(),
{
    lemma_after_steps_props(s, k);
    lemma_after_steps_snoc(s, k);
    lemma_step_preserves(s.after_steps(k));
}

impl Smoother {
    /// A freshly created smoother rests at its initial value.
    pub fn new(style: SmoothingStyle, initial: i64) -> (s: Smoother)
        requires
            style.wf(),
            -SAMPLE_LIMIT <= initial <= SAMPLE_LIMIT,
            style matches SmoothingStyle::Logarithmic(_) ==> 0 < initial,
        ensures
            s.wf(),
            s.style == style,
            s.current == initial,
            s.target == initial,
            s.steps_left == 0,
    {
        Smoother { style, current: initial, target: initial, steps_left: 0, step: 0 }
    }

    /// Advance the ramp by one sample and deliver the new current value.
    /// Once the ramp has settled every further call returns the target
    /// unchanged. Runs in constant time and never allocates.
    pub fn next(&mut self) -> (v: i64)
        requires
            old(self).wf(),
        ensures
            final(self).wf(),
            *final(self) == old(self).step_spec(),
            v == final(self).current,
    {
        proof {
            lemma_step_preserves(*self);
        }
        if self.steps_left == 0 {
            self.current
        } else if self.steps_left == 1 {
            self.steps_left = 0;
            self.current = self.target;
            self.current
        } else {
            self.steps_left = self.steps_left - 1;
            match self.style {
                SmoothingStyle::NoSmoothing => {
                    proof {
                        assert(false);
                    }
                },
                SmoothingStyle::Linear(_) => {
                    self.current = self.current + self.step;
                },
                SmoothingStyle::Logarithmic(_) => {
                    proof {
                        assert((self.current as int) * (self.step as int) <= (SAMPLE_LIMIT as int)
                            * (ROOT_ARG_LIMIT as int)) by (nonlinear_arith)
                            requires
                                0 <= self.current <= SAMPLE_LIMIT,
                                0 <= self.step <= ROOT_ARG_LIMIT,
                        ;
                    }
                    if self.current == self.target {
                    } else if self.current < self.target {
                        let raw: u128 = (self.current as u128 * self.step as u128) / (UNIT
                            as u128);
                        if raw > self.target as u128 {
                            self.current = self.target;
                        } else {
                            self.current = raw as i64;
                        }
                    } else {
                        let raw: u128 = (self.current as u128 * self.step as u128) / (UNIT
                            as u128);
                        if raw < self.target as u128 {
                            self.current = self.target;
                        } else {
                            self.current = raw as i64;
                        }
                    }
                },
            }
            self.current
        }
    }

    /// Begin a new ramp from the value delivered most recently to
    /// `new_target`, spanning the configured duration at `sample_rate`.
    /// A zero-length ramp (no smoothing, zero duration, or a rate low
    /// enough that no whole sample fits) jumps straight to the target.
    pub fn set_target(&mut self, sample_rate: u32, new_target: i64)
        requires
            old(self).wf(),
            sample_rate <= MAX_SAMPLE_RATE,
            -SAMPLE_LIMIT <= new_target <= SAMPLE_LIMIT,
            old(self).style matches SmoothingStyle::Logarithmic(_) ==> 0 < new_target && 0 < old(
                self,
            ).current,
        ensures
            final(self).wf(),
            final(self).style == old(self).style,
            final(self).target == new_target,
            final(self).steps_left == old(self).style.ramp_steps(sample_rate),
            final(self).current == if old(self).style.ramp_steps(sample_rate) == 0 {
                new_target
            } else {
                old(self).current
            },
            (final(self).steps_left > 0 && old(self).style matches SmoothingStyle::Linear(_))
                ==> final(self).step == lin_step(
                old(self).current as int,
                new_target as int,
                final(self).steps_left as int,
            ),
            (final(self).steps_left > 0 && old(self).style matches SmoothingStyle::Logarithmic(_))
                ==> is_nth_root(
                final(self).step as int,
                new_target * UNIT / (old(self).current as int),
                final(self).steps_left as nat,
            ),
    {
        let steps = ramp_step_count(self.style, sample_rate);
        self.target = new_target;
        if steps == 0 {
            self.current = new_target;
            self.steps_left = 0;
            self.step = 0;
        } else {
            self.steps_left = steps;
            match self.style {
                SmoothingStyle::NoSmoothing => {
                    proof {
                        assert(false);
                    }
                },
                SmoothingStyle::Linear(_) => {
                    if new_target >= self.current {
                        let d = new_target - self.current;
                        proof {
                            lemma_steps_times_quotient(d as int, steps as int);
                        }
                        self.step = ((d as u64) / (steps as u64)) as i64;
                    } else {
                        let d = self.current - new_target;
                        proof {
                            lemma_steps_times_quotient(d as int, steps as int);
                            let q = (d as int) / (steps as int);
                            assert((steps as int) * (-q) == -((steps as int) * q))
                                by (nonlinear_arith);
                        }
                        self.step = -(((d as u64) / (steps as u64)) as i64);
                    }
                },
                SmoothingStyle::Logarithmic(_) => {
                    proof {
                        lemma_ratio_bounds(self.current as int, new_target as int);
                    }
                    let x = ((new_target as u128 * UNIT as u128) / (self.current as u128)) as i64;
                    let root = nth_root(x, steps);
                    proof {
                        lemma_root_side(
                            self.current as int,
                            new_target as int,
                            root as int,
                            steps as nat,
                        );
                    }
                    self.step = root;
                },
            }
        }
    }
}

/// The per-step increment of a linear ramp, truncated toward zero.
pub open spec fn lin_step(c: int, t: int, n: int) -> int {
    if t >= c {
        (t - c) / n
    } else {
        -((c - t) / n)
    }
}

/// `n` steps of size `d / n` never cover more than the distance `d`.
proof fn lemma_steps_times_quotient(d: int, n: int)
    requires
        0 <= d,
        1 <= n,
    ensures
        0 <= d / n <= d,
        n * (d / n) <= d,
{
    lemma_div_pos_is_pos(d, n);
    assert(n * (d / n) <= d && d / n <= d) by (nonlinear_arith)
        requires
            0 <= d,
            1 <= n,
    ;
}

/// The scaled ratio of target to current value stays within the root
/// argument limit, sits at or above one unit exactly when the target is at
/// or above the current value, and strictly below one unit otherwise.
proof fn lemma_ratio_bounds(c: int, t: int)
    requires
        0 < c <= SAMPLE_LIMIT,
        0 < t <= SAMPLE_LIMIT,
    ensures
        0 <= t * UNIT / c <= ROOT_ARG_LIMIT,
        t >= c ==> t * UNIT / c >= UNIT,
        t < c ==> t * UNIT / c < UNIT,
{
    let x = t * UNIT / c;
    assert(0 <= t * UNIT && t * UNIT <= SAMPLE_LIMIT * UNIT) by (nonlinear_arith)
        requires
            0 < t <= SAMPLE_LIMIT,
    ;
    lemma_div_pos_is_pos(t * UNIT, c);
    assert(t * UNIT / c <= t * UNIT) by (nonlinear_arith)
        requires
            0 <= t * UNIT,
            1 <= c,
    ;
    if t >= c {
        assert(c * UNIT <= t * UNIT);
        lemma_div_is_ordered(c * UNIT, t * UNIT, c);
        lemma_div_multiples_vanish(UNIT as int, c);
        assert(c * UNIT == c * (UNIT as int)) by (nonlinear_arith);
        assert(c * UNIT / c == UNIT);
    } else {
        assert(x < UNIT) by (nonlinear_arith)
            requires
                x == t * UNIT / c,
                0 < t < c,
        ;
    }
}

/// The ramp ratio found for the scaled target/current quotient sits on the
/// same side of one unit as the quotient itself.
proof fn lemma_root_side(c: int, t: int, root: int, n: nat)
    requires
        0 < c <= SAMPLE_LIMIT,
        0 < t <= SAMPLE_LIMIT,
        n >= 1,
        is_nth_root(root, t * UNIT / c, n),
    ensures
        t >= c ==> root >= UNIT,
        t < c ==> root <= UNIT,
{
    let x = t * UNIT / c;
    lemma_ratio_bounds(c, t);
    if t >= c {
        if root < UNIT {
            lemma_powt_shrinks(root + 1, n);
            assert(powt(root + 1, n) <= UNIT);
            assert(false);
        }
    } else {
        if root > UNIT {
            lemma_powt_grows(root, n);
            assert(powt(root, n) >= root);
            assert(false);
        }
    }
}

} // verus!
