use vstd::prelude::*;

verus! {

use crate::fixed::{UNIT, SAMPLE_LIMIT};
use crate::smooth::{MAX_SAMPLE_RATE, SmoothingStyle, Smoother, lemma_step_preserves};

/// A control's legal value range: either a plain linear span or a skewed
/// span whose normalized UI position maps through a power law. Both carry
/// fixed-point bounds; the skew factor is display-side only and is stored
/// in thousandths (1000 stands for a factor of 1.0).
#[derive(Clone, Copy, PartialEq, Eq, Structural, Debug)]
pub enum ParamRange {
    LinearRange { min: i64, max: i64 },
    SkewedRange { min: i64, max: i64, factor_milli: i64 },
}

impl ParamRange {
    pub open spec fn min_value(self) -> i64 {
        match self {
            ParamRange::LinearRange { min, .. } => min,
            ParamRange::SkewedRange { min, .. } => min,
        }
    }

    pub open spec fn max_value(self) -> i64 {
        match self {
            ParamRange::LinearRange { max, .. } => max,
            ParamRange::SkewedRange { max, .. } => max,
        }
    }

    pub open spec fn wf(self) -> bool {
        &&& -SAMPLE_LIMIT <= self.min_value() <= self.max_value() <= SAMPLE_LIMIT
        &&& (self matches ParamRange::SkewedRange { factor_milli, .. } ==> factor_milli >= 1)
    }

    pub open spec fn contains(self, v: i64) -> bool {
        self.min_value() <= v <= self.max_value()
    }

    /// The nearest value within the range.
    pub open spec fn clamped_spec(self, v: i64) -> i64 {
        if v < self.min_value() {
            self.min_value()
        } else if v > self.max_value() {
            self.max_value()
        } else {
            v
        }
    }

    /// Clamp a requested value into the range.
    pub fn clamp_to(&self, v: i64) -> (r: i64)
        ensures
            r == self.clamped_spec(v),
    {
        let lo = match self {
            ParamRange::LinearRange { min, .. } => *min,
            ParamRange::SkewedRange { min, .. } => *min,
        };
        let hi = match self {
            ParamRange::LinearRange { max, .. } => *max,
            ParamRange::SkewedRange { max, .. } => *max,
        };
        if v < lo {
            lo
        } else if v > hi {
            hi
        } else {
            v
        }
    }
}

/// Static description of one host-facing control: its stable automation
/// identifier, human label, range, default, smoothing law and display
/// suffix. Value formatting for display lives with the UI shell, not here.
#[derive(Clone, Copy, Debug)]
pub struct ParamDescriptor {
    pub identifier: &'static str,
    pub display_name: &'static str,
    pub range: ParamRange,
    pub default_value: i64,
    pub smoothing: SmoothingStyle,
    pub unit_suffix: &'static str,
}

impl ParamDescriptor {
    pub open spec fn wf(self) -> bool {
        &&& self.range.wf()
        &&& self.range.contains(self.default_value)
        &&& self.smoothing.wf()
        &&& (self.smoothing matches SmoothingStyle::Logarithmic(_) ==> self.range.min_value() > 0)
    }
}

/// One runtime control: its descriptor together with the ramping state
/// that turns target changes into a per-sample stream of values.
#[derive(Clone, Copy, Debug)]
pub struct Param {
    pub desc: ParamDescriptor,
    pub smoother: Smoother,
}

impl Param {
    pub open spec fn wf(self) -> bool {
        &&& self.desc.wf()
        &&& self.smoother.wf()
        &&& self.smoother.style == self.desc.smoothing
        &&& self.desc.range.contains(self.smoother.current)
        &&& self.desc.range.contains(self.smoother.target)
    }

    /// A fresh control rests at its default value.
    pub fn new(desc: ParamDescriptor) -> (p: Param)
        requires
            desc.wf(),
        ensures
            p.wf(),
            p.desc == desc,
            p.smoother.current == desc.default_value,
            p.smoother.target == desc.default_value,
            p.smoother.steps_left == 0,
    {
        Param { desc, smoother: Smoother::new(desc.smoothing, desc.default_value) }
    }

    /// Accept a new value from automation or the UI: it is clamped into
    /// the legal range and becomes the target of a fresh ramp.
    pub fn set_value(&mut self, sample_rate: u32, v: i64)
        requires
            old(self).wf(),
            sample_rate <= MAX_SAMPLE_RATE,
        ensures
            final(self).wf(),
            final(self).desc == old(self).desc,
            final(self).smoother.target == old(self).desc.range.clamped_spec(v),
            final(self).smoother.steps_left == old(self).desc.smoothing.ramp_steps(sample_rate),
            final(self).smoother.current == if old(self).desc.smoothing.ramp_steps(sample_rate)
                == 0 {
                old(self).desc.range.clamped_spec(v)
            } else {
                old(self).smoother.current
            },
    {
        let clamped = self.desc.range.clamp_to(v);
        self.smoother.set_target(sample_rate, clamped);
    }

    /// Produce the control value for the next sample, advancing the ramp.
    pub fn next_value(&mut self) -> (v: i64)
        requires
            old(self).wf(),
        ensures
            final(self).wf(),
            final(self).desc == old(self).desc,
            final(self).smoother == old(self).smoother.step_spec(),
            v == final(self).smoother.current,
            old(self).desc.range.contains(v),
    {
        proof {
            lemma_step_preserves(self.smoother);
        }
        self.smoother.next()
    }
}

/// The distortion plugin's two controls, in their stable host-facing
/// order: the clipping threshold first, the wet/dry mix second.
#[derive(Clone, Copy, Debug)]
pub struct DistortionParams {
    pub threshold: Param,
    pub mix: Param,
}

impl DistortionParams {
    /// Besides per-control well-formedness, the threshold stays strictly
    /// positive and at most one unit, and the mix spans exactly zero to
    /// one unit, so every produced threshold value can clip and every
    /// produced mix value can blend.
    pub open spec fn wf(self) -> bool {
        &&& self.threshold.wf()
        &&& self.mix.wf()
        &&& 0 < self.threshold.desc.range.min_value()
        &&& self.threshold.desc.range.max_value() <= UNIT
        &&& self.mix.desc.range.min_value() == 0
        &&& self.mix.desc.range.max_value() == UNIT
    }
}

impl DistortionParams {
    /// The shipped controls, exactly as construction leaves them: a
    /// logarithmically smoothed threshold over a skewed strictly-positive
    /// range defaulting to half a unit, and an unsmoothed mix over the
    /// full zero-to-one range defaulting to dry.
    pub open spec fn is_shipped_defaults(self) -> bool {
        &&& self.threshold.desc.identifier@ == "threshold"@
        &&& self.threshold.desc.display_name@ == "Threshold"@
        &&& self.threshold.desc.range == (ParamRange::SkewedRange {
            min: 1_000i64,
            max: UNIT,
            factor_milli: 1_000i64,
        })
        &&& self.threshold.desc.default_value == 500_000
        &&& self.threshold.desc.smoothing == SmoothingStyle::Logarithmic(50)
        &&& self.threshold.desc.unit_suffix@ == " dB"@
        &&& self.threshold.smoother.current == 500_000
        &&& self.threshold.smoother.target == 500_000
        &&& self.threshold.smoother.steps_left == 0
        &&& self.mix.desc.identifier@ == "mix"@
        &&& self.mix.desc.display_name@ == "Mix"@
        &&& self.mix.desc.range == (ParamRange::SkewedRange {
            min: 0i64,
            max: UNIT,
            factor_milli: 1_000i64,
        })
        &&& self.mix.desc.default_value == 0
        &&& self.mix.desc.smoothing == SmoothingStyle::NoSmoothing
        &&& self.mix.desc.unit_suffix@ == ""@
        &&& self.mix.smoother.current == 0
        &&& self.mix.smoother.target == 0
        &&& self.mix.smoother.steps_left == 0
    }
}

impl Default for DistortionParams {
    fn default() -> (d: DistortionParams)
        ensures
            d.wf(),
            d.is_shipped_defaults(),
    {
        let threshold_desc = ParamDescriptor {
            identifier: "threshold",
            display_name: "Threshold",
            range: ParamRange::SkewedRange { min: 1_000, max: UNIT, factor_milli: 1_000 },
            default_value: 500_000,
            smoothing: SmoothingStyle::Logarithmic(50),
            unit_suffix: " dB",
        };
        let mix_desc = ParamDescriptor {
            identifier: "mix",
            display_name: "Mix",
            range: ParamRange::SkewedRange { min: 0, max: UNIT, factor_milli: 1_000 },
            default_value: 0,
            smoothing: SmoothingStyle::NoSmoothing,
            unit_suffix: "",
        };
        DistortionParams { threshold: Param::new(threshold_desc), mix: Param::new(mix_desc) }
    }
}

} // verus!
