//! A verified model of a real-time distortion effect: hard clipping with a
//! wet/dry mix, host-automatable smoothed parameters, and a decaying peak
//! meter for the UI. All audio values are fixed-point: an `i64` carries six
//! decimal places, so `fixed::UNIT` stands for 1.0.

use vstd::prelude::*;

pub mod distort;
pub mod fixed;
pub mod meter;
pub mod params;
pub mod smooth;

verus! {

use crate::distort::{process_sample, sample_out_spec};
use crate::fixed::{UNIT, SAMPLE_LIMIT, is_nth_root};
use crate::meter::{
    PEAK_FLOOR,
    block_amplitude,
    block_sample_count,
    decay_steps,
    decay_weight_for_rate,
    fold_peak,
    fold_spec,
    mean_abs_spec,
    samples_bounded,
};
use crate::params::{DistortionParams, ParamDescriptor};
use crate::smooth::MAX_SAMPLE_RATE;

/// Most channels a processing block may carry.
pub const MAX_CHANNELS: usize = 1024;

/// Most frames a processing block may carry.
pub const MAX_FRAMES: usize = 100_000_000;

/// Outcome of one block of processing. Per-block processing never fails in
/// this design: out-of-range input is bounded by the clip stage, not
/// rejected.
#[derive(Clone, Copy, PartialEq, Eq, Structural, Debug)]
pub enum ProcessStatus {
    Normal,
}

/// The two host-facing controls, named by their stable identifiers.
#[derive(Clone, Copy, PartialEq, Eq, Structural, Debug)]
pub enum ParamId {
    Threshold,
    Mix,
}

/// Number of frames in a block: the length of its first channel.
pub open spec fn buffer_frames(b: Seq<Vec<i64>>) -> int {
    if b.len() == 0 {
        0
    } else {
        b[0]@.len() as int
    }
}

/// A block is rectangular: every channel carries the same frame count.
pub open spec fn buffer_rect(b: Seq<Vec<i64>>) -> bool {
    forall|c: int| 0 <= c < b.len() ==> (#[trigger] b[c]@).len() == buffer_frames(b)
}

/// Every sample of the block is within the representable band.
pub open spec fn buffer_bounded(b: Seq<Vec<i64>>) -> bool {
    forall|c: int, i: int|
        0 <= c < b.len() && 0 <= i < b[c]@.len() ==> -SAMPLE_LIMIT <= #[trigger] b[c]@[i]
            <= SAMPLE_LIMIT
}

/// A rectangular block holds exactly channels-times-frames samples.
pub proof fn lemma_rect_count(b: Seq<Vec<i64>>)
    requires
        buffer_rect(b),
    ensures
        block_sample_count(b) == b.len() * buffer_frames(b),
    decreases b.len(),
{
    if b.len() == 0 {
        assert(b.len() * buffer_frames(b) == 0) by (nonlinear_arith)
            requires
                b.len() == 0,
        ;
    } else {
        let rest = b.drop_last();
        let f = buffer_frames(b);
        assert(b.last() == b[b.len() - 1]);
        assert((b[b.len() - 1]@).len() == f);
        if rest.len() > 0 {
            assert(rest[0] == b[0]);
            assert(buffer_frames(rest) == f);
        }
        assert forall|c: int| 0 <= c < rest.len() implies (#[trigger] rest[c]@).len()
            == buffer_frames(rest) by {
            assert(rest[c] == b[c]);
            assert((b[c]@).len() == f);
        }
        lemma_rect_count(rest);
        assert(block_sample_count(b) == block_sample_count(rest) + b.last()@.len());
        if rest.len() == 0 {
            assert(rest.len() * buffer_frames(rest) == 0) by (nonlinear_arith)
                requires
                    rest.len() == 0,
            ;
            assert(block_sample_count(b) == f);
            assert(1 * f == f) by (nonlinear_arith);
        } else {
            assert(rest.len() * buffer_frames(rest) == (b.len() - 1) * f) by (nonlinear_arith)
                requires
                    rest.len() == b.len() - 1,
                    buffer_frames(rest) == f,
            ;
            assert(block_sample_count(b) == (b.len() - 1) * f + f);
        }
        assert((b.len() - 1) * f + f == b.len() * f) by (nonlinear_arith);
    }
}

/// What accepting a control value does to one parameter: the value is
/// clamped into the legal range and becomes the target of a ramp over the
/// configured duration; a zero-length ramp jumps to the target at once.
pub open spec fn param_retargeted(
    before: crate::params::Param,
    after: crate::params::Param,
    sample_rate: u32,
    value: i64,
) -> bool {
    &&& after.smoother.target == before.desc.range.clamped_spec(value)
    &&& after.smoother.steps_left == before.desc.smoothing.ramp_steps(sample_rate)
    &&& after.smoother.current == if before.desc.smoothing.ramp_steps(sample_rate) == 0 {
        before.desc.range.clamped_spec(value)
    } else {
        before.smoother.current
    }
}

/// The distortion effect: its two smoothed controls, the sample rate the
/// host established, and the peak meter state shared with the UI. The
/// meter value itself lives here as a plain field; publishing it through
/// an atomic cell is the unverified shell's concern.
pub struct Distortion {
    pub params: DistortionParams,
    pub sample_rate: u32,
    pub peak_meter_decay_weight: i64,
    pub peak_meter: i64,
}

impl Distortion {
    pub open spec fn wf(self) -> bool {
        &&& self.params.wf()
        &&& 7 <= self.sample_rate <= MAX_SAMPLE_RATE
        &&& 0 <= self.peak_meter_decay_weight <= UNIT
        &&& PEAK_FLOOR <= self.peak_meter <= SAMPLE_LIMIT
    }

    /// The control block, for the host and the UI.
    pub fn params(&self) -> (p: &DistortionParams)
        ensures
            p == self.params,
    {
        &self.params
    }

    /// The host-visible controls in their stable automation order:
    /// threshold first, mix second. The order must never change once an
    /// identifier has been published.
    pub fn parameter_descriptors(&self) -> (r: Vec<ParamDescriptor>)
        ensures
            r@.len() == 2,
            r@[0] == self.params.threshold.desc,
            r@[1] == self.params.mix.desc,
    {
        let mut r: Vec<ParamDescriptor> = Vec::new();
        r.push(self.params.threshold.desc);
        r.push(self.params.mix.desc);
        r
    }

    /// The peak meter value for the UI to display.
    pub fn peak_meter_snapshot(&self) -> (p: i64)
        ensures
            p == self.peak_meter,
    {
        self.peak_meter
    }

    /// (Re)establish the sample rate and derive the meter's decay weight
    /// from it. Safe to call again whenever the rate changes; never
    /// called concurrently with processing.
    pub fn initialize(&mut self, sample_rate: u32) -> (ok: bool)
        requires
            old(self).wf(),
            7 <= sample_rate <= MAX_SAMPLE_RATE,
        ensures
            ok,
            final(self).wf(),
            final(self).sample_rate == sample_rate,
            is_nth_root(
                final(self).peak_meter_decay_weight as int,
                (UNIT / 4) as int,
                decay_steps(sample_rate) as nat,
            ),
            UNIT / 4 <= final(self).peak_meter_decay_weight < UNIT,
            final(self).params == old(self).params,
            final(self).peak_meter == old(self).peak_meter,
    {
        self.sample_rate = sample_rate;
        self.peak_meter_decay_weight = decay_weight_for_rate(sample_rate);
        true
    }

    /// Transport stops clear no state here on purpose: the only history
    /// the engine keeps is the smoothing ramps, and those deliberately
    /// keep moving toward their last target so a restart cannot cause an
    /// audible parameter jump.
    pub fn reset(&mut self)
        requires
            old(self).wf(),
        ensures
            *final(self) == *old(self),
    {
    }

    /// Accept a control change from automation or the UI. The value is
    /// clamped into the control's legal range and becomes the target of a
    /// fresh ramp at the current sample rate.
    pub fn set_parameter(&mut self, id: ParamId, value: i64)
        requires
            old(self).wf(),
        ensures
            final(self).wf(),
            final(self).sample_rate == old(self).sample_rate,
            final(self).peak_meter == old(self).peak_meter,
            final(self).peak_meter_decay_weight == old(self).peak_meter_decay_weight,
            id == ParamId::Threshold ==> final(self).params.mix == old(self).params.mix
                && final(self).params.threshold.desc == old(self).params.threshold.desc
                && param_retargeted(
                old(self).params.threshold,
                final(self).params.threshold,
                old(self).sample_rate,
                value,
            ),
            id == ParamId::Mix ==> final(self).params.threshold == old(self).params.threshold
                && final(self).params.mix.desc == old(self).params.mix.desc && param_retargeted(
                old(self).params.mix,
                final(self).params.mix,
                old(self).sample_rate,
                value,
            ),
    {
        match id {
            ParamId::Threshold => self.params.threshold.set_value(self.sample_rate, value),
            ParamId::Mix => self.params.mix.set_value(self.sample_rate, value),
        }
    }

    /// Process one block in place. Frame by frame, each control delivers
    /// its next smoothed value and every channel's sample runs through the
    /// clip-and-blend transfer function. Afterwards, only while the editor
    /// is open and the block is not empty, the block's mean absolute
    /// output amplitude is folded into the peak meter once.
    #[verifier::loop_isolation(false)]
    pub fn process(&mut self, buffer: &mut Vec<Vec<i64>>, editor_open: bool) -> (status:
        ProcessStatus)
        requires
            old(self).wf(),
            buffer_rect(old(buffer)@),
            buffer_bounded(old(buffer)@),
            old(buffer)@.len() <= MAX_CHANNELS,
            buffer_frames(old(buffer)@) <= MAX_FRAMES,
        ensures
            status == ProcessStatus::Normal,
            final(self).wf(),
            final(buffer)@.len() == old(buffer)@.len(),
            buffer_rect(final(buffer)@),
            buffer_frames(final(buffer)@) == buffer_frames(old(buffer)@),
            buffer_bounded(final(buffer)@),
            forall|c: int, i: int|
                0 <= c < old(buffer)@.len() && 0 <= i < buffer_frames(old(buffer)@)
                    ==> #[trigger] final(buffer)@[c]@[i] == sample_out_spec(
                    old(buffer)@[c]@[i] as int,
                    old(self).params.threshold.smoother.produced((i + 1) as nat),
                    old(self).params.mix.smoother.produced((i + 1) as nat),
                ),
            final(self).params.threshold.smoother == old(self).params.threshold.smoother.after_steps(
                buffer_frames(old(buffer)@) as nat,
            ),
            final(self).params.mix.smoother == old(self).params.mix.smoother.after_steps(
                buffer_frames(old(buffer)@) as nat,
            ),
            final(self).params.threshold.desc == old(self).params.threshold.desc,
            final(self).params.mix.desc == old(self).params.mix.desc,
            final(self).sample_rate == old(self).sample_rate,
            final(self).peak_meter_decay_weight == old(self).peak_meter_decay_weight,
            (editor_open && old(buffer)@.len() > 0 && buffer_frames(old(buffer)@) > 0)
                ==> final(self).peak_meter == fold_spec(
                old(self).peak_meter as int,
                mean_abs_spec(final(buffer)@),
                old(self).peak_meter_decay_weight as int,
            ),
            !(editor_open && old(buffer)@.len() > 0 && buffer_frames(old(buffer)@) > 0)
                ==> final(self).peak_meter == old(self).peak_meter,
    {
        let ghost th0 = self.params.threshold.smoother;
        let ghost mix0 = self.params.mix.smoother;
        let channels = buffer.len();
        let frames = if channels > 0 {
            buffer[0].len()
        } else {
            0
        };
        let mut i: usize = 0;
        while i < frames
            invariant
                i <= frames,
                buffer@.len() == channels,
                forall|c: int| 0 <= c < channels ==> (#[trigger] buffer@[c]@).len() == frames,
                self.params.wf(),
                self.params.threshold.smoother == th0.after_steps(i as nat),
                self.params.mix.smoother == mix0.after_steps(i as nat),
                self.params.threshold.desc == old(self).params.threshold.desc,
                self.params.mix.desc == old(self).params.mix.desc,
                self.sample_rate == old(self).sample_rate,
                self.peak_meter == old(self).peak_meter,
                self.peak_meter_decay_weight == old(self).peak_meter_decay_weight,
                forall|c: int, j: int|
                    0 <= c < channels && 0 <= j < i ==> #[trigger] buffer@[c]@[j]
                        == sample_out_spec(
                        old(buffer)@[c]@[j] as int,
                        th0.produced((j + 1) as nat),
                        mix0.produced((j + 1) as nat),
                    ),
                forall|c: int, j: int|
                    0 <= c < channels && i <= j < frames ==> #[trigger] buffer@[c]@[j] == old(
                        buffer,
                    )@[c]@[j],
                forall|c: int, j: int|
                    0 <= c < channels && 0 <= j < frames ==> -SAMPLE_LIMIT
                        <= #[trigger] buffer@[c]@[j] <= SAMPLE_LIMIT,
            decreases frames - i,
        {
            proof {
                crate::smooth::lemma_after_steps_snoc(th0, i as nat);
                crate::smooth::lemma_after_steps_snoc(mix0, i as nat);
            }
            let th = self.params.threshold.next_value();
            let mix = self.params.mix.next_value();
            let mut c: usize = 0;
            while c < channels
                invariant
                    c <= channels,
                    i < frames,
                    buffer@.len() == channels,
                    forall|cc: int| 0 <= cc < channels ==> (#[trigger] buffer@[cc]@).len()
                        == frames,
                    th == th0.produced((i + 1) as nat),
                    mix == mix0.produced((i + 1) as nat),
                    0 < th <= SAMPLE_LIMIT,
                    0 <= mix <= UNIT,
                    forall|cc: int, j: int|
                        0 <= cc < channels && 0 <= j < i ==> #[trigger] buffer@[cc]@[j]
                            == sample_out_spec(
                            old(buffer)@[cc]@[j] as int,
                            th0.produced((j + 1) as nat),
                            mix0.produced((j + 1) as nat),
                        ),
                    forall|cc: int|
                        0 <= cc < c ==> #[trigger] buffer@[cc]@[i as int] == sample_out_spec(
                            old(buffer)@[cc]@[i as int] as int,
                            th0.produced((i + 1) as nat),
                            mix0.produced((i + 1) as nat),
                        ),
                    forall|cc: int|
                        c <= cc < channels ==> #[trigger] buffer@[cc]@[i as int] == old(
                            buffer,
                        )@[cc]@[i as int],
                    forall|cc: int, j: int|
                        0 <= cc < channels && i < j < frames ==> #[trigger] buffer@[cc]@[j] == old(
                            buffer,
                        )@[cc]@[j],
                    forall|cc: int, j: int|
                        0 <= cc < channels && 0 <= j < frames ==> -SAMPLE_LIMIT
                            <= #[trigger] buffer@[cc]@[j] <= SAMPLE_LIMIT,
                decreases channels - c,
            {
                let x = buffer[c][i];
                let y = process_sample(x, th, mix);
                buffer[c][i] = y;
                c = c + 1;
            }
            i = i + 1;
        }
        if editor_open && channels > 0 && frames > 0 {
            proof {
                assert forall|c: int| 0 <= c < buffer@.len() implies samples_bounded(
                    #[trigger] buffer@[c]@,
                ) by {
                    assert forall|j: int| 0 <= j < buffer@[c]@.len() implies -SAMPLE_LIMIT
                        <= #[trigger] buffer@[c]@[j] <= SAMPLE_LIMIT by {}
                }
                lemma_rect_count(buffer@);
                assert(1 <= buffer@.len() * buffer_frames(buffer@) && buffer@.len()
                    * buffer_frames(buffer@) <= 1024 * 100_000_000) by (nonlinear_arith)
                    requires
                        1 <= buffer@.len() <= 1024,
                        1 <= buffer_frames(buffer@) <= 100_000_000,
                ;
            }
            let amp = block_amplitude(buffer);
            self.peak_meter = fold_peak(self.peak_meter, amp, self.peak_meter_decay_weight);
        }
        ProcessStatus::Normal
    }
}

impl Default for Distortion {
    /// A freshly created effect: controls at their defaults, a decay
    /// weight of one (no decay until a sample rate is established) and the
    /// meter at its negative-infinity-equivalent sentinel.
    fn default() -> (d: Distortion)
        ensures
            d.wf(),
            d.sample_rate == 44_100,
            d.peak_meter_decay_weight == UNIT,
            d.peak_meter == PEAK_FLOOR,
            d.params.is_shipped_defaults(),
    {
        Distortion {
            params: DistortionParams::default(),
            sample_rate: 44_100,
            peak_meter_decay_weight: UNIT,
            peak_meter: PEAK_FLOOR,
        }
    }
}

} // verus!
