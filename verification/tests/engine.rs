use distortion::distort::{blend, clamp_sample, process_sample};
use distortion::fixed::{nth_root, SAMPLE_LIMIT, UNIT};
use distortion::meter::{block_amplitude, fold_peak, PEAK_FLOOR};
use distortion::params::{DistortionParams, ParamRange};
use distortion::smooth::{Smoother, SmoothingStyle};
use distortion::{Distortion, ParamId, ProcessStatus};

fn settled(style: SmoothingStyle, value: i64) -> Smoother {
    Smoother {
        style,
        current: value,
        target: value,
        steps_left: 0,
        step: 0,
    }
}

fn one_channel(samples: &[i64]) -> Vec<Vec<i64>> {
    vec![samples.to_vec()]
}

#[test]
fn clamp_within_band_is_identity() {
    assert_eq!(clamp_sample(250_000, 300_000), 250_000);
    assert_eq!(clamp_sample(-300_000, 300_000), -300_000);
    assert_eq!(clamp_sample(0, 1_000), 0);
}

#[test]
fn clamp_pins_to_threshold() {
    assert_eq!(clamp_sample(1_000_000, 300_000), 300_000);
    assert_eq!(clamp_sample(-1_000_000, 300_000), -300_000);
    assert_eq!(clamp_sample(SAMPLE_LIMIT, 1), 1);
}

#[test]
fn blend_zero_mix_is_dry() {
    assert_eq!(blend(123_456, 999, 0), 123_456);
    assert_eq!(blend(-123_456, 999, 0), -123_456);
}

#[test]
fn blend_full_mix_is_wet() {
    assert_eq!(blend(123_456, 999, UNIT), 999);
    assert_eq!(blend(123_456, -999, UNIT), -999);
}

#[test]
fn blend_half_mix_is_average() {
    // 0.5 * 1.0 + 0.5 * 0.3 == 0.65
    assert_eq!(blend(1_000_000, 300_000, 500_000), 650_000);
}

#[test]
fn process_sample_full_mix_clips() {
    assert_eq!(process_sample(1_000_000, 300_000, UNIT), 300_000);
    assert_eq!(process_sample(-1_000_000, 300_000, UNIT), -300_000);
    assert_eq!(process_sample(200_000, 300_000, UNIT), 200_000);
}

#[test]
fn linear_ramp_steps_and_settles() {
    let mut s = settled(SmoothingStyle::Linear(10), 0);
    // 10 ms at 1000 Hz: a ten-sample ramp with increment 10.
    s.set_target(1_000, 100);
    assert_eq!(s.steps_left, 10);
    assert_eq!(s.step, 10);
    let mut produced = Vec::new();
    for _ in 0..10 {
        produced.push(s.next());
    }
    assert_eq!(produced, vec![10, 20, 30, 40, 50, 60, 70, 80, 90, 100]);
    // Beyond the configured count the smoother is idempotent.
    assert_eq!(s.next(), 100);
    assert_eq!(s.next(), 100);
    assert_eq!(s.current, 100);
}

#[test]
fn linear_ramp_downward() {
    let mut s = settled(SmoothingStyle::Linear(4), 100);
    s.set_target(1_000, 60);
    assert_eq!(s.steps_left, 4);
    assert_eq!(s.step, -10);
    assert_eq!(s.next(), 90);
    assert_eq!(s.next(), 80);
    assert_eq!(s.next(), 70);
    assert_eq!(s.next(), 60);
    assert_eq!(s.next(), 60);
}

#[test]
fn no_smoothing_jumps_instantly() {
    let mut s = settled(SmoothingStyle::NoSmoothing, 42);
    s.set_target(44_100, 7_777);
    assert_eq!(s.steps_left, 0);
    assert_eq!(s.next(), 7_777);
}

#[test]
fn logarithmic_ramp_is_monotone_with_constant_ratio() {
    let mut s = settled(SmoothingStyle::Logarithmic(10), 100_000);
    // 10 ms at 1000 Hz: ten multiplicative steps from 0.1 to 1.0.
    s.set_target(1_000, 1_000_000);
    assert_eq!(s.steps_left, 10);
    let ratio = s.step;
    assert!(ratio > UNIT);
    let mut prev = s.current;
    for k in 0..10 {
        let v = s.next();
        // Monotone between start and target.
        assert!(v >= prev, "step {k} fell from {prev} to {v}");
        assert!(v <= 1_000_000);
        if k < 9 {
            // Un-settled steps apply the one per-ramp ratio exactly.
            let expected = ((prev as i128 * ratio as i128) / UNIT as i128) as i64;
            let expected = expected.min(1_000_000);
            assert_eq!(v, expected, "step {k}");
        } else {
            // The final step lands exactly on the target.
            assert_eq!(v, 1_000_000);
        }
        prev = v;
    }
    assert_eq!(s.next(), 1_000_000);
}

#[test]
fn logarithmic_ramp_downward_is_monotone() {
    let mut s = settled(SmoothingStyle::Logarithmic(10), 1_000_000);
    s.set_target(1_000, 100_000);
    assert_eq!(s.steps_left, 10);
    assert!(s.step < UNIT);
    let mut prev = s.current;
    for _ in 0..10 {
        let v = s.next();
        assert!(v <= prev);
        assert!(v >= 100_000);
        prev = v;
    }
    assert_eq!(prev, 100_000);
    assert_eq!(s.next(), 100_000);
}

#[test]
fn nth_root_of_first_power_is_the_value() {
    // With one step the truncated power is the ratio itself.
    assert_eq!(nth_root(250_000, 1), 250_000);
}

#[test]
fn nth_root_square() {
    // (2.0)^2 == 4.0 exactly in fixed point.
    assert_eq!(nth_root(4_000_000, 2), 2_000_000);
}

#[test]
fn decay_weight_matches_quarter_power_formula() {
    let mut d = Distortion::default();
    assert!(d.initialize(44_100));
    // 44100 Hz for 150 ms is 6615 samples.
    let expected = 0.25f64.powf(1.0 / (44_100.0f64 * 0.150));
    let got = d.peak_meter_decay_weight as f64 / UNIT as f64;
    assert!(
        (got - expected).abs() < 1e-5,
        "weight {got} differs from {expected}"
    );
}

#[test]
fn initialize_recomputes_decay_weight() {
    let mut d = Distortion::default();
    assert!(d.initialize(44_100));
    let w44 = d.peak_meter_decay_weight;
    assert!(d.initialize(96_000));
    let w96 = d.peak_meter_decay_weight;
    // A longer window decays less per sample.
    assert!(w96 > w44);
    assert!(w44 > 0 && w44 < UNIT);
}

#[test]
fn peak_meter_jumps_to_louder_block() {
    let p = 200_000;
    let w = 999_790;
    assert_eq!(fold_peak(p, 500_000, w), 500_000);
    // Any amplitude replaces the sentinel.
    assert_eq!(fold_peak(PEAK_FLOOR, 0, w), 0);
}

#[test]
fn peak_meter_decays_on_silence() {
    let p = 500_000;
    let w = 999_790;
    let expected = ((p as i128 * w as i128) / UNIT as i128) as i64;
    assert_eq!(fold_peak(p, 0, w), expected);
}

#[test]
fn block_amplitude_is_mean_of_magnitudes() {
    let buf = vec![vec![300_000, -300_000], vec![100_000, -500_000]];
    assert_eq!(block_amplitude(&buf), 300_000);
}

#[test]
fn process_clips_fully_wet_settled() {
    let mut d = Distortion::default();
    assert!(d.initialize(44_100));
    d.params.threshold.smoother = settled(SmoothingStyle::Logarithmic(50), 300_000);
    d.set_parameter(ParamId::Mix, UNIT);
    let mut buf = one_channel(&[1_000_000, -1_000_000, 500_000]);
    let status = d.process(&mut buf, false);
    assert_eq!(status, ProcessStatus::Normal);
    assert_eq!(buf[0], vec![300_000, -300_000, 300_000]);
}

#[test]
fn process_dry_mix_passes_input_through() {
    let mut d = Distortion::default();
    assert!(d.initialize(44_100));
    d.params.threshold.smoother = settled(SmoothingStyle::Logarithmic(50), 300_000);
    // The default mix is zero: a pure bypass.
    let mut buf = one_channel(&[1_000_000, -1_000_000, 500_000]);
    d.process(&mut buf, false);
    assert_eq!(buf[0], vec![1_000_000, -1_000_000, 500_000]);
}

#[test]
fn process_half_mix_blends() {
    let mut d = Distortion::default();
    assert!(d.initialize(44_100));
    d.params.threshold.smoother = settled(SmoothingStyle::Logarithmic(50), 300_000);
    d.set_parameter(ParamId::Mix, 500_000);
    let mut buf = one_channel(&[1_000_000]);
    d.process(&mut buf, false);
    // 0.5 * 1.0 + 0.5 * 0.3 == 0.65
    assert_eq!(buf[0], vec![650_000]);
}

#[test]
fn process_updates_meter_only_while_editor_open() {
    let mut d = Distortion::default();
    assert!(d.initialize(44_100));
    d.params.threshold.smoother = settled(SmoothingStyle::Logarithmic(50), UNIT);
    let before = d.peak_meter_snapshot();
    let mut buf = one_channel(&[500_000, 500_000]);
    d.process(&mut buf, false);
    assert_eq!(d.peak_meter_snapshot(), before);
    let mut buf = one_channel(&[500_000, 500_000]);
    d.process(&mut buf, true);
    // A constant block louder than the sentinel lifts the peak to its
    // amplitude exactly.
    assert_eq!(d.peak_meter_snapshot(), 500_000);
    // A silent block decays the peak by exactly the decay weight.
    let w = d.peak_meter_decay_weight;
    let expected = ((500_000i128 * w as i128) / UNIT as i128) as i64;
    let mut buf = one_channel(&[0, 0]);
    d.process(&mut buf, true);
    assert_eq!(d.peak_meter_snapshot(), expected);
}

#[test]
fn process_smooths_threshold_over_the_block() {
    let mut d = Distortion::default();
    assert!(d.initialize(1_000));
    d.params.threshold.smoother = settled(SmoothingStyle::Logarithmic(50), 100_000);
    d.set_parameter(ParamId::Mix, UNIT);
    // 50 ms at 1000 Hz: a fifty-step ramp toward full scale.
    d.set_parameter(ParamId::Threshold, 1_000_000);
    assert_eq!(d.params.threshold.smoother.steps_left, 50);
    let samples = vec![SAMPLE_LIMIT; 60];
    let mut buf = one_channel(&samples);
    d.process(&mut buf, false);
    // Clipped output follows the rising threshold, monotone, and settles.
    for k in 1..60 {
        assert!(buf[0][k] >= buf[0][k - 1]);
    }
    assert_eq!(buf[0][49], 1_000_000);
    assert_eq!(buf[0][59], 1_000_000);
    assert_eq!(d.params.threshold.smoother.steps_left, 0);
    assert_eq!(d.params.threshold.smoother.current, 1_000_000);
}

#[test]
fn process_empty_and_multichannel_blocks() {
    let mut d = Distortion::default();
    assert!(d.initialize(44_100));
    let mut empty: Vec<Vec<i64>> = Vec::new();
    assert_eq!(d.process(&mut empty, true), ProcessStatus::Normal);
    d.params.threshold.smoother = settled(SmoothingStyle::Logarithmic(50), 300_000);
    d.set_parameter(ParamId::Mix, UNIT);
    let mut buf = vec![vec![1_000_000, 0], vec![-1_000_000, 200_000]];
    d.process(&mut buf, false);
    assert_eq!(buf[0], vec![300_000, 0]);
    assert_eq!(buf[1], vec![-300_000, 200_000]);
}

#[test]
fn set_parameter_clamps_into_range() {
    let mut d = Distortion::default();
    assert!(d.initialize(44_100));
    d.set_parameter(ParamId::Threshold, -5);
    assert_eq!(d.params.threshold.smoother.target, 1_000);
    d.set_parameter(ParamId::Threshold, 2_000_000);
    assert_eq!(d.params.threshold.smoother.target, 1_000_000);
    d.set_parameter(ParamId::Mix, 2_000_000);
    assert_eq!(d.params.mix.smoother.target, 1_000_000);
    d.set_parameter(ParamId::Mix, -1);
    assert_eq!(d.params.mix.smoother.target, 0);
}

#[test]
fn descriptors_are_stable_and_ordered() {
    let d = Distortion::default();
    let descs = d.parameter_descriptors();
    assert_eq!(descs.len(), 2);
    assert_eq!(descs[0].identifier, "threshold");
    assert_eq!(descs[0].display_name, "Threshold");
    assert_eq!(descs[0].default_value, 500_000);
    assert_eq!(descs[0].unit_suffix, " dB");
    assert!(matches!(
        descs[0].smoothing,
        SmoothingStyle::Logarithmic(50)
    ));
    assert!(matches!(
        descs[0].range,
        ParamRange::SkewedRange {
            min: 1_000,
            max: 1_000_000,
            factor_milli: 1_000
        }
    ));
    assert_eq!(descs[1].identifier, "mix");
    assert_eq!(descs[1].display_name, "Mix");
    assert_eq!(descs[1].default_value, 0);
    assert!(matches!(descs[1].smoothing, SmoothingStyle::NoSmoothing));
}

#[test]
fn default_params_invariants() {
    let p = DistortionParams::default();
    assert_eq!(p.threshold.smoother.current, 500_000);
    assert_eq!(p.threshold.smoother.target, 500_000);
    assert_eq!(p.threshold.smoother.steps_left, 0);
    assert_eq!(p.mix.smoother.current, 0);
}

#[test]
fn default_engine_state() {
    let d = Distortion::default();
    assert_eq!(d.sample_rate, 44_100);
    assert_eq!(d.peak_meter_decay_weight, UNIT);
    assert_eq!(d.peak_meter_snapshot(), PEAK_FLOOR);
}

#[test]
fn reset_keeps_ramps_running() {
    let mut d = Distortion::default();
    assert!(d.initialize(44_100));
    d.set_parameter(ParamId::Threshold, 800_000);
    let before = d.params.threshold.smoother.steps_left;
    assert!(before > 0);
    d.reset();
    assert_eq!(d.params.threshold.smoother.steps_left, before);
    assert_eq!(d.params.threshold.smoother.target, 800_000);
}
